//! A flat file system: one root directory whose entries name regular
//! files, with hard links counted per file.
//!
//! Inode 0 is the root directory.  Every other inode is a regular file.
//! An inode in use has its bit set in the inode bitmap, and its link count
//! equals the number of root entries that name it.  Freeing an inode only
//! clears its bit: its content stays where it was until the number is
//! handed out again.
use vstd::prelude::*;

verus! {

/// Bytes one directory entry takes on disk.
pub const DIRENT_SZ: usize = 32;

/// The inode number of the root directory.
pub const ROOT_INODE_ID: u32 = 0;

/// Whether an inode is a regular file or a directory.
#[derive(Clone, Copy, PartialEq, Eq, Debug, Structural)]
pub enum DiskInodeType {
    File,
    Directory,
}

/// One name in a directory.
pub struct DirEntry {
    pub name: String,
    pub inode_id: u32,
}

impl DirEntry {
    /// An entry naming inode `inode_id` as `name`.
    pub fn new(name: &str, inode_id: u32) -> (e: DirEntry)
        ensures
            e.name@ == name@,
            e.inode_id == inode_id,
    {
        DirEntry { name: name.to_owned(), inode_id }
    }
}

/// The content of one inode.
pub struct DiskInode {
    pub type_: DiskInodeType,
    /// The number of directory entries that name this inode.
    pub nlink: u32,
    /// The bytes of a regular file.
    pub data: Vec<u8>,
    /// The entries of a directory.
    pub entries: Vec<DirEntry>,
}

impl DiskInode {
    /// An empty inode of type `type_` with one link.
    pub fn initialize(type_: DiskInodeType) -> (d: DiskInode)
        ensures
            d.type_ == type_,
            d.nlink == 1,
            d.data@.len() == 0,
            d.entries@.len() == 0,
    {
        DiskInode { type_, nlink: 1, data: Vec::new(), entries: Vec::new() }
    }

    pub fn is_dir(&self) -> (b: bool)
        ensures
            b == (self.type_ == DiskInodeType::Directory),
    {
        match self.type_ {
            DiskInodeType::Directory => true,
            DiskInodeType::File => false,
        }
    }

    pub fn is_file(&self) -> (b: bool)
        ensures
            b == (self.type_ == DiskInodeType::File),
    {
        match self.type_ {
            DiskInodeType::Directory => false,
            DiskInodeType::File => true,
        }
    }
}

/// The number of entries of `entries` that name inode `id`.
pub open spec fn link_count(entries: Seq<DirEntry>, id: int) -> nat
    decreases entries.len(),
{
    if entries.len() == 0 {
        0
    } else {
        link_count(entries.drop_last(), id) + if entries.last().inode_id == id {
            1nat
        } else {
            0nat
        }
    }
}

/// No two entries carry the same name.
pub open spec fn names_unique(entries: Seq<DirEntry>) -> bool {
    forall|j: int, k: int|
        0 <= j < entries.len() && 0 <= k < entries.len() && j != k ==> (#[trigger] entries[j]).name@
            != (#[trigger] entries[k]).name@
}

/// Some entry carries `name`.
pub open spec fn has_entry(entries: Seq<DirEntry>, name: Seq<char>) -> bool {
    exists|k: int| 0 <= k < entries.len() && (#[trigger] entries[k]).name@ == name
}

/// Entry `k` is the first one that carries `name`.
pub open spec fn is_first_match(entries: Seq<DirEntry>, name: Seq<char>, k: int) -> bool {
    &&& 0 <= k < entries.len()
    &&& entries[k].name@ == name
    &&& forall|j: int| 0 <= j < k ==> (#[trigger] entries[j]).name@ != name
}

/// The position of the first entry that carries `name`, if any.
pub open spec fn first_match(entries: Seq<DirEntry>, name: Seq<char>) -> Option<int> {
    if exists|k: int| is_first_match(entries, name, k) {
        Some(choose|k: int| is_first_match(entries, name, k))
    } else {
        None
    }
}

/// `entries` with entry `idx` replaced by the last entry, and the last
/// slot dropped.
pub open spec fn swap_remove(entries: Seq<DirEntry>, idx: int) -> Seq<DirEntry> {
    entries.update(idx, entries.last()).drop_last()
}

/// `data` after writing `buf` at `offset`, grown with zero bytes where the
/// write reaches past its end.
pub open spec fn written(data: Seq<u8>, offset: int, buf: Seq<u8>) -> Seq<u8> {
    let end = offset + buf.len();
    let len = if end > data.len() {
        end
    } else {
        data.len() as int
    };
    Seq::new(
        len as nat,
        |i: int|
            if offset <= i < end {
                buf[i - offset]
            } else if i < data.len() {
                data[i]
            } else {
                0u8
            },
    )
}

/// The bytes a read of `len` bytes at `offset` returns from `data`.
pub open spec fn read_result(data: Seq<u8>, offset: int, len: int) -> Seq<u8> {
    if offset >= data.len() {
        Seq::empty()
    } else if offset + len <= data.len() {
        data.subrange(offset, offset + len)
    } else {
        data.subrange(offset, data.len() as int)
    }
}

pub proof fn lemma_first_match(entries: Seq<DirEntry>, name: Seq<char>, k: int)
    requires
        is_first_match(entries, name, k),
    ensures
        first_match(entries, name) == Some(k),
{
    let c = choose|c: int| is_first_match(entries, name, c);
    if c < k {
        assert(entries[c].name@ != name);
    } else if c > k {
        assert(entries[k].name@ != name);
    }
}

proof fn lemma_has_first_match(entries: Seq<DirEntry>, name: Seq<char>, k0: int) -> (k: int)
    requires
        0 <= k0 < entries.len(),
        entries[k0].name@ == name,
    ensures
        is_first_match(entries, name, k),
        first_match(entries, name) == Some(k),
    decreases k0,
{
    if exists|j: int| 0 <= j < k0 && (#[trigger] entries[j]).name@ == name {
        let j = choose|j: int| 0 <= j < k0 && (#[trigger] entries[j]).name@ == name;
        lemma_has_first_match(entries, name, j)
    } else {
        lemma_first_match(entries, name, k0);
        k0
    }
}

/// A name that some entry carries has a first match.
pub proof fn lemma_has_entry_first_match(entries: Seq<DirEntry>, name: Seq<char>)
    requires
        has_entry(entries, name),
    ensures
        first_match(entries, name) is Some,
        is_first_match(entries, name, first_match(entries, name)->0),
{
    let k0 = choose|k: int| 0 <= k < entries.len() && (#[trigger] entries[k]).name@ == name;
    lemma_has_first_match(entries, name, k0);
}

/// With unique names, the entry carrying a name is its first match.
pub proof fn lemma_unique_match(entries: Seq<DirEntry>, name: Seq<char>, k: int)
    requires
        names_unique(entries),
        0 <= k < entries.len(),
        entries[k].name@ == name,
    ensures
        first_match(entries, name) == Some(k),
{
    assert forall|j: int| 0 <= j < k implies (#[trigger] entries[j]).name@ != name by {
        assert(entries[j].name@ != entries[k].name@);
    }
    lemma_first_match(entries, name, k);
}

/// A name that no entry carries has no first match.
pub proof fn lemma_no_entry(entries: Seq<DirEntry>, name: Seq<char>)
    requires
        !has_entry(entries, name),
    ensures
        first_match(entries, name) is None,
{
}

proof fn lemma_link_count_push(entries: Seq<DirEntry>, e: DirEntry, id: int)
    ensures
        link_count(entries.push(e), id) == link_count(entries, id) + if e.inode_id == id {
            1nat
        } else {
            0nat
        },
{
    assert(entries.push(e).drop_last() =~= entries);
}

proof fn lemma_link_count_zero(entries: Seq<DirEntry>, id: int)
    requires
        forall|k: int| 0 <= k < entries.len() ==> (#[trigger] entries[k]).inode_id != id,
    ensures
        link_count(entries, id) == 0,
    decreases entries.len(),
{
    if entries.len() > 0 {
        let d = entries.drop_last();
        assert forall|k: int| 0 <= k < d.len() implies (#[trigger] d[k]).inode_id != id by {
            assert(d[k] == entries[k]);
        }
        lemma_link_count_zero(d, id);
        assert(entries[entries.len() - 1].inode_id != id);
    }
}

proof fn lemma_link_count_update(entries: Seq<DirEntry>, idx: int, e: DirEntry, id: int)
    requires
        0 <= idx < entries.len(),
    ensures
        link_count(entries.update(idx, e), id) + (if entries[idx].inode_id == id {
            1int
        } else {
            0int
        }) == link_count(entries, id) + (if e.inode_id == id {
            1int
        } else {
            0int
        }),
    decreases entries.len(),
{
    let u = entries.update(idx, e);
    if idx == entries.len() - 1 {
        assert(u.drop_last() =~= entries.drop_last());
    } else {
        lemma_link_count_update(entries.drop_last(), idx, e, id);
        assert(u.drop_last() =~= entries.drop_last().update(idx, e));
    }
}

proof fn lemma_link_count_swap_remove(entries: Seq<DirEntry>, idx: int, id: int)
    requires
        0 <= idx < entries.len(),
    ensures
        link_count(swap_remove(entries, idx), id) + (if entries[idx].inode_id == id {
            1int
        } else {
            0int
        }) == link_count(entries, id),
{
    let last = entries.last();
    let u = entries.update(idx, last);
    lemma_link_count_update(entries, idx, last, id);
    assert(u.last() == last);
}

pub proof fn lemma_swap_remove_unique(entries: Seq<DirEntry>, idx: int)
    requires
        0 <= idx < entries.len(),
        names_unique(entries),
    ensures
        names_unique(swap_remove(entries, idx)),
        !has_entry(swap_remove(entries, idx), entries[idx].name@),
        forall|k: int|
            0 <= k < swap_remove(entries, idx).len() ==> #[trigger] swap_remove(entries, idx)[k]
                == entries[if k == idx {
                entries.len() - 1
            } else {
                k
            }],
{
    let s = swap_remove(entries, idx);
    let n = entries.len() - 1;
    assert forall|j: int, k: int| 0 <= j < s.len() && 0 <= k < s.len() && j != k implies (
    #[trigger] s[j]).name@ != (#[trigger] s[k]).name@ by {
        let jj = if j == idx {
            n
        } else {
            j
        };
        let kk = if k == idx {
            n
        } else {
            k
        };
        assert(s[j] == entries[jj]);
        assert(s[k] == entries[kk]);
    }
    assert forall|k: int| 0 <= k < s.len() implies (#[trigger] s[k]).name@ != entries[idx].name@ by {
        let kk = if k == idx {
            n
        } else {
            k
        };
        assert(s[k] == entries[kk]);
    }
}

/// The inodes of the file system; an inode's number is its position.
pub struct EasyFileSystem {
    /// The inode area: `None` marks a slot that was never written.
    pub inodes: Vec<Option<DiskInode>>,
    /// Which inode numbers are in use.
    pub inode_bitmap: Vec<bool>,
}

impl EasyFileSystem {
    /// Inode `id` holds content (in use or freed).
    pub open spec fn valid(&self, id: int) -> bool {
        0 <= id < self.inodes@.len() && self.inodes@[id] is Some
    }

    /// Inode number `id` is in use.
    pub open spec fn allocated(&self, id: int) -> bool {
        0 <= id < self.inode_bitmap@.len() && self.inode_bitmap@[id]
    }

    /// The content of inode `id`.
    pub open spec fn disk_inode(&self, id: int) -> DiskInode {
        self.inodes@[id]->0
    }

    /// The entries of the root directory.
    pub open spec fn root_entries(&self) -> Seq<DirEntry> {
        self.disk_inode(0).entries@
    }

    /// The file system's invariant.
    pub open spec fn wf(&self) -> bool {
        let inodes = self.inodes@;
        let root = self.root_entries();
        &&& inodes.len() <= u32::MAX
        &&& self.inode_bitmap@.len() == inodes.len()
        &&& self.allocated(0)
        &&& self.valid(0)
        &&& self.disk_inode(0).type_ == DiskInodeType::Directory
        &&& forall|id: int|
            0 < id < inodes.len() && (#[trigger] inodes[id]) is Some ==> inodes[id]->0.type_
                == DiskInodeType::File && inodes[id]->0.entries@.len() == 0
        &&& forall|id: int|
            0 < id < inodes.len() && #[trigger] self.inode_bitmap@[id] ==> inodes[id] is Some
                && inodes[id]->0.nlink == link_count(root, id)
        &&& forall|k: int|
            0 <= k < root.len() ==> 0 < (#[trigger] root[k]).inode_id < inodes.len()
                && self.inode_bitmap@[root[k].inode_id as int]
        &&& names_unique(root)
        &&& root.len() * DIRENT_SZ <= u32::MAX
    }

    /// A file system holding only an empty root directory.
    pub fn new() -> (fs: EasyFileSystem)
        ensures
            fs.wf(),
            fs.inodes@.len() == 1,
            fs.root_entries().len() == 0,
    {
        let mut inodes: Vec<Option<DiskInode>> = Vec::new();
        inodes.push(Some(DiskInode::initialize(DiskInodeType::Directory)));
        let mut inode_bitmap: Vec<bool> = Vec::new();
        inode_bitmap.push(true);
        EasyFileSystem { inodes, inode_bitmap }
    }

    /// The root directory.
    pub fn root_inode(&self) -> (root: Inode)
        ensures
            root.inode_id == ROOT_INODE_ID,
    {
        Inode::new(ROOT_INODE_ID)
    }

    /// Takes a free inode number and marks it in use: the lowest free one
    /// above the root, or a new one past the end, for which an empty slot
    /// is appended.
    pub fn alloc_inode(&mut self) -> (id: u32)
        requires
            old(self).inode_bitmap@.len() == old(self).inodes@.len(),
            1 <= old(self).inodes@.len() < u32::MAX,
        ensures
            0 < id <= old(self).inodes@.len(),
            forall|j: int| 0 < j < id ==> #[trigger] old(self).inode_bitmap@[j],
            id < old(self).inodes@.len() ==> !old(self).inode_bitmap@[id as int]
                && final(self).inodes@ == old(self).inodes@
                && final(self).inode_bitmap@ == old(self).inode_bitmap@.update(id as int, true),
            id == old(self).inodes@.len() ==> final(self).inodes@ == old(self).inodes@.push(None)
                && final(self).inode_bitmap@ == old(self).inode_bitmap@.push(true),
    {
        let mut i: usize = 1;
        while i < self.inode_bitmap.len()
            invariant
                1 <= i,
                i <= self.inode_bitmap@.len() || self.inode_bitmap@.len() == 0,
                self.inode_bitmap@.len() == self.inodes@.len(),
                self.inodes@.len() < u32::MAX,
                self.inodes@ == old(self).inodes@,
                self.inode_bitmap@ == old(self).inode_bitmap@,
                forall|j: int| 0 < j < i ==> #[trigger] self.inode_bitmap@[j],
            decreases self.inode_bitmap@.len() - i,
        {
            if !self.inode_bitmap[i] {
                self.inode_bitmap.set(i, true);
                return i as u32;
            }
            i = i + 1;
        }
        self.inodes.push(None);
        self.inode_bitmap.push(true);
        (self.inodes.len() - 1) as u32
    }

    /// Whether inode number `id` is in use.
    pub fn is_allocated(&self, id: u32) -> (b: bool)
        ensures
            b == self.allocated(id as int),
    {
        (id as usize) < self.inode_bitmap.len() && self.inode_bitmap[id as usize]
    }

    /// Whether inode `id` holds content, in use or freed.
    pub fn has_inode(&self, id: u32) -> (b: bool)
        ensures
            b == self.valid(id as int),
    {
        (id as usize) < self.inodes.len() && self.inodes[id as usize].is_some()
    }

    /// Marks inode number `id` free; its content stays.
    pub fn dealloc_inode(&mut self, id: u32)
        requires
            id < old(self).inode_bitmap@.len(),
        ensures
            final(self).inodes@ == old(self).inodes@,
            final(self).inode_bitmap@ == old(self).inode_bitmap@.update(id as int, false),
    {
        self.inode_bitmap.set(id as usize, false);
    }

    /// Takes the content of inode `id` out, leaving it free.
    fn take(&mut self, id: usize) -> (d: DiskInode)
        requires
            old(self).valid(id as int),
        ensures
            d == old(self).disk_inode(id as int),
            final(self).inodes@ == old(self).inodes@.update(id as int, None),
            final(self).inode_bitmap@ == old(self).inode_bitmap@,
    {
        let mut slot: Option<DiskInode> = None;
        std::mem::swap(&mut self.inodes[id], &mut slot);
        slot.unwrap()
    }

    /// Stores `d` as the content of inode `id`.
    fn put(&mut self, id: usize, d: DiskInode)
        requires
            id < old(self).inodes@.len(),
        ensures
            final(self).inodes@ == old(self).inodes@.update(id as int, Some(d)),
            final(self).inode_bitmap@ == old(self).inode_bitmap@,
    {
        self.inodes[id] = Some(d);
    }
}

/// A handle on one inode of the file system.
#[derive(Clone, Copy, PartialEq, Eq, Debug, Structural)]
pub struct Inode {
    pub inode_id: u32,
}

impl Inode {
    /// A handle on inode `inode_id`.
    pub fn new(inode_id: u32) -> (inode: Inode)
        ensures
            inode.inode_id == inode_id,
    {
        Inode { inode_id }
    }

    /// The inode is an allocated directory of `fs`.
    pub open spec fn is_dir_in(&self, fs: &EasyFileSystem) -> bool {
        fs.valid(self.inode_id as int) && fs.disk_inode(self.inode_id as int).type_
            == DiskInodeType::Directory
    }

    /// The entries of this directory.
    pub open spec fn entries_in(&self, fs: &EasyFileSystem) -> Seq<DirEntry> {
        fs.disk_inode(self.inode_id as int).entries@
    }

    /// The first entry of this directory named `name`: its position and inode.
    fn find_inode_id(&self, fs: &EasyFileSystem, name: &str) -> (r: Option<(usize, u32)>)
        requires
            self.is_dir_in(fs),
        ensures
            match r {
                Some((idx, id)) => {
                    &&& is_first_match(self.entries_in(fs), name@, idx as int)
                    &&& first_match(self.entries_in(fs), name@) == Some(idx as int)
                    &&& id == self.entries_in(fs)[idx as int].inode_id
                },
                None => !has_entry(self.entries_in(fs), name@) && first_match(
                    self.entries_in(fs),
                    name@,
                ) is None,
            },
    {
        let key = name.to_owned();
        let disk_inode = fs.inodes[self.inode_id as usize].as_ref().unwrap();
        let ghost entries = disk_inode.entries@;
        assert(entries == self.entries_in(fs));
        let file_count = disk_inode.entries.len();
        let mut i: usize = 0;
        while i < file_count
            invariant
                file_count == entries.len(),
                entries == disk_inode.entries@,
                entries == self.entries_in(fs),
                key@ == name@,
                i <= file_count,
                forall|j: int| 0 <= j < i ==> (#[trigger] entries[j]).name@ != name@,
            decreases file_count - i,
        {
            if disk_inode.entries[i].name == key {
                proof {
                    lemma_first_match(entries, name@, i as int);
                }
                return Some((i, disk_inode.entries[i].inode_id));
            }
            i = i + 1;
        }
        proof {
            lemma_no_entry(entries, name@);
        }
        None
    }

    /// The inode that this directory names `name`, if any.
    pub fn find(&self, fs: &EasyFileSystem, name: &str) -> (r: Option<Inode>)
        requires
            self.is_dir_in(fs),
        ensures
            r == match first_match(self.entries_in(fs), name@) {
                Some(k) => Some(Inode { inode_id: self.entries_in(fs)[k].inode_id }),
                None => None::<Inode>,
            },
    {
        match self.find_inode_id(fs, name) {
            Some((_idx, inode_id)) => Some(Inode::new(inode_id)),
            None => None,
        }
    }

    /// The position in this directory of the entry named `name`, and the
    /// inode it names, if any.
    pub fn find_and_get_idx(&self, fs: &EasyFileSystem, name: &str) -> (r: Option<(usize, Inode)>)
        requires
            self.is_dir_in(fs),
        ensures
            r == match first_match(self.entries_in(fs), name@) {
                Some(k) => Some((k as usize, Inode { inode_id: self.entries_in(fs)[k].inode_id })),
                None => None::<(usize, Inode)>,
            },
    {
        match self.find_inode_id(fs, name) {
            Some((idx, inode_id)) => Some((idx, Inode::new(inode_id))),
            None => None,
        }
    }

    /// The names in this directory, in order.
    pub fn ls(&self, fs: &EasyFileSystem) -> (names: Vec<String>)
        requires
            fs.valid(self.inode_id as int),
        ensures
            names@.len() == self.entries_in(fs).len(),
            forall|k: int| 0 <= k < names@.len() ==> (#[trigger] names@[k])@ == self.entries_in(fs)[k].name@,
    {
        let disk_inode = fs.inodes[self.inode_id as usize].as_ref().unwrap();
        let mut v: Vec<String> = Vec::new();
        let mut i: usize = 0;
        while i < disk_inode.entries.len()
            invariant
                i <= disk_inode.entries@.len(),
                disk_inode.entries@ == self.entries_in(fs),
                v@.len() == i,
                forall|k: int| 0 <= k < i ==> (#[trigger] v@[k])@ == disk_inode.entries@[k].name@,
            decreases disk_inode.entries@.len() - i,
        {
            v.push(disk_inode.entries[i].name.clone());
            i = i + 1;
        }
        v
    }

    /// Reads from `offset` into `buf`: as many bytes as fit in `buf` and
    /// remain in the file.  Returns the number of bytes read.
    pub fn read_at(&self, fs: &EasyFileSystem, offset: usize, buf: &mut [u8]) -> (n: usize)
        requires
            fs.valid(self.inode_id as int),
        ensures
            ({
                let got = read_result(
                    fs.disk_inode(self.inode_id as int).data@,
                    offset as int,
                    old(buf)@.len() as int,
                );
                &&& n == got.len()
                &&& final(buf)@.len() == old(buf)@.len()
                &&& final(buf)@ == got + old(buf)@.subrange(n as int, old(buf)@.len() as int)
            }),
    {
        let disk_inode = fs.inodes[self.inode_id as usize].as_ref().unwrap();
        let data = &disk_inode.data;
        let size = data.len();
        if offset >= size {
            proof {
                assert(buf@ =~= Seq::<u8>::empty() + buf@.subrange(0, buf@.len() as int));
            }
            return 0;
        }
        let n = if size - offset < buf.len() {
            size - offset
        } else {
            buf.len()
        };
        let ghost got = read_result(data@, offset as int, buf@.len() as int);
        assert(got.len() == n);
        let mut i: usize = 0;
        while i < n
            invariant
                data@.len() == size,
                i <= n,
                n <= buf@.len(),
                offset + n <= data@.len(),
                got == data@.subrange(offset as int, offset + n),
                buf@.len() == old(buf)@.len(),
                forall|k: int| 0 <= k < i ==> buf@[k] == got[k],
                forall|k: int| n <= k < buf@.len() ==> buf@[k] == old(buf)@[k],
            decreases n - i,
        {
            buf[i] = data[offset + i];
            i = i + 1;
        }
        proof {
            assert(buf@ =~= got + old(buf)@.subrange(n as int, old(buf)@.len() as int));
        }
        n
    }

    /// Grows `data` with zero bytes to `new_size` bytes; a larger `data` stays as it is.
    fn increase_size(new_size: usize, data: &mut Vec<u8>)
        ensures
            final(data)@.len() == if new_size > old(data)@.len() {
                new_size as int
            } else {
                old(data)@.len() as int
            },
            forall|k: int| 0 <= k < old(data)@.len() ==> #[trigger] final(data)@[k] == old(data)@[k],
            forall|k: int| old(data)@.len() <= k < final(data)@.len() ==> #[trigger] final(data)@[k] == 0,
    {
        if new_size < data.len() {
            return;
        }
        while data.len() < new_size
            invariant
                old(data)@.len() <= data@.len(),
                new_size >= old(data)@.len(),
                data@.len() <= new_size,
                forall|k: int| 0 <= k < old(data)@.len() ==> #[trigger] data@[k] == old(data)@[k],
                forall|k: int| old(data)@.len() <= k < data@.len() ==> #[trigger] data@[k] == 0,
            decreases new_size - data@.len(),
        {
            data.push(0);
        }
    }

    /// Writes `buf` at `offset`, growing the file (with zero bytes) as
    /// needed.  Returns the number of bytes written.
    pub fn write_at(&self, fs: &mut EasyFileSystem, offset: usize, buf: &[u8]) -> (n: usize)
        requires
            old(fs).valid(self.inode_id as int),
            offset + buf@.len() <= u32::MAX,
        ensures
            n == buf@.len(),
            final(fs).inodes@.len() == old(fs).inodes@.len(),
            final(fs).valid(self.inode_id as int),
            final(fs).disk_inode(self.inode_id as int).data@ == written(
                old(fs).disk_inode(self.inode_id as int).data@,
                offset as int,
                buf@,
            ),
            final(fs).disk_inode(self.inode_id as int).type_ == old(fs).disk_inode(
                self.inode_id as int,
            ).type_,
            final(fs).disk_inode(self.inode_id as int).nlink == old(fs).disk_inode(
                self.inode_id as int,
            ).nlink,
            final(fs).disk_inode(self.inode_id as int).entries == old(fs).disk_inode(
                self.inode_id as int,
            ).entries,
            forall|j: int|
                0 <= j < old(fs).inodes@.len() && j != self.inode_id as int ==> #[trigger] final(fs).inodes@[j] == old(fs).inodes@[j],
            final(fs).inode_bitmap@ == old(fs).inode_bitmap@,
            keeps_inodes(*old(fs), *final(fs)),
            old(fs).wf() ==> final(fs).wf(),
    {
        let id = self.inode_id as usize;
        let d = fs.take(id);
        let DiskInode { type_, nlink, data, entries } = d;
        let mut data = data;
        let ghost old_data = data@;
        let end = offset + buf.len();
        Self::increase_size(end, &mut data);
        let mut i: usize = 0;
        while i < buf.len()
            invariant
                i <= buf@.len(),
                end == offset + buf@.len(),
                data@.len() >= end,
                data@.len() >= old_data.len(),
                data@.len() == written(old_data, offset as int, buf@).len(),
                forall|k: int|
                    0 <= k < data@.len() && !(offset <= k < offset + i) ==> data@[k] == if k
                        < old_data.len() {
                        old_data[k]
                    } else {
                        0u8
                    },
                forall|k: int| offset <= k < offset + i ==> data@[k] == buf@[k - offset],
            decreases buf@.len() - i,
        {
            data.set(offset + i, buf[i]);
            i = i + 1;
        }
        proof {
            assert(data@ =~= written(old_data, offset as int, buf@));
        }
        fs.put(id, DiskInode { type_, nlink, data, entries });
        proof {
            if old(fs).wf() {
                assert(fs.inodes@[0] == old(fs).inodes@[0] || id == 0);
                assert(fs.root_entries() == old(fs).root_entries());
                lemma_wf_after_content(*old(fs), *fs, id as int);
            }
        }
        buf.len()
    }

    /// Empties this inode: a file loses its bytes, a directory its entries.
    pub fn clear(&self, fs: &mut EasyFileSystem)
        requires
            old(fs).valid(self.inode_id as int),
        ensures
            final(fs).inodes@.len() == old(fs).inodes@.len(),
            final(fs).valid(self.inode_id as int),
            final(fs).disk_inode(self.inode_id as int).data@.len() == 0,
            final(fs).disk_inode(self.inode_id as int).entries@.len() == 0,
            final(fs).disk_inode(self.inode_id as int).type_ == old(fs).disk_inode(
                self.inode_id as int,
            ).type_,
            final(fs).disk_inode(self.inode_id as int).nlink == old(fs).disk_inode(
                self.inode_id as int,
            ).nlink,
            forall|j: int|
                0 <= j < old(fs).inodes@.len() && j != self.inode_id as int ==> #[trigger] final(fs).inodes@[j] == old(fs).inodes@[j],
            final(fs).inode_bitmap@ == old(fs).inode_bitmap@,
            keeps_inodes(*old(fs), *final(fs)),
    {
        let id = self.inode_id as usize;
        let d = fs.take(id);
        fs.put(id, DiskInode { type_: d.type_, nlink: d.nlink, data: Vec::new(), entries: Vec::new() });
    }

    /// Frees this inode's number; its content stays.
    pub fn clear_inode(&self, fs: &mut EasyFileSystem)
        requires
            self.inode_id < old(fs).inode_bitmap@.len(),
        ensures
            final(fs).inodes@ == old(fs).inodes@,
            final(fs).inode_bitmap@ == old(fs).inode_bitmap@.update(self.inode_id as int, false),
    {
        fs.dealloc_inode(self.inode_id);
    }

    /// Whether this inode is a regular file.
    pub fn is_file(&self, fs: &EasyFileSystem) -> (b: bool)
        requires
            fs.valid(self.inode_id as int),
        ensures
            b == (fs.disk_inode(self.inode_id as int).type_ == DiskInodeType::File),
    {
        fs.inodes[self.inode_id as usize].as_ref().unwrap().is_file()
    }

    /// Whether this inode is a directory.
    pub fn is_directory(&self, fs: &EasyFileSystem) -> (b: bool)
        requires
            fs.valid(self.inode_id as int),
        ensures
            b == (fs.disk_inode(self.inode_id as int).type_ == DiskInodeType::Directory),
    {
        fs.inodes[self.inode_id as usize].as_ref().unwrap().is_dir()
    }

    /// The number of hard links to this inode.
    pub fn get_num_of_links(&self, fs: &EasyFileSystem) -> (n: u32)
        requires
            fs.valid(self.inode_id as int),
        ensures
            n == fs.disk_inode(self.inode_id as int).nlink,
    {
        fs.inodes[self.inode_id as usize].as_ref().unwrap().nlink
    }

    /// The inode number.
    pub fn get_inode_id(&self) -> (id: u32)
        ensures
            id == self.inode_id,
    {
        self.inode_id
    }
}

proof fn lemma_link_count_bound(entries: Seq<DirEntry>, id: int)
    ensures
        link_count(entries, id) <= entries.len(),
    decreases entries.len(),
{
    if entries.len() > 0 {
        lemma_link_count_bound(entries.drop_last(), id);
    }
}

proof fn lemma_link_count_positive(entries: Seq<DirEntry>, k: int)
    requires
        0 <= k < entries.len(),
    ensures
        link_count(entries, entries[k].inode_id as int) >= 1,
    decreases entries.len(),
{
    if k < entries.len() - 1 {
        lemma_link_count_positive(entries.drop_last(), k);
        assert(entries.drop_last()[k] == entries[k]);
    }
}

/// Inodes other than `a` and `b` are the same in both states.
pub open spec fn inodes_same_except(old: Seq<Option<DiskInode>>, new: Seq<Option<DiskInode>>, a: int, b: int) -> bool {
    forall|j: int| 0 <= j < old.len() && j != a && j != b ==> #[trigger] new[j] == old[j]
}

impl DiskInode {
    /// Records one more link; -1 when the count cannot grow.
    pub fn add_link(&mut self) -> (r: isize)
        ensures
            old(self).nlink == u32::MAX ==> r == -1 && *final(self) == *old(self),
            old(self).nlink < u32::MAX ==> r == 0 && final(self).nlink == old(self).nlink + 1,
            final(self).type_ == old(self).type_,
            final(self).data == old(self).data,
            final(self).entries == old(self).entries,
    {
        if self.nlink == u32::MAX {
            return -1;
        }
        self.nlink = self.nlink + 1;
        0
    }

    /// Records one link fewer.
    pub fn subtract_link(&mut self)
        requires
            old(self).nlink > 0,
        ensures
            final(self).nlink == old(self).nlink - 1,
            final(self).type_ == old(self).type_,
            final(self).data == old(self).data,
            final(self).entries == old(self).entries,
    {
        self.nlink = self.nlink - 1;
    }
}

impl Inode {
    /// Appends `entry` to this directory, without touching any inode it names.
    fn append_file_entry(&self, fs: &mut EasyFileSystem, entry: DirEntry)
        requires
            old(fs).valid(self.inode_id as int),
        ensures
            final(fs).inodes@.len() == old(fs).inodes@.len(),
            final(fs).valid(self.inode_id as int),
            final(fs).disk_inode(self.inode_id as int).entries@ == old(fs).disk_inode(
                self.inode_id as int,
            ).entries@.push(entry),
            final(fs).disk_inode(self.inode_id as int).type_ == old(fs).disk_inode(
                self.inode_id as int,
            ).type_,
            final(fs).disk_inode(self.inode_id as int).nlink == old(fs).disk_inode(
                self.inode_id as int,
            ).nlink,
            final(fs).disk_inode(self.inode_id as int).data == old(fs).disk_inode(
                self.inode_id as int,
            ).data,
            inodes_same_except(old(fs).inodes@, final(fs).inodes@, self.inode_id as int, self.inode_id as int),
            final(fs).inode_bitmap@ == old(fs).inode_bitmap@,
    {
        let id = self.inode_id as usize;
        let d = fs.take(id);
        let DiskInode { type_, nlink, data, entries } = d;
        let mut entries = entries;
        entries.push(entry);
        fs.put(id, DiskInode { type_, nlink, data, entries });
    }

    /// Drops entry `idx` of this directory; the last entry takes its place.
    fn remove_file_entry(&self, fs: &mut EasyFileSystem, idx: usize)
        requires
            old(fs).valid(self.inode_id as int),
            idx < old(fs).disk_inode(self.inode_id as int).entries@.len(),
        ensures
            final(fs).inodes@.len() == old(fs).inodes@.len(),
            final(fs).valid(self.inode_id as int),
            final(fs).disk_inode(self.inode_id as int).entries@ == swap_remove(
                old(fs).disk_inode(self.inode_id as int).entries@,
                idx as int,
            ),
            final(fs).disk_inode(self.inode_id as int).type_ == old(fs).disk_inode(
                self.inode_id as int,
            ).type_,
            final(fs).disk_inode(self.inode_id as int).nlink == old(fs).disk_inode(
                self.inode_id as int,
            ).nlink,
            final(fs).disk_inode(self.inode_id as int).data == old(fs).disk_inode(
                self.inode_id as int,
            ).data,
            inodes_same_except(old(fs).inodes@, final(fs).inodes@, self.inode_id as int, self.inode_id as int),
            final(fs).inode_bitmap@ == old(fs).inode_bitmap@,
    {
        let id = self.inode_id as usize;
        let d = fs.take(id);
        let DiskInode { type_, nlink, data, entries } = d;
        let mut entries = entries;
        entries.swap_remove(idx);
        fs.put(id, DiskInode { type_, nlink, data, entries });
    }

    /// Creates an empty regular file named `name` in this directory and
    /// returns it; `None` when the name is taken.
    pub fn create(&self, fs: &mut EasyFileSystem, name: &str) -> (r: Option<Inode>)
        requires
            old(fs).wf(),
            self.is_dir_in(old(fs)),
            !has_entry(old(fs).root_entries(), name@) ==> old(fs).inodes@.len() < u32::MAX && (old(
                fs,
            ).root_entries().len() + 1) * DIRENT_SZ <= u32::MAX,
        ensures
            final(fs).wf(),
            keeps_inodes(*old(fs), *final(fs)),
            has_entry(old(fs).root_entries(), name@) ==> r is None && *final(fs) == *old(fs),
            !has_entry(old(fs).root_entries(), name@) ==> r is Some && ({
                let id = r->0.inode_id as int;
                &&& 0 < id <= old(fs).inodes@.len()
                &&& !old(fs).allocated(id)
                &&& forall|j: int| 0 < j < id ==> #[trigger] old(fs).allocated(j)
                &&& final(fs).allocated(id)
                &&& final(fs).valid(id)
                &&& final(fs).disk_inode(id).type_ == DiskInodeType::File
                &&& final(fs).disk_inode(id).nlink == 1
                &&& final(fs).disk_inode(id).data@.len() == 0
                &&& final(fs).root_entries().len() == old(fs).root_entries().len() + 1
                &&& final(fs).root_entries().drop_last() == old(fs).root_entries()
                &&& final(fs).root_entries().last().name@ == name@
                &&& final(fs).root_entries().last().inode_id == id
                &&& inodes_same_except(old(fs).inodes@, final(fs).inodes@, 0, id)
            }),
    {
        if self.find_inode_id(fs, name).is_some() {
            return None;
        }
        let ghost fs0 = *old(fs);
        let new_inode_id = fs.alloc_inode();
        fs.put(new_inode_id as usize, DiskInode::initialize(DiskInodeType::File));
        let dirent = DirEntry::new(name, new_inode_id);
        self.append_file_entry(fs, dirent);
        proof {
            let id = new_inode_id as int;
            let old_root = fs0.root_entries();
            assert(self.inode_id == 0);
            assert forall|k: int| 0 <= k < old_root.len() implies (#[trigger] old_root[k]).inode_id != id by {
                assert(fs0.inode_bitmap@[old_root[k].inode_id as int]);
            }
            lemma_link_count_zero(old_root, id);
            lemma_wf_after_append(fs0, *fs, dirent);
        }
        Some(Inode::new(new_inode_id))
    }
}

/// Every inode that held content still does, and the inode area has not shrunk.
pub open spec fn keeps_inodes(before: EasyFileSystem, after: EasyFileSystem) -> bool {
    &&& before.inodes@.len() <= after.inodes@.len()
    &&& forall|j: int| #[trigger] before.valid(j) ==> after.valid(j)
}

/// Appending a root entry for inode `e.inode_id`, which now counts one
/// more link and nothing else changed but the root, keeps the file system
/// well formed.
proof fn lemma_wf_after_append(old_fs: EasyFileSystem, new_fs: EasyFileSystem, e: DirEntry)
    requires
        old_fs.wf(),
        !has_entry(old_fs.root_entries(), e.name@),
        (old_fs.root_entries().len() + 1) * DIRENT_SZ <= u32::MAX,
        old_fs.inodes@.len() <= new_fs.inodes@.len() <= u32::MAX,
        new_fs.inode_bitmap@.len() == new_fs.inodes@.len(),
        new_fs.root_entries() == old_fs.root_entries().push(e),
        new_fs.valid(0),
        new_fs.allocated(0),
        new_fs.disk_inode(0).type_ == DiskInodeType::Directory,
        0 < e.inode_id < new_fs.inodes@.len(),
        new_fs.valid(e.inode_id as int),
        new_fs.allocated(e.inode_id as int),
        new_fs.disk_inode(e.inode_id as int).type_ == DiskInodeType::File,
        new_fs.disk_inode(e.inode_id as int).entries@.len() == 0,
        new_fs.disk_inode(e.inode_id as int).nlink == link_count(old_fs.root_entries(), e.inode_id as int) + 1,
        forall|j: int|
            0 < j < new_fs.inodes@.len() && j != e.inode_id ==> j < old_fs.inodes@.len()
                && #[trigger] new_fs.inodes@[j] == old_fs.inodes@[j] && new_fs.inode_bitmap@[j]
                == old_fs.inode_bitmap@[j],
    ensures
        new_fs.wf(),
{
    let id = e.inode_id as int;
    let old_root = old_fs.root_entries();
    let new_root = new_fs.root_entries();
    assert(new_root.drop_last() =~= old_root);
    assert forall|j: int|
        0 < j < new_fs.inodes@.len() && (#[trigger] new_fs.inodes@[j]) is Some implies new_fs.inodes@[j]->0.type_
            == DiskInodeType::File && new_fs.inodes@[j]->0.entries@.len() == 0 by {
        if j != id {
            assert(old_fs.inodes@[j] is Some);
        }
    }
    assert forall|j: int|
        0 < j < new_fs.inodes@.len() && #[trigger] new_fs.inode_bitmap@[j] implies new_fs.inodes@[j] is Some
            && new_fs.inodes@[j]->0.nlink == link_count(new_root, j) by {
        lemma_link_count_push(old_root, e, j);
        if j != id {
            assert(new_fs.inodes@[j] == old_fs.inodes@[j]);
            assert(old_fs.inode_bitmap@[j]);
        }
    }
    assert forall|m: int|
        0 <= m < new_root.len() implies 0 < (#[trigger] new_root[m]).inode_id < new_fs.inodes@.len()
        && new_fs.inode_bitmap@[new_root[m].inode_id as int] by {
        if m < old_root.len() {
            assert(new_root[m] == old_root[m]);
            let t = old_root[m].inode_id as int;
            assert(old_fs.inode_bitmap@[t]);
            if t != id {
                assert(new_fs.inodes@[t] == old_fs.inodes@[t]);
            }
        }
    }
    assert forall|j: int, m: int|
        0 <= j < new_root.len() && 0 <= m < new_root.len() && j != m implies (
        #[trigger] new_root[j]).name@ != (#[trigger] new_root[m]).name@ by {
        if j < old_root.len() && m < old_root.len() {
            assert(new_root[j] == old_root[j]);
            assert(new_root[m] == old_root[m]);
        } else if j < old_root.len() {
            assert(new_root[j] == old_root[j]);
        } else {
            assert(new_root[m] == old_root[m]);
        }
    }
}

/// Changing the bytes of one inode, and nothing else of the file system,
/// keeps the file system well formed.
pub proof fn lemma_wf_after_content(old_fs: EasyFileSystem, new_fs: EasyFileSystem, id: int)
    requires
        old_fs.wf(),
        old_fs.valid(id),
        new_fs.inodes@.len() == old_fs.inodes@.len(),
        new_fs.inode_bitmap@ == old_fs.inode_bitmap@,
        new_fs.valid(id),
        new_fs.disk_inode(id).type_ == old_fs.disk_inode(id).type_,
        new_fs.disk_inode(id).nlink == old_fs.disk_inode(id).nlink,
        new_fs.disk_inode(id).entries@ == old_fs.disk_inode(id).entries@,
        forall|j: int|
            0 <= j < old_fs.inodes@.len() && j != id ==> #[trigger] new_fs.inodes@[j] == old_fs.inodes@[j],
    ensures
        new_fs.wf(),
        new_fs.root_entries() == old_fs.root_entries(),
{
    assert(new_fs.root_entries() == old_fs.root_entries());
    assert forall|j: int|
        0 < j < new_fs.inodes@.len() && (#[trigger] new_fs.inodes@[j]) is Some implies new_fs.inodes@[j]->0.type_
            == DiskInodeType::File && new_fs.inodes@[j]->0.entries@.len() == 0 by {
        assert(old_fs.inodes@[j] is Some);
    }
    assert forall|j: int|
        0 < j < new_fs.inodes@.len() && #[trigger] new_fs.inode_bitmap@[j] implies new_fs.inodes@[j] is Some
            && new_fs.inodes@[j]->0.nlink == link_count(new_fs.root_entries(), j) by {
        assert(old_fs.inode_bitmap@[j]);
    }
}

/// After dropping entry `k` of the root, the file system is well formed
/// again once the named inode has either lost one link or, when that was
/// its last link, been freed.
proof fn lemma_wf_after_unlink(old_fs: EasyFileSystem, new_fs: EasyFileSystem, k: int)
    requires
        old_fs.wf(),
        0 <= k < old_fs.root_entries().len(),
        new_fs.inodes@.len() == old_fs.inodes@.len(),
        new_fs.valid(0),
        new_fs.disk_inode(0).type_ == DiskInodeType::Directory,
        new_fs.root_entries() == swap_remove(old_fs.root_entries(), k),
        ({
            let id = old_fs.root_entries()[k].inode_id as int;
            &&& inodes_same_except(old_fs.inodes@, new_fs.inodes@, 0, id)
            &&& new_fs.valid(id)
            &&& new_fs.disk_inode(id).type_ == DiskInodeType::File
            &&& new_fs.disk_inode(id).entries@.len() == 0
            &&& old_fs.disk_inode(id).nlink > 1 ==> new_fs.disk_inode(id).nlink
                == old_fs.disk_inode(id).nlink - 1 && new_fs.inode_bitmap@ == old_fs.inode_bitmap@
            &&& old_fs.disk_inode(id).nlink <= 1 ==> new_fs.inode_bitmap@
                == old_fs.inode_bitmap@.update(id, false)
        }),
    ensures
        new_fs.wf(),
{
    let root = old_fs.root_entries();
    let nroot = new_fs.root_entries();
    let id = root[k].inode_id as int;
    lemma_swap_remove_unique(root, k);
    lemma_link_count_positive(root, k);
    lemma_link_count_swap_remove(root, k, id);
    assert forall|j: int|
        0 < j < new_fs.inodes@.len() && (#[trigger] new_fs.inodes@[j]) is Some implies new_fs.inodes@[j]->0.type_
            == DiskInodeType::File && new_fs.inodes@[j]->0.entries@.len() == 0 by {
        if j != id {
            assert(new_fs.inodes@[j] == old_fs.inodes@[j]);
        }
    }
    assert forall|j: int|
        0 < j < new_fs.inodes@.len() && #[trigger] new_fs.inode_bitmap@[j] implies new_fs.inodes@[j] is Some
            && new_fs.inodes@[j]->0.nlink == link_count(nroot, j) by {
        lemma_link_count_swap_remove(root, k, j);
        if j != id {
            assert(new_fs.inodes@[j] == old_fs.inodes@[j]);
            assert(old_fs.inode_bitmap@[j]);
        }
    }
    assert forall|m: int|
        0 <= m < nroot.len() implies 0 < (#[trigger] nroot[m]).inode_id < new_fs.inodes@.len()
        && new_fs.inode_bitmap@[nroot[m].inode_id as int] by {
        let mm = if m == k {
            root.len() - 1
        } else {
            m
        };
        assert(nroot[m] == root[mm]);
        if root[mm].inode_id == id && old_fs.disk_inode(id).nlink <= 1 {
            assert(link_count(nroot, id) == 0);
            lemma_link_count_positive(nroot, m);
        }
    }
}

impl Inode {
    /// Removes the file named `name` from this directory: its data and its
    /// inode are freed and the entry is dropped (the last entry takes its
    /// place).  Returns 0, or -1 when this is no directory or holds no such
    /// name.
    fn delete_file(&self, fs: &mut EasyFileSystem, name: &str) -> (r: isize)
        requires
            old(fs).wf(),
            old(fs).valid(self.inode_id as int),
            match first_match(old(fs).root_entries(), name@) {
                Some(k) => old(fs).disk_inode(old(fs).root_entries()[k].inode_id as int).nlink <= 1,
                None => true,
            },
        ensures
            final(fs).wf(),
            !self.is_dir_in(old(fs)) || first_match(old(fs).root_entries(), name@) is None ==> r == -1
                && *final(fs) == *old(fs),
            self.is_dir_in(old(fs)) && first_match(old(fs).root_entries(), name@) is Some ==> ({
                let k = first_match(old(fs).root_entries(), name@)->0;
                let id = old(fs).root_entries()[k].inode_id as int;
                &&& r == 0
                &&& final(fs).root_entries() == swap_remove(old(fs).root_entries(), k)
                &&& final(fs).inodes@.len() == old(fs).inodes@.len()
                &&& final(fs).valid(id)
                &&& final(fs).disk_inode(id).data@.len() == 0
                &&& final(fs).disk_inode(id).nlink == old(fs).disk_inode(id).nlink
                &&& final(fs).disk_inode(id).type_ == DiskInodeType::File
                &&& final(fs).inode_bitmap@ == old(fs).inode_bitmap@.update(id, false)
                &&& inodes_same_except(old(fs).inodes@, final(fs).inodes@, 0, id)
            }),
    {
        if !self.is_directory(fs) {
            return -1;
        }
        let result = self.find_and_get_idx(fs, name);
        match result {
            None => -1,
            Some((idx, inode)) => {
                let ghost fs0 = *fs;
                proof {
                    assert(self.inode_id == 0);
                    assert(fs0.inode_bitmap@[fs0.root_entries()[idx as int].inode_id as int]);
                }
                inode.clear(fs);
                inode.clear_inode(fs);
                self.remove_file_entry(fs, idx);
                proof {
                    let id = fs0.root_entries()[idx as int].inode_id as int;
                    lemma_link_count_positive(fs0.root_entries(), idx as int);
                    assert(inodes_same_except(fs0.inodes@, fs.inodes@, 0, id));
                    lemma_wf_after_unlink(fs0, *fs, idx as int);
                }
                0
            },
        }
    }
}

/// Links `new_path` to the file named `old_path` in directory
/// `where_to_link`.  Returns 0, or -1 when `where_to_link` is no
/// directory, `old_path` is missing or `new_path` is taken.
pub fn linkat(old_path: &str, new_path: &str, where_to_link: &Inode, fs: &mut EasyFileSystem) -> (r: isize)
    requires
        old(fs).wf(),
        old(fs).valid(where_to_link.inode_id as int),
        where_to_link.is_dir_in(old(fs)) && has_entry(old(fs).root_entries(), old_path@)
            && !has_entry(old(fs).root_entries(), new_path@) ==> (old(fs).root_entries().len() + 1)
            * DIRENT_SZ <= u32::MAX,
    ensures
        final(fs).wf(),
        keeps_inodes(*old(fs), *final(fs)),
        ({
            let root = old(fs).root_entries();
            let ok = where_to_link.is_dir_in(old(fs)) && has_entry(root, old_path@) && !has_entry(
                root,
                new_path@,
            );
            &&& !ok ==> r == -1 && *final(fs) == *old(fs)
            &&& ok ==> {
                let k = first_match(root, old_path@)->0;
                let id = root[k].inode_id as int;
                &&& r == 0
                &&& final(fs).root_entries().len() == root.len() + 1
                &&& final(fs).root_entries().drop_last() == root
                &&& final(fs).root_entries().last().name@ == new_path@
                &&& final(fs).root_entries().last().inode_id == id
                &&& final(fs).inodes@.len() == old(fs).inodes@.len()
                &&& final(fs).valid(id)
                &&& final(fs).disk_inode(id).nlink == old(fs).disk_inode(id).nlink + 1
                &&& final(fs).disk_inode(id).data == old(fs).disk_inode(id).data
                &&& final(fs).inode_bitmap@ == old(fs).inode_bitmap@
                &&& inodes_same_except(old(fs).inodes@, final(fs).inodes@, 0, id)
            }
        }),
{
    if !where_to_link.is_directory(fs) {
        return -1;
    }
    let old_file_inode = where_to_link.find(fs, old_path);
    let new_file_inode = where_to_link.find(fs, new_path);
    if old_file_inode.is_none() || new_file_inode.is_some() {
        proof {
            let root = fs.root_entries();
            if has_entry(root, old_path@) {
                let k0 = choose|k: int| 0 <= k < root.len() && (#[trigger] root[k]).name@ == old_path@;
                lemma_has_first_match(root, old_path@, k0);
            }
            if has_entry(root, new_path@) {
                let k0 = choose|k: int| 0 <= k < root.len() && (#[trigger] root[k]).name@ == new_path@;
                lemma_has_first_match(root, new_path@, k0);
            }
        }
        return -1;
    }
    let ghost fs0 = *fs;
    let old_file_inode = old_file_inode.unwrap();
    let old_file_inode_id = old_file_inode.get_inode_id();
    let ghost k = first_match(fs0.root_entries(), old_path@)->0;
    proof {
        let root = fs0.root_entries();
        assert(where_to_link.inode_id == 0);
        assert(fs0.inode_bitmap@[root[k].inode_id as int]);
        lemma_link_count_bound(root, old_file_inode_id as int);
        assert(!has_entry(root, new_path@)) by {
            if has_entry(root, new_path@) {
                let k0 = choose|k: int| 0 <= k < root.len() && (#[trigger] root[k]).name@ == new_path@;
                lemma_has_first_match(root, new_path@, k0);
            }
        }
        assert(has_entry(root, old_path@)) by {
            assert(root[k].name@ == old_path@);
        }
    }
    let dirent = DirEntry::new(new_path, old_file_inode_id);
    let mut d = fs.take(old_file_inode_id as usize);
    let add_link_result = d.add_link();
    fs.put(old_file_inode_id as usize, d);
    if add_link_result == -1 {
        proof {
            assert(false);
        }
        return -1;
    }
    where_to_link.append_file_entry(fs, dirent);
    proof {
        lemma_wf_after_append(fs0, *fs, dirent);
    }
    0
}

/// Removes the name `path` from directory `where_to_unlink`.  The file
/// loses one link; when that was its last link its data and inode are
/// freed.  Returns 0, or -1 when `where_to_unlink` is no directory or holds
/// no such name.
pub fn unlinkat(path: &str, where_to_unlink: &Inode, fs: &mut EasyFileSystem) -> (r: isize)
    requires
        old(fs).wf(),
        old(fs).valid(where_to_unlink.inode_id as int),
    ensures
        final(fs).wf(),
        keeps_inodes(*old(fs), *final(fs)),
        ({
            let root = old(fs).root_entries();
            let ok = where_to_unlink.is_dir_in(old(fs)) && has_entry(root, path@);
            &&& !ok ==> r == -1 && *final(fs) == *old(fs)
            &&& ok ==> {
                let k = first_match(root, path@)->0;
                let id = root[k].inode_id as int;
                &&& r == 0
                &&& final(fs).root_entries() == swap_remove(root, k)
                &&& final(fs).inodes@.len() == old(fs).inodes@.len()
                &&& final(fs).valid(id)
                &&& final(fs).disk_inode(id).type_ == DiskInodeType::File
                &&& old(fs).disk_inode(id).nlink > 1 ==> final(fs).disk_inode(id).nlink == old(
                    fs,
                ).disk_inode(id).nlink - 1 && final(fs).disk_inode(id).data == old(fs).disk_inode(
                    id,
                ).data && final(fs).inode_bitmap@ == old(fs).inode_bitmap@
                &&& old(fs).disk_inode(id).nlink <= 1 ==> final(fs).disk_inode(id).nlink == old(
                    fs,
                ).disk_inode(id).nlink && final(fs).disk_inode(id).data@.len() == 0
                    && final(fs).inode_bitmap@ == old(fs).inode_bitmap@.update(id, false)
                &&& inodes_same_except(old(fs).inodes@, final(fs).inodes@, 0, id)
            }
        }),
{
    if !where_to_unlink.is_directory(fs) {
        return -1;
    }
    let result = where_to_unlink.find_and_get_idx(fs, path);
    match result {
        None => {
            proof {
                let root = fs.root_entries();
                if has_entry(root, path@) {
                    let k0 = choose|k: int| 0 <= k < root.len() && (#[trigger] root[k]).name@ == path@;
                    lemma_has_first_match(root, path@, k0);
                }
            }
            -1
        },
        Some((idx, file_inode)) => {
            let ghost fs0 = *fs;
            let ghost root = fs0.root_entries();
            proof {
                assert(where_to_unlink.inode_id == 0);
                assert(fs0.inode_bitmap@[root[idx as int].inode_id as int]);
                lemma_link_count_positive(root, idx as int);
                assert(root[idx as int].name@ == path@);
            }
            let current_link = file_inode.get_num_of_links(fs);
            if current_link > 1 {
                let mut d = fs.take(file_inode.inode_id as usize);
                d.subtract_link();
                fs.put(file_inode.inode_id as usize, d);
                where_to_unlink.remove_file_entry(fs, idx);
                proof {
                    lemma_wf_after_unlink(fs0, *fs, idx as int);
                }
                0
            } else {
                where_to_unlink.delete_file(fs, path)
            }
        },
    }
}

/// A write of `buf` at `offset` never shrinks the file and changes no
/// byte outside `[offset, offset + buf.len())`: the file's length becomes
/// the larger of its old length and `offset + buf.len()`, the covered
/// bytes are those of `buf`, a gap between the old end and `offset` is
/// filled with zero bytes, and every other old byte stays.
pub proof fn lemma_write_keeps_other_bytes(data: Seq<u8>, offset: int, buf: Seq<u8>)
    requires
        0 <= offset,
    ensures
        ({
            let w = written(data, offset, buf);
            &&& w.len() == if offset + buf.len() > data.len() {
                offset + buf.len()
            } else {
                data.len() as int
            }
            &&& w.len() >= data.len()
            &&& forall|i: int| 0 <= i < buf.len() ==> #[trigger] w[offset + i] == buf[i]
            &&& forall|i: int|
                0 <= i < data.len() && !(offset <= i < offset + buf.len()) ==> #[trigger] w[i]
                    == data[i]
            &&& forall|i: int| data.len() <= i < offset ==> #[trigger] w[i] == 0
            &&& w.subrange(offset + buf.len(), w.len() as int) == if offset + buf.len() < data.len() {
                data.subrange(offset + buf.len(), data.len() as int)
            } else {
                Seq::<u8>::empty()
            }
        }),
{
    let w = written(data, offset, buf);
    let e = offset + buf.len();
    assert forall|i: int| 0 <= i < buf.len() implies #[trigger] w[offset + i] == buf[i] by {
        assert(buf[(offset + i) - offset] == buf[i]);
    }
    if e < data.len() {
        assert(w.subrange(e, w.len() as int) =~= data.subrange(e, data.len() as int));
    } else {
        assert(w.subrange(e, w.len() as int) =~= Seq::<u8>::empty());
    }
}

/// Two writes back to back, the second where the first ended, leave the
/// file as one write of both buffers together.
pub proof fn lemma_writes_append(data: Seq<u8>, offset: int, a: Seq<u8>, b: Seq<u8>)
    requires
        0 <= offset,
    ensures
        written(written(data, offset, a), offset + a.len(), b) == written(data, offset, a + b),
{
    let w1 = written(data, offset, a);
    let w2 = written(w1, offset + a.len(), b);
    let w = written(data, offset, a + b);
    assert(w2.len() == w.len());
    assert forall|i: int| 0 <= i < w.len() implies w2[i] == w[i] by {
        if offset <= i < offset + a.len() {
            assert((a + b)[i - offset] == a[i - offset]);
        } else if offset + a.len() <= i < offset + a.len() + b.len() {
            assert((a + b)[i - offset] == b[i - offset - a.len()]);
        }
    }
    assert(w2 =~= w);
}

/// Two reads back to back, the second where the first ended, give the
/// bytes of one read of both lengths together: consecutive ranges of the
/// file, clipped at its end.
pub proof fn lemma_reads_consecutive(data: Seq<u8>, offset: int, n1: int, n2: int)
    requires
        0 <= offset,
        0 <= n1,
        0 <= n2,
    ensures
        read_result(data, offset, n1) + read_result(
            data,
            offset + read_result(data, offset, n1).len(),
            n2,
        ) == read_result(data, offset, n1 + n2),
        offset >= data.len() ==> read_result(data, offset, n1) == Seq::<u8>::empty(),
        offset <= data.len() ==> read_result(data, offset, n1 + n2) == data.subrange(
            offset,
            if offset + n1 + n2 <= data.len() {
                offset + n1 + n2
            } else {
                data.len() as int
            },
        ),
{
    let r1 = read_result(data, offset, n1);
    let r2 = read_result(data, offset + r1.len(), n2);
    if offset >= data.len() {
        assert(r1 + r2 =~= Seq::<u8>::empty());
        if offset == data.len() {
            assert(data.subrange(offset, offset) =~= Seq::<u8>::empty());
        }
    } else if offset + n1 <= data.len() {
        if offset + n1 + n2 <= data.len() {
            assert(r1 + r2 =~= data.subrange(offset, offset + n1 + n2));
        } else {
            assert(r1 + r2 =~= data.subrange(offset, data.len() as int));
        }
    } else {
        assert(r1 + r2 =~= data.subrange(offset, data.len() as int));
    }
}

/// Reading back, at the same offset, as many bytes as were just written
/// gives exactly the written bytes.
pub proof fn lemma_read_after_write(data: Seq<u8>, offset: int, buf: Seq<u8>)
    requires
        0 <= offset,
    ensures
        read_result(written(data, offset, buf), offset, buf.len() as int) == buf,
{
    let w = written(data, offset, buf);
    if offset >= w.len() {
        assert(buf.len() == 0);
        assert(buf =~= Seq::<u8>::empty());
    } else {
        assert(w.subrange(offset, offset + buf.len()) =~= buf);
    }
}

/// After `create` added a file named `name` with inode `id`, looking the
/// name up finds that inode.
pub proof fn lemma_find_after_create(before: EasyFileSystem, after: EasyFileSystem, name: Seq<char>, id: int)
    requires
        before.wf(),
        after.wf(),
        !has_entry(before.root_entries(), name),
        after.root_entries().len() == before.root_entries().len() + 1,
        after.root_entries().drop_last() == before.root_entries(),
        after.root_entries().last().name@ == name,
        after.root_entries().last().inode_id == id,
    ensures
        first_match(after.root_entries(), name) == Some(before.root_entries().len() as int),
        after.root_entries()[before.root_entries().len() as int].inode_id == id,
{
    lemma_unique_match(after.root_entries(), name, before.root_entries().len() as int);
}

/// After `linkat` linked `new_name` to the file named `old_name`, both
/// names lead to the same inode.
pub proof fn lemma_find_after_link(
    before: EasyFileSystem,
    after: EasyFileSystem,
    old_name: Seq<char>,
    new_name: Seq<char>,
)
    requires
        before.wf(),
        after.wf(),
        has_entry(before.root_entries(), old_name),
        !has_entry(before.root_entries(), new_name),
        after.root_entries().len() == before.root_entries().len() + 1,
        after.root_entries().drop_last() == before.root_entries(),
        after.root_entries().last().name@ == new_name,
        after.root_entries().last().inode_id == before.root_entries()[first_match(
            before.root_entries(),
            old_name,
        )->0].inode_id,
    ensures
        first_match(after.root_entries(), new_name) is Some,
        first_match(after.root_entries(), old_name) is Some,
        after.root_entries()[first_match(after.root_entries(), new_name)->0].inode_id
            == after.root_entries()[first_match(after.root_entries(), old_name)->0].inode_id,
{
    let before_root = before.root_entries();
    let root = after.root_entries();
    lemma_has_entry_first_match(before_root, old_name);
    let k = first_match(before_root, old_name)->0;
    assert(root[k] == before_root[k]);
    lemma_unique_match(root, old_name, k);
    lemma_unique_match(root, new_name, before_root.len() as int);
}

/// After `unlinkat` removed the name `name`, looking it up finds nothing.
pub proof fn lemma_find_after_unlink(before: EasyFileSystem, after: EasyFileSystem, name: Seq<char>)
    requires
        before.wf(),
        has_entry(before.root_entries(), name),
        after.root_entries() == swap_remove(
            before.root_entries(),
            first_match(before.root_entries(), name)->0,
        ),
    ensures
        first_match(after.root_entries(), name) is None,
{
    lemma_has_entry_first_match(before.root_entries(), name);
    let k = first_match(before.root_entries(), name)->0;
    lemma_swap_remove_unique(before.root_entries(), k);
}

/// Unlinking the name that `linkat` just added restores the root
/// directory, and the file keeps its link count and content.
pub proof fn lemma_unlink_undoes_link(
    before: EasyFileSystem,
    linked: EasyFileSystem,
    after: EasyFileSystem,
    old_name: Seq<char>,
    new_name: Seq<char>,
)
    requires
        before.wf(),
        linked.wf(),
        has_entry(before.root_entries(), old_name),
        !has_entry(before.root_entries(), new_name),
        ({
            let root = before.root_entries();
            let id = root[first_match(root, old_name)->0].inode_id as int;
            &&& linked.root_entries().len() == root.len() + 1
            &&& linked.root_entries().drop_last() == root
            &&& linked.root_entries().last().name@ == new_name
            &&& linked.root_entries().last().inode_id == id
            &&& linked.valid(id)
            &&& linked.disk_inode(id).nlink == before.disk_inode(id).nlink + 1
            &&& linked.disk_inode(id).data == before.disk_inode(id).data
        }),
        ({
            let root = linked.root_entries();
            let k = first_match(root, new_name)->0;
            let id = root[k].inode_id as int;
            &&& after.root_entries() == swap_remove(root, k)
            &&& linked.disk_inode(id).nlink > 1 ==> after.valid(id) && after.disk_inode(id).nlink
                == linked.disk_inode(id).nlink - 1 && after.disk_inode(id).data
                == linked.disk_inode(id).data
        }),
    ensures
        after.root_entries() == before.root_entries(),
        first_match(after.root_entries(), new_name) is None,
        ({
            let root = before.root_entries();
            let id = root[first_match(root, old_name)->0].inode_id as int;
            &&& first_match(after.root_entries(), old_name) == first_match(root, old_name)
            &&& after.valid(id)
            &&& after.disk_inode(id).nlink == before.disk_inode(id).nlink
            &&& after.disk_inode(id).data == before.disk_inode(id).data
        }),
{
    let root = before.root_entries();
    let lroot = linked.root_entries();
    let n = root.len() as int;
    lemma_has_entry_first_match(root, old_name);
    lemma_unique_match(lroot, new_name, n);
    assert(swap_remove(lroot, n) =~= root);
    lemma_no_entry(root, new_name);
    let k = first_match(root, old_name)->0;
    assert(lroot[k] == root[k]);
    let id = root[k].inode_id as int;
    assert(before.inodes@[id] is Some);
    lemma_link_count_positive(root, k);
    assert(lroot[n].inode_id == id);
    assert(linked.disk_inode(id).nlink > 1);
}

} // verus!
