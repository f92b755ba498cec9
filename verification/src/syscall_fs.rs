//! The file system calls: descriptor handling, reads and writes of files,
//! status, and hard links in the root directory.
use vstd::prelude::*;
use crate::file::{FileObject, OSInode, OpenFiles, Stat, StatMode};
use crate::process::{same_except, InnerField, ProcessControlBlockInner};
use crate::vfs::{
    first_match, has_entry, inodes_same_except, keeps_inodes, lemma_has_entry_first_match,
    lemma_no_entry, lemma_reads_consecutive, lemma_wf_after_content, lemma_write_keeps_other_bytes,
    lemma_writes_append, linkat, read_result, unlinkat, written, DiskInodeType, EasyFileSystem, Inode,
    DIRENT_SZ, ROOT_INODE_ID,
};

verus! {

/// The open file at descriptor `fd`, if any.
pub open spec fn fd_file(inner: &ProcessControlBlockInner, fd: usize) -> Option<FileObject> {
    if fd < inner.fd_table@.len() {
        inner.fd_table@[fd as int]
    } else {
        None
    }
}

/// What a `write` call comes to.
pub enum WriteOutcome {
    /// The descriptor is not open for writing: the call returns -1.
    Failed,
    /// The bytes go to the console, all of them.
    ToConsole,
    /// This many bytes went into a file.
    Written(usize),
}

/// What a `read` call comes to.
pub enum ReadOutcome {
    /// The descriptor is not open for reading: the call returns -1.
    Failed,
    /// The bytes come from the console.
    FromConsole,
    /// These bytes came from a file.
    Data(Vec<u8>),
}

/// The open file `f` can be used: its cursor exists and its inode holds
/// content.  Both hold from the moment `open_file` hands `f` out, since
/// cursors are never dropped and inodes never lose their content.
pub open spec fn usable(f: OSInode, open_files: &OpenFiles, fs: &EasyFileSystem) -> bool {
    f.handle < open_files.offsets@.len() && fs.valid(f.inode_id as int)
}

/// An open file stays usable across every operation that keeps the
/// inodes' content and does not drop cursors: no descriptor outlives the
/// inode it refers to.
pub proof fn lemma_usable_kept(
    f: OSInode,
    files_before: OpenFiles,
    files_after: OpenFiles,
    fs_before: EasyFileSystem,
    fs_after: EasyFileSystem,
)
    requires
        usable(f, &files_before, &fs_before),
        files_before.offsets@.len() <= files_after.offsets@.len(),
        keeps_inodes(fs_before, fs_after),
    ensures
        usable(f, &files_after, &fs_after),
{
    assert(fs_before.valid(f.inode_id as int));
}

/// The cursor of the open file `f`.
pub open spec fn cursor(f: OSInode, open_files: &OpenFiles) -> usize {
    open_files.offsets@[f.handle as int]
}

/// Writes `buf` through descriptor `fd`: to the console, or into a file at
/// its cursor, which then moves past the written bytes.  A descriptor that
/// is not open for writing fails.
pub fn sys_write(
    inner: &ProcessControlBlockInner,
    open_files: &mut OpenFiles,
    fs: &mut EasyFileSystem,
    fd: usize,
    buf: &[u8],
) -> (r: WriteOutcome)
    requires
        match fd_file(inner, fd) {
            Some(FileObject::Disk(f)) => f.writable ==> usable(f, old(open_files), old(fs)) && cursor(
                f,
                old(open_files),
            ) + buf@.len() <= u32::MAX,
            _ => true,
        },
    ensures
        old(fs).wf() ==> final(fs).wf(),
        keeps_inodes(*old(fs), *final(fs)),
        final(fs).inode_bitmap@ == old(fs).inode_bitmap@,
        final(open_files).offsets@.len() == old(open_files).offsets@.len(),
        match fd_file(inner, fd) {
            Some(FileObject::Disk(f)) if f.writable => {
                let off = cursor(f, old(open_files));
                &&& r == WriteOutcome::Written(buf@.len() as usize)
                &&& final(fs).inodes@.len() == old(fs).inodes@.len()
                &&& inodes_same_except(
                    old(fs).inodes@,
                    final(fs).inodes@,
                    f.inode_id as int,
                    f.inode_id as int,
                )
                &&& final(fs).valid(f.inode_id as int)
                &&& final(fs).disk_inode(f.inode_id as int).data@ == written(
                    old(fs).disk_inode(f.inode_id as int).data@,
                    off as int,
                    buf@,
                )
                &&& final(fs).disk_inode(f.inode_id as int).nlink == old(fs).disk_inode(
                    f.inode_id as int,
                ).nlink
                &&& final(fs).disk_inode(f.inode_id as int).type_ == old(fs).disk_inode(
                    f.inode_id as int,
                ).type_
                &&& final(open_files).offsets@ == old(open_files).offsets@.update(
                    f.handle as int,
                    (off + buf@.len()) as usize,
                )
            },
            Some(FileObject::Stdout) => r is ToConsole && *final(open_files) == *old(open_files)
                && *final(fs) == *old(fs),
            _ => r is Failed && *final(open_files) == *old(open_files) && *final(fs) == *old(fs),
        },
{
    if fd >= inner.fd_table.len() {
        return WriteOutcome::Failed;
    }
    match inner.fd_table[fd] {
        None => WriteOutcome::Failed,
        Some(file) => {
            if !file.writable() {
                return WriteOutcome::Failed;
            }
            match file {
                FileObject::Disk(f) => {
                    let inode = Inode::new(f.inode_id);
                    let off = open_files.offsets[f.handle];
                    let n = inode.write_at(fs, off, buf);
                    open_files.offsets.set(f.handle, off + n);
                    WriteOutcome::Written(n)
                },
                _ => WriteOutcome::ToConsole,
            }
        },
    }
}

/// Reads at most `len` bytes through descriptor `fd`: from the console, or
/// from a file at its cursor, which then moves past the bytes read.  A
/// descriptor that is not open for reading fails.
pub fn sys_read(
    inner: &ProcessControlBlockInner,
    open_files: &mut OpenFiles,
    fs: &EasyFileSystem,
    fd: usize,
    len: usize,
) -> (r: ReadOutcome)
    requires
        match fd_file(inner, fd) {
            Some(FileObject::Disk(f)) => f.readable ==> usable(f, old(open_files), fs),
            _ => true,
        },
    ensures
        final(open_files).offsets@.len() == old(open_files).offsets@.len(),
        match fd_file(inner, fd) {
            Some(FileObject::Disk(f)) if f.readable => {
                let off = cursor(f, old(open_files));
                let got = read_result(fs.disk_inode(f.inode_id as int).data@, off as int, len as int);
                &&& r is Data
                &&& r->Data_0@ == got
                &&& final(open_files).offsets@ == old(open_files).offsets@.update(
                    f.handle as int,
                    (off + got.len()) as usize,
                )
            },
            Some(FileObject::Stdin) => r is FromConsole && *final(open_files) == *old(open_files),
            _ => r is Failed && *final(open_files) == *old(open_files),
        },
{
    if fd >= inner.fd_table.len() {
        return ReadOutcome::Failed;
    }
    match inner.fd_table[fd] {
        None => ReadOutcome::Failed,
        Some(file) => {
            if !file.readable() {
                return ReadOutcome::Failed;
            }
            match file {
                FileObject::Disk(f) => {
                    let inode = Inode::new(f.inode_id);
                    let off = open_files.offsets[f.handle];
                    let mut buf: Vec<u8> = Vec::new();
                    let mut k: usize = 0;
                    while k < len
                        invariant
                            k <= len,
                            buf@.len() == k,
                        decreases len - k,
                    {
                        buf.push(0);
                        k = k + 1;
                    }
                    let n = inode.read_at(fs, off, buf.as_mut_slice());
                    buf.truncate(n);
                    proof {
                        let got = read_result(
                            fs.disk_inode(f.inode_id as int).data@,
                            off as int,
                            len as int,
                        );
                        assert(buf@ =~= got);
                        let d = fs.disk_inode(f.inode_id as int);
                        assert(d.data@.len() == d.data.len());
                        assert(off + n <= d.data@.len() || n == 0);
                    }
                    open_files.offsets.set(f.handle, off + n);
                    ReadOutcome::Data(buf)
                },
                _ => ReadOutcome::FromConsole,
            }
        },
    }
}

/// Two reads through one open file, as `sys_read` performs them, start at
/// the file's stored offset and continue where the first stopped: together
/// they give the bytes of one read of both lengths from that offset, and
/// the offset moves past all of them.
pub proof fn lemma_two_reads(
    f: OSInode,
    files0: OpenFiles,
    files1: OpenFiles,
    files2: OpenFiles,
    data: Seq<u8>,
    n1: usize,
    n2: usize,
    got1: Seq<u8>,
    got2: Seq<u8>,
)
    requires
        f.handle < files0.offsets@.len(),
        data.len() <= usize::MAX,
        got1 == read_result(data, cursor(f, &files0) as int, n1 as int),
        files1.offsets@ == files0.offsets@.update(
            f.handle as int,
            (cursor(f, &files0) + got1.len()) as usize,
        ),
        got2 == read_result(data, cursor(f, &files1) as int, n2 as int),
        files2.offsets@ == files1.offsets@.update(
            f.handle as int,
            (cursor(f, &files1) + got2.len()) as usize,
        ),
    ensures
        got1 + got2 == read_result(data, files0.offsets@[f.handle as int] as int, n1 + n2),
        files2.offsets@[f.handle as int] == files0.offsets@[f.handle as int] + got1.len()
            + got2.len(),
{
    let o = files0.offsets@[f.handle as int] as int;
    assert(cursor(f, &files0) == o);
    assert(got1.len() == 0 || o + got1.len() <= data.len());
    assert(cursor(f, &files1) == o + got1.len());
    assert(got2.len() == 0 || o + got1.len() + got2.len() <= data.len());
    lemma_reads_consecutive(data, o, n1 as int, n2 as int);
}

/// Two writes through one open file, as `sys_write` performs them, start
/// at the file's stored offset and the second continues where the first
/// stopped: the file ends as after one write of both buffers together, it
/// holds both buffers back to back from that offset, and the offset moves
/// past both.
pub proof fn lemma_two_writes(
    f: OSInode,
    files0: OpenFiles,
    files1: OpenFiles,
    files2: OpenFiles,
    data0: Seq<u8>,
    data1: Seq<u8>,
    data2: Seq<u8>,
    buf1: Seq<u8>,
    buf2: Seq<u8>,
)
    requires
        f.handle < files0.offsets@.len(),
        files0.offsets@[f.handle as int] + buf1.len() + buf2.len() <= usize::MAX,
        data1 == written(data0, cursor(f, &files0) as int, buf1),
        files1.offsets@ == files0.offsets@.update(
            f.handle as int,
            (cursor(f, &files0) + buf1.len()) as usize,
        ),
        data2 == written(data1, cursor(f, &files1) as int, buf2),
        files2.offsets@ == files1.offsets@.update(
            f.handle as int,
            (cursor(f, &files1) + buf2.len()) as usize,
        ),
    ensures
        ({
            let o = files0.offsets@[f.handle as int] as int;
            &&& data2 == written(data0, o, buf1 + buf2)
            &&& data2.subrange(o, o + buf1.len() + buf2.len()) == buf1 + buf2
            &&& files2.offsets@[f.handle as int] == o + buf1.len() + buf2.len()
        }),
{
    let o = files0.offsets@[f.handle as int] as int;
    assert(cursor(f, &files0) == o);
    assert(cursor(f, &files1) == o + buf1.len());
    lemma_writes_append(data0, o, buf1, buf2);
    let both = buf1 + buf2;
    lemma_write_keeps_other_bytes(data0, o, both);
    assert forall|i: int| 0 <= i < both.len() implies #[trigger] data2.subrange(
        o,
        o + both.len(),
    )[i] == both[i] by {
        assert(data2[o + i] == both[i]);
    }
    assert(data2.subrange(o, o + both.len()) =~= both);
}

/// How the open flags decide the access mode: no flag at all opens for
/// reading only, `O_WRONLY` for writing only, anything else (`O_RDWR`,
/// or `O_CREATE` / `O_TRUNC` alone) for both; `O_CREATE` and `O_TRUNC`
/// never change the mode of a non-empty set of flags.
pub proof fn lemma_open_mode(flags: u32)
    ensures
        spec_read_write(0) == (true, false),
        flags & O_WRONLY != 0 ==> spec_read_write(flags) == (false, true),
        flags != 0 && flags & O_WRONLY == 0 ==> spec_read_write(flags) == (true, true),
        flags != 0 ==> spec_read_write(flags | O_TRUNC) == spec_read_write(flags),
        flags != 0 ==> spec_read_write(flags | O_CREATE) == spec_read_write(flags),
        spec_read_write(O_RDWR) == (true, true),
        spec_read_write(O_RDWR | O_TRUNC) == (true, true),
        spec_read_write(O_RDWR | O_CREATE) == (true, true),
        spec_read_write(O_TRUNC) == (true, true),
        spec_read_write(O_CREATE) == (true, true),
        spec_read_write(O_WRONLY | O_TRUNC) == (false, true),
        spec_read_write(O_WRONLY | O_CREATE) == (false, true),
{
    assert(flags & 1 != 0 ==> flags != 0) by (bit_vector);
    assert((flags | 1024u32) != 0 && (flags | 1024u32) & 1 == flags & 1) by (bit_vector);
    assert((flags | 512u32) != 0 && (flags | 512u32) & 1 == flags & 1) by (bit_vector);
    assert((2u32 | 1024u32) & 1 == 0 && (2u32 | 512u32) & 1 == 0 && 1024u32 & 1 == 0 && 512u32
        & 1 == 0 && 2u32 & 1 == 0) by (bit_vector);
    assert((1u32 | 1024u32) & 1 != 0 && (1u32 | 512u32) & 1 != 0) by (bit_vector);
    assert((2u32 | 1024u32) != 0 && (2u32 | 512u32) != 0 && (1u32 | 1024u32) != 0 && (1u32 | 512u32)
        != 0) by (bit_vector);
}

/// Open for writing only.
pub const O_WRONLY: u32 = 1;
/// Open for reading and writing.
pub const O_RDWR: u32 = 2;
/// Create the file when it is missing, empty it when it exists.
pub const O_CREATE: u32 = 512;
/// Empty the file.
pub const O_TRUNC: u32 = 1024;

/// `flags` holds only known open flags.
pub open spec fn flags_known(flags: u32) -> bool {
    flags & !(O_WRONLY | O_RDWR | O_CREATE | O_TRUNC) == 0
}

/// Whether a file opened with `flags` may be read and written: no flag
/// at all opens for reading only, `O_WRONLY` for writing only, and
/// anything else for both.
pub open spec fn spec_read_write(flags: u32) -> (bool, bool) {
    if flags == 0 {
        (true, false)
    } else if flags & O_WRONLY != 0 {
        (false, true)
    } else {
        (true, true)
    }
}

/// Whether a file opened with `flags` may be read and written.
pub fn read_write(flags: u32) -> (rw: (bool, bool))
    ensures
        rw == spec_read_write(flags),
{
    if flags == 0 {
        (true, false)
    } else if flags & O_WRONLY != 0 {
        (false, true)
    } else {
        (true, true)
    }
}

/// Opening `name` with `flags` creates a new file.
pub open spec fn open_creates(fs: &EasyFileSystem, name: Seq<char>, flags: u32) -> bool {
    flags & O_CREATE != 0 && !has_entry(fs.root_entries(), name)
}

/// Opens the file `name` of the root directory as `flags` ask and gives it
/// a new cursor at offset 0.  With `O_CREATE` a missing file is created and
/// an existing one emptied; otherwise a missing file gives `None`, and
/// `O_TRUNC` empties an existing one.
pub fn open_file(fs: &mut EasyFileSystem, open_files: &mut OpenFiles, name: &str, flags: u32) -> (r:
    Option<FileObject>)
    requires
        old(fs).wf(),
        flags_known(flags),
        old(open_files).offsets@.len() < usize::MAX,
        open_creates(old(fs), name@, flags) ==> old(fs).inodes@.len() < u32::MAX && (old(
            fs,
        ).root_entries().len() + 1) * DIRENT_SZ <= u32::MAX,
    ensures
        final(fs).wf(),
        keeps_inodes(*old(fs), *final(fs)),
        ({
            let root = old(fs).root_entries();
            let (readable, writable) = spec_read_write(flags);
            let handle = old(open_files).offsets@.len() as usize;
            match first_match(root, name@) {
                Some(k) => {
                    let id = root[k].inode_id;
                    &&& r == Some(FileObject::Disk(OSInode { readable, writable, inode_id: id, handle }))
                    &&& final(open_files).offsets@ == old(open_files).offsets@.push(0)
                    &&& (flags & (O_CREATE | O_TRUNC) != 0 ==> {
                        &&& final(fs).valid(id as int)
                        &&& final(fs).disk_inode(id as int).data@.len() == 0
                        &&& final(fs).disk_inode(id as int).nlink == old(fs).disk_inode(id as int).nlink
                        &&& final(fs).root_entries() == root
                        &&& inodes_same_except(old(fs).inodes@, final(fs).inodes@, id as int, id as int)
                    })
                    &&& (flags & (O_CREATE | O_TRUNC) == 0 ==> *final(fs) == *old(fs))
                },
                None => if flags & O_CREATE != 0 {
                    &&& r is Some
                    &&& r->0 is Disk
                    &&& ({
                        let f = r->0->Disk_0;
                        let id = f.inode_id as int;
                        &&& f == OSInode { readable, writable, inode_id: f.inode_id, handle }
                        &&& final(open_files).offsets@ == old(open_files).offsets@.push(0)
                        &&& 0 < id <= old(fs).inodes@.len()
                        &&& !old(fs).allocated(id)
                        &&& final(fs).allocated(id)
                        &&& final(fs).valid(id)
                        &&& final(fs).disk_inode(id).type_ == DiskInodeType::File
                        &&& final(fs).disk_inode(id).nlink == 1
                        &&& final(fs).disk_inode(id).data@.len() == 0
                        &&& final(fs).root_entries().drop_last() == root
                        &&& final(fs).root_entries().len() == root.len() + 1
                        &&& final(fs).root_entries().last().name@ == name@
                        &&& final(fs).root_entries().last().inode_id == id
                    })
                } else {
                    r is None && *final(fs) == *old(fs) && *final(open_files) == *old(open_files)
                },
            }
        }),
{
    let (readable, writable) = read_write(flags);
    let root = Inode::new(ROOT_INODE_ID);
    let ghost fs0 = *fs;
    let found = root.find(fs, name);
    proof {
        if has_entry(fs0.root_entries(), name@) {
            lemma_has_entry_first_match(fs0.root_entries(), name@);
        } else {
            lemma_no_entry(fs0.root_entries(), name@);
        }
    }
    let inode = match found {
        Some(inode) => {
            proof {
                let k = first_match(fs0.root_entries(), name@)->0;
                assert(fs0.inode_bitmap@[fs0.root_entries()[k].inode_id as int]);
                assert(fs0.inodes@[fs0.root_entries()[k].inode_id as int] is Some);
            }
            if flags & O_CREATE != 0 || flags & O_TRUNC != 0 {
                inode.clear(fs);
                proof {
                    let id = inode.inode_id as int;
                    assert(fs.disk_inode(id).entries@ =~= fs0.disk_inode(id).entries@);
                    lemma_wf_after_content(fs0, *fs, id);
                    assert(flags & (O_CREATE | O_TRUNC) != 0) by (bit_vector)
                        requires
                            flags & 512 != 0 || flags & 1024 != 0,
                    ;
                }
            } else {
                proof {
                    assert(flags & (O_CREATE | O_TRUNC) == 0) by (bit_vector)
                        requires
                            flags & 512 == 0 && flags & 1024 == 0,
                    ;
                }
            }
            inode
        },
        None => {
            if flags & O_CREATE == 0 {
                return None;
            }
            root.create(fs, name).unwrap()
        },
    };
    let handle = open_files.open();
    Some(FileObject::Disk(OSInode { readable, writable, inode_id: inode.inode_id, handle }))
}

/// Installs `file`, the result of opening a path, at the lowest free
/// descriptor and returns it; -1 when the open failed.
pub fn sys_open(inner: &mut ProcessControlBlockInner, file: Option<FileObject>) -> (r: isize)
    requires
        old(inner).fd_table@.len() < isize::MAX,
    ensures
        file is None ==> r == -1 && *final(inner) == *old(inner),
        file is Some ==> {
            let fd = r as int;
            &&& 0 <= fd <= old(inner).fd_table@.len()
            &&& forall|k: int| 0 <= k < fd ==> #[trigger] old(inner).fd_table@[k] is Some
            &&& fd < old(inner).fd_table@.len() ==> old(inner).fd_table@[fd] is None
                && final(inner).fd_table@ == old(inner).fd_table@.update(fd, file)
            &&& fd == old(inner).fd_table@.len() ==> final(inner).fd_table@ == old(
                inner,
            ).fd_table@.push(file)
            &&& same_except(*final(inner), *old(inner), set![InnerField::FdTable])
        },
{
    match file {
        Some(f) => {
            let fd = inner.alloc_fd();
            inner.fd_table.set(fd, Some(f));
            proof {
                if fd == old(inner).fd_table@.len() {
                    assert(inner.fd_table@ =~= old(inner).fd_table@.push(file));
                }
            }
            fd as isize
        },
        None => -1,
    }
}

/// Closes descriptor `fd`: 0, or -1 when it is not open.
pub fn sys_close(inner: &mut ProcessControlBlockInner, fd: usize) -> (r: isize)
    ensures
        same_except(*final(inner), *old(inner), set![InnerField::FdTable]),
        fd_file(old(inner), fd) is None ==> r == -1 && *final(inner) == *old(inner),
        fd_file(old(inner), fd) is Some ==> r == 0 && final(inner).fd_table@ == old(
            inner,
        ).fd_table@.update(fd as int, None),
{
    if fd >= inner.fd_table.len() {
        return -1;
    }
    if inner.fd_table[fd].is_none() {
        return -1;
    }
    inner.fd_table.set(fd, None);
    0
}

/// The status of the file system object behind descriptor `fd`; `None`
/// when `fd` is not open or not a file of the file system.
pub fn sys_fstat(inner: &ProcessControlBlockInner, fs: &EasyFileSystem, fd: usize) -> (st: Option<Stat>)
    requires
        match fd_file(inner, fd) {
            Some(FileObject::Disk(f)) => fs.valid(f.inode_id as int),
            _ => true,
        },
    ensures
        match fd_file(inner, fd) {
            Some(FileObject::Disk(f)) => {
                let d = fs.disk_inode(f.inode_id as int);
                st == Some(
                    Stat {
                        dev: 0,
                        ino: f.inode_id as u64,
                        mode: if d.type_ == DiskInodeType::File {
                            StatMode::File
                        } else {
                            StatMode::Dir
                        },
                        nlink: d.nlink,
                    },
                )
            },
            _ => st is None,
        },
{
    if fd >= inner.fd_table.len() {
        return None;
    }
    match inner.fd_table[fd] {
        Some(file) => {
            if !file.is_disk_file() {
                return None;
            }
            match file {
                FileObject::Disk(f) => {
                    let inode = Inode::new(f.inode_id);
                    let mode = if inode.is_file(fs) {
                        StatMode::File
                    } else if inode.is_directory(fs) {
                        StatMode::Dir
                    } else {
                        StatMode::Null
                    };
                    Some(
                        Stat {
                            dev: 0,
                            ino: inode.get_inode_id() as u64,
                            mode,
                            nlink: inode.get_num_of_links(fs),
                        },
                    )
                },
                _ => None,
            }
        },
        None => None,
    }
}

/// Links `new_name` to the file `old_name` in the root directory: 0, or
/// -1 when `old_name` is missing or `new_name` is taken.
pub fn sys_linkat(fs: &mut EasyFileSystem, old_name: &str, new_name: &str) -> (r: isize)
    requires
        old(fs).wf(),
        has_entry(old(fs).root_entries(), old_name@) && !has_entry(old(fs).root_entries(), new_name@)
            ==> (old(fs).root_entries().len() + 1) * DIRENT_SZ <= u32::MAX,
    ensures
        final(fs).wf(),
        keeps_inodes(*old(fs), *final(fs)),
        ({
            let root = old(fs).root_entries();
            let ok = has_entry(root, old_name@) && !has_entry(root, new_name@);
            &&& !ok ==> r == -1 && *final(fs) == *old(fs)
            &&& ok ==> {
                let k = first_match(root, old_name@)->0;
                let id = root[k].inode_id as int;
                &&& r == 0
                &&& final(fs).root_entries().len() == root.len() + 1
                &&& final(fs).root_entries().drop_last() == root
                &&& final(fs).root_entries().last().name@ == new_name@
                &&& final(fs).root_entries().last().inode_id == id
                &&& final(fs).valid(id)
                &&& final(fs).disk_inode(id).nlink == old(fs).disk_inode(id).nlink + 1
                &&& final(fs).disk_inode(id).data == old(fs).disk_inode(id).data
                &&& final(fs).inode_bitmap@ == old(fs).inode_bitmap@
                &&& inodes_same_except(old(fs).inodes@, final(fs).inodes@, 0, id)
            }
        }),
{
    let root = Inode::new(ROOT_INODE_ID);
    linkat(old_name, new_name, &root, fs)
}

/// Removes the name `name` from the root directory: 0, or -1 when it is missing.
pub fn sys_unlinkat(fs: &mut EasyFileSystem, name: &str) -> (r: isize)
    requires
        old(fs).wf(),
    ensures
        final(fs).wf(),
        keeps_inodes(*old(fs), *final(fs)),
        !has_entry(old(fs).root_entries(), name@) ==> r == -1 && *final(fs) == *old(fs),
        has_entry(old(fs).root_entries(), name@) ==> {
            let root = old(fs).root_entries();
            let k = first_match(root, name@)->0;
            let id = root[k].inode_id as int;
            &&& r == 0
            &&& !has_entry(final(fs).root_entries(), name@)
            &&& final(fs).root_entries() == crate::vfs::swap_remove(root, k)
            &&& final(fs).valid(id)
            &&& old(fs).disk_inode(id).nlink > 1 ==> final(fs).disk_inode(id).nlink == old(
                fs,
            ).disk_inode(id).nlink - 1 && final(fs).disk_inode(id).data == old(fs).disk_inode(
                id,
            ).data && final(fs).inode_bitmap@ == old(fs).inode_bitmap@
            &&& old(fs).disk_inode(id).nlink <= 1 ==> final(fs).disk_inode(id).data@.len() == 0
                && final(fs).inode_bitmap@ == old(fs).inode_bitmap@.update(id, false)
            &&& inodes_same_except(old(fs).inodes@, final(fs).inodes@, 0, id)
        },
{
    let root = Inode::new(ROOT_INODE_ID);
    let r = unlinkat(name, &root, fs);
    proof {
        if has_entry(old(fs).root_entries(), name@) {
            crate::vfs::lemma_has_entry_first_match(old(fs).root_entries(), name@);
            let k = crate::vfs::first_match(old(fs).root_entries(), name@)->0;
            crate::vfs::lemma_swap_remove_unique(old(fs).root_entries(), k);
        }
    }
    r
}

/// Closing the descriptor that `open` just returned succeeds, a second
/// close of it fails, the other descriptors are as before the open, and
/// the next open gets the same descriptor again.
pub proof fn lemma_close_after_open(
    before: ProcessControlBlockInner,
    opened: ProcessControlBlockInner,
    closed: ProcessControlBlockInner,
    file: FileObject,
    fd: usize,
)
    requires
        0 <= fd <= before.fd_table@.len(),
        forall|k: int| 0 <= k < fd ==> #[trigger] before.fd_table@[k] is Some,
        fd < before.fd_table@.len() ==> before.fd_table@[fd as int] is None && opened.fd_table@
            == before.fd_table@.update(fd as int, Some(file)),
        fd == before.fd_table@.len() ==> opened.fd_table@ == before.fd_table@.push(Some(file)),
        closed.fd_table@ == opened.fd_table@.update(fd as int, None),
    ensures
        fd_file(&opened, fd) == Some(file),
        fd_file(&closed, fd) is None,
        forall|j: int| 0 <= j < before.fd_table@.len() ==> #[trigger] closed.fd_table@[j] == before.fd_table@[j],
        forall|k: int| 0 <= k < fd ==> #[trigger] closed.fd_table@[k] is Some,
{
}

} // verus!
