//! Loading user programs from the file system.
use vstd::prelude::*;
use crate::vfs::{first_match, EasyFileSystem, Inode, ROOT_INODE_ID};

verus! {

/// A copy of `v`.
pub fn copy_bytes(v: &Vec<u8>) -> (c: Vec<u8>)
    ensures
        c@ == v@,
{
    let mut c: Vec<u8> = Vec::new();
    let mut k: usize = 0;
    while k < v.len()
        invariant
            k <= v@.len(),
            c@ == v@.take(k as int),
        decreases v@.len() - k,
    {
        c.push(v[k]);
        k = k + 1;
        assert(c@ =~= v@.take(k as int));
    }
    assert(c@ =~= v@);
    c
}

/// The content of the program file `name` of the root directory, if any.
pub fn get_app_data_by_name(fs: &EasyFileSystem, name: &str) -> (data: Option<Vec<u8>>)
    requires
        fs.wf(),
    ensures
        match first_match(fs.root_entries(), name@) {
            Some(k) => data is Some && data->0@ == fs.disk_inode(
                fs.root_entries()[k].inode_id as int,
            ).data@,
            None => data is None,
        },
{
    let root = Inode::new(ROOT_INODE_ID);
    match root.find(fs, name) {
        Some(inode) => {
            proof {
                let k = first_match(fs.root_entries(), name@)->0;
                assert(fs.inodes@[fs.root_entries()[k].inode_id as int] is Some);
            }
            let d = fs.inodes[inode.inode_id as usize].as_ref().unwrap();
            Some(copy_bytes(&d.data))
        },
        None => None,
    }
}

} // verus!
