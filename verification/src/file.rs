//! Open files as a process holds them in its descriptor table, and the
//! status record that `fstat` reports.
use vstd::prelude::*;

verus! {

/// An open regular file or directory of the file system.  Descriptors
/// that share `handle` (as after `fork`) share one cursor in `OpenFiles`.
#[derive(Clone, Copy, PartialEq, Eq, Debug, Structural)]
pub struct OSInode {
    pub readable: bool,
    pub writable: bool,
    pub inode_id: u32,
    /// Which cursor of `OpenFiles` this open file moves.
    pub handle: usize,
}

/// The cursors of all open files of the file system, indexed by handle.
pub struct OpenFiles {
    pub offsets: Vec<usize>,
}

impl OpenFiles {
    /// No open files.
    pub fn new() -> (t: OpenFiles)
        ensures
            t.offsets@.len() == 0,
    {
        OpenFiles { offsets: Vec::new() }
    }

    /// A new cursor at offset 0; returns its handle.
    pub fn open(&mut self) -> (handle: usize)
        requires
            old(self).offsets@.len() < usize::MAX,
        ensures
            handle == old(self).offsets@.len(),
            final(self).offsets@ == old(self).offsets@.push(0),
    {
        self.offsets.push(0);
        self.offsets.len() - 1
    }
}

/// What a file descriptor refers to.
#[derive(Clone, Copy, PartialEq, Eq, Debug, Structural)]
pub enum FileObject {
    /// The console's input; readable only.
    Stdin,
    /// The console's output; writable only.
    Stdout,
    /// A file of the file system.
    Disk(OSInode),
}

impl FileObject {
    pub open spec fn spec_readable(self) -> bool {
        match self {
            FileObject::Stdin => true,
            FileObject::Stdout => false,
            FileObject::Disk(f) => f.readable,
        }
    }

    pub open spec fn spec_writable(self) -> bool {
        match self {
            FileObject::Stdin => false,
            FileObject::Stdout => true,
            FileObject::Disk(f) => f.writable,
        }
    }

    /// Whether reading through this file is allowed.
    pub fn readable(&self) -> (b: bool)
        ensures
            b == self.spec_readable(),
    {
        match self {
            FileObject::Stdin => true,
            FileObject::Stdout => false,
            FileObject::Disk(f) => f.readable,
        }
    }

    /// Whether writing through this file is allowed.
    pub fn writable(&self) -> (b: bool)
        ensures
            b == self.spec_writable(),
    {
        match self {
            FileObject::Stdin => false,
            FileObject::Stdout => true,
            FileObject::Disk(f) => f.writable,
        }
    }

    /// Whether this is a file of the file system.
    pub fn is_disk_file(&self) -> (b: bool)
        ensures
            b == (*self is Disk),
    {
        match self {
            FileObject::Disk(_) => true,
            _ => false,
        }
    }
}

/// The kind of object a status record describes.
#[derive(Clone, Copy, PartialEq, Eq, Debug, Structural)]
pub enum StatMode {
    Null,
    Dir,
    File,
}

/// The status of a file, as `fstat` reports it.
#[derive(Clone, Copy, PartialEq, Eq, Debug, Structural)]
pub struct Stat {
    /// The device the file lives on; always 0.
    pub dev: u64,
    /// The inode number.
    pub ino: u64,
    pub mode: StatMode,
    /// The number of hard links.
    pub nlink: u32,
}

} // verus!
