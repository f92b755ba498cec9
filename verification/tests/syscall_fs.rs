use rcore_os::file::{FileObject, OSInode, OpenFiles, StatMode};
use rcore_os::loader::get_app_data_by_name;
use rcore_os::manager::TaskManager;
use rcore_os::memory::MemorySet;
use rcore_os::process::{LoadedProgram, ProcessControlBlock};
use rcore_os::syscall_fs::{
    open_file, read_write, sys_close, sys_fstat, sys_linkat, sys_open, sys_read, sys_unlinkat,
    sys_write, ReadOutcome, WriteOutcome, O_CREATE, O_RDWR, O_TRUNC, O_WRONLY,
};
use rcore_os::vfs::EasyFileSystem;

fn disk(inode_id: u32, readable: bool, writable: bool, handle: usize) -> FileObject {
    FileObject::Disk(OSInode { readable, writable, inode_id, handle })
}

fn setup() -> (ProcessControlBlock, EasyFileSystem, OpenFiles) {
    let mut fs = EasyFileSystem::new();
    let root = fs.root_inode();
    root.create(&mut fs, "file").unwrap();
    let prog = LoadedProgram { memory_set: MemorySet::new(0), ustack_base: 0, ustack_top: 0, entry_point: 0 };
    let p = ProcessControlBlock::new(&mut TaskManager::new(), prog, 0, 0, 0);
    (p, fs, OpenFiles::new())
}

fn data(r: ReadOutcome) -> Vec<u8> {
    match r {
        ReadOutcome::Data(d) => d,
        _ => panic!("expected data"),
    }
}

#[test]
fn open_and_close() {
    let (mut p, _fs, _of) = setup();
    assert_eq!(sys_open(&mut p.inner, None), -1);
    assert_eq!(sys_open(&mut p.inner, Some(disk(1, true, true, 0))), 3);
    assert_eq!(p.inner.fd_table[3], Some(disk(1, true, true, 0)));
    assert_eq!(sys_close(&mut p.inner, 3), 0);
    assert_eq!(p.inner.fd_table[3], None);
    assert_eq!(sys_close(&mut p.inner, 3), -1);
    assert_eq!(sys_close(&mut p.inner, 100), -1);
    assert_eq!(sys_open(&mut p.inner, Some(disk(1, true, false, 0))), 3);
    assert_eq!(sys_close(&mut p.inner, 0), 0);
    assert_eq!(sys_open(&mut p.inner, Some(FileObject::Stdin)), 0);
}

#[test]
fn write_and_read_through_descriptors() {
    let (mut p, mut fs, mut of) = setup();
    let wf = open_file(&mut fs, &mut of, "file", O_WRONLY).unwrap();
    let rf = open_file(&mut fs, &mut of, "file", 0).unwrap();
    let w = sys_open(&mut p.inner, Some(wf)) as usize;
    let r = sys_open(&mut p.inner, Some(rf)) as usize;
    assert!(matches!(sys_write(&p.inner, &mut of, &mut fs, w, b"abc"), WriteOutcome::Written(3)));
    assert!(matches!(sys_write(&p.inner, &mut of, &mut fs, w, b"de"), WriteOutcome::Written(2)));
    assert_eq!(data(sys_read(&p.inner, &mut of, &fs, r, 4)), b"abcd".to_vec());
    assert_eq!(data(sys_read(&p.inner, &mut of, &fs, r, 4)), b"e".to_vec());
    assert!(data(sys_read(&p.inner, &mut of, &fs, r, 4)).is_empty());
    // wrong direction, out of range, closed
    assert!(matches!(sys_write(&p.inner, &mut of, &mut fs, r, b"x"), WriteOutcome::Failed));
    assert!(matches!(sys_read(&p.inner, &mut of, &fs, w, 1), ReadOutcome::Failed));
    assert!(matches!(sys_read(&p.inner, &mut of, &fs, 99, 1), ReadOutcome::Failed));
    sys_close(&mut p.inner, w);
    assert!(matches!(sys_write(&p.inner, &mut of, &mut fs, w, b"x"), WriteOutcome::Failed));
    // the console
    assert!(matches!(sys_write(&p.inner, &mut of, &mut fs, 1, b"x"), WriteOutcome::ToConsole));
    assert!(matches!(sys_read(&p.inner, &mut of, &fs, 0, 1), ReadOutcome::FromConsole));
    assert!(matches!(sys_write(&p.inner, &mut of, &mut fs, 0, b"x"), WriteOutcome::Failed));
    assert!(matches!(sys_read(&p.inner, &mut of, &fs, 1, 1), ReadOutcome::Failed));
}

#[test]
fn forked_descriptors_share_the_cursor() {
    let (mut p, mut fs, mut of) = setup();
    let f = open_file(&mut fs, &mut of, "file", O_RDWR).unwrap();
    let fd = sys_open(&mut p.inner, Some(f)) as usize;
    assert!(matches!(sys_write(&p.inner, &mut of, &mut fs, fd, b"hello"), WriteOutcome::Written(5)));
    let _ = sys_close(&mut p.inner, fd);
    let f = open_file(&mut fs, &mut of, "file", 0).unwrap();
    let fd = sys_open(&mut p.inner, Some(f)) as usize;
    p.fork(&mut TaskManager::new(), 0, 0);
    let child = &p.inner.children[0];
    assert_eq!(data(sys_read(&child.inner, &mut of, &fs, fd, 2)), b"he".to_vec());
    // the parent continues where the child stopped
    assert_eq!(data(sys_read(&p.inner, &mut of, &fs, fd, 10)), b"llo".to_vec());
}

#[test]
fn descriptor_outlives_the_name() {
    let (mut p, mut fs, mut of) = setup();
    let f = open_file(&mut fs, &mut of, "file", O_RDWR).unwrap();
    let fd = sys_open(&mut p.inner, Some(f)) as usize;
    assert!(matches!(sys_write(&p.inner, &mut of, &mut fs, fd, b"abc"), WriteOutcome::Written(3)));
    assert_eq!(sys_unlinkat(&mut fs, "file"), 0);
    assert!(!fs.is_allocated(1));
    assert!(fs.has_inode(1));
    // the freed file was emptied; the descriptor still reads and writes it
    assert!(data(sys_read(&p.inner, &mut of, &fs, fd, 1)).is_empty());
    assert!(matches!(sys_write(&p.inner, &mut of, &mut fs, fd, b"xy"), WriteOutcome::Written(2)));
    let st = sys_fstat(&p.inner, &fs, fd).unwrap();
    assert_eq!((st.ino, st.mode, st.nlink), (1, StatMode::File, 1));
}

#[test]
fn open_flags() {
    let (_p, mut fs, mut of) = setup();
    assert_eq!(read_write(0), (true, false));
    assert_eq!(read_write(O_WRONLY), (false, true));
    assert_eq!(read_write(O_RDWR), (true, true));
    assert_eq!(read_write(O_CREATE), (true, true));
    assert_eq!(open_file(&mut fs, &mut of, "new", 0), None);
    assert_eq!(of.offsets.len(), 0);
    let f = open_file(&mut fs, &mut of, "new", O_CREATE | O_WRONLY).unwrap();
    assert_eq!(f, disk(2, false, true, 0));
    let root = fs.root_inode();
    let file = root.find(&fs, "file").unwrap();
    file.write_at(&mut fs, 0, b"abc");
    let g = open_file(&mut fs, &mut of, "file", 0).unwrap();
    assert_eq!(g, disk(1, true, false, 1));
    let mut buf = [0u8; 3];
    assert_eq!(file.read_at(&fs, 0, &mut buf), 3);
    open_file(&mut fs, &mut of, "file", O_TRUNC).unwrap();
    assert_eq!(file.read_at(&fs, 0, &mut buf), 0);
    file.write_at(&mut fs, 0, b"abc");
    open_file(&mut fs, &mut of, "file", O_CREATE).unwrap();
    assert_eq!(file.read_at(&fs, 0, &mut buf), 0);
    assert_eq!(of.offsets, vec![0, 0, 0, 0]);
}

#[test]
fn fstat_reports_links() {
    let (mut p, mut fs, _of) = setup();
    let fd = sys_open(&mut p.inner, Some(disk(1, true, false, 0))) as usize;
    let st = sys_fstat(&p.inner, &fs, fd).unwrap();
    assert_eq!((st.dev, st.ino, st.mode, st.nlink), (0, 1, StatMode::File, 1));
    assert_eq!(sys_linkat(&mut fs, "file", "alias"), 0);
    assert_eq!(sys_fstat(&p.inner, &fs, fd).unwrap().nlink, 2);
    assert_eq!(sys_unlinkat(&mut fs, "file"), 0);
    assert_eq!(sys_fstat(&p.inner, &fs, fd).unwrap().nlink, 1);
    assert_eq!(sys_fstat(&p.inner, &fs, 1), None);
    assert_eq!(sys_fstat(&p.inner, &fs, 42), None);
    let dir = sys_open(&mut p.inner, Some(disk(0, true, false, 0))) as usize;
    assert_eq!(sys_fstat(&p.inner, &fs, dir).unwrap().mode, StatMode::Dir);
}

#[test]
fn link_errors_and_exec_lookup() {
    let (_p, mut fs, _of) = setup();
    assert_eq!(sys_linkat(&mut fs, "nope", "x"), -1);
    assert_eq!(sys_linkat(&mut fs, "file", "file"), -1);
    assert_eq!(sys_unlinkat(&mut fs, "nope"), -1);
    let f = fs.root_inode().find(&fs, "file").unwrap();
    f.write_at(&mut fs, 0, b"prog");
    assert_eq!(get_app_data_by_name(&fs, "file"), Some(b"prog".to_vec()));
    assert_eq!(get_app_data_by_name(&fs, "nope"), None);
}

#[test]
fn unlink_undoes_link() {
    let (_p, mut fs, _of) = setup();
    let root = fs.root_inode();
    let before = root.ls(&fs);
    assert_eq!(sys_linkat(&mut fs, "file", "alias"), 0);
    let f = root.find(&fs, "file").unwrap();
    f.write_at(&mut fs, 0, b"kept");
    assert_eq!(sys_unlinkat(&mut fs, "alias"), 0);
    assert_eq!(root.ls(&fs), before);
    assert_eq!(f.get_num_of_links(&fs), 1);
    let mut buf = [0u8; 8];
    assert_eq!(f.read_at(&fs, 0, &mut buf), 4);
    assert_eq!(&buf[..4], b"kept");
}
