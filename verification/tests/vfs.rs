use rcore_os::loader::get_app_data_by_name;
use rcore_os::vfs::{linkat, unlinkat, DiskInodeType, EasyFileSystem, Inode, ROOT_INODE_ID};

fn fs_with(names: &[&str]) -> (EasyFileSystem, Vec<Inode>) {
    let mut fs = EasyFileSystem::new();
    let root = fs.root_inode();
    let mut files = Vec::new();
    for n in names {
        files.push(root.create(&mut fs, n).unwrap());
    }
    (fs, files)
}

#[test]
fn create_then_find() {
    let (mut fs, files) = fs_with(&["a", "b"]);
    let root = fs.root_inode();
    assert_eq!(root.get_inode_id(), ROOT_INODE_ID);
    assert_eq!(files[0].get_inode_id(), 1);
    assert_eq!(files[1].get_inode_id(), 2);
    assert_eq!(root.find(&fs, "a"), Some(files[0]));
    assert_eq!(root.find(&fs, "b"), Some(files[1]));
    assert_eq!(root.find(&fs, "c"), None);
    assert_eq!(root.find_and_get_idx(&fs, "b"), Some((1, files[1])));
    assert_eq!(root.create(&mut fs, "a"), None);
    assert_eq!(root.ls(&fs), vec![String::from("a"), String::from("b")]);
    assert!(files[0].is_file(&fs));
    assert!(!files[0].is_directory(&fs));
    assert!(root.is_directory(&fs));
    assert_eq!(files[0].get_num_of_links(&fs), 1);
}

#[test]
fn write_then_read() {
    let (mut fs, files) = fs_with(&["f"]);
    let f = files[0];
    assert_eq!(f.write_at(&mut fs, 0, b"hello"), 5);
    let mut buf = [0u8; 8];
    assert_eq!(f.read_at(&fs, 0, &mut buf), 5);
    assert_eq!(&buf[..5], b"hello");
    assert_eq!(&buf[5..], &[0, 0, 0]);
    // a write past the end leaves a zero-filled gap
    assert_eq!(f.write_at(&mut fs, 7, b"xy"), 2);
    let mut buf = [9u8; 16];
    assert_eq!(f.read_at(&fs, 0, &mut buf), 9);
    assert_eq!(&buf[..9], b"hello\0\0xy");
    assert_eq!(&buf[9..], &[9u8; 7]);
    // reading at or past the end gives nothing
    assert_eq!(f.read_at(&fs, 9, &mut buf), 0);
    assert_eq!(f.read_at(&fs, 100, &mut buf), 0);
    // a short buffer limits the read
    let mut small = [0u8; 2];
    assert_eq!(f.read_at(&fs, 1, &mut small), 2);
    assert_eq!(&small, b"el");
    // overwrite inside
    assert_eq!(f.write_at(&mut fs, 1, b"EL"), 2);
    let mut buf = [0u8; 9];
    assert_eq!(f.read_at(&fs, 0, &mut buf), 9);
    assert_eq!(&buf, b"hELlo\0\0xy");
    f.clear(&mut fs);
    assert_eq!(f.read_at(&fs, 0, &mut buf), 0);
}

#[test]
fn link_and_unlink() {
    let (mut fs, files) = fs_with(&["a", "b"]);
    let root = fs.root_inode();
    assert_eq!(linkat("a", "c", &root, &mut fs), 0);
    assert_eq!(root.find(&fs, "c"), Some(files[0]));
    assert_eq!(files[0].get_num_of_links(&fs), 2);
    // missing source, taken target, not a directory
    assert_eq!(linkat("zz", "d", &root, &mut fs), -1);
    assert_eq!(linkat("a", "b", &root, &mut fs), -1);
    assert_eq!(linkat("a", "d", &files[1], &mut fs), -1);

    files[0].write_at(&mut fs, 0, b"data");
    assert_eq!(unlinkat("a", &root, &mut fs), 0);
    assert_eq!(root.find(&fs, "a"), None);
    assert_eq!(files[0].get_num_of_links(&fs), 1);
    let mut buf = [0u8; 4];
    assert_eq!(files[0].read_at(&fs, 0, &mut buf), 4);
    // the last entry moved into the freed slot
    assert_eq!(root.ls(&fs), vec![String::from("c"), String::from("b")]);

    assert_eq!(unlinkat("c", &root, &mut fs), 0);
    assert_eq!(root.find(&fs, "c"), None);
    assert!(!fs.is_allocated(1));
    // the content of a freed inode is emptied but stays
    assert!(fs.has_inode(1));
    assert_eq!(files[0].read_at(&fs, 0, &mut buf), 0);
    assert_eq!(root.ls(&fs), vec![String::from("b")]);
    assert_eq!(unlinkat("c", &root, &mut fs), -1);
    assert_eq!(unlinkat("b", &files[1], &mut fs), -1);
    // the freed inode number is reused
    assert_eq!(root.create(&mut fs, "d"), Some(Inode::new(1)));
}

#[test]
fn load_program_by_name() {
    let (mut fs, files) = fs_with(&["app"]);
    files[0].write_at(&mut fs, 0, &[0x7f, b'E', b'L', b'F']);
    assert_eq!(get_app_data_by_name(&fs, "app"), Some(vec![0x7f, b'E', b'L', b'F']));
    assert_eq!(get_app_data_by_name(&fs, "none"), None);
}

#[test]
fn inode_kinds_and_clear_inode() {
    let (mut fs, files) = fs_with(&["x"]);
    assert_eq!(
        fs.inodes[0].as_ref().map(|d| d.type_),
        Some(DiskInodeType::Directory)
    );
    assert!(fs.is_allocated(1));
    files[0].clear_inode(&mut fs);
    assert!(!fs.is_allocated(1));
    assert!(fs.has_inode(1));
    // a freed number is handed out again
    assert_eq!(fs.alloc_inode(), 1);
    assert!(fs.is_allocated(1));
    assert_eq!(fs.alloc_inode(), 2);
    fs.dealloc_inode(2);
    assert!(!fs.is_allocated(2));
}
