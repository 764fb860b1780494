use rcore::efs::FileSystem;
use rcore::vfs::Inode;
use std::sync::Arc;

fn shared_root() -> Inode {
    Inode::new(0, Arc::new(spin::Mutex::new(FileSystem::new())))
}

#[test]
fn shared_create_find_ls() {
    let root = shared_root();
    let a = root.create("a").unwrap();
    assert_eq!(a.inode_id(), 1);
    assert!(root.create("a").is_none());
    assert_eq!(root.find("a").unwrap().inode_id(), 1);
    assert!(root.find("zz").is_none());
    assert_eq!(root.ls(), vec!["a"]);
    assert_eq!(root.get_stat(), (0, 1, 1));
    assert_eq!(a.get_stat(), (1, 2, 1));
}

#[test]
fn shared_write_read_clear() {
    let root = shared_root();
    let f = root.create("f").unwrap();
    assert_eq!(f.write_at(0, b"abcdef"), 6);
    let mut buf = [0u8; 4];
    assert_eq!(f.read_at(2, &mut buf), 4);
    assert_eq!(&buf, b"cdef");
    f.clear();
    assert_eq!(f.read_at(0, &mut buf), 0);
}

#[test]
fn shared_link_unlink() {
    let root = shared_root();
    root.create("f").unwrap();
    assert!(root.link("f", "g"));
    assert!(!root.link("missing", "h"));
    assert_eq!(root.find("g").unwrap().get_stat(), (1, 2, 2));
    assert!(root.unlink("f"));
    assert!(!root.unlink("f"));
    assert_eq!(root.ls(), vec!["g"]);
    assert_eq!(root.find("g").unwrap().get_stat(), (1, 2, 1));
}

#[test]
fn shared_operations_on_a_file_are_refused() {
    let root = shared_root();
    let f = root.create("f").unwrap();
    assert!(f.find("x").is_none());
    assert!(f.create("x").is_none());
    assert!(f.ls().is_empty());
    assert!(!f.link("x", "y"));
    assert!(!f.unlink("x"));
}

#[test]
fn shared_missing_inode() {
    let fs = Arc::new(spin::Mutex::new(FileSystem::new()));
    let stray = Inode::new(5, fs);
    assert_eq!(stray.get_stat(), (5, 0, 0));
    let mut buf = [0u8; 1];
    assert_eq!(stray.read_at(0, &mut buf), 0);
    assert_eq!(stray.write_at(0, b"x"), 0);
}
