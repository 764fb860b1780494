use rcore::efs::{
    clear_in, create_in, find_in, get_stat_in, link_in, ls_in, read_at_in, unlink_in, write_at_in,
    FileSystem, InodeHandle, DIRENT_SZ,
};

fn names(fs: &FileSystem, dir: &InodeHandle) -> Vec<String> {
    dir.ls(fs)
}

#[test]
fn new_file_system_has_empty_root() {
    let fs = FileSystem::new();
    let root = fs.root_inode();
    assert_eq!(root.inode_id, 0);
    assert_eq!(fs.inode_count(), 1);
    assert!(fs.is_directory(0));
    assert!(names(&fs, &root).is_empty());
    assert_eq!(root.get_stat(&fs), (0, 1, 1));
    assert_eq!(DIRENT_SZ, 32);
}

#[test]
fn create_then_find() {
    let mut fs = FileSystem::new();
    let root = fs.root_inode();
    let a = root.create(&mut fs, "a").unwrap();
    assert_eq!(a.inode_id, 1);
    assert_eq!(root.find(&fs, "a").unwrap().inode_id, 1);
    assert!(root.find(&fs, "b").is_none());
    assert_eq!(a.get_stat(&fs), (1, 2, 1));
    assert!(!fs.is_directory(1));
}

#[test]
fn create_existing_name_fails() {
    let mut fs = FileSystem::new();
    let root = fs.root_inode();
    root.create(&mut fs, "a").unwrap();
    assert!(root.create(&mut fs, "a").is_none());
    assert_eq!(fs.inode_count(), 2);
    assert_eq!(names(&fs, &root), vec!["a".to_string()]);
}

#[test]
fn ls_lists_in_creation_order() {
    let mut fs = FileSystem::new();
    let root = fs.root_inode();
    for n in ["x", "y", "z"] {
        root.create(&mut fs, n).unwrap();
    }
    assert_eq!(names(&fs, &root), vec!["x", "y", "z"]);
}

#[test]
fn write_then_read() {
    let mut fs = FileSystem::new();
    let root = fs.root_inode();
    let f = root.create(&mut fs, "f").unwrap();
    assert_eq!(f.write_at(&mut fs, 0, b"hello"), 5);
    let mut buf = [0u8; 5];
    assert_eq!(f.read_at(&fs, 0, &mut buf), 5);
    assert_eq!(&buf, b"hello");
}

#[test]
fn write_past_end_fills_gap_with_zeros() {
    let mut fs = FileSystem::new();
    let root = fs.root_inode();
    let f = root.create(&mut fs, "f").unwrap();
    assert_eq!(f.write_at(&mut fs, 3, b"xy"), 2);
    let mut buf = [9u8; 8];
    assert_eq!(f.read_at(&fs, 0, &mut buf), 5);
    assert_eq!(buf, [0, 0, 0, b'x', b'y', 9, 9, 9]);
    assert_eq!(f.write_at(&mut fs, 1, b"Q"), 1);
    let mut buf2 = [0u8; 2];
    assert_eq!(f.read_at(&fs, 0, &mut buf2), 2);
    assert_eq!(buf2, [0, b'Q']);
}

#[test]
fn read_beyond_end_reads_nothing() {
    let mut fs = FileSystem::new();
    let root = fs.root_inode();
    let f = root.create(&mut fs, "f").unwrap();
    f.write_at(&mut fs, 0, b"abc");
    let mut buf = [7u8; 4];
    assert_eq!(f.read_at(&fs, 3, &mut buf), 0);
    assert_eq!(f.read_at(&fs, 10, &mut buf), 0);
    assert_eq!(buf, [7; 4]);
    assert_eq!(f.read_at(&fs, 1, &mut buf), 2);
    assert_eq!(&buf[..2], b"bc");
}

#[test]
fn clear_empties_the_file() {
    let mut fs = FileSystem::new();
    let root = fs.root_inode();
    let f = root.create(&mut fs, "f").unwrap();
    f.write_at(&mut fs, 0, b"abc");
    f.clear(&mut fs);
    let mut buf = [0u8; 3];
    assert_eq!(f.read_at(&fs, 0, &mut buf), 0);
    assert_eq!(f.get_stat(&fs), (1, 2, 1));
}

#[test]
fn link_shares_inode_and_counts_links() {
    let mut fs = FileSystem::new();
    let root = fs.root_inode();
    let f = root.create(&mut fs, "f").unwrap();
    f.write_at(&mut fs, 0, b"data");
    assert!(root.link(&mut fs, "f", "g"));
    let g = root.find(&fs, "g").unwrap();
    assert_eq!(g.inode_id, f.inode_id);
    assert_eq!(f.get_stat(&fs), (1, 2, 2));
    let mut buf = [0u8; 4];
    assert_eq!(g.read_at(&fs, 0, &mut buf), 4);
    assert_eq!(&buf, b"data");
    assert_eq!(names(&fs, &root), vec!["f", "g"]);
}

#[test]
fn link_missing_name_fails() {
    let mut fs = FileSystem::new();
    let root = fs.root_inode();
    assert!(!root.link(&mut fs, "nope", "g"));
    assert!(names(&fs, &root).is_empty());
}

#[test]
fn link_then_unlink_restores() {
    let mut fs = FileSystem::new();
    let root = fs.root_inode();
    let f = root.create(&mut fs, "f").unwrap();
    root.create(&mut fs, "h").unwrap();
    assert!(root.link(&mut fs, "f", "g"));
    assert!(root.unlink(&mut fs, "g"));
    assert_eq!(names(&fs, &root), vec!["f", "h"]);
    assert_eq!(f.get_stat(&fs), (1, 2, 1));
    assert!(root.find(&fs, "g").is_none());
}

#[test]
fn unlink_moves_last_entry_into_the_gap() {
    let mut fs = FileSystem::new();
    let root = fs.root_inode();
    for n in ["a", "b", "c", "d"] {
        root.create(&mut fs, n).unwrap();
    }
    assert!(root.unlink(&mut fs, "b"));
    assert_eq!(names(&fs, &root), vec!["a", "d", "c"]);
    assert!(root.find(&fs, "b").is_none());
    assert!(!root.unlink(&mut fs, "b"));
}

#[test]
fn unlink_last_link_clears_content_and_keeps_count() {
    let mut fs = FileSystem::new();
    let root = fs.root_inode();
    let f = root.create(&mut fs, "f").unwrap();
    f.write_at(&mut fs, 0, b"xyz");
    assert!(root.unlink(&mut fs, "f"));
    let mut buf = [0u8; 3];
    assert_eq!(f.read_at(&fs, 0, &mut buf), 0);
    assert_eq!(f.get_stat(&fs), (1, 2, 1));
    assert!(names(&fs, &root).is_empty());
}

#[test]
fn unlink_one_of_two_links_keeps_content() {
    let mut fs = FileSystem::new();
    let root = fs.root_inode();
    let f = root.create(&mut fs, "f").unwrap();
    f.write_at(&mut fs, 0, b"xyz");
    root.link(&mut fs, "f", "g");
    assert!(root.unlink(&mut fs, "f"));
    assert_eq!(f.get_stat(&fs), (1, 2, 1));
    let g = root.find(&fs, "g").unwrap();
    let mut buf = [0u8; 3];
    assert_eq!(g.read_at(&fs, 0, &mut buf), 3);
    assert_eq!(&buf, b"xyz");
}

#[test]
fn duplicate_names_find_the_first() {
    let mut fs = FileSystem::new();
    let root = fs.root_inode();
    root.create(&mut fs, "a").unwrap();
    root.create(&mut fs, "b").unwrap();
    // link does not check that the new name is free.
    assert!(root.link(&mut fs, "b", "a"));
    assert_eq!(root.find(&fs, "a").unwrap().inode_id, 1);
    assert!(root.unlink(&mut fs, "a"));
    assert_eq!(root.find(&fs, "a").unwrap().inode_id, 2);
}

#[test]
fn in_functions_refuse_on_files_and_missing_inodes() {
    let mut fs = FileSystem::new();
    let f = create_in(&mut fs, 0, "f").unwrap();
    assert_eq!(f, 1);
    assert_eq!(find_in(&fs, 0, "f"), Some(1));
    assert_eq!(find_in(&fs, 1, "f"), None);
    assert_eq!(find_in(&fs, 9, "f"), None);
    assert_eq!(create_in(&mut fs, 1, "g"), None);
    assert_eq!(create_in(&mut fs, 0, "f"), None);
    assert!(ls_in(&fs, 1).is_empty());
    assert!(ls_in(&fs, 7).is_empty());
    assert_eq!(ls_in(&fs, 0), vec!["f"]);
    assert!(!link_in(&mut fs, 1, "f", "g"));
    assert!(!link_in(&mut fs, 0, "nope", "g"));
    assert!(!unlink_in(&mut fs, 1, "f"));
    assert!(!unlink_in(&mut fs, 0, "nope"));
    assert_eq!(get_stat_in(&fs, 9), (9, 0, 0));
    assert_eq!(get_stat_in(&fs, 1), (1, 2, 1));
    let mut buf = [3u8; 2];
    assert_eq!(read_at_in(&fs, 9, 0, &mut buf), 0);
    assert_eq!(buf, [3, 3]);
    assert_eq!(write_at_in(&mut fs, 9, 0, b"x"), 0);
    assert_eq!(write_at_in(&mut fs, 1, u32::MAX as usize, b"x"), 0);
    clear_in(&mut fs, 9);
    assert_eq!(fs.inode_count(), 2);
}

#[test]
fn in_functions_do_the_work() {
    let mut fs = FileSystem::new();
    let f = create_in(&mut fs, 0, "f").unwrap();
    assert_eq!(write_at_in(&mut fs, f, 0, b"abc"), 3);
    let mut buf = [0u8; 3];
    assert_eq!(read_at_in(&fs, f, 0, &mut buf), 3);
    assert_eq!(&buf, b"abc");
    assert!(link_in(&mut fs, 0, "f", "g"));
    assert_eq!(get_stat_in(&fs, f), (1, 2, 2));
    assert!(unlink_in(&mut fs, 0, "g"));
    assert_eq!(ls_in(&fs, 0), vec!["f"]);
    assert_eq!(get_stat_in(&fs, f), (1, 2, 1));
    clear_in(&mut fs, f);
    assert_eq!(read_at_in(&fs, f, 0, &mut buf), 0);
}

#[test]
fn create_twice_refuses_and_changes_nothing() {
    let mut fs = FileSystem::new();
    assert!(create_in(&mut fs, 0, "a").is_some());
    assert!(create_in(&mut fs, 0, "a").is_none());
    assert_eq!(ls_in(&fs, 0), vec!["a"]);
    assert_eq!(fs.inode_count(), 2);
}
