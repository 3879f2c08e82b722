use minix_fs::fs::minix::{init_minixfs, TreeLine};
use minix_fs::minixv3::{delete, minix3_inode};

const BS: usize = 1024;

fn image() -> Vec<u8> {
    let mut mem = vec![0u8; 1024 * 1024];
    init_minixfs(&mut mem, BS);
    mem
}

fn names(lines: &[TreeLine]) -> Vec<(u8, Vec<u8>, bool)> {
    lines.iter().map(|l| (l.depth, l.name.clone(), l.is_dir)).collect()
}

#[test]
fn v3_get_inode_gives_offsets() {
    let mut mem = image();
    let i = minix3_inode::new(0);
    assert_eq!(i.get_inode(0, BS, &mut mem), None);
    let first = i.get_inode(1, BS, &mut mem).unwrap();
    assert_eq!(i.get_inode(3, BS, &mut mem), Some(first + 128));
}

#[test]
fn v3_new_inode_is_zeroed() {
    let i = minix3_inode::new(0x4000);
    assert_eq!(i.i_mode, 0x4000);
    assert_eq!(i.i_size, 0);
    assert_eq!(i.i_zone, [0u32; 10]);
}

#[test]
fn v3_mkdir_create_write_read() {
    let mut mem = image();
    let i = minix3_inode::new(0);
    let d = i.mkdir(&mut mem, b"/dir", BS);
    assert_eq!(d, 3);
    assert_eq!(i.lookup_iter(b"/dir", &mut mem, BS), 3);
    let f = i.create_file(&mut mem, BS, b"/dir/file.txt");
    assert_eq!(f, 4);
    assert_eq!(i.lookup_iter(b"/dir/file.txt", &mut mem, BS), 4);
    i.write(&mut mem, b"/dir/file.txt", BS, b"content");
    assert_eq!(i.read(&mut mem, b"/dir/file.txt", BS), b"content");
    assert_eq!(i.read(&mut mem, b"/dir/missing", BS), b"");
    assert_eq!(i.lookup_iter(b"/nothing", &mut mem, BS), 0);
    assert_eq!(i.create_file(&mut mem, BS, b"/nothing/file"), 0);
}

#[test]
fn v3_create_file_under_root_is_not_linked() {
    let mut mem = image();
    let i = minix3_inode::new(0);
    let f = i.create_file(&mut mem, BS, b"/top.txt");
    assert_eq!(f, 3);
    assert_eq!(i.lookup_iter(b"/top.txt", &mut mem, BS), 0);
}

#[test]
fn v3_lookup_and_lookup_helper() {
    let mut mem = image();
    let i = minix3_inode::new(0);
    i.mkdir(&mut mem, b"/a", BS);
    let root_off = i.get_inode(1, BS, &mut mem).unwrap();
    let dir = minix3_inode::new(0x4000);
    assert_eq!(dir.lookup(root_off, b"a", &mem, BS), 3);
    assert_eq!(dir.lookup(root_off, b".", &mem, BS), 1);
    assert_eq!(dir.lookup(root_off, b"b", &mem, BS), 0);
    assert_eq!(dir.lookup_helper(root_off, b"a", &mem, BS), 3);
    // Entries 2 to 31 span two 1024-byte blocks: the 16th is the `.` of
    // the zone allocated next, that of `/a`.
    assert_eq!(dir.lookup_helper(root_off, b".", &mem, BS), 3);
    assert_eq!(dir.lookup_helper(root_off, b"zz", &mem, BS), 0);
    let file = minix3_inode::new(0);
    assert_eq!(file.lookup(root_off, b"a", &mem, BS), 0);
    assert_eq!(file.lookup_helper(root_off, b"a", &mem, BS), 0);
}

#[test]
fn v3_show_directry_tree_lists_twice() {
    let mut mem = image();
    let i = minix3_inode::new(0);
    i.mkdir(&mut mem, b"/a", BS);
    i.create_file(&mut mem, BS, b"/a/f");
    let mut out: Vec<TreeLine> = Vec::new();
    i.show_directry_tree(&mut mem, BS, &mut out);
    let tree = vec![(1u8, b"a".to_vec(), true), (2u8, b"f".to_vec(), false)];
    let mut expected = tree.clone();
    expected.push((0u8, b"/".to_vec(), true));
    expected.extend(tree);
    assert_eq!(names(&out), expected);
    delete();
}
