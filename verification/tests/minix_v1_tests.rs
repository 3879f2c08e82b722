use minix_fs::minix::{
    alloc_inode, alloc_zone, create_dir, create_file, get_inode, inode_by_path, link_inode,
    new_dir_entry, read_all_directoies, read_all_inode, read_file_name, read_file_zone,
    read_magic, write_file,
};

fn put16(img: &mut [u8], off: usize, v: u16) {
    img[off..off + 2].copy_from_slice(&v.to_le_bytes());
}

fn put32(img: &mut [u8], off: usize, v: u32) {
    img[off..off + 4].copy_from_slice(&v.to_le_bytes());
}

fn entry(img: &mut [u8], off: usize, inode: u16, name: &[u8]) {
    put16(img, off, inode);
    img[off + 2..off + 2 + name.len()].copy_from_slice(name);
}

/// A 64-block image: inode table at block 4, root directory (inode 1)
/// with `.` and `..` in zone 5, inodes 0 and 1 and zones 0 to 5 in use.
fn v1_image() -> Vec<u8> {
    let mut img = vec![0u8; 64 * 1024];
    put16(&mut img, 1024, 32);
    put16(&mut img, 1026, 64);
    put16(&mut img, 1028, 1);
    put16(&mut img, 1030, 1);
    put16(&mut img, 1032, 5);
    put16(&mut img, 1040, 0x137F);
    img[2048] = 0b11;
    img[3072] = 0x3F;
    put16(&mut img, 4096, 0o040755);
    put32(&mut img, 4096 + 4, 1024);
    put16(&mut img, 4096 + 14, 5);
    entry(&mut img, 5120, 1, b".");
    entry(&mut img, 5120 + 32, 1, b"..");
    img
}

fn lines(v: &[&[u8]]) -> Vec<Vec<u8>> {
    v.iter().map(|l| l.to_vec()).collect()
}

#[test]
fn v1_magic_and_inode_offsets() {
    let img = v1_image();
    assert_eq!(read_magic(&img), 0x137F);
    assert_eq!(get_inode(1, &img), 4096);
    assert_eq!(get_inode(3, &img), 4096 + 64);
}

#[test]
fn v1_new_dir_entry_pads_name() {
    let e = new_dir_entry(5, b"ab");
    assert_eq!(e.inode, 5);
    assert_eq!(e.name[0], 97);
    assert_eq!(e.name[1], 98);
    assert!(e.name[2..].iter().all(|&c| c == 0));
    let e = new_dir_entry(1, &[200]);
    assert_eq!(e.name[0], -56);
}

#[test]
fn v1_create_dir_file_and_write() {
    let mut img = v1_image();
    assert!(create_dir(&mut img, b"/docs"));
    assert_eq!(inode_by_path(&mut img, b"/docs"), 2);
    assert_eq!(&img[4128..4130], &0o4444u16.to_le_bytes());
    assert_eq!(&img[4128 + 4..4128 + 8], &64u32.to_le_bytes());
    assert_eq!(img[4128 + 13], 2);
    assert_eq!(&img[4128 + 14..4128 + 16], &6u16.to_le_bytes());
    assert_eq!(&img[6144..6147], &[2, 0, b'.']);
    assert_eq!(&img[6176..6180], &[1, 0, b'.', b'.']);
    assert_eq!(create_file(&mut img, b"/docs/a.txt"), 4160);
    assert_eq!(inode_by_path(&mut img, b"/docs/a.txt"), 3);
    assert_eq!(inode_by_path(&mut img, b"/docs/missing"), 2);
    write_file(&mut img, b"/docs/a.txt", b"hi!");
    assert_eq!(&img[4160 + 14..4160 + 16], &7u16.to_le_bytes());
    assert_eq!(&img[7168..7171], b"hi!");
    assert!(!create_dir(&mut img, b"docs"));
}

#[test]
fn v1_listings() {
    let mut img = v1_image();
    create_dir(&mut img, b"/docs");
    create_file(&mut img, b"/docs/a.txt");
    write_file(&mut img, b"/docs/a.txt", b"hi!");
    let block6 = img[6144..6208].to_vec();
    let mut out = Vec::new();
    read_file_name(4096, &img, &mut out);
    assert_eq!(out, lines(&[b".", b"..", b"docs", b"file_data:", &block6]));
    let mut out = Vec::new();
    read_all_directoies(4096, &img, &mut out);
    assert_eq!(out, lines(&[b"directory:", b".", b"..", b"docs", b"file_data:", &block6]));
    let mut out = Vec::new();
    read_file_zone(4160, &img, &mut out);
    assert!(out.is_empty());
    let mut out = Vec::new();
    read_all_inode(&img, &mut out);
    assert_eq!(
        out,
        lines(&[
            b".", b".", b".", b"d", b"o", b"c", b"s", b".", b".", b".", b"a", b".", b"t", b"x",
            b"t", b"!",
        ])
    );
}

#[test]
fn v1_read_all_inode_encodes_characters() {
    let mut img = v1_image();
    assert!(link_inode(&mut img, 1, 9, &[b'x', 0xE9]));
    let mut out = Vec::new();
    read_all_inode(&img, &mut out);
    assert_eq!(out, lines(&[b".", b".", b".", b"x", "é".as_bytes()]));
}

#[test]
fn v1_allocation_and_full_directory() {
    let mut img = v1_image();
    assert_eq!(alloc_inode(&mut img), 2);
    assert_eq!(img[2048], 0b111);
    assert_eq!(alloc_zone(&mut img, 2), 6);
    assert_eq!(img[3072], 0x7F);
    for k in 0..30u16 {
        assert!(link_inode(&mut img, 1, 10 + k, b"n"));
    }
    assert!(!link_inode(&mut img, 1, 99, b"full"));
    for b in 3072..4096 {
        img[b] = 0xFF;
    }
    assert_eq!(alloc_zone(&mut img, 2), 0);
}

#[test]
fn v1_listing_prints_invalid_names_as_such() {
    let mut img = v1_image();
    assert!(link_inode(&mut img, 1, 40, &[0xFF, b'x']));
    let mut out = Vec::new();
    read_file_name(4096, &img, &mut out);
    assert_eq!(out, lines(&[b".", b"..", b"<invalid utf8>"]));
}
