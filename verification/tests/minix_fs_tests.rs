use minix_fs::error::Error;
use minix_fs::fs::minix::{
    get_super_block, init_minixfs, minix3_inode, read_dir_entry, read_inode, TreeLine,
};

const BLOCK_SIZE: usize = 1024;

fn fresh_image() -> Vec<u8> {
    let mut mem = vec![0u8; 4 * 1024 * 1024];
    init_minixfs(&mut mem, BLOCK_SIZE);
    mem
}

fn dir_names(img: &[u8], zone: u32) -> Vec<(u32, Vec<u8>)> {
    let mut out = Vec::new();
    for i in 0..BLOCK_SIZE / 64 {
        let e = read_dir_entry(img, zone as usize * BLOCK_SIZE + i * 64);
        let len = e.name.iter().position(|&c| c == 0).unwrap_or(60);
        out.push((e.inode, e.name[..len].to_vec()));
    }
    out
}

#[test]
fn minix_integration_test() {
    let fs = minix3_inode::new(0);
    let mut mem = fresh_image();
    fs.mkdir(&mut mem, b"/nested_dir", BLOCK_SIZE).unwrap();
    fs.mkdir(&mut mem, b"/nested_dir/nested_dir2", BLOCK_SIZE).unwrap();
    fs.delete_dir_entry(&mut mem, b"/nested_dir/nested_dir2", BLOCK_SIZE).unwrap();
    fs.mkdir(&mut mem, b"/nested_dir/nested_dir2", BLOCK_SIZE).unwrap();
    fs.create_file(&mut mem, BLOCK_SIZE, b"/nested_dir/nested_dir2/test.txt").unwrap();
    fs.write(&mut mem, b"/nested_dir/nested_dir2/test.txt", BLOCK_SIZE, b"filesystem integration test")
        .unwrap();
    let result = fs.read(&mut mem, b"/nested_dir/nested_dir2/test.txt", BLOCK_SIZE).unwrap();
    assert_eq!(result, b"filesystem integration test");
}

#[test]
fn minix_init_test() {
    let mem = fresh_image();
    let mut mem = mem;
    let sb = get_super_block(&mut mem, BLOCK_SIZE);
    assert!(sb.s_ninodes > 0);
    assert!(sb.s_imap_blocks > 0);
    assert!(sb.s_zmap_blocks > 0);
    assert!(sb.s_firstdatazone > 0);
    assert!(sb.s_zones > 0);
    assert_eq!(sb.s_magic, 0x4D5A);
    assert_eq!(mem[sb.imap_start_block() * BLOCK_SIZE], 0b00000011);
    assert_eq!(mem[sb.zmap_start_block() * BLOCK_SIZE], 0b00000011);
    let root = read_inode(&mem, sb.inode_table_start_block() * BLOCK_SIZE);
    assert_eq!(root.i_mode & 0x4000, 0x4000);
    assert_eq!(root.i_size, 128);
    let names = dir_names(&mem, root.i_zone[0]);
    assert!(names.iter().any(|(_, n)| n == b"."));
    assert!(names.iter().any(|(_, n)| n == b".."));
    let mut lines: Vec<TreeLine> = Vec::new();
    root.show_directory_tree(&mut mem, BLOCK_SIZE, &mut lines).unwrap();
    assert_eq!(lines.len(), 1);
    assert_eq!(lines[0].depth, 0);
    assert_eq!(lines[0].name, b"/".to_vec());
    let _ = Error::Aborted;
}
