use minix_fs::error::Error;
use minix_fs::fs::minix::{
    get_super_block, init_minixfs, minix3_dir_entry, minix3_inode, minix3_super_block,
    read_dir_entry, read_inode, read_super_block, TreeLine,
};
use minix_fs::fs::minix_manager::{MinixFs, BLOCK_SIZE, IMAGE_SIZE};
use minix_fs::path::split_path_and_filename;

const BS: usize = 1024;

fn image(size: usize) -> Vec<u8> {
    let mut mem = vec![0u8; size];
    init_minixfs(&mut mem, BS);
    mem
}

fn tree(lines: &[TreeLine]) -> Vec<(u8, Vec<u8>, bool)> {
    lines.iter().map(|l| (l.depth, l.name.clone(), l.is_dir)).collect()
}

#[test]
fn super_block_new_sets_magic_and_block_size() {
    let sb = minix3_super_block::new(1024);
    assert_eq!(sb.s_magic, 0x4D5A);
    assert_eq!(sb.s_blocksize, 1024);
    assert_eq!(sb.s_ninodes, 0);
    assert_eq!(sb.imap_start_block(), 2);
    assert_eq!(sb.as_bytes().len(), 31);
}

#[test]
fn dir_entry_new_pads_and_truncates_names() {
    let e = minix3_dir_entry::new(7, b"abc");
    assert_eq!(e.inode, 7);
    assert_eq!(&e.name[..4], b"abc\0");
    let long = [b'x'; 70];
    let e = minix3_dir_entry::new(1, &long);
    assert_eq!(e.name, [b'x'; 60]);
    let bytes = minix3_dir_entry::new(0x01020304, b"n").as_bytes();
    assert_eq!(&bytes[..5], &[4, 3, 2, 1, b'n']);
    assert_eq!(bytes.len(), 64);
}

#[test]
fn inode_new_and_encoding() {
    let i = minix3_inode::new(0x4000);
    assert_eq!(i.i_mode, 0x4000);
    let b = i.as_bytes();
    assert_eq!(b.len(), 64);
    assert_eq!(&b[..2], &[0x00, 0x40]);
    assert!(b[2..].iter().all(|&x| x == 0));
}

#[test]
fn init_formats_expected_geometry() {
    let mut mem = image(IMAGE_SIZE);
    let sb = get_super_block(&mut mem, BS);
    assert_eq!(sb.s_ninodes, 4);
    assert_eq!(sb.s_imap_blocks, 1);
    assert_eq!(sb.s_zmap_blocks, 1);
    assert_eq!(sb.s_firstdatazone, 5);
    assert_eq!(sb.s_zones, 32);
    assert_eq!(sb.inode_table_start_block(), 4);
    let root = read_inode(&mem, 4 * BS);
    assert_eq!(root.i_zone[0], 5);
}

#[test]
fn get_inode_errors() {
    let mut mem = image(64 * 1024);
    let r = minix3_inode::new(0);
    assert_eq!(r.get_inode(0, BS, &mut mem), Err(Error::InodeNumZero));
    assert_eq!(r.get_inode(1, BS, &mut mem), Ok(4 * BS));
    assert_eq!(r.get_inode(2, BS, &mut mem), Ok(4 * BS + 64));
    assert_eq!(r.get_inode(100_000, BS, &mut mem), Err(Error::InodeBeyondImage));
}

#[test]
fn lookup_errors() {
    let mut mem = image(64 * 1024);
    let r = minix3_inode::new(0);
    let off = r.get_inode(1, BS, &mut mem).unwrap();
    let root = read_inode(&mem, off);
    assert_eq!(root.lookup(b".", &mem, BS), Ok(1));
    assert_eq!(root.lookup(b"..", &mem, BS), Ok(1));
    assert_eq!(root.lookup(b"none", &mem, BS), Err(Error::LookupFailed));
    let file = minix3_inode::new(0);
    assert_eq!(file.lookup(b".", &mem, BS), Err(Error::InvalidMode));
    assert_eq!(r.lookup_iter(b"/", &mut mem, BS), Ok(1));
    assert_eq!(r.lookup_iter(b"//./", &mut mem, BS), Ok(1));
    assert_eq!(r.lookup_iter(b"/x/y", &mut mem, BS), Err(Error::LookupFailed));
}

#[test]
fn create_write_read_delete_file() {
    let mut mem = image(64 * 1024);
    let r = minix3_inode::new(0);
    let n = r.create_file(&mut mem, BS, b"/a.txt").unwrap();
    assert_eq!(n, 3);
    assert_eq!(r.lookup_iter(b"/a.txt", &mut mem, BS), Ok(3));
    assert_eq!(r.read(&mut mem, b"/a.txt", BS).unwrap(), b"");
    r.write(&mut mem, b"/a.txt", BS, b"0123456789").unwrap();
    assert_eq!(r.read(&mut mem, b"/a.txt", BS).unwrap(), b"0123456789");
    r.write(&mut mem, b"/a.txt", BS, b"xy").unwrap();
    assert_eq!(r.read(&mut mem, b"/a.txt", BS).unwrap(), b"xy");
    r.delete_dir_entry(&mut mem, b"/a.txt", BS).unwrap();
    assert_eq!(r.lookup_iter(b"/a.txt", &mut mem, BS), Err(Error::LookupFailed));
    assert_eq!(r.create_file(&mut mem, BS, b"/a.txt"), Ok(3));
}

#[test]
fn mkdir_nested_and_tree() {
    let mut mem = image(64 * 1024);
    let r = minix3_inode::new(0);
    assert_eq!(r.mkdir(&mut mem, b"/d", BS), Ok(3));
    assert_eq!(r.mkdir(&mut mem, b"/d/e", BS), Ok(4));
    assert_eq!(r.create_file(&mut mem, BS, b"/d/e/f"), Ok(5));
    assert_eq!(r.create_file(&mut mem, BS, b"/g"), Ok(6));
    assert_eq!(r.lookup_iter(b"/d/e/f", &mut mem, BS), Ok(5));
    assert_eq!(r.lookup_iter(b"/d/e/..", &mut mem, BS), Ok(3));
    let off = r.get_inode(3, BS, &mut mem).unwrap();
    let dir = read_inode(&mem, off);
    assert_eq!(dir.i_size, 128);
    assert_eq!(dir.i_mode, 0x4000);
    let mut out = Vec::new();
    r.show_directory_tree(&mut mem, BS, &mut out).unwrap();
    assert_eq!(
        tree(&out),
        vec![
            (0, b"/".to_vec(), true),
            (1, b"d".to_vec(), true),
            (2, b"e".to_vec(), true),
            (3, b"f".to_vec(), false),
            (1, b"g".to_vec(), false),
        ]
    );
    assert_eq!(out[3].indent(), 6);
    assert_eq!(r.mkdir(&mut mem, b"/missing/x", BS), Err(Error::LookupFailed));
}

#[test]
fn tree_errors() {
    let mut mem = image(64 * 1024);
    let r = minix3_inode::new(0);
    let f = r.create_file(&mut mem, BS, b"/f").unwrap();
    let mut out = Vec::new();
    assert_eq!(r.print_tree(&mut mem, BS, 1, f, &mut out), Err(Error::TreeNotDirectory));
    let d = r.alloc_inode(&mut mem, BS, 0x4000).unwrap();
    assert_eq!(r.print_tree(&mut mem, BS, 1, d, &mut out), Err(Error::ZoneOffsetInvalid));
    assert_eq!(r.print_tree(&mut mem, BS, 1, 0, &mut out), Err(Error::InodeNumZero));
    assert!(out.is_empty());
}

#[test]
fn alloc_and_link_errors() {
    let mut mem = image(64 * 1024);
    let r = minix3_inode::new(0);
    let n = r.create_file(&mut mem, BS, b"/f").unwrap();
    let z = r.alloc_zone(&mut mem, n, BS).unwrap();
    assert!(z > 0);
    assert_eq!(r.alloc_zone(&mut mem, n, BS), Err(Error::AllocZoneFailed));
    assert_eq!(r.alloc_zone(&mut mem, 0, BS), Err(Error::InodeNumZero));
    assert_eq!(r.link_inode(&mut mem, 0, n, BS, b"x"), Err(Error::InodeNumZero));
    r.mkdir(&mut mem, b"/d", BS).unwrap();
    for k in 0..14u8 {
        let name = [b'a' + k];
        let mut path = b"/d/".to_vec();
        path.extend_from_slice(&name);
        r.create_file(&mut mem, BS, &path).unwrap();
    }
    assert_eq!(r.create_file(&mut mem, BS, b"/d/full"), Err(Error::LinkFailed));
    let sb = get_super_block(&mut mem, BS);
    for b in sb.imap_start_block() * BS..sb.zmap_start_block() * BS {
        mem[b] = 0xFF;
    }
    assert_eq!(r.alloc_inode(&mut mem, BS, 0), Err(Error::NoFreeInode));
}

#[test]
fn delete_errors() {
    let mut mem = image(64 * 1024);
    let r = minix3_inode::new(0);
    r.mkdir(&mut mem, b"/d", BS).unwrap();
    r.write(&mut mem, b"/d", BS, b"not empty any more").unwrap();
    assert_eq!(r.delete_dir_entry(&mut mem, b"/d", BS), Err(Error::DirectoryNotEmpty));
    assert_eq!(r.delete_dir_entry(&mut mem, b"/none", BS), Err(Error::LookupFailed));
    r.mkdir(&mut mem, b"/e", BS).unwrap();
    assert_eq!(r.delete_dir_entry(&mut mem, b"/e", BS), Ok(()));
    assert_eq!(r.lookup_iter(b"/e", &mut mem, BS), Err(Error::LookupFailed));
}

#[test]
fn delete_refuses_directory_with_child() {
    let mut mem = vec![0u8; 4194304];
    init_minixfs(&mut mem, BS);
    let r = minix3_inode::new(0);
    assert_eq!(r.mkdir(&mut mem, b"/a", BS), Ok(3));
    assert_eq!(r.mkdir(&mut mem, b"/a/b", BS), Ok(4));
    let before = mem.clone();
    assert_eq!(r.delete_dir_entry(&mut mem, b"/a", BS), Err(Error::DirectoryNotEmpty));
    assert!(mem == before);
    assert_eq!(r.lookup_iter(b"/a/b", &mut mem, BS), Ok(4));
    assert_eq!(r.create_file(&mut mem, BS, b"/a/f"), Ok(5));
    assert_eq!(r.delete_dir_entry(&mut mem, b"/a/b", BS), Ok(()));
    assert_eq!(r.delete_dir_entry(&mut mem, b"/a", BS), Err(Error::DirectoryNotEmpty));
    assert_eq!(r.delete_dir_entry(&mut mem, b"/a/f", BS), Ok(()));
    assert_eq!(r.delete_dir_entry(&mut mem, b"/a", BS), Ok(()));
    assert_eq!(r.lookup_iter(b"/a", &mut mem, BS), Err(Error::LookupFailed));
}

#[test]
fn manager_delete_refuses_directory_with_child() {
    let mut fs = MinixFs::init().unwrap();
    assert_eq!(fs.mkdir(b"/a"), Ok(3));
    assert_eq!(fs.create_file(b"/a/x"), Ok(4));
    assert_eq!(fs.delete(b"/a"), Err(Error::DirectoryNotEmpty));
    assert_eq!(fs.lookup_iter(b"/a/x"), Ok(4));
}

#[test]
fn delete_after_mkdir_restores_bitmaps_and_parent_block() {
    let mut mem = vec![0u8; 4194304];
    init_minixfs(&mut mem, BS);
    let r = minix3_inode::new(0);
    let sb = get_super_block(&mut mem, BS);
    let bitmaps = 2 * BS..sb.inode_table_start_block() * BS;
    let root_block = sb.s_firstdatazone as usize * BS..(sb.s_firstdatazone as usize + 1) * BS;
    let before = mem.clone();
    assert_eq!(r.mkdir(&mut mem, b"/a", BS), Ok(3));
    assert!(mem[bitmaps.clone()] != before[bitmaps.clone()]);
    assert_eq!(r.delete_dir_entry(&mut mem, b"/a", BS), Ok(()));
    assert!(mem[bitmaps.clone()] == before[bitmaps]);
    assert!(mem[root_block.clone()] == before[root_block]);
    assert_eq!(r.lookup_iter(b"/a", &mut mem, BS), Err(Error::LookupFailed));
}

#[test]
fn delete_directory_whose_block_lies_past_the_image() {
    let mut mem = image(64 * 1024);
    let r = minix3_inode::new(0);
    assert_eq!(r.mkdir(&mut mem, b"/d", BS), Ok(3));
    let sb = get_super_block(&mut mem, BS);
    let off = sb.inode_table_start_block() * BS + 2 * 64 + 24;
    mem[off..off + 4].copy_from_slice(&70u32.to_le_bytes());
    assert_eq!(r.delete_dir_entry(&mut mem, b"/d", BS), Ok(()));
    assert_eq!(r.lookup_iter(b"/d", &mut mem, BS), Err(Error::LookupFailed));
}

#[test]
fn mkdir_under_parent_inode_zero() {
    let mut mem = image(64 * 1024);
    let r = minix3_inode::new(0);
    let sb = get_super_block(&mut mem, BS);
    let root_block = sb.s_firstdatazone as usize * BS;
    let slot = root_block + 2 * 64;
    mem[slot..slot + 4].copy_from_slice(&0u32.to_le_bytes());
    mem[slot + 4] = b'p';
    assert_eq!(r.mkdir(&mut mem, b"/p/q", BS), Err(Error::ParentInodeNumZero));
    assert_eq!(Error::ParentInodeNumZero.message(), "parent inode num is 0");
}

#[test]
fn manager_round_trip() {
    let mut fs = MinixFs::init().unwrap();
    assert_eq!(fs.mkdir(b"/docs"), Ok(3));
    assert_eq!(fs.create_file(b"/docs/a"), Ok(4));
    assert_eq!(fs.write(b"/docs/a", b"hello"), Ok(()));
    assert_eq!(fs.read(b"/docs/a"), Ok(b"hello".to_vec()));
    assert_eq!(fs.lookup_iter(b"/docs/a"), Ok(4));
    let mut out = Vec::new();
    fs.show_directory_tree(&mut out).unwrap();
    assert_eq!(
        tree(&out),
        vec![(0, b"/".to_vec(), true), (1, b"docs".to_vec(), true), (2, b"a".to_vec(), false)]
    );
    assert_eq!(fs.delete(b"/docs/a"), Ok(()));
    assert_eq!(fs.lookup_iter(b"/docs/a"), Err(Error::LookupFailed));
    let mut img = vec![0u8; IMAGE_SIZE];
    assert_eq!(fs.fs_img(&mut img), Ok(()));
    assert_eq!(&img[BLOCK_SIZE + 24..BLOCK_SIZE + 26], &[0x5A, 0x4D]);
    let mut small = vec![7u8; 10];
    assert_eq!(fs.fs_img(&mut small), Err(Error::InvalidBufferSize));
    assert_eq!(small, vec![7u8; 10]);
}

#[test]
fn manager_list_dir_entries() {
    let mut fs = MinixFs::init().unwrap();
    fs.mkdir(b"/d").unwrap();
    fs.create_file(b"/d/one").unwrap();
    fs.create_file(b"/d/two").unwrap();
    let mut buf = vec![0u8; 64];
    // The size of `/d` still covers only `.` and `..`.
    assert_eq!(fs.list_dir_entries(b"/d", &mut buf), Ok(0));
    assert_eq!(fs.list_dir_entries(b"/d/one", &mut buf), Err(Error::NotADirectory));
    assert_eq!(fs.list_dir_entries(b"/nothing", &mut buf), Err(Error::LookupFailed));
}

#[test]
fn manager_list_dir_entries_writes_names() {
    let mut fs = MinixFs::init().unwrap();
    let mut block = Vec::new();
    for (ino, name) in [(1u32, &b"."[..]), (1, b".."), (3, b"one"), (0, b"gone"), (4, b"two")] {
        block.extend_from_slice(&minix3_dir_entry::new(ino, name).as_bytes());
    }
    fs.write(b"/", &block).unwrap();
    let mut buf = vec![0u8; 64];
    assert_eq!(fs.list_dir_entries(b"/", &mut buf), Ok(8));
    assert_eq!(&buf[..8], b"one\ntwo\n");
    let mut tiny = vec![0u8; 5];
    assert_eq!(fs.list_dir_entries(b"/", &mut tiny), Err(Error::BufferTooSmall));
    assert_eq!(&tiny, b"one\n\0");
}

#[test]
fn manager_write_too_large_is_aborted() {
    let mut fs = MinixFs::init().unwrap();
    fs.create_file(b"/big").unwrap();
    let data = vec![1u8; 2 * IMAGE_SIZE];
    assert_eq!(fs.write(b"/big", &data), Err(Error::Aborted));
}

#[test]
fn split_path_cases() {
    assert_eq!(split_path_and_filename(b"/a/b/c"), (&b"/a/b"[..], &b"c"[..]));
    assert_eq!(split_path_and_filename(b"/c"), (&b"/"[..], &b"c"[..]));
    assert_eq!(split_path_and_filename(b"c"), (&b"/"[..], &b"c"[..]));
    assert_eq!(split_path_and_filename(b"/a/"), (&b"/a"[..], &b""[..]));
}

#[test]
fn encodings_read_back() {
    let mut sb = minix3_super_block::new(2048);
    sb.s_ninodes = 77;
    sb.s_firstdatazone = 9;
    let back = read_super_block(&sb.as_bytes(), 0);
    assert_eq!(back.s_ninodes, 77);
    assert_eq!(back.s_firstdatazone, 9);
    assert_eq!(back.s_blocksize, 2048);
    assert_eq!(back.s_magic, 0x4D5A);
    let mut ino = minix3_inode::new(0x8000);
    ino.i_size = 1234;
    ino.i_zone[0] = 42;
    ino.i_zone[9] = 7;
    let back = read_inode(&ino.as_bytes(), 0);
    assert_eq!(back.i_mode, 0x8000);
    assert_eq!(back.i_size, 1234);
    assert_eq!(back.i_zone[0], 42);
    assert_eq!(back.i_zone[9], 7);
    let e = minix3_dir_entry::new(99, b"name");
    let back = read_dir_entry(&e.as_bytes(), 0);
    assert_eq!(back.inode, 99);
    assert_eq!(back.name, e.name);
}

#[test]
fn link_then_lookup_finds_inode() {
    let mut mem = image(64 * 1024);
    let r = minix3_inode::new(0);
    r.mkdir(&mut mem, b"/d", BS).unwrap();
    assert_eq!(r.link_inode(&mut mem, 3, 1, BS, b"up"), Ok(()));
    assert_eq!(r.lookup_iter(b"/d/up", &mut mem, BS), Ok(1));
    assert_eq!(r.lookup_iter(b"/d/up/d/up/d", &mut mem, BS), Ok(3));
}

#[test]
fn tree_line_text_is_what_is_printed() {
    let root = TreeLine { depth: 0, name: b"/".to_vec(), is_dir: true };
    assert_eq!(root.text(), b"/".to_vec());
    let dir = TreeLine { depth: 1, name: b"docs".to_vec(), is_dir: true };
    assert_eq!(dir.text(), b"  |- docs/".to_vec());
    let file = TreeLine { depth: 2, name: b"a.txt".to_vec(), is_dir: false };
    assert_eq!(file.text(), b"    |- a.txt".to_vec());
    let deep = TreeLine { depth: 40, name: vec![0xFF], is_dir: false };
    let mut expected = vec![b' '; 32];
    expected.extend_from_slice(b"|- <invalid utf8>");
    assert_eq!(deep.text(), expected);
}

#[test]
fn delete_clears_bitmaps_and_entry() {
    let mut mem = image(64 * 1024);
    let r = minix3_inode::new(0);
    r.mkdir(&mut mem, b"/dir", BS).unwrap();
    let n = r.create_file(&mut mem, BS, b"/dir/test.txt").unwrap();
    r.write(&mut mem, b"/dir/test.txt", BS, b"hello").unwrap();
    let sb = get_super_block(&mut mem, BS);
    let ioff = r.get_inode(n, BS, &mut mem).unwrap();
    let zone = read_inode(&mem, ioff).i_zone[0] as usize;
    let ibit = (n - 1) as usize;
    let imap = sb.imap_start_block() * BS + ibit / 8;
    let zbit = zone - sb.s_firstdatazone as usize + 1;
    let zmap = sb.zmap_start_block() * BS + zbit / 8;
    assert_ne!(mem[imap] & (1 << (ibit % 8)), 0);
    assert_ne!(mem[zmap] & (1 << (zbit % 8)), 0);
    r.delete_dir_entry(&mut mem, b"/dir/test.txt", BS).unwrap();
    assert_eq!(mem[imap] & (1 << (ibit % 8)), 0);
    assert_eq!(mem[zmap] & (1 << (zbit % 8)), 0);
    assert!(mem[zone * BS..zone * BS + BS].iter().all(|&b| b == 0));
    let doff = r.get_inode(3, BS, &mut mem).unwrap();
    let dzone = read_inode(&mem, doff).i_zone[0] as usize;
    for i in 0..BS / 64 {
        let e = read_dir_entry(&mem, dzone * BS + i * 64);
        assert!(!e.name.starts_with(b"test.txt"));
    }
}
