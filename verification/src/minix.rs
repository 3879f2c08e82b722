//! The Minix (version 1) file system over an in-memory disk image.
//!
//! Blocks are 1024 bytes.  Block 1 holds the super block, block 2 on the
//! inode bitmap (bit `i` stands for inode `i`), then the zone bitmap, then
//! the inode table of 32-byte records; directory entries are 32 bytes: a
//! 16-bit inode number and a zero-padded name of at most 30 bytes.
//!
//! Where an operation would read or write outside the image, overflow or
//! never end, it has no defined behaviour; the functions here require
//! that this does not happen.  Listings are returned as the lines of text
//! they consist of.
use vstd::prelude::*;
use crate::error::Error;
use crate::fs::minix::{
    bit_is_set, bit_scan, c_len_from, candidate_taken, lemma_bit_scan_found,
    lemma_bit_scan_passed, lemma_c_len_bounds, set_bit,
};
use crate::layout::{
    fill_zero, read_u16, read_u32, u16_bytes, u16_le, u32_bytes, u32_le, write_bytes, write_slice,
    write_u16, write_u32, zeros,
};
use crate::fs::laws::{agree, disjoint};
use crate::text::{push_utf8_or_invalid, utf8_or_invalid};
use crate::path::{
    last_slash, lemma_split_segments, next_segment, path_segments, segments_from,
    spec_split_path, split_path_and_filename, SLASH,
};

verus! {

/// Size of a block.
pub const MINIX_BLOCK_SIZE: usize = 1024;

/// Size of an encoded super block.
pub const SUPER_BLOCK_SIZE: usize = 22;

/// The Minix super block.
#[allow(non_camel_case_types)]
#[derive(Clone, Copy)]
pub struct minix_super_block {
    pub s_ninodes: u16,
    pub s_nzones: u16,
    pub s_imap_blocks: u16,
    pub s_zmap_blocks: u16,
    pub s_firstdatazone: u16,
    pub s_log_zone_size: u16,
    pub s_max_size: u32,
    pub s_magic: u16,
    pub s_state: u16,
    pub s_zones: u16,
}

/// A Minix inode.
#[allow(non_camel_case_types)]
#[derive(Clone, Copy)]
pub struct minix_inode {
    pub i_mode: u16,
    pub i_uid: u16,
    pub i_size: u32,
    pub i_time: u32,
    pub i_gid: u8,
    pub i_nlinks: u8,
    pub i_zone: [u16; 9],
}

/// A Minix directory entry: an inode number and a zero-padded name.
#[allow(non_camel_case_types)]
#[derive(Clone, Copy)]
pub struct minix_dir_entry {
    pub inode: u16,
    pub name: [i8; 30],
}

// ---------------------------------------------------------------------------
// Layout
// ---------------------------------------------------------------------------

/// Whether the image holds a whole super block.
pub open spec fn has_super_block(s: Seq<u8>) -> bool {
    MINIX_BLOCK_SIZE + SUPER_BLOCK_SIZE <= s.len()
}

/// The super block stored in block 1.
pub open spec fn super_block_of(s: Seq<u8>) -> minix_super_block {
    minix_super_block {
        s_ninodes: u16_le(s, 1024),
        s_nzones: u16_le(s, 1026),
        s_imap_blocks: u16_le(s, 1028),
        s_zmap_blocks: u16_le(s, 1030),
        s_firstdatazone: u16_le(s, 1032),
        s_log_zone_size: u16_le(s, 1034),
        s_max_size: u32_le(s, 1036),
        s_magic: u16_le(s, 1040),
        s_state: u16_le(s, 1042),
        s_zones: u16_le(s, 1044),
    }
}

/// Offset of the inode table of a file system with super block `sb`.
pub open spec fn inode_table(sb: minix_super_block) -> int {
    1024 * (2 + sb.s_zmap_blocks + sb.s_imap_blocks)
}

/// Mode of the inode stored at `off`.
pub open spec fn mode_at(s: Seq<u8>, off: int) -> u16 {
    u16_le(s, off)
}

/// Size of the inode stored at `off`.
pub open spec fn size_at(s: Seq<u8>, off: int) -> u32 {
    u32_le(s, off + 4)
}

/// First zone of the inode stored at `off`.
pub open spec fn zone0_at(s: Seq<u8>, off: int) -> u16 {
    u16_le(s, off + 14)
}

/// Whether a mode marks a directory.
pub open spec fn is_dir_mode(mode: u16) -> bool {
    mode & 0o170000 == 0o040000
}

/// Inode number of the directory entry stored at `off`.
pub open spec fn entry_inode_at(s: Seq<u8>, off: int) -> u16 {
    u16_le(s, off)
}

/// The zero-terminated string in the `width` bytes from `start` on.
pub open spec fn c_str(s: Seq<u8>, start: int, width: int) -> Seq<u8> {
    let field = s.subrange(start, start + width);
    field.subrange(0, c_len_from(field, 0))
}

/// The name of the directory entry stored at `off`: its name bytes up to
/// the first zero byte, at most 30 of them.
pub open spec fn entry_name_at(s: Seq<u8>, off: int) -> Seq<u8> {
    c_str(s, off + 2, 30)
}

/// The first 30 bytes of `name`, padded with zero bytes to 30.
pub open spec fn padded_name(name: Seq<u8>) -> Seq<u8> {
    Seq::new(30, |i: int| if i < name.len() { name[i] } else { 0u8 })
}

/// The encoding of a directory entry for `inode` named `name`.
pub open spec fn dir_entry_bytes(inode: u16, name: Seq<u8>) -> Seq<u8> {
    u16_bytes(inode) + padded_name(name)
}

/// The name `.` (`k == 1`) or `..` (`k == 2`).
pub open spec fn dots(k: nat) -> Seq<u8> {
    Seq::new(k, |i: int| 46u8)
}

/// The abstract content of a list of output lines.
pub open spec fn lines_of(v: Seq<Vec<u8>>) -> Seq<Seq<u8>> {
    v.map_values(|l: Vec<u8>| l@)
}

/// Reads the super block.
fn read_super_block(img: &[u8]) -> (r: minix_super_block)
    requires
        has_super_block(img@),
    ensures
        r == super_block_of(img@),
{
    minix_super_block {
        s_ninodes: read_u16(img, 1024),
        s_nzones: read_u16(img, 1026),
        s_imap_blocks: read_u16(img, 1028),
        s_zmap_blocks: read_u16(img, 1030),
        s_firstdatazone: read_u16(img, 1032),
        s_log_zone_size: read_u16(img, 1034),
        s_max_size: read_u32(img, 1036),
        s_magic: read_u16(img, 1040),
        s_state: read_u16(img, 1042),
        s_zones: read_u16(img, 1044),
    }
}

/// The magic number of the file system.
pub fn read_magic(minix_img: &[u8]) -> (r: u16)
    requires
        has_super_block(minix_img@),
    ensures
        r == super_block_of(minix_img@).s_magic,
{
    read_super_block(minix_img).s_magic
}

/// Where the record of inode `n` starts; nothing for inode 0, without a
/// super block, or when the offset lies past the end of the image.
pub open spec fn spec_get_inode(s: Seq<u8>, n: u16) -> Option<usize> {
    if n == 0 || !has_super_block(s) {
        None
    } else {
        let off = inode_table(super_block_of(s)) + (n - 1) * 32;
        if off > s.len() {
            None
        } else {
            Some(off as usize)
        }
    }
}

/// Offset of the record of inode `inode_num` (see `spec_get_inode`).
pub fn get_inode(inode_num: u16, minix_img: &[u8]) -> (r: usize)
    requires
        spec_get_inode(minix_img@, inode_num) is Some,
    ensures
        r == spec_get_inode(minix_img@, inode_num)->Some_0,
{
    let sb = read_super_block(minix_img);
    let inodes_offset = 2 + sb.s_zmap_blocks as usize + sb.s_imap_blocks as usize;
    MINIX_BLOCK_SIZE * inodes_offset + (inode_num - 1) as usize * 32
}

/// A directory entry for `inode_num` named `file_name`, padded with zero
/// bytes; the name bytes are taken as signed characters.
pub fn new_dir_entry(inode_num: u16, file_name: &[u8]) -> (r: minix_dir_entry)
    requires
        file_name@.len() <= 30,
    ensures
        r.inode == inode_num,
        forall|i: int|
            0 <= i < 30 ==> r.name[i] == (if i < file_name@.len() {
                file_name@[i] as i8
            } else {
                0i8
            }),
{
    let mut name: [i8; 30] = [0i8; 30];
    let copy_len = file_name.len();
    let mut i: usize = 0;
    while i < copy_len
        invariant
            i <= copy_len,
            copy_len == file_name@.len(),
            copy_len <= 30,
            forall|j: int| 0 <= j < i ==> name[j] == file_name@[j] as i8,
            forall|j: int| i <= j < 30 ==> name[j] == 0i8,
        decreases copy_len - i,
    {
        name[i] = file_name[i] as i8;
        i = i + 1;
    }
    minix_dir_entry { inode: inode_num, name }
}

/// Whether the zero-terminated string in the `width` bytes from `start` on
/// equals `name`.
fn c_str_eq(img: &[u8], start: usize, width: usize, name: &[u8]) -> (r: bool)
    requires
        start + width <= img.len(),
    ensures
        r == (c_str(img@, start as int, width as int) == name@),
{
    let ghost field = img@.subrange(start as int, start + width);
    let mut len: usize = 0;
    while len < width && img[start + len] != 0
        invariant
            len <= width,
            start + width <= img.len(),
            field == img@.subrange(start as int, start + width),
            c_len_from(field, 0) == c_len_from(field, len as int),
        decreases width - len,
    {
        len = len + 1;
    }
    proof {
        lemma_c_len_bounds(field, 0);
    }
    assert(c_len_from(field, 0) == len);
    if len != name.len() {
        return false;
    }
    let mut k: usize = 0;
    while k < len
        invariant
            k <= len <= width,
            len == name@.len(),
            start + width <= img.len(),
            field == img@.subrange(start as int, start + width),
            c_len_from(field, 0) == len,
            forall|j: int| 0 <= j < k ==> field[j] == name@[j],
        decreases len - k,
    {
        if img[start + k] != name[k] {
            assert(c_str(img@, start as int, width as int)[k as int] != name@[k as int]);
            return false;
        }
        k = k + 1;
    }
    assert(c_str(img@, start as int, width as int) =~= name@);
    true
}

/// Copies the zero-terminated string in the `width` bytes from `start` on.
fn c_str_vec(img: &[u8], start: usize, width: usize) -> (r: Vec<u8>)
    requires
        start + width <= img.len(),
    ensures
        r@ == c_str(img@, start as int, width as int),
{
    let ghost field = img@.subrange(start as int, start + width);
    let mut v: Vec<u8> = Vec::new();
    let mut len: usize = 0;
    while len < width && img[start + len] != 0
        invariant
            len <= width,
            start + width <= img.len(),
            field == img@.subrange(start as int, start + width),
            c_len_from(field, 0) == c_len_from(field, len as int),
            v@ == field.subrange(0, len as int),
        decreases width - len,
    {
        v.push(img[start + len]);
        len = len + 1;
        assert(v@ =~= field.subrange(0, len as int));
    }
    proof {
        lemma_c_len_bounds(field, 0);
    }
    v
}

/// Writes a directory entry for `inode` named `name` at `off`.
fn write_entry(img: &mut [u8], off: usize, inode: u16, name: &[u8])
    requires
        off + 32 <= old(img).len(),
    ensures
        final(img)@ == write_bytes(old(img)@, off as int, dir_entry_bytes(inode, name@)),
{
    write_u16(img, off, inode);
    let ghost s1 = img@;
    fill_zero(img, off + 2, 30);
    let ghost s2 = img@;
    let copy_len = if name.len() < 30 {
        name.len()
    } else {
        30
    };
    let mut i: usize = 0;
    while i < copy_len
        invariant
            i <= copy_len <= 30,
            copy_len <= name@.len(),
            copy_len == name@.len() || copy_len == 30,
            off + 32 <= img.len(),
            img@.len() == s2.len(),
            s2 == write_bytes(s1, off + 2, zeros(30)),
            s1 == write_bytes(old(img)@, off as int, u16_bytes(inode)),
            forall|j: int|
                0 <= j < img@.len() ==> #[trigger] img@[j] == (if off + 2 <= j < off + 2 + i {
                    name@[j - off - 2]
                } else {
                    s2[j]
                }),
        decreases copy_len - i,
    {
        img[off + 2 + i] = name[i];
        i = i + 1;
    }
    assert(img@ =~= write_bytes(old(img)@, off as int, dir_entry_bytes(inode, name@)));
}

// ---------------------------------------------------------------------------
// Path resolution
// ---------------------------------------------------------------------------

/// Scans the entries `i..32` of the directory block at `zo` for one that
/// refers to an inode and is named `name`: its inode number, or nothing
/// when there is none; undefined when an entry lies outside the image.
pub open spec fn find_entry(s: Seq<u8>, zo: int, i: int, name: Seq<u8>) -> Option<Option<u16>>
    decreases 32 - i,
{
    if i >= 32 || i < 0 {
        Some(None)
    } else if zo + i * 32 + 32 > s.len() {
        None
    } else if entry_inode_at(s, zo + i * 32) != 0 && entry_name_at(s, zo + i * 32) == name {
        Some(Some(entry_inode_at(s, zo + i * 32)))
    } else {
        find_entry(s, zo, i + 1, name)
    }
}

/// Resolving the components `segs` one after another from inode `cur`: a
/// component found in the current directory's first zone moves to its
/// inode; a component that is not found is passed over.
pub open spec fn walk(s: Seq<u8>, cur: u16, segs: Seq<Seq<u8>>) -> Option<u16>
    decreases segs.len(),
{
    if segs.len() == 0 {
        Some(cur)
    } else {
        match spec_get_inode(s, cur) {
            None => None,
            Some(off) => if off + 16 > s.len() {
                None
            } else {
                match find_entry(s, zone0_at(s, off as int) * 1024, 0, segs[0]) {
                    None => None,
                    Some(found) => walk(
                        s,
                        match found {
                            Some(n) => n,
                            None => cur,
                        },
                        segs.drop_first(),
                    ),
                }
            },
        }
    }
}

/// The inode number a path resolves to, starting from the root inode 1.
pub open spec fn spec_inode_by_path(s: Seq<u8>, path: Seq<u8>) -> Option<u16> {
    walk(s, 1, path_segments(path))
}

/// Scans the directory block at `zo` for `name`; see `find_entry`.
fn find_entry_in(img: &[u8], zo: usize, name: &[u8]) -> (r: Option<Option<u16>>)
    ensures
        r == find_entry(img@, zo as int, 0, name@),
{
    let mut i: usize = 0;
    while i < 32
        invariant
            i <= 32,
            find_entry(img@, zo as int, 0, name@) == find_entry(img@, zo as int, i as int, name@),
        decreases 32 - i,
    {
        if zo > img.len() || (img.len() - zo) / 32 <= i {
            assert(zo + i * 32 + 32 > img@.len());
            return None;
        }
        let e = zo + i * 32;
        let ino = read_u16(img, e);
        if ino != 0 && c_str_eq(img, e + 2, 30, name) {
            return Some(Some(ino));
        }
        i = i + 1;
    }
    Some(None)
}

/// Resolves `file_path` from the root directory (see
/// `spec_inode_by_path`); components that are not found are passed over.
pub fn inode_by_path(minix_img: &mut [u8], file_path: &[u8]) -> (r: u16)
    requires
        spec_inode_by_path(old(minix_img)@, file_path@) is Some,
    ensures
        final(minix_img)@ == old(minix_img)@,
        r == spec_inode_by_path(old(minix_img)@, file_path@)->Some_0,
{
    let img: &[u8] = minix_img;
    let mut cur: u16 = 1;
    let mut i: usize = 0;
    while i < file_path.len()
        invariant
            i <= file_path@.len(),
            img@ == old(minix_img)@,
            spec_inode_by_path(img@, file_path@) == walk(img@, cur, segments_from(file_path@, i as int)),
            spec_inode_by_path(img@, file_path@) is Some,
        decreases file_path@.len() - i,
    {
        match next_segment(file_path, i) {
            None => {
                return cur;
            },
            Some((st, e)) => {
                let seg = vstd::slice::slice_subrange(file_path, st, e);
                let ghost segs = segments_from(file_path@, i as int);
                assert(segs[0] == seg@);
                assert(segs.drop_first() =~= segments_from(file_path@, e as int));
                let off = get_inode(cur, img);
                let zone = read_u16(img, off + 14);
                match find_entry_in(img, zone as usize * 1024, seg) {
                    Some(Some(n)) => {
                        cur = n;
                    },
                    _ => {},
                }
                i = e;
            },
        }
    }
    cur
}

// ---------------------------------------------------------------------------
// Allocation and linking
// ---------------------------------------------------------------------------

/// The first entry `k..32` of the directory block at `zo` that refers to
/// no inode; 32 when every one does.
pub open spec fn free_slot(s: Seq<u8>, zo: int, k: int) -> int
    decreases 32 - k,
{
    if k >= 32 || k < 0 {
        32
    } else if entry_inode_at(s, zo + k * 32) == 0 {
        k
    } else {
        free_slot(s, zo, k + 1)
    }
}

proof fn lemma_free_slot_range(s: Seq<u8>, zo: int, k: int)
    requires
        0 <= k <= 32,
    ensures
        k <= free_slot(s, zo, k) <= 32,
    decreases 32 - k,
{
    if k < 32 && entry_inode_at(s, zo + k * 32) != 0 {
        lemma_free_slot_range(s, zo, k + 1);
    }
}

/// Linking inode `new` into directory `parent` under `name`: the first
/// entry of the parent's first zone that refers to no inode gets `new` and
/// the first 30 bytes of `name`; `false` (and no change) when every entry
/// is in use.
pub open spec fn spec_link_inode(s: Seq<u8>, parent: u16, new: u16, name: Seq<u8>) -> Option<
    (bool, Seq<u8>),
> {
    match spec_get_inode(s, parent) {
        None => None,
        Some(off) => if off + 32 > s.len() {
            None
        } else {
            let zo = zone0_at(s, off as int) * 1024;
            if zo + 1024 > s.len() {
                None
            } else {
                let k = free_slot(s, zo, 0);
                if k >= 32 {
                    Some((false, s))
                } else {
                    Some((true, write_bytes(s, zo + k * 32, dir_entry_bytes(new, name))))
                }
            }
        },
    }
}

/// Links inode `new_inode_num` into directory `parent_inode_num` under
/// `file_name` (see `spec_link_inode`).
pub fn link_inode(minix_img: &mut [u8], parent_inode_num: u16, new_inode_num: u16, file_name: &[u8]) -> (r:
    bool)
    requires
        spec_link_inode(old(minix_img)@, parent_inode_num, new_inode_num, file_name@) is Some,
    ensures
        (r, final(minix_img)@) == spec_link_inode(
            old(minix_img)@,
            parent_inode_num,
            new_inode_num,
            file_name@,
        )->Some_0,
{
    let off = get_inode(parent_inode_num, minix_img);
    let zo = read_u16(minix_img, off + 14) as usize * MINIX_BLOCK_SIZE;
    let mut k: usize = 0;
    while k < 32
        invariant
            k <= 32,
            minix_img@ == old(minix_img)@,
            zo + 1024 <= minix_img.len(),
            spec_get_inode(minix_img@, parent_inode_num) == Some(off),
            off + 32 <= minix_img@.len(),
            zo == zone0_at(minix_img@, off as int) * 1024,
            free_slot(minix_img@, zo as int, 0) == free_slot(minix_img@, zo as int, k as int),
        decreases 32 - k,
    {
        let e = zo + k * 32;
        if read_u16(minix_img, e) == 0 {
            assert(free_slot(minix_img@, zo as int, k as int) == k);
            write_entry(minix_img, e, new_inode_num, file_name);
            return true;
        }
        k = k + 1;
    }
    false
}

/// Allocating an inode: the first inode number `i >= 1` whose bit in the
/// inode bitmap is clear gets its bit set and a zeroed record.  Undefined
/// when every bit is set (the record of inode 0 would be addressed).
pub open spec fn spec_alloc_inode(s: Seq<u8>) -> Option<(usize, Seq<u8>)> {
    if !has_super_block(s) {
        None
    } else {
        let sb = super_block_of(s);
        let max = sb.s_imap_blocks * 8192;
        let i = bit_scan(s, 2048, 1, max, 0);
        if i < 1 || i >= max {
            None
        } else {
            let s1 = set_bit(s, 2048 + i / 8, i % 8);
            let off = inode_table(sb) + (i - 1) * 32;
            if off + 32 > s1.len() {
                None
            } else {
                Some((i as usize, write_bytes(s1, off, zeros(32))))
            }
        }
    }
}

/// The first bit `i` in `from..max` of the bitmap at `base` that is clear
/// (see `bit_scan`).
fn first_clear_bit(img: &[u8], base: usize, from: usize, max: usize) -> (r: Result<
    Option<usize>,
    Error,
>)
    ensures
        match r {
            Ok(Some(i)) => from <= i < max && bit_scan(img@, base as int, from as int, max as int, 0)
                == i,
            Ok(None) => bit_scan(img@, base as int, from as int, max as int, 0) == max,
            Err(_) => bit_scan(img@, base as int, from as int, max as int, 0) == -1,
        },
{
    let mut i: usize = from;
    while i < max
        invariant
            from <= i,
            bit_scan(img@, base as int, from as int, max as int, 0) == bit_scan(
                img@,
                base as int,
                i as int,
                max as int,
                0,
            ),
        decreases max - i,
    {
        if base > img.len() || img.len() - base <= i / 8 {
            return Err(Error::Aborted);
        }
        let bit = (i % 8) as u8;
        if img[base + i / 8] & (1u8 << bit) == 0 {
            return Ok(Some(i));
        }
        i = i + 1;
    }
    Ok(None)
}

/// Allocates an inode (see `spec_alloc_inode`) and gives its number.
pub fn alloc_inode(minix_img: &mut [u8]) -> (r: usize)
    requires
        spec_alloc_inode(old(minix_img)@) is Some,
    ensures
        (r, final(minix_img)@) == spec_alloc_inode(old(minix_img)@)->Some_0,
{
    let sb = read_super_block(minix_img);
    let max_bits = sb.s_imap_blocks as usize * MINIX_BLOCK_SIZE * 8;
    let i = match first_clear_bit(minix_img, 2048, 1, max_bits) {
        Ok(Some(i)) => i,
        _ => {
            return 0;
        },
    };
    proof {
        lemma_bit_scan_found(minix_img@, 2048, 1, max_bits as int, 0);
    }
    let byte_idx = 2048 + i / 8;
    let bit = (i % 8) as u8;
    minix_img[byte_idx] = minix_img[byte_idx] | (1u8 << bit);
    let inode_table_block = 2 + sb.s_imap_blocks as usize + sb.s_zmap_blocks as usize;
    let off = inode_table_block * MINIX_BLOCK_SIZE + (i - 1) * 32;
    fill_zero(minix_img, off, 32);
    i
}

/// Allocating a zone for inode `n`: the first bit `i` from
/// `s_firstdatazone` on of the zone bitmap that is clear is set and zone
/// `i` becomes the inode's first zone; 0 (and no change) when every bit is
/// set.
pub open spec fn spec_alloc_zone(s: Seq<u8>, n: u16) -> Option<(u16, Seq<u8>)> {
    match spec_get_inode(s, n) {
        None => None,
        Some(ioff) => {
            let sb = super_block_of(s);
            if 2 + sb.s_imap_blocks > u16::MAX {
                None
            } else {
                let base = (2 + sb.s_imap_blocks) * 1024;
                let max = sb.s_zmap_blocks * 8192;
                let i = bit_scan(s, base, sb.s_firstdatazone as int, max, 0);
                if i < 0 {
                    None
                } else if i >= max {
                    Some((0u16, s))
                } else {
                    let s1 = set_bit(s, base + i / 8, i % 8);
                    if ioff + 16 > s1.len() {
                        None
                    } else {
                        Some((i as u16, write_bytes(s1, ioff + 14, u16_bytes(i as u16))))
                    }
                }
            }
        },
    }
}

/// Allocates a zone for inode `inode_num` (see `spec_alloc_zone`) and
/// gives its number.
pub fn alloc_zone(minix_img: &mut [u8], inode_num: u16) -> (r: u16)
    requires
        spec_alloc_zone(old(minix_img)@, inode_num) is Some,
    ensures
        (r, final(minix_img)@) == spec_alloc_zone(old(minix_img)@, inode_num)->Some_0,
{
    let ioff = get_inode(inode_num, minix_img);
    let sb = read_super_block(minix_img);
    let block_offset = 2 + sb.s_imap_blocks;
    let base = block_offset as usize * MINIX_BLOCK_SIZE;
    let max_bits = sb.s_zmap_blocks as usize * MINIX_BLOCK_SIZE * 8;
    let i = match first_clear_bit(minix_img, base, sb.s_firstdatazone as usize, max_bits) {
        Ok(Some(i)) => i,
        _ => {
            return 0;
        },
    };
    proof {
        lemma_bit_scan_found(minix_img@, base as int, sb.s_firstdatazone as int, max_bits as int, 0);
    }
    let byte_idx = base + i / 8;
    let bit = (i % 8) as u8;
    minix_img[byte_idx] = minix_img[byte_idx] | (1u8 << bit);
    let zone = #[verifier::truncate] (i as u16);
    write_u16(minix_img, ioff + 14, zone);
    zone
}

// ---------------------------------------------------------------------------
// Files and directories
// ---------------------------------------------------------------------------

/// Writing `data` to the file at `path`: the path is resolved, an inode
/// without a first zone gets one allocated, and `data` is copied to the
/// start of that zone.  The size field is left as it was.
pub open spec fn spec_write_file(s: Seq<u8>, path: Seq<u8>, data: Seq<u8>) -> Option<Seq<u8>> {
    match spec_inode_by_path(s, path) {
        None => None,
        Some(n) => match spec_get_inode(s, n) {
            None => None,
            Some(ioff) => if ioff + 16 > s.len() {
                None
            } else {
                let z0 = zone0_at(s, ioff as int);
                let zr = if z0 == 0 {
                    spec_alloc_zone(s, n)
                } else {
                    Some((z0, s))
                };
                match zr {
                    None => None,
                    Some((z, s1)) => {
                        let zb = z * 1024;
                        if zb + data.len() > s1.len() {
                            None
                        } else {
                            Some(write_bytes(s1, zb, data))
                        }
                    },
                }
            },
        },
    }
}

/// Writes `data` to the file at `file_path` (see `spec_write_file`).
pub fn write_file(minix_img: &mut [u8], file_path: &[u8], data: &[u8])
    requires
        spec_write_file(old(minix_img)@, file_path@, data@) is Some,
    ensures
        final(minix_img)@ == spec_write_file(old(minix_img)@, file_path@, data@)->Some_0,
{
    let n = inode_by_path(minix_img, file_path);
    let ioff = get_inode(n, minix_img);
    let mut zone = read_u16(minix_img, ioff + 14);
    if zone == 0 {
        zone = alloc_zone(minix_img, n);
    }
    let zb = zone as usize * MINIX_BLOCK_SIZE;
    write_slice(minix_img, zb, data);
}

/// Creating a file: an inode is allocated, the path is split into parent
/// directory and name, and the inode is linked into the parent under the
/// name (a failed link is ignored).  Gives the offset of the new inode's
/// record (addressed by its number taken to 16 bits).
pub open spec fn spec_create_file(s: Seq<u8>, path: Seq<u8>) -> Option<(usize, Seq<u8>)> {
    if !has_super_block(s) {
        None
    } else {
        match spec_alloc_inode(s) {
            None => None,
            Some((n, s1)) => {
                let (dir, name) = spec_split_path(path);
                match spec_inode_by_path(s1, dir) {
                    None => None,
                    Some(p) => match spec_link_inode(s1, p, n as u16, name) {
                        None => None,
                        Some((_, s2)) => match spec_get_inode(s2, n as u16) {
                            None => None,
                            Some(off) => Some((off, s2)),
                        },
                    },
                }
            },
        }
    }
}

/// Creates a file at `file_path` (see `spec_create_file`) and gives the
/// offset of its inode record.
pub fn create_file(minix_img: &mut [u8], file_path: &[u8]) -> (r: usize)
    requires
        spec_create_file(old(minix_img)@, file_path@) is Some,
    ensures
        (r, final(minix_img)@) == spec_create_file(old(minix_img)@, file_path@)->Some_0,
{
    let inode_num = alloc_inode(minix_img);
    let (parent_path, file_name) = split_path_and_filename(file_path);
    let parent_inode = inode_by_path(minix_img, parent_path);
    let n16 = #[verifier::truncate] (inode_num as u16);
    let _ = link_inode(minix_img, parent_inode, n16, file_name);
    get_inode(n16, minix_img)
}

/// The first zone of a new directory: entries `.` (the directory itself)
/// and `..` (its parent), then 30 empty entries.
pub open spec fn dir_block(n: u16, parent: u16) -> Seq<u8> {
    dir_entry_bytes(n, dots(1)) + dir_entry_bytes(parent, dots(2)) + zeros(960)
}

/// The image once directory `n` (with zone `z`) has been set up under
/// `parent`, before it is linked: the inode gets mode `0o4444`, size 64,
/// two links and the zone, and the zone gets the entries `.` and `..`.
pub open spec fn dir_set_up(s: Seq<u8>, n: u16, z: u16, parent: u16) -> Seq<u8> {
    let ioff = spec_get_inode(s, n)->Some_0 as int;
    let s1 = write_bytes(s, ioff, u16_bytes(0o4444));
    let s2 = write_bytes(s1, ioff + 4, u32_bytes(64));
    let s3 = write_bytes(s2, ioff + 13, seq![2u8]);
    let s4 = write_bytes(s3, ioff + 14, u16_bytes(z));
    write_bytes(s4, z * 1024, dir_block(n, parent))
}

/// The last steps of making directory `n` (with zone `z`) under `parent`:
/// it is set up (see `dir_set_up`) and linked into the parent under
/// `name`.
pub open spec fn spec_finish_dir(s: Seq<u8>, n: u16, z: u16, parent: u16, name: Seq<u8>) -> Option<
    (bool, Seq<u8>),
> {
    match spec_get_inode(s, n) {
        None => None,
        Some(ioff) => if ioff + 16 > s.len() || z * 1024 + 1024 > s.len() {
            None
        } else {
            spec_link_inode(dir_set_up(s, n, z, parent), parent, n, name)
        },
    }
}

/// Making a directory named `name` under `parent`: an inode and a zone
/// are allocated and set up (see `spec_finish_dir`); `false` where an
/// inode number of 0 (taken to 16 bits) or zone 0 came back.
pub open spec fn spec_new_dir(s: Seq<u8>, parent: u16, name: Seq<u8>) -> Option<(bool, Seq<u8>)> {
    match spec_alloc_inode(s) {
        None => None,
        Some((n, s1)) => {
            let n16 = n as u16;
            if n16 == 0 {
                Some((false, s1))
            } else {
                match spec_alloc_zone(s1, n16) {
                    None => None,
                    Some((z, s2)) => if z == 0 {
                        Some((false, s2))
                    } else {
                        spec_finish_dir(s2, n16, z, parent, name)
                    },
                }
            }
        },
    }
}

/// Making a directory: a path without `/` is refused; the parent is
/// resolved and the directory made under it (see `spec_new_dir`).  Gives
/// whether the final link succeeded.
pub open spec fn spec_create_dir(s: Seq<u8>, path: Seq<u8>) -> Option<(bool, Seq<u8>)> {
    if last_slash(path) < 0 {
        Some((false, s))
    } else {
        let (dir, name) = spec_split_path(path);
        match spec_inode_by_path(s, dir) {
            None => None,
            Some(p) => if p == 0 {
                Some((false, s))
            } else {
                spec_new_dir(s, p, name)
            },
        }
    }
}

/// Sets up directory `n` with zone `z` under `parent`; see
/// `spec_finish_dir`.
fn finish_dir(minix_img: &mut [u8], n: u16, z: u16, parent: u16, name: &[u8]) -> (r: bool)
    requires
        spec_finish_dir(old(minix_img)@, n, z, parent, name@) is Some,
    ensures
        (r, final(minix_img)@) == spec_finish_dir(old(minix_img)@, n, z, parent, name@)->Some_0,
{
    let ioff = get_inode(n, minix_img);
    write_u16(minix_img, ioff, 0o4444);
    write_u32(minix_img, ioff + 4, 64);
    let ghost s3 = minix_img@;
    minix_img[ioff + 13] = 2;
    assert(minix_img@ =~= write_bytes(s3, ioff + 13, seq![2u8]));
    write_u16(minix_img, ioff + 14, z);
    let zo = z as usize * MINIX_BLOCK_SIZE;
    let ghost s4 = minix_img@;
    let dot: &[u8] = &[46u8];
    let dotdot: &[u8] = &[46u8, 46u8];
    assert(dot@ =~= dots(1));
    assert(dotdot@ =~= dots(2));
    write_entry(minix_img, zo, n, dot);
    write_entry(minix_img, zo + 32, parent, dotdot);
    fill_zero(minix_img, zo + 64, 960);
    assert(minix_img@ =~= write_bytes(s4, zo as int, dir_block(n, parent)));
    assert(minix_img@ == dir_set_up(old(minix_img)@, n, z, parent));
    link_inode(minix_img, parent, n, name)
}

/// Makes a directory named `name` under `parent`; see `spec_new_dir`.
fn new_dir(minix_img: &mut [u8], parent: u16, name: &[u8]) -> (r: bool)
    requires
        spec_new_dir(old(minix_img)@, parent, name@) is Some,
    ensures
        (r, final(minix_img)@) == spec_new_dir(old(minix_img)@, parent, name@)->Some_0,
{
    let n = alloc_inode(minix_img);
    let new_inode_num = #[verifier::truncate] (n as u16);
    if new_inode_num == 0 {
        return false;
    }
    let new_zone_num = alloc_zone(minix_img, new_inode_num);
    if new_zone_num == 0 {
        return false;
    }
    finish_dir(minix_img, new_inode_num, new_zone_num, parent, name)
}

/// Makes a directory at `dir_path` (see `spec_create_dir`).
pub fn create_dir(minix_img: &mut [u8], dir_path: &[u8]) -> (r: bool)
    requires
        spec_create_dir(old(minix_img)@, dir_path@) is Some,
    ensures
        (r, final(minix_img)@) == spec_create_dir(old(minix_img)@, dir_path@)->Some_0,
{
    let mut k: usize = dir_path.len();
    assert(dir_path@.subrange(0, k as int) =~= dir_path@);
    while k > 0 && dir_path[k - 1] != 47u8
        invariant
            k <= dir_path@.len(),
            last_slash(dir_path@) == last_slash(dir_path@.subrange(0, k as int)),
        decreases k,
    {
        assert(dir_path@.subrange(0, k as int).drop_last() =~= dir_path@.subrange(0, k - 1));
        k = k - 1;
    }
    if k == 0 {
        assert(dir_path@.subrange(0, 0) =~= Seq::<u8>::empty());
        return false;
    }
    assert(last_slash(dir_path@) >= 0);
    let (parent_path, file_name) = split_path_and_filename(dir_path);
    let parent_inode_num = inode_by_path(minix_img, parent_path);
    if parent_inode_num == 0 {
        return false;
    }
    new_dir(minix_img, parent_inode_num, file_name)
}

// ---------------------------------------------------------------------------
// Listings
// ---------------------------------------------------------------------------

/// The line `file_data:`.
pub open spec fn file_data_label() -> Seq<u8> {
    seq![102u8, 105u8, 108u8, 101u8, 95u8, 100u8, 97u8, 116u8, 97u8, 58u8]
}

/// The line `directory:`.
pub open spec fn directory_label() -> Seq<u8> {
    seq![100u8, 105u8, 114u8, 101u8, 99u8, 116u8, 111u8, 114u8, 121u8, 58u8]
}

fn file_data_label_vec() -> (r: Vec<u8>)
    ensures
        r@ == file_data_label(),
{
    let r: Vec<u8> = vec![102u8, 105u8, 108u8, 101u8, 95u8, 100u8, 97u8, 116u8, 97u8, 58u8];
    assert(r@ =~= file_data_label());
    r
}

fn directory_label_vec() -> (r: Vec<u8>)
    ensures
        r@ == directory_label(),
{
    let r: Vec<u8> = vec![100u8, 105u8, 114u8, 101u8, 99u8, 116u8, 111u8, 114u8, 121u8, 58u8];
    assert(r@ =~= directory_label());
    r
}

/// Appends `line` to `out`.
fn push_line(out: &mut Vec<Vec<u8>>, line: Vec<u8>)
    ensures
        lines_of(final(out)@) == lines_of(old(out)@).push(line@),
{
    let ghost pre = out@;
    let ghost l = line;
    out.push(line);
    assert(lines_of(out@) =~= lines_of(pre).push(l@));
}

/// The lines printed for the file whose inode record is at `off`: none
/// when it has no first zone or is empty, else `file_data:` and the text
/// of the first `min(size, 1024)` bytes of its first zone (see
/// `utf8_or_invalid`).
pub open spec fn spec_file_zone(s: Seq<u8>, off: int) -> Option<Seq<Seq<u8>>> {
    if off < 0 || off + 16 > s.len() {
        None
    } else {
        let z = zone0_at(s, off);
        let size = size_at(s, off);
        if z == 0 || size == 0 {
            Some(Seq::empty())
        } else {
            let zo = z * 1024;
            let n: int = if size < 1024 {
                size as int
            } else {
                1024
            };
            if zo + n > s.len() {
                None
            } else {
                Some(seq![file_data_label(), utf8_or_invalid(s.subrange(zo, zo + n))])
            }
        }
    }
}

/// Appends the lines for the file whose inode record is at `inode` to
/// `out` (see `spec_file_zone`).
pub fn read_file_zone(inode: usize, minix_img: &[u8], out: &mut Vec<Vec<u8>>)
    requires
        spec_file_zone(minix_img@, inode as int) is Some,
    ensures
        lines_of(final(out)@) == lines_of(old(out)@) + spec_file_zone(minix_img@, inode as int)->Some_0,
{
    assert(minix_img@.len() == minix_img.len());
    let zone_0 = read_u16(minix_img, inode + 14) as usize;
    let file_size = read_u32(minix_img, inode + 4) as usize;
    if zone_0 == 0 || file_size == 0 {
        assert(lines_of(out@) =~= lines_of(out@) + Seq::<Seq<u8>>::empty());
        return;
    }
    let zone_offset = zone_0 * MINIX_BLOCK_SIZE;
    let read_len = if file_size < MINIX_BLOCK_SIZE {
        file_size
    } else {
        MINIX_BLOCK_SIZE
    };
    let data = vstd::slice::slice_subrange(minix_img, zone_offset, zone_offset + read_len);
    let mut text: Vec<u8> = Vec::new();
    push_utf8_or_invalid(&mut text, data);
    assert(text@ =~= utf8_or_invalid(data@));
    let ghost o0 = lines_of(out@);
    push_line(out, file_data_label_vec());
    push_line(out, text);
    assert(lines_of(out@) =~= o0 + seq![
        file_data_label(),
        utf8_or_invalid(minix_img@.subrange(zone_offset as int, zone_offset + read_len)),
    ]);
}

/// The lines printed for the directory whose inode record is at `off`:
/// nothing without a first zone; else for each entry of its first
/// `min(size / 32, 32)` entries (see `spec_name_entries`).  `fuel` bounds
/// the nesting of directories; running out of it means the listing never
/// ends.
#[verifier::opaque]
pub open spec fn spec_names(s: Seq<u8>, off: int, fuel: nat) -> Option<Seq<Seq<u8>>>
    decreases fuel, 40int,
{
    if off < 0 || off + 16 > s.len() {
        None
    } else {
        let z = zone0_at(s, off);
        if z == 0 {
            Some(Seq::empty())
        } else {
            let count: int = if size_at(s, off) / 32 < 32 {
                (size_at(s, off) / 32) as int
            } else {
                32
            };
            spec_name_entries(s, z * 1024, count, 0, fuel)
        }
    }
}

/// The lines for the entries `i..count` of the directory block at `zo`:
/// an entry that refers to an inode gives the text of its name (see
/// `utf8_or_invalid`); unless the name
/// starts with `.`, an inode whose bit is set in the inode bitmap is then
/// listed too, a directory by its entries and a file by its data (see
/// `spec_file_zone`).
#[verifier::opaque]
pub open spec fn spec_name_entries(s: Seq<u8>, zo: int, count: int, i: int, fuel: nat) -> Option<
    Seq<Seq<u8>>,
>
    decreases fuel, count - i,
{
    if i >= count || i < 0 || count > 32 {
        Some(Seq::empty())
    } else {
        let e = zo + i * 32;
        if e < 0 || e + 32 > s.len() {
            None
        } else {
            let ino = entry_inode_at(s, e);
            let rest = spec_name_entries(s, zo, count, i + 1, fuel);
            if ino == 0 {
                rest
            } else {
                let tail = if s[e + 2] == 46u8 {
                    rest
                } else {
                    let idx = 2048 + ino / 8;
                    if idx >= s.len() {
                        None
                    } else {
                        match spec_get_inode(s, ino) {
                            None => None,
                            Some(ioff) => if !bit_is_set(s[idx], (ino % 8) as int) {
                                rest
                            } else if ioff + 16 > s.len() {
                                None
                            } else if is_dir_mode(mode_at(s, ioff as int)) {
                                if fuel == 0 {
                                    None
                                } else {
                                    match spec_names(s, ioff as int, (fuel - 1) as nat) {
                                        None => None,
                                        Some(sub) => match rest {
                                            None => None,
                                            Some(r) => Some(sub + r),
                                        },
                                    }
                                }
                            } else {
                                match spec_file_zone(s, ioff as int) {
                                    None => None,
                                    Some(f) => match rest {
                                        None => None,
                                        Some(r) => Some(f + r),
                                    },
                                }
                            },
                        }
                    }
                };
                match tail {
                    None => None,
                    Some(t) => Some(seq![utf8_or_invalid(entry_name_at(s, e))] + t),
                }
            }
        }
    }
}

/// Appends the lines for the directory whose record is at `off`; see
/// `spec_names`.
fn names_in(img: &[u8], off: usize, fuel: u16, out: &mut Vec<Vec<u8>>)
    requires
        spec_names(img@, off as int, fuel as nat) is Some,
    ensures
        lines_of(final(out)@) == lines_of(old(out)@) + spec_names(img@, off as int, fuel as nat)->Some_0,
    decreases fuel, 40int,
{
    proof {
        reveal(spec_names);
        reveal(spec_name_entries);
    }
    let ghost o0 = lines_of(out@);
    assert(img@.len() == img.len());
    let zone_block = read_u16(img, off + 14) as usize;
    if zone_block == 0 {
        assert(lines_of(out@) =~= o0 + Seq::<Seq<u8>>::empty());
        return;
    }
    let zone_offset = zone_block * MINIX_BLOCK_SIZE;
    let file_size = read_u32(img, off + 4) as usize;
    let num_entries = if file_size / 32 < 32 {
        file_size / 32
    } else {
        32
    };
    let ghost mut emitted: Seq<Seq<u8>> = Seq::empty();
    let mut i: usize = 0;
    while i < num_entries
        invariant
            i <= num_entries <= 32,
            zone_offset == zone_block * 1024,
            zone_block < 65536,
            lines_of(out@) == o0 + emitted,
            spec_name_entries(img@, zone_offset as int, num_entries as int, i as int, fuel as nat) is Some,
            spec_names(img@, off as int, fuel as nat)->Some_0 == emitted + spec_name_entries(
                img@,
                zone_offset as int,
                num_entries as int,
                i as int,
                fuel as nat,
            )->Some_0,
        decreases num_entries - i,
    {
        proof {
            reveal(spec_name_entries);
            reveal(spec_names);
        }
        let e = zone_offset + i * 32;
        let ghost restv = spec_name_entries(img@, zone_offset as int, num_entries as int, i + 1, fuel as nat);
        let ino = read_u16(img, e);
        if ino == 0 {
            i = i + 1;
            continue;
        }
        let raw = c_str_vec(img, e + 2, 30);
        let mut name: Vec<u8> = Vec::new();
        push_utf8_or_invalid(&mut name, raw.as_slice());
        assert(name@ =~= utf8_or_invalid(entry_name_at(img@, e as int)));
        let ghost nm = name@;
        let ghost e0 = emitted;
        push_line(out, name);
        proof {
            emitted = emitted.push(nm);
        }
        if img[e + 2] != 46u8 {
            let idx = 2048 + ino as usize / 8;
            let bit = (ino % 8) as u8;
            let is_used = img[idx] & (1u8 << bit) != 0;
            let ioff = get_inode(ino, img);
            if is_used {
                let mode = read_u16(img, ioff);
                if mode & 0o170000 == 0o040000 {
                    let ghost subv = spec_names(img@, ioff as int, (fuel - 1) as nat);
                    names_in(img, ioff, fuel - 1, out);
                    proof {
                        assert(e0 + (seq![nm] + (subv->Some_0 + restv->Some_0)) =~= (e0.push(nm)
                            + subv->Some_0) + restv->Some_0);
                        emitted = emitted + subv->Some_0;
                    }
                } else {
                    let ghost fv = spec_file_zone(img@, ioff as int);
                    read_file_zone(ioff, img, out);
                    proof {
                        assert(e0 + (seq![nm] + (fv->Some_0 + restv->Some_0)) =~= (e0.push(nm)
                            + fv->Some_0) + restv->Some_0);
                        emitted = emitted + fv->Some_0;
                    }
                }
            } else {
                assert(e0 + (seq![nm] + restv->Some_0) =~= e0.push(nm) + restv->Some_0);
            }
        } else {
            assert(e0 + (seq![nm] + restv->Some_0) =~= e0.push(nm) + restv->Some_0);
        }
        i = i + 1;
    }
    proof {
        reveal(spec_name_entries);
        assert(emitted + Seq::<Seq<u8>>::empty() =~= emitted);
    }
}

/// Appends the lines for the directory whose inode record is at
/// `root_inode` to `out`: the name of every entry in use, and below an
/// entry for a file or directory its data or entries (see `spec_names`).
pub fn read_file_name(root_inode: usize, minix_img: &[u8], out: &mut Vec<Vec<u8>>)
    requires
        spec_names(minix_img@, root_inode as int, 65535) is Some,
    ensures
        lines_of(final(out)@) == lines_of(old(out)@) + spec_names(
            minix_img@,
            root_inode as int,
            65535,
        )->Some_0,
{
    names_in(minix_img, root_inode, 65535, out);
}

/// Appends the line `directory:` and then the lines of `read_file_name`
/// for the directory whose inode record is at `root_inode`.
pub fn read_all_directoies(root_inode: usize, minix_img: &[u8], out: &mut Vec<Vec<u8>>)
    requires
        spec_names(minix_img@, root_inode as int, 65535) is Some,
    ensures
        lines_of(final(out)@) == lines_of(old(out)@).push(directory_label()) + spec_names(
            minix_img@,
            root_inode as int,
            65535,
        )->Some_0,
{
    push_line(out, directory_label_vec());
    read_file_name(root_inode, minix_img, out);
}

/// The UTF-8 encoding of the character whose code is the byte `b`.
pub open spec fn char_utf8(b: u8) -> Seq<u8> {
    if b < 128 {
        seq![b]
    } else {
        seq![0xC0u8 | (b >> 6u8), 0x80u8 | (b & 0x3Fu8)]
    }
}

/// The lines for the name bytes `j..30` of the entry at `e`: one line for
/// each non-zero byte, holding the character that the byte codes.
pub open spec fn name_chars(s: Seq<u8>, e: int, j: int) -> Seq<Seq<u8>>
    decreases 30 - j,
{
    if j >= 30 || j < 0 {
        Seq::empty()
    } else if s[e + 2 + j] != 0 {
        seq![char_utf8(s[e + 2 + j])] + name_chars(s, e, j + 1)
    } else {
        name_chars(s, e, j + 1)
    }
}

/// The lines for the names of the entries `k..32` of the directory block
/// at `zo` (see `name_chars`); undefined when an entry lies outside the
/// image.
pub open spec fn entry_chars(s: Seq<u8>, zo: int, k: int) -> Option<Seq<Seq<u8>>>
    decreases 32 - k,
{
    if k >= 32 || k < 0 {
        Some(Seq::empty())
    } else if zo + k * 32 + 32 > s.len() {
        None
    } else {
        match entry_chars(s, zo, k + 1) {
            None => None,
            Some(r) => Some(name_chars(s, zo + k * 32, 0) + r),
        }
    }
}

/// The lines for the inodes `i..s_ninodes` whose bit is set in the inode
/// bitmap: the names of the 32 entries of each one's first zone (see
/// `entry_chars`).  The inode with bit `i` is taken from slot `i` of the
/// inode table.
pub open spec fn inode_chars(s: Seq<u8>, sb: minix_super_block, i: int) -> Option<Seq<Seq<u8>>>
    decreases sb.s_ninodes - i,
{
    if i >= sb.s_ninodes || i < 0 {
        Some(Seq::empty())
    } else {
        let idx = 2048 + i / 8;
        if idx >= s.len() {
            None
        } else if !bit_is_set(s[idx], i % 8) {
            inode_chars(s, sb, i + 1)
        } else {
            let off = inode_table(sb) + i * 32;
            if off + 32 > s.len() {
                None
            } else {
                match entry_chars(s, zone0_at(s, off) * 1024, 0) {
                    None => None,
                    Some(a) => match inode_chars(s, sb, i + 1) {
                        None => None,
                        Some(r) => Some(a + r),
                    },
                }
            }
        }
    }
}

/// The lines `read_all_inode` prints (see `inode_chars`).
pub open spec fn spec_read_all_inode(s: Seq<u8>) -> Option<Seq<Seq<u8>>> {
    if !has_super_block(s) {
        None
    } else {
        inode_chars(s, super_block_of(s), 0)
    }
}

fn char_line(b: u8) -> (r: Vec<u8>)
    ensures
        r@ == char_utf8(b),
{
    let mut v: Vec<u8> = Vec::new();
    if b < 128 {
        v.push(b);
    } else {
        v.push(0xC0u8 | (b >> 6u8));
        v.push(0x80u8 | (b & 0x3Fu8));
    }
    assert(v@ =~= char_utf8(b));
    v
}

/// Appends the lines for the name of the entry at `e`; see `name_chars`.
fn name_chars_in(img: &[u8], e: usize, out: &mut Vec<Vec<u8>>)
    requires
        e + 32 <= img.len(),
    ensures
        lines_of(final(out)@) == lines_of(old(out)@) + name_chars(img@, e as int, 0),
{
    let ghost o0 = lines_of(out@);
    let ghost mut emitted: Seq<Seq<u8>> = Seq::empty();
    let mut j: usize = 0;
    while j < 30
        invariant
            j <= 30,
            e + 32 <= img.len(),
            lines_of(out@) == o0 + emitted,
            name_chars(img@, e as int, 0) == emitted + name_chars(img@, e as int, j as int),
        decreases 30 - j,
    {
        let b = img[e + 2 + j];
        if b != 0 {
            let ghost line = char_utf8(b);
            push_line(out, char_line(b));
            proof {
                assert(emitted + (seq![line] + name_chars(img@, e as int, j + 1)) =~= emitted.push(
                    line,
                ) + name_chars(img@, e as int, j + 1));
                emitted = emitted.push(line);
            }
        }
        j = j + 1;
    }
    assert(emitted + Seq::<Seq<u8>>::empty() =~= emitted);
}

/// Appends the lines for the names in the directory block at `zo`; see
/// `entry_chars`.
fn entry_chars_in(img: &[u8], zo: usize, out: &mut Vec<Vec<u8>>)
    requires
        entry_chars(img@, zo as int, 0) is Some,
    ensures
        lines_of(final(out)@) == lines_of(old(out)@) + entry_chars(img@, zo as int, 0)->Some_0,
{
    let ghost o0 = lines_of(out@);
    let ghost mut emitted: Seq<Seq<u8>> = Seq::empty();
    let mut k: usize = 0;
    while k < 32
        invariant
            k <= 32,
            lines_of(out@) == o0 + emitted,
            entry_chars(img@, zo as int, k as int) is Some,
            entry_chars(img@, zo as int, 0)->Some_0 == emitted + entry_chars(img@, zo as int, k as int)->Some_0,
        decreases 32 - k,
    {
        assert(img@.len() == img.len());
        let e = zo + k * 32;
        let ghost part = name_chars(img@, e as int, 0);
        let ghost rest = entry_chars(img@, zo as int, k + 1)->Some_0;
        name_chars_in(img, e, out);
        proof {
            assert(emitted + (part + rest) =~= (emitted + part) + rest);
            emitted = emitted + part;
        }
        k = k + 1;
    }
    assert(emitted + Seq::<Seq<u8>>::empty() =~= emitted);
}

/// For every inode in use, appends one line for each non-zero name byte
/// of the 32 entries of its first zone (see `spec_read_all_inode`).
pub fn read_all_inode(minix_img: &[u8], out: &mut Vec<Vec<u8>>)
    requires
        spec_read_all_inode(minix_img@) is Some,
    ensures
        lines_of(final(out)@) == lines_of(old(out)@) + spec_read_all_inode(minix_img@)->Some_0,
{
    let sb = read_super_block(minix_img);
    let inodes_num = sb.s_ninodes as usize;
    let block_offset = 2 + sb.s_zmap_blocks as usize + sb.s_imap_blocks as usize;
    let ghost o0 = lines_of(out@);
    let ghost mut emitted: Seq<Seq<u8>> = Seq::empty();
    let mut i: usize = 0;
    while i < inodes_num
        invariant
            i <= inodes_num,
            inodes_num == sb.s_ninodes,
            sb == super_block_of(minix_img@),
            block_offset == 2 + sb.s_zmap_blocks + sb.s_imap_blocks,
            lines_of(out@) == o0 + emitted,
            inode_chars(minix_img@, sb, i as int) is Some,
            spec_read_all_inode(minix_img@)->Some_0 == emitted + inode_chars(minix_img@, sb, i as int)->Some_0,
        decreases inodes_num - i,
    {
        assert(minix_img@.len() == minix_img.len());
        let idx = 2048 + i / 8;
        let bit = (i % 8) as u8;
        if minix_img[idx] & (1u8 << bit) != 0 {
            let off = MINIX_BLOCK_SIZE * block_offset + i * 32;
            let zo = read_u16(minix_img, off + 14) as usize * MINIX_BLOCK_SIZE;
            let ghost part = entry_chars(minix_img@, zo as int, 0)->Some_0;
            let ghost rest = inode_chars(minix_img@, sb, i + 1)->Some_0;
            entry_chars_in(minix_img, zo, out);
            proof {
                assert(emitted + (part + rest) =~= (emitted + part) + rest);
                emitted = emitted + part;
            }
        }
        i = i + 1;
    }
    assert(emitted + Seq::<Seq<u8>>::empty() =~= emitted);
}

// ---------------------------------------------------------------------------
// Laws
// ---------------------------------------------------------------------------

/// `t` has the length of `s` and the same bytes wherever resolving `segs`
/// from inode `cur` in `s` reads: the super block, and for each directory
/// passed its first-zone field and the 32 entries of that zone.
pub open spec fn walk_reads_agree(s: Seq<u8>, t: Seq<u8>, cur: u16, segs: Seq<Seq<u8>>) -> bool
    decreases segs.len(),
{
    &&& s.len() == t.len()
    &&& agree(s, t, 1024, 1046)
    &&& segs.len() > 0 ==> match spec_get_inode(s, cur) {
        None => true,
        Some(off) => {
            let zo = zone0_at(s, off as int) * 1024;
            &&& agree(s, t, off + 14, off + 16)
            &&& agree(s, t, zo, zo + 1024)
            &&& match find_entry(s, zo, 0, segs[0]) {
                None => true,
                Some(found) => walk_reads_agree(
                    s,
                    t,
                    match found {
                        Some(n) => n,
                        None => cur,
                    },
                    segs.drop_first(),
                ),
            }
        },
    }
}

proof fn lemma_super_block_frame(s: Seq<u8>, t: Seq<u8>)
    requires
        s.len() == t.len(),
        agree(s, t, 1024, 1046),
    ensures
        has_super_block(s) ==> super_block_of(t) == super_block_of(s),
{
    if has_super_block(s) {
        assert forall|i: int| 1024 <= i < 1046 implies s[i] == t[i] by {}
    }
}

/// Where the inode records are found depends only on the super block.
proof fn lemma_get_inode_frame(s: Seq<u8>, t: Seq<u8>, n: u16)
    requires
        s.len() == t.len(),
        agree(s, t, 1024, 1046),
    ensures
        spec_get_inode(t, n) == spec_get_inode(s, n),
{
    lemma_super_block_frame(s, t);
}

/// Scanning a directory block depends only on the bytes of that block.
proof fn lemma_find_entry_frame(s: Seq<u8>, t: Seq<u8>, zo: int, i: int, name: Seq<u8>)
    requires
        s.len() == t.len(),
        0 <= zo,
        0 <= i,
        agree(s, t, zo, zo + 1024),
    ensures
        find_entry(t, zo, i, name) == find_entry(s, zo, i, name),
    decreases 32 - i,
{
    if i < 32 && zo + i * 32 + 32 <= s.len() {
        let e = zo + i * 32;
        assert(s.subrange(e + 2, e + 32) =~= t.subrange(e + 2, e + 32));
        assert(s[e] == t[e] && s[e + 1] == t[e + 1]);
        lemma_find_entry_frame(s, t, zo, i + 1, name);
    }
}

/// Path resolution depends only on the bytes it reads.
proof fn lemma_walk_frame(s: Seq<u8>, t: Seq<u8>, cur: u16, segs: Seq<Seq<u8>>)
    requires
        walk_reads_agree(s, t, cur, segs),
    ensures
        walk(t, cur, segs) == walk(s, cur, segs),
    decreases segs.len(),
{
    if segs.len() > 0 {
        lemma_get_inode_frame(s, t, cur);
        if let Some(off) = spec_get_inode(s, cur) {
            if off + 16 <= s.len() {
                assert(s[off + 14] == t[off + 14] && s[off + 15] == t[off + 15]);
                let zo = zone0_at(s, off as int) * 1024;
                lemma_find_entry_frame(s, t, zo, 0, segs[0]);
                if let Some(found) = find_entry(s, zo, 0, segs[0]) {
                    lemma_walk_frame(
                        s,
                        t,
                        match found {
                            Some(n) => n,
                            None => cur,
                        },
                        segs.drop_first(),
                    );
                }
            }
        }
    }
}

/// Resolving `a` followed by `b` is resolving `a`, then `b` from where `a`
/// led.
proof fn lemma_walk_append(s: Seq<u8>, cur: u16, a: Seq<Seq<u8>>, b: Seq<Seq<u8>>)
    ensures
        walk(s, cur, a + b) == match walk(s, cur, a) {
            Some(m) => walk(s, m, b),
            None => None,
        },
    decreases a.len(),
{
    if a.len() == 0 {
        assert(a + b =~= b);
    } else {
        assert((a + b)[0] == a[0]);
        assert((a + b).drop_first() =~= a.drop_first() + b);
        if let Some(off) = spec_get_inode(s, cur) {
            if off + 16 <= s.len() {
                if let Some(found) = find_entry(s, zone0_at(s, off as int) * 1024, 0, a[0]) {
                    lemma_walk_append(
                        s,
                        match found {
                            Some(n) => n,
                            None => cur,
                        },
                        a.drop_first(),
                        b,
                    );
                }
            }
        }
    }
}

/// A name that a directory entry holds as it is: 1 to 30 bytes, none of
/// them zero.
pub open spec fn name_fits(name: Seq<u8>) -> bool {
    &&& 0 < name.len() <= 30
    &&& forall|i: int| 0 <= i < name.len() ==> name[i] != 0
}

/// Scanning a block in which an entry for inode `new != 0` named `name`
/// was written at its first free entry `k` finds `new`, when the block
/// had no entry in use with that name.
proof fn lemma_find_entry_after_write(s: Seq<u8>, zo: int, i: int, k: int, name: Seq<u8>, new: u16)
    requires
        0 <= zo,
        0 <= i <= k < 32,
        zo + 1024 <= s.len(),
        k == free_slot(s, zo, i),
        name_fits(name),
        new != 0,
        find_entry(s, zo, i, name) == Some(None::<u16>),
    ensures
        find_entry(write_bytes(s, zo + k * 32, dir_entry_bytes(new, name)), zo, i, name) == Some(
            Some(new),
        ),
    decreases k - i,
{
    let t = write_bytes(s, zo + k * 32, dir_entry_bytes(new, name));
    let e = zo + i * 32;
    if i == k {
        let b = dir_entry_bytes(new, name);
        assert(t.subrange(e, e + 32) =~= b);
        assert(t[e] == b[0] && t[e + 1] == b[1]);
        assert(b.subrange(0, 2) =~= u16_bytes(new));
        crate::layout::lemma_u16_roundtrip(new);
        assert(entry_inode_at(t, e) == new);
        let field = t.subrange(e + 2, e + 32);
        assert(field =~= padded_name(name));
        lemma_c_len_bounds(field, 0);
        lemma_c_len_fits(field, name.len() as int);
        assert(field.subrange(0, name.len() as int) =~= name);
        assert(entry_name_at(t, e) == name);
    } else {
        assert(t.subrange(e + 2, e + 32) =~= s.subrange(e + 2, e + 32));
        assert(t[e] == s[e] && t[e + 1] == s[e + 1]);
        assert(entry_inode_at(t, e) == entry_inode_at(s, e));
        assert(entry_name_at(t, e) == entry_name_at(s, e));
        lemma_find_entry_after_write(s, zo, i + 1, k, name, new);
    }
}

proof fn lemma_c_len_fits(s: Seq<u8>, n: int)
    requires
        0 <= n <= s.len(),
        forall|i: int| 0 <= i < n ==> s[i] != 0,
        n < s.len() ==> s[n] == 0,
    ensures
        c_len_from(s, 0) == n,
{
    lemma_c_len_from_fits(s, 0, n);
}

proof fn lemma_c_len_from_fits(s: Seq<u8>, k: int, n: int)
    requires
        0 <= k <= n <= s.len(),
        forall|i: int| k <= i < n ==> s[i] != 0,
        n < s.len() ==> s[n] == 0,
    ensures
        c_len_from(s, k) == n,
    decreases n - k,
{
    if k < n {
        lemma_c_len_from_fits(s, k + 1, n);
    }
}

/// The image that making the directory at `path` has reached just before
/// it links the new directory into its parent (see `dir_set_up`).
pub open spec fn dir_before_link(s: Seq<u8>, path: Seq<u8>) -> Seq<u8> {
    let p = spec_inode_by_path(s, spec_split_path(path).0)->Some_0;
    let (n, s1) = spec_alloc_inode(s)->Some_0;
    let (z, s2) = spec_alloc_zone(s1, n as u16)->Some_0;
    dir_set_up(s2, n as u16, z, p)
}

/// What making the directory at `path` must leave alone for it to be
/// found: what finding its parent reads (over the whole operation), and,
/// until the link, the super block, the parent's record and the parent's
/// first zone; the parent's first zone does not overlap its record.
pub open spec fn create_dir_keeps_parent(s: Seq<u8>, path: Seq<u8>) -> bool {
    let dir = spec_split_path(path).0;
    let p = spec_inode_by_path(s, dir)->Some_0;
    let poff = spec_get_inode(s, p)->Some_0 as int;
    let zo = zone0_at(s, poff) * 1024;
    let u = dir_before_link(s, path);
    &&& walk_reads_agree(s, spec_create_dir(s, path)->Some_0.1, 1, path_segments(dir))
    &&& agree(s, u, 1024, 1046)
    &&& agree(s, u, poff, poff + 32)
    &&& agree(s, u, zo, zo + 1024)
    &&& disjoint(zo, 1024, poff, 32)
}

/// A made directory can be found: when making the directory at `path`
/// succeeds, resolving `path` gives the new directory's inode, provided
/// its name fits an entry, no entry in use in the parent had that name,
/// and the operation leaves alone what finding the parent reads (see
/// `create_dir_keeps_parent`).
#[verifier::rlimit(40)]
pub proof fn lemma_inode_by_path_after_create_dir(s: Seq<u8>, path: Seq<u8>)
    requires
        spec_create_dir(s, path) is Some,
        spec_create_dir(s, path)->Some_0.0,
        name_fits(spec_split_path(path).1),
        ({
            let p = spec_inode_by_path(s, spec_split_path(path).0)->Some_0;
            let poff = spec_get_inode(s, p)->Some_0 as int;
            find_entry(s, zone0_at(s, poff) * 1024, 0, spec_split_path(path).1) == Some(
                None::<u16>,
            )
        }),
        create_dir_keeps_parent(s, path),
    ensures
        spec_inode_by_path(spec_create_dir(s, path)->Some_0.1, path) == Some(
            (spec_alloc_inode(s)->Some_0.0) as u16,
        ),
{
    reveal_with_fuel(walk, 2);
    let (dir, name) = spec_split_path(path);
    let segs = path_segments(dir);
    lemma_split_segments(path);
    let root = seq![SLASH];
    assert(segments_from(root, 1) == Seq::<Seq<u8>>::empty());
    assert(path_segments(root) == Seq::<Seq<u8>>::empty());
    assert(seq![name][0] == name);
    assert(seq![name].drop_first() =~= Seq::<Seq<u8>>::empty());
    let p = spec_inode_by_path(s, dir)->Some_0;
    let poff = spec_get_inode(s, p)->Some_0 as int;
    let zo = zone0_at(s, poff) * 1024;
    let (n, s1) = spec_alloc_inode(s)->Some_0;
    let n16 = n as u16;
    let (z, s2) = spec_alloc_zone(s1, n16)->Some_0;
    let u = dir_before_link(s, path);
    let t = spec_create_dir(s, path)->Some_0.1;
    assert(spec_get_inode(s, p) is Some && poff + 32 <= s.len() && n16 != 0 && zo + 1024 <= s.len()
        && t == spec_link_inode(u, p, n16, name)->Some_0.1 && spec_link_inode(u, p, n16, name)->Some_0.0
        && u.len() == s.len());
    // In `u`, the parent and its first zone are as in `s`.
    lemma_get_inode_frame(s, u, p);
    assert(zone0_at(u, poff) == zone0_at(s, poff)) by {
        assert(u[poff + 14] == s[poff + 14] && u[poff + 15] == s[poff + 15]);
    }
    lemma_find_entry_frame(s, u, zo, 0, name);
    lemma_free_slot_agree(s, u, zo, 0);
    let k = free_slot(u, zo, 0);
    lemma_free_slot_range(u, zo, 0);
    assert(k < 32);
    lemma_find_entry_after_write(u, zo, 0, k, name, n16);
    assert(t == write_bytes(u, zo + k * 32, dir_entry_bytes(n16, name)));
    // In `t`, the parent is found as in `s`, with the same first zone.
    lemma_walk_frame(s, t, 1, segs);
    lemma_get_inode_frame(s, t, p);
    assert(zone0_at(t, poff) == zone0_at(s, poff)) by {
        assert(t[poff + 14] == u[poff + 14] && t[poff + 15] == u[poff + 15]);
    }
    lemma_walk_append(t, 1, segs, seq![name]);
}

proof fn lemma_free_slot_agree(s: Seq<u8>, t: Seq<u8>, zo: int, k: int)
    requires
        0 <= k <= 32,
        0 <= zo,
        zo + 1024 <= s.len(),
        s.len() == t.len(),
        agree(s, t, zo, zo + 1024),
    ensures
        free_slot(t, zo, k) == free_slot(s, zo, k),
    decreases 32 - k,
{
    if k < 32 {
        assert(s[zo + k * 32] == t[zo + k * 32] && s[zo + k * 32 + 1] == t[zo + k * 32 + 1]);
        lemma_free_slot_agree(s, t, zo, k + 1);
    }
}

/// Allocating an inode takes the lowest free one: every inode number from
/// 1 below the one handed out has its bitmap bit set; the one handed out
/// had its bit clear, and afterwards its bit is set and its 32-byte record
/// is zeroed, with nothing else changed.
pub proof fn lemma_alloc_inode_lowest(s: Seq<u8>)
    ensures
        ({
            let max = super_block_of(s).s_imap_blocks * 8192;
            let i = bit_scan(s, 2048, 1, max, 0);
            &&& forall|k: int| 1 <= k < i && k < max ==> #[trigger] candidate_taken(s, 2048, k, 0)
            &&& spec_alloc_inode(s) matches Some((n, t)) ==> {
                &&& n == i
                &&& !bit_is_set(s[2048 + i / 8], i % 8)
                &&& t == write_bytes(
                    set_bit(s, 2048 + i / 8, i % 8),
                    inode_table(super_block_of(s)) + (i - 1) * 32,
                    zeros(32),
                )
            }
        }),
{
    let max = super_block_of(s).s_imap_blocks * 8192;
    lemma_bit_scan_passed(s, 2048, 1, max, 0);
    let i = bit_scan(s, 2048, 1, max, 0);
    if 1 <= i < max {
        crate::fs::minix::lemma_bit_scan_range(s, 2048, 1, max, 0);
        lemma_bit_scan_found(s, 2048, 1, max, 0);
    }
}

/// A scan of a bitmap gives the same result in two images whose bitmap
/// bytes from the first candidate's byte up to the last one's agree.
proof fn lemma_bit_scan_agree(s: Seq<u8>, t: Seq<u8>, base: int, i: int, max: int)
    requires
        0 <= i,
        0 <= base,
        s.len() == t.len(),
        forall|b: int| base + i / 8 <= b < base + (max + 7) / 8 && 0 <= b < s.len() ==> #[trigger] s[b] == t[b],
    ensures
        bit_scan(t, base, i, max, 0) == bit_scan(s, base, i, max, 0),
    decreases max - i,
{
    if i < max && base + i / 8 < s.len() {
        assert(s[base + i / 8] == t[base + i / 8]);
        lemma_bit_scan_agree(s, t, base, i + 1, max);
    }
}

/// The record of a directory that `create_dir` made with first zone `z`:
/// mode `0o4444`, size 64, two links, first zone `z`, all else 0.
pub open spec fn made_dir_record(z: u16) -> Seq<u8> {
    write_bytes(
        write_bytes(
            write_bytes(write_bytes(zeros(32), 0, u16_bytes(0o4444)), 4, u32_bytes(64)),
            13,
            seq![2u8],
        ),
        14,
        u16_bytes(z),
    )
}

/// What making a directory does, in closed form, where the path has a `/`
/// and its parent `p` resolves to an inode other than 0, inode numbers and
/// zones fit 16 bits, the data zones come after the bitmaps and the inode
/// records involved lie before them, the parent's first zone is a data
/// zone, and a zone is free.  The new inode `n` is the lowest one whose
/// bitmap bit was clear, and the new zone `z` the lowest free one from the
/// first data zone on; both bits are set; `n`'s record is
/// `made_dir_record(z)` and `z`'s block is `dir_block(n, p)`; where `z` is
/// not the parent's first zone, the result is whether the parent's first
/// block had a free entry, which then names `n`.
#[verifier::rlimit(100)]
pub proof fn lemma_create_dir_effect(s: Seq<u8>, path: Seq<u8>)
    requires
        spec_create_dir(s, path) is Some,
        last_slash(path) >= 0,
        ({
            let sb = super_block_of(s);
            let fdz = sb.s_firstdatazone as int;
            let p = spec_inode_by_path(s, spec_split_path(path).0)->Some_0;
            let poff = spec_get_inode(s, p)->Some_0 as int;
            let n = bit_scan(s, 2048, 1, sb.s_imap_blocks * 8192, 0);
            let zbase = (2 + sb.s_imap_blocks) * 1024;
            let zmax = sb.s_zmap_blocks * 8192;
            let z = bit_scan(s, zbase, fdz, zmax, 0);
            &&& p != 0
            &&& sb.s_imap_blocks * 8192 <= 65536
            &&& zmax <= 65536
            &&& fdz >= 2 + sb.s_imap_blocks + sb.s_zmap_blocks
            &&& 1 <= n < sb.s_imap_blocks * 8192
            &&& inode_table(sb) + (n - 1) * 32 + 32 <= fdz * 1024
            &&& poff + 32 <= fdz * 1024
            &&& zone0_at(s, poff) >= fdz
            &&& fdz <= z < zmax
            &&& z != zone0_at(s, poff)
            &&& n != p
        }),
    ensures
        ({
            let sb = super_block_of(s);
            let fdz = sb.s_firstdatazone as int;
            let p = spec_inode_by_path(s, spec_split_path(path).0)->Some_0;
            let name = spec_split_path(path).1;
            let poff = spec_get_inode(s, p)->Some_0 as int;
            let pz = zone0_at(s, poff) * 1024;
            let n = bit_scan(s, 2048, 1, sb.s_imap_blocks * 8192, 0);
            let zbase = (2 + sb.s_imap_blocks) * 1024;
            let z = bit_scan(s, zbase, fdz, sb.s_zmap_blocks * 8192, 0);
            let ioff = inode_table(sb) + (n - 1) * 32;
            let k = free_slot(s, pz, 0);
            let (ok, t) = spec_create_dir(s, path)->Some_0;
            &&& forall|q: int| 1 <= q < n ==> #[trigger] candidate_taken(s, 2048, q, 0)
            &&& !bit_is_set(s[2048 + n / 8], n % 8)
            &&& t[2048 + n / 8] == s[2048 + n / 8] | crate::fs::minix::bit_mask(n % 8)
            &&& forall|q: int| fdz <= q < z ==> #[trigger] candidate_taken(s, zbase, q, 0)
            &&& !bit_is_set(s[zbase + z / 8], z % 8)
            &&& t[zbase + z / 8] == s[zbase + z / 8] | crate::fs::minix::bit_mask(z % 8)
            &&& t.subrange(ioff, ioff + 32) == made_dir_record(z as u16)
            &&& t.subrange(z * 1024, z * 1024 + 1024) == dir_block(n as u16, p)
            &&& ok == (k < 32)
            &&& ok ==> t.subrange(pz + k * 32, pz + k * 32 + 32) == dir_entry_bytes(n as u16, name)
        }),
{
    let sb = super_block_of(s);
    let fdz = sb.s_firstdatazone as int;
    let dir = spec_split_path(path).0;
    let name = spec_split_path(path).1;
    let p = spec_inode_by_path(s, dir)->Some_0;
    let poff = spec_get_inode(s, p)->Some_0 as int;
    let pzz = zone0_at(s, poff);
    let pz = pzz * 1024;
    let imax = sb.s_imap_blocks * 8192;
    let n = bit_scan(s, 2048, 1, imax, 0);
    let zbase = (2 + sb.s_imap_blocks) * 1024;
    let zmax = sb.s_zmap_blocks * 8192;
    let z = bit_scan(s, zbase, fdz, zmax, 0);
    let tbl = inode_table(sb);
    let ioff = tbl + (n - 1) * 32;
    let b1 = 2048 + n / 8;
    let b2 = zbase + z / 8;
    // The inode.
    lemma_alloc_inode_lowest(s);
    let (nn, s1) = spec_alloc_inode(s)->Some_0;
    assert(spec_alloc_inode(s) is Some);
    assert(nn == n);
    let n16 = n as u16;
    assert(n16 == n);
    assert(s1 == write_bytes(set_bit(s, b1, n % 8), ioff, zeros(32)));
    assert(b1 < zbase);
    assert(zbase + sb.s_zmap_blocks * 1024 == tbl);
    assert(super_block_of(s1) == sb) by {
        assert(s1[1024] == s[1024] && s1[1025] == s[1025] && s1[1026] == s[1026] && s1[1027]
            == s[1027] && s1[1028] == s[1028] && s1[1029] == s[1029] && s1[1030] == s[1030]
            && s1[1031] == s[1031] && s1[1032] == s[1032] && s1[1033] == s[1033]);
        assert(s1.subrange(1024, 1046) =~= s.subrange(1024, 1046));
        assert(s1[1034] == s[1034] && s1[1035] == s[1035] && s1[1036] == s[1036] && s1[1037]
            == s[1037] && s1[1038] == s[1038] && s1[1039] == s[1039] && s1[1040] == s[1040]
            && s1[1041] == s[1041] && s1[1042] == s[1042] && s1[1043] == s[1043] && s1[1044]
            == s[1044] && s1[1045] == s[1045]);
    }
    // The zone.
    lemma_bit_scan_agree(s, s1, zbase, fdz, zmax);
    lemma_bit_scan_passed(s, zbase, fdz, zmax, 0);
    crate::fs::minix::lemma_bit_scan_range(s, zbase, fdz, zmax, 0);
    lemma_bit_scan_found(s, zbase, fdz, zmax, 0);
    assert(spec_get_inode(s1, n16) == Some(ioff as usize));
    let z16 = z as u16;
    let s2 = write_bytes(set_bit(s1, b2, z % 8), ioff + 14, u16_bytes(z16));
    assert(spec_alloc_zone(s1, n16) == Some((z16, s2)));
    assert(super_block_of(s2) == sb) by {
        assert(s2.subrange(1024, 1046) =~= s1.subrange(1024, 1046));
        assert(s2[1024] == s1[1024] && s2[1025] == s1[1025] && s2[1026] == s1[1026] && s2[1027]
            == s1[1027] && s2[1028] == s1[1028] && s2[1029] == s1[1029] && s2[1030] == s1[1030]
            && s2[1031] == s1[1031] && s2[1032] == s1[1032] && s2[1033] == s1[1033]);
        assert(s2[1034] == s1[1034] && s2[1035] == s1[1035] && s2[1036] == s1[1036] && s2[1037]
            == s1[1037] && s2[1038] == s1[1038] && s2[1039] == s1[1039] && s2[1040] == s1[1040]
            && s2[1041] == s1[1041] && s2[1042] == s1[1042] && s2[1043] == s1[1043] && s2[1044]
            == s1[1044] && s2[1045] == s1[1045]);
    }
    assert(spec_new_dir(s, p, name) == spec_finish_dir(s2, n16, z16, p, name));
    assert(z * 1024 + 1024 <= s.len());
    let s3 = dir_set_up(s2, n16, z16, p);
    assert(spec_create_dir(s, path) == spec_link_inode(s3, p, n16, name));
    assert(super_block_of(s3) == sb) by {
        assert(s3[1024] == s2[1024] && s3[1025] == s2[1025] && s3[1026] == s2[1026] && s3[1027]
            == s2[1027] && s3[1028] == s2[1028] && s3[1029] == s2[1029] && s3[1030] == s2[1030]
            && s3[1031] == s2[1031] && s3[1032] == s2[1032] && s3[1033] == s2[1033]);
        assert(s3[1034] == s2[1034] && s3[1035] == s2[1035] && s3[1036] == s2[1036] && s3[1037]
            == s2[1037] && s3[1038] == s2[1038] && s3[1039] == s2[1039] && s3[1040] == s2[1040]
            && s3[1041] == s2[1041] && s3[1042] == s2[1042] && s3[1043] == s2[1043] && s3[1044]
            == s2[1044] && s3[1045] == s2[1045]);
    }
    // The parent.
    assert(spec_get_inode(s3, p) == Some(poff as usize));
    assert(zone0_at(s3, poff) == pzz) by {
        assert(s3[poff + 14] == s[poff + 14] && s3[poff + 15] == s[poff + 15]);
    }
    assert(pz + 1024 <= z * 1024 || z * 1024 + 1024 <= pz);
    assert(agree(s, s3, pz, pz + 1024));
    lemma_free_slot_agree(s, s3, pz, 0);
    let k = free_slot(s, pz, 0);
    lemma_free_slot_range(s, pz, 0);
    let t = spec_create_dir(s, path)->Some_0.1;
    assert(t.subrange(ioff, ioff + 32) =~= made_dir_record(z16));
    assert(t.subrange(z * 1024, z * 1024 + 1024) =~= dir_block(n16, p));
    if k < 32 {
        assert(t.subrange(pz + k * 32, pz + k * 32 + 32) =~= dir_entry_bytes(n16, name));
    }
}

} // verus!
