//! The Minix v3 file system over an in-memory disk image.
//!
//! An image is a byte string split into blocks of `block_size` bytes.
//! Block 1 holds the super block, block 2 on holds the inode bitmap, then
//! the zone bitmap, then the inode table; data zones follow.  Inodes and
//! directory entries are 64-byte records.
use vstd::prelude::*;
use crate::error::Error;
use crate::layout::{
    bytes_eq, fill_zero, read_u16, read_u32, u16_bytes, u16_le, u32_bytes, u32_le, write_bytes,
    write_slice, write_u16, write_u32, zeros,
};
use crate::text::{push_utf8_or_invalid, utf8_or_invalid};
use crate::path::{
    next_segment, path_segments, segments_from, spec_split_path, split_path_and_filename, SLASH,
};

verus! {

/// Longest file name a directory entry holds.
pub const MINIX_MAX_FILENAME: usize = 60;

/// Size of an encoded super block.
pub const SUPER_BLOCK_SIZE: usize = 31;

/// Size of an encoded inode.
pub const INODE_SIZE: usize = 64;

/// Size of an encoded directory entry.
pub const DIR_ENTRY_SIZE: usize = 64;

/// Mode bit that marks a directory.
pub const DIR_MODE: u16 = 0x4000;

/// The Minix v3 super block.
#[allow(non_camel_case_types)]
#[derive(Clone, Copy)]
pub struct minix3_super_block {
    pub s_ninodes: u32,
    pub s_pad0: u16,
    pub s_imap_blocks: u16,
    pub s_zmap_blocks: u16,
    pub s_firstdatazone: u16,
    pub s_log_zone_size: u16,
    pub s_pad1: u16,
    pub s_max_size: u32,
    pub s_zones: u32,
    pub s_magic: u16,
    pub s_pad2: u16,
    pub s_blocksize: u16,
    pub s_disk_version: u8,
}

/// A Minix v3 directory entry: an inode number and a zero-padded name.
#[allow(non_camel_case_types)]
#[derive(Clone, Copy)]
pub struct minix3_dir_entry {
    pub inode: u32,
    pub name: [u8; 60],
}

/// A Minix v3 inode.
#[allow(non_camel_case_types)]
#[derive(Clone, Copy)]
pub struct minix3_inode {
    pub i_mode: u16,
    pub i_nlinks: u16,
    pub i_uid: u16,
    pub i_gid: u16,
    pub i_size: u32,
    pub i_atime: u32,
    pub i_mtime: u32,
    pub i_ctime: u32,
    pub i_zone: [u32; 10],
}

// ---------------------------------------------------------------------------
// Encodings
// ---------------------------------------------------------------------------

/// The super block stored at `off`.
pub open spec fn super_block_at(s: Seq<u8>, off: int) -> minix3_super_block {
    minix3_super_block {
        s_ninodes: u32_le(s, off),
        s_pad0: u16_le(s, off + 4),
        s_imap_blocks: u16_le(s, off + 6),
        s_zmap_blocks: u16_le(s, off + 8),
        s_firstdatazone: u16_le(s, off + 10),
        s_log_zone_size: u16_le(s, off + 12),
        s_pad1: u16_le(s, off + 14),
        s_max_size: u32_le(s, off + 16),
        s_zones: u32_le(s, off + 20),
        s_magic: u16_le(s, off + 24),
        s_pad2: u16_le(s, off + 26),
        s_blocksize: u16_le(s, off + 28),
        s_disk_version: s[off + 30],
    }
}

/// The packed encoding of a super block.
pub open spec fn super_block_bytes(sb: minix3_super_block) -> Seq<u8> {
    u32_bytes(sb.s_ninodes) + u16_bytes(sb.s_pad0) + u16_bytes(sb.s_imap_blocks) + u16_bytes(
        sb.s_zmap_blocks,
    ) + u16_bytes(sb.s_firstdatazone) + u16_bytes(sb.s_log_zone_size) + u16_bytes(sb.s_pad1)
        + u32_bytes(sb.s_max_size) + u32_bytes(sb.s_zones) + u16_bytes(sb.s_magic) + u16_bytes(
        sb.s_pad2,
    ) + u16_bytes(sb.s_blocksize) + seq![sb.s_disk_version]
}

/// The packed encoding of ten zone numbers.
pub open spec fn zones_bytes(z: Seq<u32>) -> Seq<u8>
    decreases z.len(),
{
    if z.len() == 0 {
        Seq::empty()
    } else {
        u32_bytes(z[0]) + zones_bytes(z.drop_first())
    }
}

/// The packed encoding of an inode.
pub open spec fn inode_bytes(ino: minix3_inode) -> Seq<u8> {
    u16_bytes(ino.i_mode) + u16_bytes(ino.i_nlinks) + u16_bytes(ino.i_uid) + u16_bytes(ino.i_gid)
        + u32_bytes(ino.i_size) + u32_bytes(ino.i_atime) + u32_bytes(ino.i_mtime) + u32_bytes(
        ino.i_ctime,
    ) + zones_bytes(ino.i_zone@)
}

/// `ino` is the inode whose encoding is stored at `off`.
pub open spec fn inode_stored_at(ino: minix3_inode, s: Seq<u8>, off: int) -> bool {
    &&& ino.i_mode == u16_le(s, off)
    &&& ino.i_nlinks == u16_le(s, off + 2)
    &&& ino.i_uid == u16_le(s, off + 4)
    &&& ino.i_gid == u16_le(s, off + 6)
    &&& ino.i_size == u32_le(s, off + 8)
    &&& ino.i_atime == u32_le(s, off + 12)
    &&& ino.i_mtime == u32_le(s, off + 16)
    &&& ino.i_ctime == u32_le(s, off + 20)
    &&& forall|k: int| 0 <= k < 10 ==> #[trigger] ino.i_zone@[k] == u32_le(s, off + 24 + 4 * k)
}

/// Mode of the inode stored at `off`.
pub open spec fn mode_at(s: Seq<u8>, off: int) -> u16 {
    u16_le(s, off)
}

/// Size of the inode stored at `off`.
pub open spec fn size_at(s: Seq<u8>, off: int) -> u32 {
    u32_le(s, off + 8)
}

/// First zone of the inode stored at `off`.
pub open spec fn zone0_at(s: Seq<u8>, off: int) -> u32 {
    u32_le(s, off + 24)
}

/// Whether a mode marks a directory.
pub open spec fn is_dir_mode(mode: u16) -> bool {
    mode & DIR_MODE != 0
}

/// `name` truncated to 60 bytes and padded with zeros to 60 bytes.
pub open spec fn padded_name(name: Seq<u8>) -> Seq<u8> {
    Seq::new(60, |i: int| if i < name.len() { name[i] } else { 0u8 })
}

/// The packed encoding of a directory entry.
pub open spec fn dir_entry_bytes(inode: u32, name: Seq<u8>) -> Seq<u8> {
    u32_bytes(inode) + padded_name(name)
}

/// Inode number of the directory entry stored at `off`.
pub open spec fn entry_inode_at(s: Seq<u8>, off: int) -> u32 {
    u32_le(s, off)
}

/// Length of the zero-terminated prefix of `s` from index `k` on.
pub open spec fn c_len_from(s: Seq<u8>, k: int) -> int
    decreases s.len() - k,
{
    if k >= s.len() || k < 0 {
        s.len() as int
    } else if s[k] == 0 {
        k
    } else {
        c_len_from(s, k + 1)
    }
}

/// The name of the directory entry stored at `off`: its name bytes up to
/// the first zero byte, at most 60 of them.
pub open spec fn entry_name_at(s: Seq<u8>, off: int) -> Seq<u8> {
    let name = s.subrange(off + 4, off + 64);
    name.subrange(0, c_len_from(name, 0))
}

pub proof fn lemma_c_len_bounds(s: Seq<u8>, k: int)
    requires
        0 <= k <= s.len(),
    ensures
        k <= c_len_from(s, k) <= s.len(),
        c_len_from(s, k) < s.len() ==> s[c_len_from(s, k)] == 0,
        forall|j: int| k <= j < c_len_from(s, k) ==> s[j] != 0,
    decreases s.len() - k,
{
    if k < s.len() && s[k] != 0 {
        lemma_c_len_bounds(s, k + 1);
    }
}

/// Reads the 64-byte inode record at `off`.
pub fn read_inode(img: &[u8], off: usize) -> (r: minix3_inode)
    requires
        off + 64 <= img.len(),
    ensures
        inode_stored_at(r, img@, off as int),
{
    let mut zones = [0u32; 10];
    let mut k: usize = 0;
    while k < 10
        invariant
            k <= 10,
            off + 64 <= img.len(),
            forall|j: int| 0 <= j < k ==> #[trigger] zones@[j] == u32_le(img@, off + 24 + 4 * j),
        decreases 10 - k,
    {
        zones[k] = read_u32(img, off + 24 + 4 * k);
        k = k + 1;
    }
    minix3_inode {
        i_mode: read_u16(img, off),
        i_nlinks: read_u16(img, off + 2),
        i_uid: read_u16(img, off + 4),
        i_gid: read_u16(img, off + 6),
        i_size: read_u32(img, off + 8),
        i_atime: read_u32(img, off + 12),
        i_mtime: read_u32(img, off + 16),
        i_ctime: read_u32(img, off + 20),
        i_zone: zones,
    }
}

/// Reads the 64-byte directory entry at `off`.
pub fn read_dir_entry(img: &[u8], off: usize) -> (r: minix3_dir_entry)
    requires
        off + 64 <= img.len(),
    ensures
        r.inode == entry_inode_at(img@, off as int),
        r.name@ == img@.subrange(off + 4, off + 64),
{
    let mut name = [0u8; 60];
    let mut k: usize = 0;
    while k < 60
        invariant
            k <= 60,
            off + 64 <= img.len(),
            forall|j: int| 0 <= j < k ==> #[trigger] name@[j] == img@[off + 4 + j],
        decreases 60 - k,
    {
        name[k] = img[off + 4 + k];
        k = k + 1;
    }
    assert(name@ =~= img@.subrange(off + 4, off + 64));
    minix3_dir_entry { inode: read_u32(img, off), name }
}

fn push_u16(v: &mut Vec<u8>, x: u16)
    ensures
        final(v)@ == old(v)@ + u16_bytes(x),
{
    v.push(x as u8);
    v.push((x >> 8u16) as u8);
    assert(v@ =~= old(v)@ + u16_bytes(x));
}

fn push_u32(v: &mut Vec<u8>, x: u32)
    ensures
        final(v)@ == old(v)@ + u32_bytes(x),
{
    v.push(x as u8);
    v.push((x >> 8u32) as u8);
    v.push((x >> 16u32) as u8);
    v.push((x >> 24u32) as u8);
    assert(v@ =~= old(v)@ + u32_bytes(x));
}

proof fn lemma_zones_bytes_len(z: Seq<u32>)
    ensures
        zones_bytes(z).len() == 4 * z.len(),
    decreases z.len(),
{
    if z.len() > 0 {
        lemma_zones_bytes_len(z.drop_first());
    }
}

proof fn lemma_zones_bytes_snoc(z: Seq<u32>, x: u32)
    ensures
        zones_bytes(z.push(x)) == zones_bytes(z) + u32_bytes(x),
    decreases z.len(),
{
    if z.len() == 0 {
        assert(z.push(x).drop_first() =~= Seq::<u32>::empty());
        assert(z.push(x)[0] == x);
        assert(zones_bytes(Seq::<u32>::empty()) == Seq::<u8>::empty());
        assert(zones_bytes(z.push(x)) == u32_bytes(x) + zones_bytes(Seq::<u32>::empty()));
        assert(zones_bytes(z.push(x)) =~= zones_bytes(z) + u32_bytes(x));
    } else {
        lemma_zones_bytes_snoc(z.drop_first(), x);
        assert(z.push(x).drop_first() =~= z.drop_first().push(x));
        assert(z.push(x)[0] == z[0]);
        let a = u32_bytes(z[0]);
        let b = zones_bytes(z.drop_first());
        let c = u32_bytes(x);
        assert(zones_bytes(z.push(x)) == a + zones_bytes(z.drop_first().push(x)));
        assert(zones_bytes(z) == a + b);
        assert(a + (b + c) =~= (a + b) + c);
    }
}

impl minix3_super_block {
    /// A super block for `block_size`-byte blocks: the Minix v3 magic
    /// number, the block size, and every other field zero.
    pub fn new(block_size: usize) -> (r: minix3_super_block)
        ensures
            r.s_magic == 0x4D5A,
            r.s_blocksize == block_size as u16,
            r.s_ninodes == 0 && r.s_pad0 == 0 && r.s_imap_blocks == 0 && r.s_zmap_blocks == 0,
            r.s_firstdatazone == 0 && r.s_log_zone_size == 0 && r.s_pad1 == 0,
            r.s_max_size == 0 && r.s_zones == 0 && r.s_pad2 == 0 && r.s_disk_version == 0,
    {
        minix3_super_block {
            s_ninodes: 0,
            s_pad0: 0,
            s_imap_blocks: 0,
            s_zmap_blocks: 0,
            s_firstdatazone: 0,
            s_log_zone_size: 0,
            s_pad1: 0,
            s_max_size: 0,
            s_zones: 0,
            s_magic: 0x4D5A,
            s_pad2: 0,
            s_blocksize: block_size as u16,
            s_disk_version: 0,
        }
    }

    /// First block of the inode bitmap.
    pub fn imap_start_block(&self) -> (r: usize)
        ensures
            r == 2,
    {
        2
    }

    /// First block of the zone bitmap.
    pub fn zmap_start_block(&self) -> (r: usize)
        ensures
            r == 2 + self.s_imap_blocks,
    {
        self.imap_start_block() + self.s_imap_blocks as usize
    }

    /// First block of the inode table.
    pub fn inode_table_start_block(&self) -> (r: usize)
        ensures
            r == inode_table_start(*self),
    {
        self.zmap_start_block() + self.s_zmap_blocks as usize
    }

    /// The packed 31-byte encoding of the super block.
    pub fn as_bytes(&self) -> (r: Vec<u8>)
        ensures
            r@ == super_block_bytes(*self),
    {
        let mut v: Vec<u8> = Vec::new();
        push_u32(&mut v, self.s_ninodes);
        push_u16(&mut v, self.s_pad0);
        push_u16(&mut v, self.s_imap_blocks);
        push_u16(&mut v, self.s_zmap_blocks);
        push_u16(&mut v, self.s_firstdatazone);
        push_u16(&mut v, self.s_log_zone_size);
        push_u16(&mut v, self.s_pad1);
        push_u32(&mut v, self.s_max_size);
        push_u32(&mut v, self.s_zones);
        push_u16(&mut v, self.s_magic);
        push_u16(&mut v, self.s_pad2);
        push_u16(&mut v, self.s_blocksize);
        v.push(self.s_disk_version);
        assert(v@ =~= super_block_bytes(*self));
        v
    }
}

/// First block of the inode table of a file system with super block `sb`.
pub open spec fn inode_table_start(sb: minix3_super_block) -> int {
    2 + sb.s_imap_blocks + sb.s_zmap_blocks
}

impl minix3_dir_entry {
    /// An entry for `inode` named by the first 60 bytes of `name`, padded
    /// with zeros.
    pub fn new(inode: u32, name: &[u8]) -> (r: minix3_dir_entry)
        ensures
            r.inode == inode,
            r.name@ == padded_name(name@),
    {
        let mut entry_name = [0u8; 60];
        let len = if name.len() < 60 {
            name.len()
        } else {
            60
        };
        let mut k: usize = 0;
        while k < len
            invariant
                k <= len <= 60,
                len <= name@.len(),
                len == 60 || len == name@.len(),
                forall|j: int| 0 <= j < k ==> #[trigger] entry_name@[j] == name@[j],
                forall|j: int| k <= j < 60 ==> #[trigger] entry_name@[j] == 0u8,
            decreases len - k,
        {
            entry_name[k] = name[k];
            k = k + 1;
        }
        assert(entry_name@ =~= padded_name(name@));
        minix3_dir_entry { inode, name: entry_name }
    }

    /// The packed 64-byte encoding of the entry.
    pub fn as_bytes(&self) -> (r: Vec<u8>)
        ensures
            r@ == u32_bytes(self.inode) + self.name@,
    {
        let mut v: Vec<u8> = Vec::new();
        push_u32(&mut v, self.inode);
        let mut k: usize = 0;
        while k < 60
            invariant
                k <= 60,
                v@ == u32_bytes(self.inode) + self.name@.subrange(0, k as int),
            decreases 60 - k,
        {
            v.push(self.name[k]);
            k = k + 1;
            assert(v@ =~= u32_bytes(self.inode) + self.name@.subrange(0, k as int));
        }
        assert(self.name@.subrange(0, 60) =~= self.name@);
        v
    }
}

impl minix3_inode {
    /// The packed 64-byte encoding of the inode.
    pub fn as_bytes(&self) -> (r: Vec<u8>)
        ensures
            r@ == inode_bytes(*self),
    {
        let mut v: Vec<u8> = Vec::new();
        push_u16(&mut v, self.i_mode);
        push_u16(&mut v, self.i_nlinks);
        push_u16(&mut v, self.i_uid);
        push_u16(&mut v, self.i_gid);
        push_u32(&mut v, self.i_size);
        push_u32(&mut v, self.i_atime);
        push_u32(&mut v, self.i_mtime);
        push_u32(&mut v, self.i_ctime);
        let ghost head = v@;
        let mut k: usize = 0;
        assert(self.i_zone@.subrange(0, 0) =~= Seq::<u32>::empty());
        while k < 10
            invariant
                k <= 10,
                v@ == head + zones_bytes(self.i_zone@.subrange(0, k as int)),
            decreases 10 - k,
        {
            proof {
                lemma_zones_bytes_snoc(self.i_zone@.subrange(0, k as int), self.i_zone@[k as int]);
                assert(self.i_zone@.subrange(0, k as int).push(self.i_zone@[k as int])
                    =~= self.i_zone@.subrange(0, k + 1));
            }
            push_u32(&mut v, self.i_zone[k]);
            k = k + 1;
            assert(v@ =~= head + zones_bytes(self.i_zone@.subrange(0, k as int)));
        }
        assert(self.i_zone@.subrange(0, 10) =~= self.i_zone@);
        assert(v@ =~= inode_bytes(*self));
        v
    }

    /// A fresh inode with the given mode and every other field zero.
    pub fn new(mode: u16) -> (r: minix3_inode)
        ensures
            r.i_mode == mode,
            r.i_nlinks == 0 && r.i_uid == 0 && r.i_gid == 0 && r.i_size == 0,
            r.i_atime == 0 && r.i_mtime == 0 && r.i_ctime == 0,
            forall|k: int| 0 <= k < 10 ==> #[trigger] r.i_zone@[k] == 0,
    {
        minix3_inode {
            i_mode: mode,
            i_nlinks: 0,
            i_uid: 0,
            i_gid: 0,
            i_size: 0,
            i_atime: 0,
            i_mtime: 0,
            i_ctime: 0,
            i_zone: [0u32; 10],
        }
    }
}


// ---------------------------------------------------------------------------
// Locating super block and inodes
// ---------------------------------------------------------------------------

/// The super block of an image with `bs`-byte blocks (stored in block 1).
pub open spec fn image_super_block(s: Seq<u8>, bs: usize) -> minix3_super_block {
    super_block_at(s, bs as int)
}

/// Where the record of inode `n` starts, as `get_inode` finds it: an error
/// for inode 0, for a record past the end of the image, and `Aborted` when
/// the super block lies outside the image or the offset overflows.
pub open spec fn spec_get_inode(s: Seq<u8>, bs: usize, n: u32) -> Result<usize, Error> {
    if n == 0 {
        Err(Error::InodeNumZero)
    } else if bs + SUPER_BLOCK_SIZE > s.len() {
        Err(Error::Aborted)
    } else {
        let total = inode_table_start(image_super_block(s, bs)) * bs + (n - 1) * 64;
        if total + 64 > usize::MAX {
            Err(Error::Aborted)
        } else if total + 64 > s.len() {
            Err(Error::InodeBeyondImage)
        } else {
            Ok(total as usize)
        }
    }
}

/// Reads the super block stored at `off`.
pub fn read_super_block(img: &[u8], off: usize) -> (r: minix3_super_block)
    requires
        off + SUPER_BLOCK_SIZE <= img.len(),
    ensures
        r == super_block_at(img@, off as int),
{
    minix3_super_block {
        s_ninodes: read_u32(img, off),
        s_pad0: read_u16(img, off + 4),
        s_imap_blocks: read_u16(img, off + 6),
        s_zmap_blocks: read_u16(img, off + 8),
        s_firstdatazone: read_u16(img, off + 10),
        s_log_zone_size: read_u16(img, off + 12),
        s_pad1: read_u16(img, off + 14),
        s_max_size: read_u32(img, off + 16),
        s_zones: read_u32(img, off + 20),
        s_magic: read_u16(img, off + 24),
        s_pad2: read_u16(img, off + 26),
        s_blocksize: read_u16(img, off + 28),
        s_disk_version: img[off + 30],
    }
}

/// The super block of the image: block 1, that is, the `block_size` bytes
/// from `block_size` on.
pub fn get_super_block(minix_img: &mut [u8], block_size: usize) -> (r: minix3_super_block)
    requires
        block_size + SUPER_BLOCK_SIZE <= old(minix_img)@.len(),
    ensures
        r == image_super_block(old(minix_img)@, block_size),
        final(minix_img)@ == old(minix_img)@,
{
    read_super_block(minix_img, block_size)
}

/// Finds the record of inode `n`; see `spec_get_inode`.
pub fn find_inode(img: &[u8], bs: usize, n: u32) -> (r: Result<usize, Error>)
    ensures
        r == spec_get_inode(img@, bs, n),
{
    if n == 0 {
        return Err(Error::InodeNumZero);
    }
    if bs > img.len() || img.len() - bs < SUPER_BLOCK_SIZE {
        return Err(Error::Aborted);
    }
    let sb = read_super_block(img, bs);
    let start = sb.inode_table_start_block();
    let base = match start.checked_mul(bs) {
        Some(b) => b,
        None => {
            return Err(Error::Aborted);
        },
    };
    let idx = match ((n - 1) as usize).checked_mul(INODE_SIZE) {
        Some(i) => i,
        None => {
            return Err(Error::Aborted);
        },
    };
    let total = match base.checked_add(idx) {
        Some(t) => t,
        None => {
            return Err(Error::Aborted);
        },
    };
    let end = match total.checked_add(INODE_SIZE) {
        Some(e) => e,
        None => {
            return Err(Error::Aborted);
        },
    };
    if end > img.len() {
        return Err(Error::InodeBeyondImage);
    }
    Ok(total)
}

// ---------------------------------------------------------------------------
// Directory lookup
// ---------------------------------------------------------------------------

/// Scans the directory entries `i..count` of the directory block at `base`
/// for the first one named `name` and gives its inode number;
/// `LookupFailed` when none matches and `Aborted` when the scan reaches an
/// entry outside the image.
pub open spec fn dir_scan(s: Seq<u8>, base: int, i: int, count: int, name: Seq<u8>) -> Result<
    u32,
    Error,
>
    decreases count - i,
{
    if i >= count {
        Err(Error::LookupFailed)
    } else if base + i * 64 + 64 > s.len() {
        Err(Error::Aborted)
    } else if entry_name_at(s, base + i * 64) == name {
        Ok(entry_inode_at(s, base + i * 64))
    } else {
        dir_scan(s, base, i + 1, count, name)
    }
}

/// Looking `name` up in the directory with mode `mode` and first zone
/// `zone`: an error unless the mode marks a directory, else the inode
/// number of the first entry of the zone's block that carries the name.
pub open spec fn spec_lookup(mode: u16, zone: u32, name: Seq<u8>, s: Seq<u8>, bs: usize) -> Result<
    u32,
    Error,
> {
    if !is_dir_mode(mode) {
        Err(Error::InvalidMode)
    } else {
        dir_scan(s, zone * bs, 0, (bs / 64) as int, name)
    }
}

/// Resolving the components `segs` one after another from inode `cur`.
pub open spec fn walk(s: Seq<u8>, bs: usize, cur: u32, segs: Seq<Seq<u8>>) -> Result<u32, Error>
    decreases segs.len(),
{
    if segs.len() == 0 {
        Ok(cur)
    } else {
        match spec_get_inode(s, bs, cur) {
            Err(e) => Err(e),
            Ok(off) => match spec_lookup(mode_at(s, off as int), zone0_at(s, off as int), segs[0], s, bs) {
                Err(e) => Err(e),
                Ok(next) => walk(s, bs, next, segs.drop_first()),
            },
        }
    }
}

/// The inode number a path resolves to, starting from the root inode 1.
pub open spec fn spec_lookup_iter(s: Seq<u8>, bs: usize, path: Seq<u8>) -> Result<u32, Error> {
    walk(s, bs, 1, path_segments(path))
}

/// Whether the entry stored at `off` is named `name`.
fn entry_name_eq(img: &[u8], off: usize, name: &[u8]) -> (r: bool)
    requires
        off + 64 <= img.len(),
    ensures
        r == (entry_name_at(img@, off as int) == name@),
{
    let ghost nm = img@.subrange(off + 4, off + 64);
    let mut len: usize = 0;
    while len < 60 && img[off + 4 + len] != 0
        invariant
            len <= 60,
            off + 64 <= img.len(),
            nm == img@.subrange(off + 4, off + 64),
            c_len_from(nm, 0) == c_len_from(nm, len as int),
        decreases 60 - len,
    {
        len = len + 1;
    }
    proof {
        lemma_c_len_bounds(nm, 0);
    }
    assert(c_len_from(nm, 0) == len);
    if len != name.len() {
        return false;
    }
    let mut k: usize = 0;
    while k < len
        invariant
            k <= len <= 60,
            len == name@.len(),
            off + 64 <= img.len(),
            nm == img@.subrange(off + 4, off + 64),
            c_len_from(nm, 0) == len,
            forall|j: int| 0 <= j < k ==> nm[j] == name@[j],
        decreases len - k,
    {
        if img[off + 4 + k] != name[k] {
            assert(entry_name_at(img@, off as int) == nm.subrange(0, len as int));
            assert(entry_name_at(img@, off as int)[k as int] != name@[k as int]);
            return false;
        }
        k = k + 1;
    }
    assert(entry_name_at(img@, off as int) =~= name@);
    true
}

/// Looks `name` up in a directory; see `spec_lookup`.
pub fn lookup_in(mode: u16, zone: u32, name: &[u8], img: &[u8], bs: usize) -> (r: Result<u32, Error>)
    ensures
        r == spec_lookup(mode, zone, name@, img@, bs),
{
    if mode & DIR_MODE == 0 {
        return Err(Error::InvalidMode);
    }
    let count = bs / DIR_ENTRY_SIZE;
    if count == 0 {
        return Err(Error::LookupFailed);
    }
    let base = match (zone as usize).checked_mul(bs) {
        Some(b) => b,
        None => {
            assert(img@.len() == img.len());
            assert(zone * bs + 0 * 64 + 64 > img@.len());
            assert(dir_scan(img@, zone * bs, 0, count as int, name@) == Err::<u32, Error>(
                Error::Aborted,
            ));
            return Err(Error::Aborted);
        },
    };
    scan_dir(img, base, 0, count, name)
}

/// Scans the entries `from..count` of the directory block at `base` for
/// `name`; see `dir_scan`.
pub fn scan_dir(img: &[u8], base: usize, from: usize, count: usize, name: &[u8]) -> (r: Result<
    u32,
    Error,
>)
    ensures
        r == dir_scan(img@, base as int, from as int, count as int, name@),
{
    let mut i: usize = from;
    while i < count
        invariant
            from <= i,
            i < count ==> i <= count,
            dir_scan(img@, base as int, from as int, count as int, name@) == dir_scan(
                img@,
                base as int,
                i as int,
                count as int,
                name@,
            ),
        decreases count - i,
    {
        if base > img.len() || (img.len() - base) / 64 <= i {
            assert(base + i * 64 + 64 > img@.len());
            return Err(Error::Aborted);
        }
        let off = base + i * 64;
        assert(off + 64 <= img@.len());
        if entry_name_eq(img, off, name) {
            let r = read_u32(img, off);
            return Ok(r);
        }
        i = i + 1;
    }
    Err(Error::LookupFailed)
}

/// Resolves a path from the root inode; see `spec_lookup_iter`.
pub fn resolve_path(img: &[u8], bs: usize, path: &[u8]) -> (r: Result<u32, Error>)
    ensures
        r == spec_lookup_iter(img@, bs, path@),
{
    let mut cur: u32 = 1;
    let mut i: usize = 0;
    while i < path.len()
        invariant
            i <= path@.len(),
            spec_lookup_iter(img@, bs, path@) == walk(img@, bs, cur, segments_from(path@, i as int)),
        decreases path@.len() - i,
    {
        match next_segment(path, i) {
            None => {
                return Ok(cur);
            },
            Some((st, e)) => {
                let seg = vstd::slice::slice_subrange(path, st, e);
                let ghost segs = segments_from(path@, i as int);
                assert(segs[0] == seg@);
                assert(segs.drop_first() =~= segments_from(path@, e as int));
                let off = find_inode(img, bs, cur)?;
                let mode = read_u16(img, off);
                let zone = read_u32(img, off + 24);
                cur = lookup_in(mode, zone, seg, img, bs)?;
                i = e;
            },
        }
    }
    Ok(cur)
}


// ---------------------------------------------------------------------------
// Bitmaps
// ---------------------------------------------------------------------------

/// The mask of bit `k` of a byte.
pub open spec fn bit_mask(k: int) -> u8 {
    1u8 << (k as u8)
}

/// Whether bit `k` of `b` is set.
pub open spec fn bit_is_set(b: u8, k: int) -> bool {
    b & bit_mask(k) != 0
}

/// `s` with bit `k` of byte `byte` set.
pub open spec fn set_bit(s: Seq<u8>, byte: int, k: int) -> Seq<u8> {
    s.update(byte, s[byte] | bit_mask(k))
}

/// `s` with bit `k` of byte `byte` cleared.
pub open spec fn clear_bit(s: Seq<u8>, byte: int, k: int) -> Seq<u8> {
    s.update(byte, s[byte] & !bit_mask(k))
}

/// `s` with bit `k` of byte `byte` set when `value` is 1, else cleared.
pub open spec fn change_bit(s: Seq<u8>, byte: int, k: int, value: u8) -> Seq<u8> {
    if value == 1 {
        set_bit(s, byte, k)
    } else {
        clear_bit(s, byte, k)
    }
}

/// Scans the bitmap at `base` for the first candidate `i` in `i..max`
/// whose bit `i - shift` is clear: gives that `i`, `max` when every bit is
/// set, and -1 when the scan reaches a byte outside the image.
pub open spec fn bit_scan(s: Seq<u8>, base: int, i: int, max: int, shift: int) -> int
    decreases max - i,
{
    if i >= max {
        max
    } else if base + (i - shift) / 8 >= s.len() {
        -1
    } else if !bit_is_set(s[base + (i - shift) / 8], (i - shift) % 8) {
        i
    } else {
        bit_scan(s, base, i + 1, max, shift)
    }
}

pub proof fn lemma_bit_scan_range(s: Seq<u8>, base: int, i: int, max: int, shift: int)
    requires
        0 <= shift <= i,
    ensures
        bit_scan(s, base, i, max, shift) == -1 || bit_scan(s, base, i, max, shift) == max || (i
            <= bit_scan(s, base, i, max, shift) < max),
    decreases max - i,
{
    if i < max && base + (i - shift) / 8 < s.len() && bit_is_set(
        s[base + (i - shift) / 8],
        (i - shift) % 8,
    ) {
        lemma_bit_scan_range(s, base, i + 1, max, shift);
    }
}

/// Whether the bit of candidate `k` in the bitmap at `base` (bit
/// `k - shift`) lies in the image and is set.
pub open spec fn candidate_taken(s: Seq<u8>, base: int, k: int, shift: int) -> bool {
    &&& base + (k - shift) / 8 < s.len()
    &&& bit_is_set(s[base + (k - shift) / 8], (k - shift) % 8)
}

/// A scan passes only over set bits: every candidate before the one it
/// gives has its bit, inside the image, set.
pub proof fn lemma_bit_scan_passed(s: Seq<u8>, base: int, i: int, max: int, shift: int)
    requires
        0 <= shift <= i,
    ensures
        forall|k: int|
            i <= k < bit_scan(s, base, i, max, shift) && k < max ==> #[trigger] candidate_taken(
                s,
                base,
                k,
                shift,
            ),
    decreases max - i,
{
    if i < max && base + (i - shift) / 8 < s.len() && bit_is_set(
        s[base + (i - shift) / 8],
        (i - shift) % 8,
    ) {
        lemma_bit_scan_passed(s, base, i + 1, max, shift);
    }
}

pub proof fn lemma_bit_scan_found(s: Seq<u8>, base: int, i: int, max: int, shift: int)
    requires
        0 <= shift <= i,
        0 <= base,
        i <= bit_scan(s, base, i, max, shift) < max,
    ensures
        base + (bit_scan(s, base, i, max, shift) - shift) / 8 < s.len(),
        0 <= base + (bit_scan(s, base, i, max, shift) - shift) / 8,
        !bit_is_set(
            s[base + (bit_scan(s, base, i, max, shift) - shift) / 8],
            (bit_scan(s, base, i, max, shift) - shift) % 8,
        ),
    decreases max - i,
{
    if i < max && base + (i - shift) / 8 < s.len() && bit_is_set(
        s[base + (i - shift) / 8],
        (i - shift) % 8,
    ) {
        lemma_bit_scan_range(s, base, i + 1, max, shift);
        lemma_bit_scan_found(s, base, i + 1, max, shift);
    }
}

/// Scans a bitmap that starts at block `start_block` for the first
/// candidate in `1..max` whose bit (candidate minus `shift`) is clear.
pub fn scan_bitmap(img: &[u8], start_block: usize, bs: usize, max: usize, shift: usize) -> (r:
    Result<Option<usize>, Error>)
    requires
        shift <= 1,
    ensures
        match r {
            Ok(Some(i)) => 1 <= i < max && bit_scan(img@, (start_block as int) * (bs as int), 1, max as int, shift as int) == i,
            Ok(None) => bit_scan(img@, (start_block as int) * (bs as int), 1, max as int, shift as int) == max,
            Err(e) => e == Error::Aborted && bit_scan(img@, (start_block as int) * (bs as int), 1, max as int, shift as int) == -1,
        },
{
    let ghost base: int = (start_block as int) * (bs as int);
    let mut i: usize = 1;
    if i >= max {
        return Ok(None);
    }
    let b = match start_block.checked_mul(bs) {
        Some(b) => b,
        None => {
            assert(img@.len() == img.len());
            return Err(Error::Aborted);
        },
    };
    while i < max
        invariant
            1 <= i <= max,
            b == base,
            base == (start_block as int) * (bs as int),
            shift <= 1,
            bit_scan(img@, base, 1, max as int, shift as int) == bit_scan(img@, base, i as int, max as int, shift as int),
        decreases max - i,
    {
        let idx = (i - shift) / 8;
        if b > img.len() || img.len() - b <= idx {
            assert(bit_scan(img@, base, i as int, max as int, shift as int) == -1);
            return Err(Error::Aborted);
        }
        let byte_idx = b + idx;
        let bit = ((i - shift) % 8) as u8;
        if img[byte_idx] & (1u8 << bit) == 0 {
            assert(bit_scan(img@, base, i as int, max as int, shift as int) == i);
            return Ok(Some(i));
        }
        i = i + 1;
    }
    Ok(None)
}

/// Sets (value 1) or clears (any other value) bit `bit_index` of the
/// inode bitmap, which starts at block 2.
pub fn change_i_bitmap(minix_img: &mut [u8], block_size: usize, bit_index: usize, value: u8)
    requires
        block_size + SUPER_BLOCK_SIZE <= old(minix_img)@.len(),
        2 * block_size + bit_index / 8 < old(minix_img)@.len(),
    ensures
        final(minix_img)@ == change_bit(
            old(minix_img)@,
            2 * block_size + bit_index / 8,
            (bit_index % 8) as int,
            value,
        ),
{
    let start_block = read_super_block(minix_img, block_size).imap_start_block();
    assert(minix_img@.len() == minix_img.len());
    assert(start_block * block_size == 2 * block_size);
    let byte_idx = (start_block * block_size) + (bit_index / 8);
    let bit_idx = (bit_index % 8) as u8;
    if value == 1 {
        minix_img[byte_idx] = minix_img[byte_idx] | (1u8 << bit_idx);
    } else {
        minix_img[byte_idx] = minix_img[byte_idx] & !(1u8 << bit_idx);
    }
}

/// Sets (value 1) or clears (any other value) bit `bit_index` of the zone
/// bitmap, which starts right after the inode bitmap.
pub fn change_z_bitmap(minix_img: &mut [u8], block_size: usize, bit_index: usize, value: u8)
    requires
        block_size + SUPER_BLOCK_SIZE <= old(minix_img)@.len(),
        (2 + image_super_block(old(minix_img)@, block_size).s_imap_blocks) * block_size + bit_index
            / 8 < old(minix_img)@.len(),
    ensures
        final(minix_img)@ == change_bit(
            old(minix_img)@,
            (2 + image_super_block(old(minix_img)@, block_size).s_imap_blocks) * block_size
                + bit_index / 8,
            (bit_index % 8) as int,
            value,
        ),
{
    let start_block = read_super_block(minix_img, block_size).zmap_start_block();
    assert(minix_img@.len() == minix_img.len());
    assert(start_block * block_size == (2 + image_super_block(old(minix_img)@, block_size).s_imap_blocks) * block_size);
    let byte_idx = (start_block * block_size) + (bit_index / 8);
    let bit_idx = (bit_index % 8) as u8;
    if value == 1 {
        minix_img[byte_idx] = minix_img[byte_idx] | (1u8 << bit_idx);
    } else {
        minix_img[byte_idx] = minix_img[byte_idx] & !(1u8 << bit_idx);
    }
}

// ---------------------------------------------------------------------------
// Allocation and linking
// ---------------------------------------------------------------------------

/// The encoding of a fresh inode with mode `mode`: the mode, then zeros.
pub open spec fn fresh_inode_bytes(mode: u16) -> Seq<u8> {
    u16_bytes(mode) + zeros(62)
}

/// Allocating an inode: the first inode number `i >= 1` whose bit `i - 1`
/// in the inode bitmap is clear gets its bit set and its record replaced
/// by a fresh inode of mode `mode`.  Gives the result and the new image.
#[verifier::opaque]
pub open spec fn spec_alloc_inode(s: Seq<u8>, bs: usize, mode: u16) -> (Result<u32, Error>, Seq<u8>) {
    if bs + SUPER_BLOCK_SIZE > s.len() {
        (Err(Error::Aborted), s)
    } else {
        let sb = image_super_block(s, bs);
        let max = sb.s_imap_blocks * bs * 8;
        if max > usize::MAX {
            (Err(Error::Aborted), s)
        } else {
            let i = bit_scan(s, 2 * bs, 1, max, 1);
            if i == -1 {
                (Err(Error::Aborted), s)
            } else if i == max {
                (Err(Error::NoFreeInode), s)
            } else {
                let s1 = set_bit(s, 2 * bs + (i - 1) / 8, (i - 1) % 8);
                let off = inode_table_start(sb) * bs + (i - 1) * 64;
                if off + 64 > s1.len() {
                    (Err(Error::Aborted), s1)
                } else {
                    (Ok(i as u32), write_bytes(s1, off, fresh_inode_bytes(mode)))
                }
            }
        }
    }
}

/// Allocates an inode; see `spec_alloc_inode`.
pub fn alloc_inode_in(img: &mut [u8], bs: usize, mode: u16) -> (r: Result<u32, Error>)
    ensures
        (r, final(img)@) == spec_alloc_inode(old(img)@, bs, mode),
{
    proof {
        reveal(spec_alloc_inode);
    }
    if bs > img.len() || img.len() - bs < SUPER_BLOCK_SIZE {
        return Err(Error::Aborted);
    }
    let sb = read_super_block(img, bs);
    let max = match (sb.s_imap_blocks as usize).checked_mul(bs) {
        Some(m) => match m.checked_mul(8) {
            Some(m8) => m8,
            None => {
                return Err(Error::Aborted);
            },
        },
        None => {
            assert(sb.s_imap_blocks * bs * 8 > usize::MAX) by (nonlinear_arith)
                requires
                    sb.s_imap_blocks * bs > usize::MAX,
            ;
            return Err(Error::Aborted);
        },
    };
    proof {
        lemma_bit_scan_range(img@, 2 * bs, 1, max as int, 1);
    }
    let st = sb.imap_start_block();
    assert(st * bs == 2 * bs);
    let found = match scan_bitmap(img, st, bs, max, 1) {
        Ok(Some(i)) => i,
        Ok(None) => {
            return Err(Error::NoFreeInode);
        },
        Err(e) => {
            return Err(e);
        },
    };
    assert(img@.len() == img.len());
    proof {
        lemma_bit_scan_found(img@, 2 * bs, 1, max as int, 1);
    }
    change_i_bitmap(img, bs, found - 1, 1);
    let ghost s1 = img@;
    assert(s1.len() == img.len());
    let start = sb.inode_table_start_block();
    let base = match start.checked_mul(bs) {
        Some(b) => b,
        None => {
            return Err(Error::Aborted);
        },
    };
    let idx = match (found - 1).checked_mul(INODE_SIZE) {
        Some(x) => x,
        None => {
            return Err(Error::Aborted);
        },
    };
    let off = match base.checked_add(idx) {
        Some(o) => o,
        None => {
            return Err(Error::Aborted);
        },
    };
    if off > img.len() || img.len() - off < INODE_SIZE {
        return Err(Error::Aborted);
    }
    write_u16(img, off, mode);
    fill_zero(img, off + 2, 62);
    assert(img@ =~= write_bytes(s1, off as int, fresh_inode_bytes(mode)));
    Ok(#[verifier::truncate] (found as u32))
}

/// Scans the entries `k..count` of the directory block at `base` for the
/// first free one (inode number 0); gives `count` when none is free.
pub open spec fn free_entry_scan(s: Seq<u8>, base: int, k: int, count: int) -> int
    decreases count - k,
{
    if k >= count {
        count
    } else if entry_inode_at(s, base + k * 64) == 0 {
        k
    } else {
        free_entry_scan(s, base, k + 1, count)
    }
}

pub proof fn lemma_free_entry_scan_range(s: Seq<u8>, base: int, k: int, count: int)
    requires
        0 <= k <= count,
    ensures
        k <= free_entry_scan(s, base, k, count) <= count,
    decreases count - k,
{
    if k < count && entry_inode_at(s, base + k * 64) != 0 {
        lemma_free_entry_scan_range(s, base, k + 1, count);
    }
}

/// Linking inode `new` into directory `parent` under `name`: the first
/// free entry of the parent's first zone is overwritten with an entry for
/// `new` named by the first 60 bytes of `name`.
#[verifier::opaque]
pub open spec fn spec_link(s: Seq<u8>, bs: usize, parent: u32, new: u32, name: Seq<u8>) -> (
    Result<(), Error>,
    Seq<u8>,
) {
    match spec_get_inode(s, bs, parent) {
        Err(e) => (Err(e), s),
        Ok(poff) => {
            let base = zone0_at(s, poff as int) * bs;
            let count = (bs / 64) as int;
            if base + count * 64 > s.len() {
                (Err(Error::Aborted), s)
            } else {
                let k = free_entry_scan(s, base, 0, count);
                if k >= count {
                    (Err(Error::LinkFailed), s)
                } else {
                    (Ok(()), write_bytes(s, base + k * 64, dir_entry_bytes(new, name)))
                }
            }
        },
    }
}

/// Writes a directory entry for `inode` named `name` at `off`.
pub fn write_dir_entry(img: &mut [u8], off: usize, inode: u32, name: &[u8])
    requires
        off + 64 <= old(img)@.len(),
    ensures
        final(img)@ == write_bytes(old(img)@, off as int, dir_entry_bytes(inode, name@)),
{
    let entry = minix3_dir_entry::new(inode, name);
    let bytes = entry.as_bytes();
    write_slice(img, off, bytes.as_slice());
}

/// Links an inode into a directory; see `spec_link`.
pub fn link_in(img: &mut [u8], bs: usize, parent: u32, new: u32, name: &[u8]) -> (r: Result<(), Error>)
    ensures
        (r, final(img)@) == spec_link(old(img)@, bs, parent, new, name@),
{
    proof {
        reveal(spec_link);
    }
    let poff = find_inode(img, bs, parent)?;
    let zone = read_u32(img, poff + 24);
    let count = bs / DIR_ENTRY_SIZE;
    assert(img@.len() == img.len());
    let base = match (zone as usize).checked_mul(bs) {
        Some(b) => b,
        None => {
            assert(zone * bs + (bs / 64) * 64 > img@.len());
            return Err(Error::Aborted);
        },
    };
    if base > img.len() || (img.len() - base) / 64 < count {
        assert(base + count * 64 > img@.len());
        return Err(Error::Aborted);
    }
    assert(base + count * 64 <= img@.len());
    let mut k: usize = 0;
    while k < count
        invariant
            k <= count,
            count == bs / 64,
            img@ == old(img)@,
            img@.len() == img.len(),
            base + count * 64 <= img@.len(),
            spec_get_inode(img@, bs, parent) == Ok::<usize, Error>(poff),
            base == zone0_at(img@, poff as int) * bs,
            free_entry_scan(img@, base as int, 0, count as int) == free_entry_scan(img@, base as int, k as int, count as int),
        decreases count - k,
    {
        let off = base + k * 64;
        if read_u32(img, off) == 0 {
            proof {
                reveal(spec_link);
            }
            assert(free_entry_scan(img@, base as int, k as int, count as int) == k);
            write_dir_entry(img, off, new, name);
            return Ok(());
        }
        k = k + 1;
    }
    Err(Error::LinkFailed)
}

/// Creating a file: the path is split into parent directory and name; a
/// fresh inode of mode 0 is allocated and linked into the parent under
/// the name.  Under `/` a failed link is ignored; elsewhere the parent
/// is resolved first and a failed link is reported.  Gives the new inode
/// number.
#[verifier::opaque]
pub open spec fn spec_create_file(s: Seq<u8>, bs: usize, path: Seq<u8>) -> (Result<u32, Error>, Seq<u8>) {
    let (dir, name) = spec_split_path(path);
    if dir == seq![SLASH] {
        let (ar, s1) = spec_alloc_inode(s, bs, 0);
        match ar {
            Err(e) => (Err(e), s1),
            Ok(n) => {
                let (lr, s2) = spec_link(s1, bs, 1, n, name);
                if lr == Err::<(), Error>(Error::Aborted) {
                    (Err(Error::Aborted), s2)
                } else {
                    (Ok(n), s2)
                }
            },
        }
    } else {
        match spec_lookup_iter(s, bs, dir) {
            Err(e) => (Err(e), s),
            Ok(parent) => {
                let (ar, s1) = spec_alloc_inode(s, bs, 0);
                match ar {
                    Err(e) => (Err(e), s1),
                    Ok(n) => {
                        let (lr, s2) = spec_link(s1, bs, parent, n, name);
                        match lr {
                            Err(e) => (Err(e), s2),
                            Ok(_) => (Ok(n), s2),
                        }
                    },
                }
            },
        }
    }
}

/// Creates a file; see `spec_create_file`.
pub fn create_file_in(img: &mut [u8], bs: usize, path: &[u8]) -> (r: Result<u32, Error>)
    ensures
        (r, final(img)@) == spec_create_file(old(img)@, bs, path@),
{
    proof {
        reveal(spec_create_file);
    }
    let (dir, filename) = split_path_and_filename(path);
    let root: &[u8] = &[47u8];
    if bytes_eq(dir, root) {
        assert(seq![SLASH] =~= root@);
        let n = alloc_inode_in(img, bs, 0)?;
        match link_in(img, bs, 1, n, filename) {
            Err(Error::Aborted) => Err(Error::Aborted),
            _ => Ok(n),
        }
    } else {
        assert(seq![SLASH] =~= root@);
        let parent = resolve_path(img, bs, dir)?;
        let n = alloc_inode_in(img, bs, 0)?;
        link_in(img, bs, parent, n, filename)?;
        Ok(n)
    }
}


// ---------------------------------------------------------------------------
// Zones, writing and reading
// ---------------------------------------------------------------------------

/// Allocating the first zone of inode `n`: the first bit `j >= 1` of the
/// zone bitmap that is clear stands for zone `j + s_firstdatazone - 1`.
/// When the inode has no first zone yet, the bit is set, the zone becomes
/// the inode's first zone and its block (when it lies in the image) is
/// zeroed; an inode that already has a first zone is an error.  A full
/// bitmap gives zone 0 and changes nothing.
#[verifier::opaque]
pub open spec fn spec_alloc_zone(s: Seq<u8>, bs: usize, n: u32) -> (Result<u32, Error>, Seq<u8>) {
    match spec_get_inode(s, bs, n) {
        Err(e) => (Err(e), s),
        Ok(ioff) => {
            let sb = image_super_block(s, bs);
            let zstart = 2 + sb.s_imap_blocks;
            let max = sb.s_zmap_blocks * bs * 8;
            if max > usize::MAX {
                (Err(Error::Aborted), s)
            } else {
                let j = bit_scan(s, zstart * bs, 1, max, 0);
                if j == -1 {
                    (Err(Error::Aborted), s)
                } else if j == max {
                    (Ok(0), s)
                } else if j + sb.s_firstdatazone > usize::MAX {
                    (Err(Error::Aborted), s)
                } else if zone0_at(s, ioff as int) != 0 {
                    (Err(Error::AllocZoneFailed), s)
                } else {
                    let allocated = j + sb.s_firstdatazone - 1;
                    let s1 = set_bit(s, zstart * bs + j / 8, j % 8);
                    let s2 = write_bytes(s1, ioff + 24, u32_bytes(allocated as u32));
                    let data = allocated * bs;
                    if data + bs > usize::MAX {
                        (Err(Error::Aborted), s2)
                    } else if data + bs <= s2.len() {
                        (Ok(allocated as u32), write_bytes(s2, data, zeros(bs as nat)))
                    } else {
                        (Ok(allocated as u32), s2)
                    }
                }
            }
        },
    }
}

pub proof fn lemma_alloc_zone_len(s: Seq<u8>, bs: usize, n: u32)
    ensures
        spec_alloc_zone(s, bs, n).1.len() == s.len(),
{
    reveal(spec_alloc_zone);
    if let Ok(ioff) = spec_get_inode(s, bs, n) {
        let sb = image_super_block(s, bs);
        let zstart = 2 + sb.s_imap_blocks;
        let max = sb.s_zmap_blocks * bs * 8;
        assert(zstart * bs >= 0) by (nonlinear_arith)
            requires
                zstart >= 0,
                bs >= 0,
        ;
        lemma_bit_scan_range(s, zstart * bs, 1, max, 0);
        let j = bit_scan(s, zstart * bs, 1, max, 0);
        if 1 <= j < max {
            lemma_bit_scan_found(s, zstart * bs, 1, max, 0);
        }
    }
}

/// Allocates the first zone of an inode; see `spec_alloc_zone`.
pub fn alloc_zone_in(img: &mut [u8], bs: usize, n: u32) -> (r: Result<u32, Error>)
    ensures
        (r, final(img)@) == spec_alloc_zone(old(img)@, bs, n),
{
    proof {
        reveal(spec_alloc_zone);
    }
    let ioff = find_inode(img, bs, n)?;
    let sb = read_super_block(img, bs);
    let zstart = 2 + sb.s_imap_blocks as usize;
    assert(img@.len() == img.len());
    let max = match (sb.s_zmap_blocks as usize).checked_mul(bs) {
        Some(m) => match m.checked_mul(8) {
            Some(m8) => m8,
            None => {
                return Err(Error::Aborted);
            },
        },
        None => {
            assert(sb.s_zmap_blocks * bs * 8 > usize::MAX) by (nonlinear_arith)
                requires
                    sb.s_zmap_blocks * bs > usize::MAX,
            ;
            return Err(Error::Aborted);
        },
    };
    proof {
        lemma_bit_scan_range(img@, zstart * bs, 1, max as int, 0);
    }
    let j = match scan_bitmap(img, zstart, bs, max, 0) {
        Ok(Some(j)) => j,
        Ok(None) => {
            return Ok(0);
        },
        Err(e) => {
            return Err(e);
        },
    };
    proof {
        lemma_bit_scan_found(img@, zstart * bs, 1, max as int, 0);
    }
    let fdz = sb.s_firstdatazone as usize;
    let sum = match j.checked_add(fdz) {
        Some(x) => x,
        None => {
            return Err(Error::Aborted);
        },
    };
    let allocated = sum - 1;
    if read_u32(img, ioff + 24) != 0 {
        return Err(Error::AllocZoneFailed);
    }
    let byte_idx = zstart * bs + j / 8;
    let bit_idx = (j % 8) as u8;
    img[byte_idx] = img[byte_idx] | (1u8 << bit_idx);
    let zone = #[verifier::truncate] (allocated as u32);
    write_u32(img, ioff + 24, zone);
    let data = match allocated.checked_mul(bs) {
        Some(d) => d,
        None => {
            assert(allocated * bs + bs > usize::MAX) by (nonlinear_arith)
                requires
                    allocated * bs > usize::MAX,
            ;
            return Err(Error::Aborted);
        },
    };
    let end = match data.checked_add(bs) {
        Some(e) => e,
        None => {
            return Err(Error::Aborted);
        },
    };
    if end <= img.len() {
        fill_zero(img, data, bs);
    }
    Ok(zone)
}

/// The zone a write to inode `n`, whose record is at `ioff`, puts its data
/// in, with the image after finding it: the inode's first zone, or a zone
/// allocated for it when it has none.
pub open spec fn write_zone(s: Seq<u8>, bs: usize, n: u32, ioff: usize) -> (Result<u32, Error>, Seq<u8>) {
    let z0 = zone0_at(s, ioff as int);
    if z0 == 0 {
        spec_alloc_zone(s, bs, n)
    } else {
        (Ok(z0), s)
    }
}

/// Writing `data` to the file at `path`: the path is resolved; an inode
/// without a first zone gets one allocated; `data` is copied to the start
/// of that zone's block and the inode's size becomes `data.len()`
/// (truncated to 32 bits).
#[verifier::opaque]
pub open spec fn spec_write(s: Seq<u8>, bs: usize, path: Seq<u8>, data: Seq<u8>) -> (
    Result<(), Error>,
    Seq<u8>,
) {
    match spec_lookup_iter(s, bs, path) {
        Err(e) => (Err(e), s),
        Ok(n) => match spec_get_inode(s, bs, n) {
            Err(e) => (Err(e), s),
            Ok(ioff) => {
                let (zr, s1) = write_zone(s, bs, n, ioff);
                match zr {
                    Err(e) => (Err(e), s1),
                    Ok(zone) => {
                        let zb = zone * bs;
                        if zb + data.len() > s1.len() {
                            (Err(Error::Aborted), s1)
                        } else {
                            let s2 = write_bytes(s1, zb, data);
                            (Ok(()), write_bytes(s2, ioff + 8, u32_bytes(data.len() as u32)))
                        }
                    },
                }
            },
        },
    }
}

/// Writes a file; see `spec_write`.
pub fn write_in(img: &mut [u8], bs: usize, path: &[u8], data: &[u8]) -> (r: Result<(), Error>)
    ensures
        (r, final(img)@) == spec_write(old(img)@, bs, path@, data@),
{
    proof {
        reveal(spec_write);
    }
    let n = resolve_path(img, bs, path)?;
    let ioff = find_inode(img, bs, n)?;
    let mut zone = read_u32(img, ioff + 24);
    if zone == 0 {
        proof {
            lemma_alloc_zone_len(img@, bs, n);
        }
        zone = alloc_zone_in(img, bs, n)?;
    }
    assert(img@.len() == img.len());
    let zb = match (zone as usize).checked_mul(bs) {
        Some(z) => z,
        None => {
            return Err(Error::Aborted);
        },
    };
    if zb > img.len() || img.len() - zb < data.len() {
        return Err(Error::Aborted);
    }
    write_slice(img, zb, data);
    proof {
        assert(ioff + 64 <= img@.len());
    }
    write_u32(img, ioff + 8, #[verifier::truncate] (data.len() as u32));
    Ok(())
}

/// Reading the file at `path`: the bytes of its first zone's block up to
/// its size; nothing when it has no first zone, is empty, or would reach
/// past the end of the image.
#[verifier::opaque]
pub open spec fn spec_read(s: Seq<u8>, bs: usize, path: Seq<u8>) -> Result<Seq<u8>, Error> {
    match spec_lookup_iter(s, bs, path) {
        Err(e) => Err(e),
        Ok(n) => match spec_get_inode(s, bs, n) {
            Err(e) => Err(e),
            Ok(ioff) => {
                let zone = zone0_at(s, ioff as int);
                let size = size_at(s, ioff as int);
                if zone == 0 || size == 0 {
                    Ok(Seq::empty())
                } else {
                    let start = zone * bs;
                    let end = start + size;
                    if end > usize::MAX {
                        Err(Error::Aborted)
                    } else if end > s.len() {
                        Ok(Seq::empty())
                    } else {
                        Ok(s.subrange(start, end))
                    }
                }
            },
        },
    }
}

/// Reads a file; see `spec_read`.
pub fn read_in<'a>(img: &'a [u8], bs: usize, path: &[u8]) -> (r: Result<&'a [u8], Error>)
    ensures
        match r {
            Ok(d) => spec_read(img@, bs, path@) == Ok::<Seq<u8>, Error>(d@),
            Err(e) => spec_read(img@, bs, path@) == Err::<Seq<u8>, Error>(e),
        },
{
    proof {
        reveal(spec_read);
    }
    let n = resolve_path(img, bs, path)?;
    let ioff = find_inode(img, bs, n)?;
    let zone = read_u32(img, ioff + 24);
    let size = read_u32(img, ioff + 8) as usize;
    let empty: &'a [u8] = vstd::slice::slice_subrange(img, 0, 0);
    assert(empty@ =~= Seq::<u8>::empty());
    if zone == 0 || size == 0 {
        return Ok(empty);
    }
    let start = match (zone as usize).checked_mul(bs) {
        Some(x) => x,
        None => {
            return Err(Error::Aborted);
        },
    };
    let end = match start.checked_add(size) {
        Some(x) => x,
        None => {
            return Err(Error::Aborted);
        },
    };
    if end > img.len() {
        return Ok(empty);
    }
    Ok(vstd::slice::slice_subrange(img, start, end))
}


// ---------------------------------------------------------------------------
// Directories
// ---------------------------------------------------------------------------

pub proof fn lemma_alloc_inode_len(s: Seq<u8>, bs: usize, mode: u16)
    ensures
        spec_alloc_inode(s, bs, mode).1.len() == s.len(),
{
    reveal(spec_alloc_inode);
    if bs + SUPER_BLOCK_SIZE <= s.len() {
        let sb = image_super_block(s, bs);
        let max = sb.s_imap_blocks * bs * 8;
        lemma_bit_scan_range(s, 2 * bs, 1, max, 1);
        let i = bit_scan(s, 2 * bs, 1, max, 1);
        if 1 <= i < max {
            lemma_bit_scan_found(s, 2 * bs, 1, max, 1);
        }
    }
}

pub proof fn lemma_link_len(s: Seq<u8>, bs: usize, parent: u32, new: u32, name: Seq<u8>)
    ensures
        spec_link(s, bs, parent, new, name).1.len() == s.len(),
{
    reveal(spec_link);
}

/// The entry `.` or `..`: the name bytes of a single or double dot.
pub open spec fn dots(k: nat) -> Seq<u8> {
    Seq::new(k, |i: int| 46u8)
}

/// Making a directory: the path is split into parent and name; the parent
/// is `/` (inode 1) or resolved; a fresh inode of directory mode is
/// allocated and linked into the parent; a first zone is allocated for
/// it and begins with the entries `.` (the new inode) and `..` (the
/// parent); the new inode's size becomes 128.  Gives the new inode number.
#[verifier::opaque]
pub open spec fn spec_mkdir(s: Seq<u8>, bs: usize, path: Seq<u8>) -> (Result<u32, Error>, Seq<u8>) {
    let (dir, name) = spec_split_path(path);
    let pr = if dir == seq![SLASH] {
        Ok(1u32)
    } else {
        spec_lookup_iter(s, bs, dir)
    };
    match pr {
        Err(e) => (Err(e), s),
        Ok(parent) => if parent == 0 {
            (Err(Error::ParentInodeNumZero), s)
        } else {
            let (ar, s1) = spec_alloc_inode(s, bs, DIR_MODE);
            match ar {
                Err(e) => (Err(e), s1),
                Ok(new) => {
                    let (lr, s2) = spec_link(s1, bs, parent, new, name);
                    if lr == Err::<(), Error>(Error::Aborted) {
                        (Err(Error::Aborted), s2)
                    } else if lr is Err {
                        (Err(Error::LinkFailed), s2)
                    } else {
                        let (zr, s3) = spec_alloc_zone(s2, bs, new);
                        match zr {
                            Err(e) => (Err(e), s3),
                            Ok(zone) => {
                                let zo = zone * bs;
                                if zo + bs > s3.len() || bs < 128 {
                                    (Err(Error::Aborted), s3)
                                } else {
                                    let s4 = write_bytes(s3, zo, dir_entry_bytes(new, dots(1)));
                                    let s5 = write_bytes(
                                        s4,
                                        zo + 64,
                                        dir_entry_bytes(parent, dots(2)),
                                    );
                                    match spec_get_inode(s5, bs, new) {
                                        Err(e) => (Err(e), s5),
                                        Ok(noff) => (
                                            Ok(new),
                                            write_bytes(s5, noff + 8, u32_bytes(128)),
                                        ),
                                    }
                                }
                            },
                        }
                    }
                },
            }
        },
    }
}

/// Makes a directory; see `spec_mkdir`.
pub fn mkdir_in(img: &mut [u8], bs: usize, path: &[u8]) -> (r: Result<u32, Error>)
    ensures
        (r, final(img)@) == spec_mkdir(old(img)@, bs, path@),
{
    proof {
        reveal(spec_mkdir);
    }
    let (dir, dirname) = split_path_and_filename(path);
    let root: &[u8] = &[47u8];
    assert(seq![SLASH] =~= root@);
    let parent = if bytes_eq(dir, root) {
        1
    } else {
        resolve_path(img, bs, dir)?
    };
    if parent == 0 {
        return Err(Error::ParentInodeNumZero);
    }
    let new = alloc_inode_in(img, bs, DIR_MODE)?;
    match link_in(img, bs, parent, new, dirname) {
        Ok(_) => {},
        Err(Error::Aborted) => {
            return Err(Error::Aborted);
        },
        Err(_) => {
            return Err(Error::LinkFailed);
        },
    }
    let zone = alloc_zone_in(img, bs, new)?;
    assert(img@.len() == img.len());
    let zo = match (zone as usize).checked_mul(bs) {
        Some(z) => z,
        None => {
            return Err(Error::Aborted);
        },
    };
    if zo > img.len() || img.len() - zo < bs || bs < 128 {
        return Err(Error::Aborted);
    }
    let dot: &[u8] = &[46u8];
    let dotdot: &[u8] = &[46u8, 46u8];
    assert(dot@ =~= dots(1));
    assert(dotdot@ =~= dots(2));
    write_dir_entry(img, zo, new, dot);
    write_dir_entry(img, zo + 64, parent, dotdot);
    let noff = find_inode(img, bs, new)?;
    write_u32(img, noff + 8, 128);
    Ok(new)
}

/// Scans the entries `k..count` of the directory block at `base` for the
/// first one that refers to inode `n` under the name `name`; gives `count`
/// when there is none.
pub open spec fn named_entry_scan(s: Seq<u8>, base: int, k: int, count: int, n: u32, name: Seq<
    u8,
>) -> int
    decreases count - k,
{
    if k >= count {
        count
    } else if entry_inode_at(s, base + k * 64) == n && entry_name_at(s, base + k * 64) == name {
        k
    } else {
        named_entry_scan(s, base, k + 1, count, n, name)
    }
}

/// Zeroes the first entry among the `count` entries at `base` that
/// refers to inode `n` under the name `name`, if there is one.
pub open spec fn spec_remove_entry(s: Seq<u8>, base: int, count: int, n: u32, name: Seq<u8>) -> Seq<
    u8,
> {
    let k = named_entry_scan(s, base, 0, count, n, name);
    if k >= count {
        s
    } else {
        write_bytes(s, base + k * 64, zeros(64))
    }
}

/// Removes an entry; see `spec_remove_entry`.
fn remove_entry_in(img: &mut [u8], base: usize, count: usize, n: u32, name: &[u8])
    requires
        base + count * 64 <= old(img)@.len(),
    ensures
        final(img)@ == spec_remove_entry(old(img)@, base as int, count as int, n, name@),
{
    assert(img@.len() == img.len());
    let mut k: usize = 0;
    while k < count
        invariant
            k <= count,
            img@ == old(img)@,
            img@.len() == img.len(),
            base + count * 64 <= img@.len(),
            named_entry_scan(img@, base as int, 0, count as int, n, name@) == named_entry_scan(
                img@,
                base as int,
                k as int,
                count as int,
                n,
                name@,
            ),
        decreases count - k,
    {
        let off = base + k * 64;
        if read_u32(img, off) == n && entry_name_eq(img, off, name) {
            assert(named_entry_scan(img@, base as int, k as int, count as int, n, name@) == k);
            fill_zero(img, off, 64);
            return;
        }
        k = k + 1;
    }
}

/// Removing the entry for inode `n` named `name` from directory `pdir`
/// (`/` is inode 1, anything else is resolved): the parent must not be
/// inode 0 and must have a first zone; see `spec_remove_entry`.
#[verifier::opaque]
pub open spec fn spec_unlink_parent(s: Seq<u8>, bs: usize, n: u32, pdir: Seq<u8>, name: Seq<u8>) -> (
    Result<(), Error>,
    Seq<u8>,
) {
    let pr = if pdir == seq![SLASH] {
        Ok(1u32)
    } else {
        spec_lookup_iter(s, bs, pdir)
    };
    match pr {
        Err(e) => (Err(e), s),
        Ok(p) => if p == 0 {
            (Err(Error::ParentInodeZero), s)
        } else {
            match spec_get_inode(s, bs, p) {
                Err(e) => (Err(e), s),
                Ok(poff) => {
                    let pz = zone0_at(s, poff as int);
                    if pz == 0 {
                        (Err(Error::ParentZoneZero), s)
                    } else {
                        let base = pz * bs;
                        let count = (bs / 64) as int;
                        if base + count * 64 > s.len() {
                            (Err(Error::Aborted), s)
                        } else {
                            (Ok(()), spec_remove_entry(s, base, count, n, name))
                        }
                    }
                },
            }
        },
    }
}

/// Removes the entry from the parent; see `spec_unlink_parent`.
fn unlink_parent_in(img: &mut [u8], bs: usize, n: u32, pdir: &[u8], name: &[u8]) -> (r: Result<
    (),
    Error,
>)
    ensures
        (r, final(img)@) == spec_unlink_parent(old(img)@, bs, n, pdir@, name@),
{
    proof {
        reveal(spec_unlink_parent);
    }
    assert(img@.len() == img.len());
    let root: &[u8] = &[47u8];
    assert(seq![SLASH] =~= root@);
    let p = if bytes_eq(pdir, root) {
        1
    } else {
        resolve_path(img, bs, pdir)?
    };
    if p == 0 {
        return Err(Error::ParentInodeZero);
    }
    let poff = find_inode(img, bs, p)?;
    let pz = read_u32(img, poff + 24);
    if pz == 0 {
        return Err(Error::ParentZoneZero);
    }
    let count = bs / DIR_ENTRY_SIZE;
    let base = match (pz as usize).checked_mul(bs) {
        Some(b) => b,
        None => {
            assert(pz * bs + (bs / 64) * 64 > img@.len());
            return Err(Error::Aborted);
        },
    };
    if base > img.len() || (img.len() - base) / 64 < count {
        assert(base + count * 64 > img@.len());
        return Err(Error::Aborted);
    }
    remove_entry_in(img, base, count, n, name);
    Ok(())
}

/// The last steps of deleting inode `n` (first zone `z`) named `name` from
/// directory `pdir`: its inode-bitmap bit and, when it had a first zone,
/// that zone's bitmap bit are cleared; then the first entry of the
/// parent's first zone that refers to it under its name is zeroed.
#[verifier::opaque]
pub open spec fn spec_unlink(
    s: Seq<u8>,
    bs: usize,
    sb: minix3_super_block,
    n: u32,
    z: u32,
    pdir: Seq<u8>,
    name: Seq<u8>,
) -> (Result<(), Error>, Seq<u8>) {
    let ib = 2 * bs + (n - 1) / 8;
    if ib >= s.len() {
        (Err(Error::Aborted), s)
    } else {
        let s2 = clear_bit(s, ib, (n - 1) % 8);
        if z > 0 && (z < sb.s_firstdatazone || z - sb.s_firstdatazone + 1 > usize::MAX) {
            (Err(Error::Aborted), s2)
        } else if z > 0 && (2 + sb.s_imap_blocks) * bs + (z - sb.s_firstdatazone + 1) / 8
            >= s2.len() {
            (Err(Error::Aborted), s2)
        } else {
            let s3 = if z > 0 {
                let bit = z - sb.s_firstdatazone + 1;
                clear_bit(s2, (2 + sb.s_imap_blocks) * bs + bit / 8, bit % 8)
            } else {
                s2
            };
            spec_unlink_parent(s3, bs, n, pdir, name)
        }
    }
}

/// Scans the entries `k..count` of the directory block at `base` for the
/// first one in use (its inode is not 0) whose name is neither `.` nor
/// `..`; gives `count` when there is none.
pub open spec fn live_entry_scan(s: Seq<u8>, base: int, k: int, count: int) -> int
    decreases count - k,
{
    if k >= count {
        count
    } else if entry_inode_at(s, base + k * 64) != 0 && entry_name_at(s, base + k * 64) != dots(1)
        && entry_name_at(s, base + k * 64) != dots(2) {
        k
    } else {
        live_entry_scan(s, base, k + 1, count)
    }
}

/// Whether the `count` entries of the directory block at `base` hold an
/// entry in use other than `.` and `..`.
pub open spec fn dir_block_in_use(s: Seq<u8>, base: int, count: int) -> bool {
    live_entry_scan(s, base, 0, count) < count
}

/// Tells whether a directory block holds entries; see `dir_block_in_use`.
fn dir_has_entries(img: &[u8], base: usize, count: usize) -> (r: bool)
    requires
        base + count * 64 <= img@.len(),
    ensures
        r == dir_block_in_use(img@, base as int, count as int),
{
    let dot: &[u8] = &[46u8];
    let dotdot: &[u8] = &[46u8, 46u8];
    assert(dot@ =~= dots(1));
    assert(dotdot@ =~= dots(2));
    let mut k: usize = 0;
    while k < count
        invariant
            k <= count,
            base + count * 64 <= img@.len(),
            img@.len() == img.len(),
            dot@ == dots(1),
            dotdot@ == dots(2),
            live_entry_scan(img@, base as int, 0, count as int) == live_entry_scan(
                img@,
                base as int,
                k as int,
                count as int,
            ),
        decreases count - k,
    {
        let off = base + k * 64;
        if read_u32(img, off) != 0 {
            let name = entry_name_slice(img, off);
            if !bytes_eq(name, dot) && !bytes_eq(name, dotdot) {
                return true;
            }
        }
        k = k + 1;
    }
    false
}

/// Deleting the file or empty directory at `path`.  A directory whose
/// first zone's block lies inside the image may be deleted only while the
/// block holds no entry in use other than `.` and `..` (see
/// `dir_block_in_use`); otherwise nothing changes.  A block outside the
/// image holds no entries.  The inode's
/// first zone, when it has one, is zeroed (if it lies in the image) and
/// the inode's first zone and size are reset; then see `spec_unlink`.
#[verifier::opaque]
pub open spec fn spec_delete(s: Seq<u8>, bs: usize, path: Seq<u8>) -> (Result<(), Error>, Seq<u8>) {
    if bs + SUPER_BLOCK_SIZE > s.len() {
        (Err(Error::Aborted), s)
    } else {
        let sb = image_super_block(s, bs);
        let (pdir, name) = spec_split_path(path);
        match spec_lookup_iter(s, bs, path) {
            Err(e) => (Err(e), s),
            Ok(n) => match spec_get_inode(s, bs, n) {
                Err(e) => (Err(e), s),
                Ok(ioff) => {
                    let z = zone0_at(s, ioff as int);
                    let dir = is_dir_mode(mode_at(s, ioff as int));
                    if dir && z != 0 && z * bs + bs <= s.len() && dir_block_in_use(
                        s,
                        z * bs,
                        (bs / 64) as int,
                    ) {
                        (Err(Error::DirectoryNotEmpty), s)
                    } else if z != 0 && z * bs + bs > usize::MAX {
                        (Err(Error::Aborted), s)
                    } else {
                        let s1 = if z != 0 {
                            let zo = z * bs;
                            let sa = if zo + bs <= s.len() {
                                write_bytes(s, zo, zeros(bs as nat))
                            } else {
                                s
                            };
                            write_bytes(
                                write_bytes(sa, ioff + 24, u32_bytes(0)),
                                ioff + 8,
                                u32_bytes(0),
                            )
                        } else {
                            s
                        };
                        spec_unlink(s1, bs, sb, n, z, pdir, name)
                    }
                },
            },
        }
    }
}

/// Removes the entry; see `spec_unlink`.
fn unlink_in(
    img: &mut [u8],
    bs: usize,
    sb: minix3_super_block,
    n: u32,
    z: u32,
    pdir: &[u8],
    name: &[u8],
) -> (r: Result<(), Error>)
    requires
        n >= 1,
    ensures
        (r, final(img)@) == spec_unlink(old(img)@, bs, sb, n, z, pdir@, name@),
{
    proof {
        reveal(spec_unlink);
    }
    assert(img@.len() == img.len());
    let bit_index = (n - 1) as usize;
    let ib = match bs.checked_mul(2) {
        Some(x) => match x.checked_add(bit_index / 8) {
            Some(y) => y,
            None => {
                return Err(Error::Aborted);
            },
        },
        None => {
            return Err(Error::Aborted);
        },
    };
    if ib >= img.len() {
        return Err(Error::Aborted);
    }
    img[ib] = img[ib] & !(1u8 << ((bit_index % 8) as u8));
    let fdz = sb.s_firstdatazone as u32;
    if z > 0 {
        if z < fdz {
            return Err(Error::Aborted);
        }
        let bit = match ((z - fdz) as usize).checked_add(1) {
            Some(b) => b,
            None => {
                return Err(Error::Aborted);
            },
        };
        let zs = 2 + sb.s_imap_blocks as usize;
        let zb = match zs.checked_mul(bs) {
            Some(x) => match x.checked_add(bit / 8) {
                Some(y) => y,
                None => {
                    return Err(Error::Aborted);
                },
            },
            None => {
                assert(zs * bs + bit / 8 >= img@.len());
                return Err(Error::Aborted);
            },
        };
        if zb >= img.len() {
            return Err(Error::Aborted);
        }
        img[zb] = img[zb] & !(1u8 << ((bit % 8) as u8));
    }
    unlink_parent_in(img, bs, n, pdir, name)
}

/// Deletes a file or empty directory; see `spec_delete`.
pub fn delete_in(img: &mut [u8], bs: usize, path: &[u8]) -> (r: Result<(), Error>)
    ensures
        (r, final(img)@) == spec_delete(old(img)@, bs, path@),
{
    proof {
        reveal(spec_delete);
    }
    if bs > img.len() || img.len() - bs < SUPER_BLOCK_SIZE {
        return Err(Error::Aborted);
    }
    let sb = read_super_block(img, bs);
    let (pdir, filename) = split_path_and_filename(path);
    let n = resolve_path(img, bs, path)?;
    let ioff = find_inode(img, bs, n)?;
    let mode = read_u16(img, ioff);
    let z = read_u32(img, ioff + 24);
    assert(img@.len() == img.len());
    if mode & DIR_MODE != 0 && z != 0 {
        let zo = match (z as usize).checked_mul(bs) {
            Some(x) => x,
            None => {
                assert(z * bs + bs > usize::MAX);
                return Err(Error::Aborted);
            },
        };
        if zo <= img.len() && img.len() - zo >= bs {
            assert((bs / 64) * 64 <= bs) by (nonlinear_arith);
            if dir_has_entries(img, zo, bs / DIR_ENTRY_SIZE) {
                return Err(Error::DirectoryNotEmpty);
            }
        }
    }
    if z != 0 {
        let zo = match (z as usize).checked_mul(bs) {
            Some(x) => x,
            None => {
                assert(z * bs + bs > usize::MAX);
                return Err(Error::Aborted);
            },
        };
        let end = match zo.checked_add(bs) {
            Some(e) => e,
            None => {
                return Err(Error::Aborted);
            },
        };
        if end <= img.len() {
            fill_zero(img, zo, bs);
        }
        write_u32(img, ioff + 24, 0);
        write_u32(img, ioff + 8, 0);
    }
    unlink_in(img, bs, sb, n, z, pdir, filename)
}


// ---------------------------------------------------------------------------
// Directory tree
// ---------------------------------------------------------------------------

/// One line of the directory tree: the depth of the entry, its name and
/// whether it is a directory.  Entries are listed from depth 1 on; the
/// line at depth 0 stands for the root directory itself, named `/`.
pub struct TreeLine {
    pub depth: u8,
    pub name: Vec<u8>,
    pub is_dir: bool,
}

/// The abstract content of a tree line.
pub open spec fn line_view(l: TreeLine) -> (u8, Seq<u8>, bool) {
    (l.depth, l.name@, l.is_dir)
}

/// The abstract content of a list of tree lines.
pub open spec fn lines_view(v: Seq<TreeLine>) -> Seq<(u8, Seq<u8>, bool)> {
    v.map_values(|l: TreeLine| line_view(l))
}

/// Number of spaces that indent a tree line at `depth`.
pub open spec fn spec_indent(depth: u8) -> int {
    if depth * 2 < 32 {
        depth * 2
    } else {
        32
    }
}

/// The text printed for a tree line: for the root line its name; for an
/// entry the indentation (see `spec_indent`), `|- `, the name and, after a
/// directory's name, `/`.  A name that is not UTF-8 is printed as
/// `<invalid utf8>`.
pub open spec fn line_text(l: (u8, Seq<u8>, bool)) -> Seq<u8> {
    if l.0 == 0 {
        utf8_or_invalid(l.1)
    } else {
        Seq::new(spec_indent(l.0) as nat, |i: int| 32u8) + seq![124u8, 45u8, 32u8]
            + utf8_or_invalid(l.1) + if l.2 {
            seq![47u8]
        } else {
            Seq::empty()
        }
    }
}

impl TreeLine {
    /// Number of spaces that indent this line: twice the depth, at most 32.
    pub fn indent(&self) -> (r: usize)
        ensures
            r == spec_indent(self.depth),
    {
        let d = self.depth as usize * 2;
        if d < 32 {
            d
        } else {
            32
        }
    }

    /// The text printed for this line (see `line_text`).
    pub fn text(&self) -> (r: Vec<u8>)
        ensures
            r@ == line_text(line_view(*self)),
    {
        let mut out: Vec<u8> = Vec::new();
        if self.depth == 0 {
            push_utf8_or_invalid(&mut out, self.name.as_slice());
            return out;
        }
        let n = self.indent();
        let mut k: usize = 0;
        while k < n
            invariant
                k <= n,
                n == spec_indent(self.depth),
                out@ == Seq::new(k as nat, |i: int| 32u8),
            decreases n - k,
        {
            out.push(32u8);
            k = k + 1;
            assert(out@ =~= Seq::new(k as nat, |i: int| 32u8));
        }
        out.push(124u8);
        out.push(45u8);
        out.push(32u8);
        let ghost head = out@;
        assert(head =~= Seq::new(n as nat, |i: int| 32u8) + seq![124u8, 45u8, 32u8]);
        push_utf8_or_invalid(&mut out, self.name.as_slice());
        if self.is_dir {
            out.push(47u8);
        }
        assert(out@ =~= line_text(line_view(*self)));
        out
    }
}

/// The tree below inode `n` at `depth`: an error unless `n` is a
/// directory with a first zone whose block lies in the image; else the
/// lines for the entries of that block.
#[verifier::opaque]
pub open spec fn spec_tree(s: Seq<u8>, bs: usize, depth: u8, n: u32) -> (Result<(), Error>, Seq<
    (u8, Seq<u8>, bool),
>)
    decreases 256 - depth, bs / 64 + 1,
{
    match spec_get_inode(s, bs, n) {
        Err(e) => (Err(e), Seq::empty()),
        Ok(off) => if !is_dir_mode(mode_at(s, off as int)) {
            (Err(Error::TreeNotDirectory), Seq::empty())
        } else {
            let zo = zone0_at(s, off as int) * bs;
            if zo > usize::MAX {
                (Err(Error::Aborted), Seq::empty())
            } else if zo == 0 {
                (Err(Error::ZoneOffsetInvalid), Seq::empty())
            } else if zo + (bs / 64) * 64 > s.len() {
                (Err(Error::Aborted), Seq::empty())
            } else {
                spec_tree_entries(s, bs, depth, zo, 0)
            }
        },
    }
}

/// The lines for the entries `i..` of the directory block at `zo`: entries
/// with inode 0 and the entries `.` and `..` are skipped; every other
/// entry gives a line, and a directory entry is followed by the tree below
/// it one level deeper.
#[verifier::opaque]
pub open spec fn spec_tree_entries(s: Seq<u8>, bs: usize, depth: u8, zo: int, i: int) -> (
    Result<(), Error>,
    Seq<(u8, Seq<u8>, bool)>,
)
    decreases 256 - depth, bs / 64 - i,
{
    if i >= bs / 64 || i < 0 {
        (Ok(()), Seq::empty())
    } else {
        let off = zo + i * 64;
        let ino = entry_inode_at(s, off);
        let name = entry_name_at(s, off);
        if ino == 0 || name == dots(1) || name == dots(2) {
            spec_tree_entries(s, bs, depth, zo, i + 1)
        } else {
            match spec_get_inode(s, bs, ino) {
                Err(e) => (Err(e), Seq::empty()),
                Ok(coff) => if is_dir_mode(mode_at(s, coff as int)) {
                    let line = (depth, name, true);
                    if depth == 255 {
                        (Err(Error::Aborted), seq![line])
                    } else {
                        let sub = spec_tree(s, bs, (depth + 1) as u8, ino);
                        if sub.0 is Err {
                            (sub.0, seq![line] + sub.1)
                        } else {
                            let rest = spec_tree_entries(s, bs, depth, zo, i + 1);
                            (rest.0, seq![line] + sub.1 + rest.1)
                        }
                    }
                } else {
                    let rest = spec_tree_entries(s, bs, depth, zo, i + 1);
                    (rest.0, seq![(depth, name, false)] + rest.1)
                },
            }
        }
    }
}

/// The line that stands for the root directory.
pub open spec fn root_line() -> (u8, Seq<u8>, bool) {
    (0u8, seq![SLASH], true)
}

/// Appends the line that stands for the root directory to `out`.
pub fn push_root_line(out: &mut Vec<TreeLine>)
    ensures
        lines_view(final(out)@) == lines_view(old(out)@).push(root_line()),
{
    let mut name: Vec<u8> = Vec::new();
    name.push(SLASH);
    assert(name@ =~= seq![SLASH]);
    let l = TreeLine { depth: 0, name, is_dir: true };
    let ghost pre = out@;
    let ghost gl = l;
    out.push(l);
    proof {
        lemma_lines_push(pre, gl);
    }
}

pub proof fn lemma_lines_push(v: Seq<TreeLine>, l: TreeLine)
    ensures
        lines_view(v.push(l)) == lines_view(v).push(line_view(l)),
{
    assert(lines_view(v.push(l)) =~= lines_view(v).push(line_view(l)));
}

/// Whether the entry stored at `off` is named `.` or `..`.
pub fn is_dot_entry(img: &[u8], off: usize) -> (r: bool)
    requires
        off + 64 <= img.len(),
    ensures
        r == (entry_name_at(img@, off as int) == dots(1) || entry_name_at(img@, off as int) == dots(
            2,
        )),
{
    let dot: &[u8] = &[46u8];
    let dotdot: &[u8] = &[46u8, 46u8];
    assert(dot@ =~= dots(1));
    assert(dotdot@ =~= dots(2));
    entry_name_eq(img, off, dot) || entry_name_eq(img, off, dotdot)
}

/// The name of the entry stored at `off`, as a view into the image.
pub fn entry_name_slice(img: &[u8], off: usize) -> (r: &[u8])
    requires
        off + 64 <= img.len(),
    ensures
        r@ == entry_name_at(img@, off as int),
        r@.len() <= 60,
{
    let ghost nm = img@.subrange(off + 4, off + 64);
    let mut len: usize = 0;
    while len < 60 && img[off + 4 + len] != 0
        invariant
            len <= 60,
            off + 64 <= img.len(),
            nm == img@.subrange(off + 4, off + 64),
            c_len_from(nm, 0) == c_len_from(nm, len as int),
        decreases 60 - len,
    {
        len = len + 1;
    }
    proof {
        lemma_c_len_bounds(nm, 0);
    }
    let r = vstd::slice::slice_subrange(img, off + 4, off + 4 + len);
    assert(r@ =~= nm.subrange(0, len as int));
    r
}

/// Copies the name of the entry stored at `off`.
pub fn entry_name_vec(img: &[u8], off: usize) -> (r: Vec<u8>)
    requires
        off + 64 <= img.len(),
    ensures
        r@ == entry_name_at(img@, off as int),
{
    let ghost nm = img@.subrange(off + 4, off + 64);
    let mut v: Vec<u8> = Vec::new();
    let mut len: usize = 0;
    while len < 60 && img[off + 4 + len] != 0
        invariant
            len <= 60,
            off + 64 <= img.len(),
            nm == img@.subrange(off + 4, off + 64),
            c_len_from(nm, 0) == c_len_from(nm, len as int),
            v@ == nm.subrange(0, len as int),
        decreases 60 - len,
    {
        v.push(img[off + 4 + len]);
        len = len + 1;
        assert(v@ =~= nm.subrange(0, len as int));
    }
    proof {
        lemma_c_len_bounds(nm, 0);
    }
    v
}

/// Lists the tree below inode `n`; see `spec_tree`.  The lines are
/// appended to `out`, also those produced before an error.
pub fn tree_in(img: &[u8], bs: usize, depth: u8, n: u32, out: &mut Vec<TreeLine>) -> (r: Result<
    (),
    Error,
>)
    ensures
        r == spec_tree(img@, bs, depth, n).0,
        lines_view(final(out)@) == lines_view(old(out)@) + spec_tree(img@, bs, depth, n).1,
    decreases 256 - depth, bs / 64 + 1,
{
    proof {
        reveal(spec_tree);
    }
    assert(lines_view(out@) =~= lines_view(out@) + Seq::<(u8, Seq<u8>, bool)>::empty());
    let off = find_inode(img, bs, n)?;
    let mode = read_u16(img, off);
    if mode & DIR_MODE == 0 {
        return Err(Error::TreeNotDirectory);
    }
    let zone = read_u32(img, off + 24);
    let zo = match (zone as usize).checked_mul(bs) {
        Some(z) => z,
        None => {
            return Err(Error::Aborted);
        },
    };
    if zo == 0 {
        return Err(Error::ZoneOffsetInvalid);
    }
    let count = bs / DIR_ENTRY_SIZE;
    assert(img@.len() == img.len());
    if zo > img.len() || (img.len() - zo) / 64 < count {
        assert(zo + (bs / 64) * 64 > img@.len());
        return Err(Error::Aborted);
    }
    let ghost out0 = lines_view(out@);
    let ghost mut emitted: Seq<(u8, Seq<u8>, bool)> = Seq::empty();
    let mut i: usize = 0;
    proof {
        reveal(spec_tree_entries);
        assert(spec_tree(img@, bs, depth, n) == spec_tree_entries(img@, bs, depth, zo as int, 0));
    }
    while i < count
        invariant
            i <= count,
            count == bs / 64,
            zo + count * 64 <= img@.len(),
            img@.len() == img.len(),
            lines_view(out@) == out0 + emitted,
            out0 == lines_view(old(out)@),
            spec_tree(img@, bs, depth, n).0 == spec_tree_entries(img@, bs, depth, zo as int, i as int).0,
            spec_tree(img@, bs, depth, n).1 == emitted + spec_tree_entries(img@, bs, depth, zo as int, i as int).1,
        decreases count - i,
    {
        proof {
            reveal(spec_tree_entries);
            reveal(spec_tree);
        }
        let eoff = zo + i * 64;
        let ino = read_u32(img, eoff);
        if ino == 0 || is_dot_entry(img, eoff) {
            i = i + 1;
            continue;
        }
        let name = entry_name_vec(img, eoff);
        let coff = match find_inode(img, bs, ino) {
            Ok(c) => c,
            Err(e) => {
                assert(emitted + Seq::<(u8, Seq<u8>, bool)>::empty() =~= emitted);
                return Err(e);
            },
        };
        let cmode = read_u16(img, coff);
        if cmode & DIR_MODE != 0 {
            let ghost line = (depth, name@, true);
            let ghost pre = out@;
            let tl = TreeLine { depth, name, is_dir: true };
            let ghost gtl = tl;
            out.push(tl);
            proof {
                lemma_lines_push(pre, gtl);
                assert(lines_view(out@) =~= out0 + emitted.push(line));
            }
            if depth == 255 {
                assert(emitted + seq![line] =~= emitted.push(line));
                return Err(Error::Aborted);
            }
            let ghost before = lines_view(out@);
            let ghost subv = spec_tree(img@, bs, (depth + 1) as u8, ino);
            let ghost restv = spec_tree_entries(img@, bs, depth, zo as int, i + 1);
            assert(spec_tree_entries(img@, bs, depth, zo as int, i as int) == (if subv.0 is Err {
                (subv.0, seq![line] + subv.1)
            } else {
                (restv.0, seq![line] + subv.1 + restv.1)
            }));
            let sub = tree_in(img, bs, depth + 1, ino, out);
            if sub.is_err() {
                assert(out0 + (emitted + (seq![line] + subv.1)) =~= (out0 + emitted.push(line)) + subv.1);
                return sub;
            }
            proof {
                assert(emitted + (seq![line] + subv.1 + restv.1) =~= (emitted.push(line) + subv.1)
                    + restv.1);
                assert(out0 + (emitted.push(line) + subv.1) =~= (out0 + emitted.push(line)) + subv.1);
                emitted = emitted.push(line) + subv.1;
            }
        } else {
            let ghost line = (depth, name@, false);
            let ghost pre = out@;
            let tl = TreeLine { depth, name, is_dir: false };
            let ghost gtl = tl;
            out.push(tl);
            proof {
                lemma_lines_push(pre, gtl);
                assert(lines_view(out@) =~= out0 + emitted.push(line));
                assert(emitted + (seq![line] + spec_tree_entries(img@, bs, depth, zo as int, i + 1).1)
                    =~= emitted.push(line) + spec_tree_entries(img@, bs, depth, zo as int, i + 1).1);
                emitted = emitted.push(line);
            }
        }
        i = i + 1;
    }
    proof {
        reveal(spec_tree_entries);
        assert(emitted + Seq::<(u8, Seq<u8>, bool)>::empty() =~= emitted);
    }
    Ok(())
}


// ---------------------------------------------------------------------------
// Formatting a new file system
// ---------------------------------------------------------------------------

/// The geometry `init_minixfs` derives for an image of `len` bytes and
/// `bs`-byte blocks: (inode count, inode-bitmap blocks, zone-bitmap blocks,
/// first data zone, block count); `None` where the computation would
/// divide by zero or overflow.  A block holds 16 inodes, one inode is
/// provided per 8 blocks, and bitmaps hold `8 * bs` bits per block.
pub open spec fn init_geometry(len: int, bs: usize) -> Option<(u32, u32, int, u32, int)> {
    if bs == 0 {
        None
    } else {
        let total = len / (bs as int);
        let ninodes = (total / 8) as u32;
        let bs32 = bs as u32;
        let ipb = bs32 / 64;
        if ninodes + ipb > u32::MAX || ipb == 0 {
            None
        } else {
            let itb = (ninodes + ipb - 1) / (ipb as int);
            if bs32 * 8 > u32::MAX {
                None
            } else {
                let bpb = bs32 * 8;
                if ninodes + bpb > u32::MAX || bpb == 0 {
                    None
                } else {
                    let imap = (ninodes + bpb - 1) / (bpb as int);
                    if total + bpb > usize::MAX {
                        None
                    } else {
                        let zmap = (total + bpb - 1) / (bpb as int);
                        let fdz = 2 + imap + ((zmap as u32) as int) + itb;
                        if fdz > u32::MAX {
                            None
                        } else {
                            Some((ninodes, imap as u32, zmap, fdz as u32, total))
                        }
                    }
                }
            }
        }
    }
}

/// The super block `init_minixfs` writes.
pub open spec fn init_super_block(bs: usize, g: (u32, u32, int, u32, int)) -> minix3_super_block {
    minix3_super_block {
        s_ninodes: g.0,
        s_pad0: 0,
        s_imap_blocks: g.1 as u16,
        s_zmap_blocks: g.2 as u16,
        s_firstdatazone: g.3 as u16,
        s_log_zone_size: 0,
        s_pad1: 0,
        s_max_size: 0,
        s_zones: g.4 as u32,
        s_magic: 0x4D5A,
        s_pad2: 0,
        s_blocksize: bs as u16,
        s_disk_version: 0,
    }
}

/// The encoding of the root inode: directory mode, size 128, first zone
/// `fdz`, every other field zero.
pub open spec fn root_inode_bytes(fdz: u32) -> Seq<u8> {
    u16_bytes(DIR_MODE) + zeros(6) + u32_bytes(128) + zeros(12) + u32_bytes(fdz) + zeros(36)
}

/// Sets bit `k` of the first zone-bitmap byte, locating the zone bitmap
/// through the super block currently in the image; `None` when that byte
/// lies outside the image.
#[verifier::opaque]
pub open spec fn init_mark_zone(s: Seq<u8>, bs: usize, k: int) -> Option<Seq<u8>> {
    let zb = (2 + image_super_block(s, bs).s_imap_blocks) * bs;
    if zb >= s.len() {
        None
    } else {
        Some(set_bit(s, zb, k))
    }
}

/// Whether the regions `init_minixfs` writes directly lie in an image of
/// `len` bytes and their offsets are computed without overflow.
pub open spec fn init_fits(len: int, bs: usize, g: (u32, u32, int, u32, int)) -> bool {
    let bs32 = (bs as u32) as int;
    let sum = 2 + g.1 + ((g.2 as u32) as int);
    &&& 1024 + SUPER_BLOCK_SIZE <= len
    &&& 2 * bs32 <= u32::MAX
    &&& sum <= u32::MAX
    &&& sum * bs32 <= u32::MAX
    &&& 2 * bs32 <= sum * bs32
    &&& sum * bs32 + 64 <= len
    &&& bs + SUPER_BLOCK_SIZE <= len
    &&& 2 * bs < len
}

/// The first steps of formatting: the super block at byte 1024, zeroed
/// bitmaps, the root inode, and bits 0 and 1 of the inode bitmap set.
#[verifier::opaque]
pub open spec fn init_base(mem: Seq<u8>, bs: usize, g: (u32, u32, int, u32, int)) -> Seq<u8> {
    let bs32 = (bs as u32) as int;
    let begin = 2 * bs32;
    let end = (2 + g.1 + ((g.2 as u32) as int)) * bs32;
    let s1 = write_bytes(mem, 1024, super_block_bytes(init_super_block(bs, g)));
    let s2 = write_bytes(s1, begin, zeros((end - begin) as nat));
    let s3 = write_bytes(s2, end, root_inode_bytes(g.3));
    set_bit(set_bit(s3, 2 * bs, 0), 2 * bs, 1)
}

/// Formatting an image: the super block is written at byte 1024; both
/// bitmaps are zeroed; the root inode (inode 1) is written at the start of
/// the inode table; bits 0 and 1 of both bitmaps are set; and the root
/// directory block (the first data zone) begins with `.` and `..`, both
/// referring to inode 1.  `None` where formatting cannot go on (a
/// division by zero, an overflow, or an access outside the image).
#[verifier::opaque]
pub open spec fn spec_init(mem: Seq<u8>, bs: usize) -> Option<Seq<u8>> {
    let len = mem.len() as int;
    match init_geometry(len, bs) {
        None => None,
        Some(g) => if !init_fits(len, bs, g) {
            None
        } else {
            match init_mark_zone(init_base(mem, bs, g), bs, 0) {
                None => None,
                Some(s5) => match init_mark_zone(s5, bs, 1) {
                    None => None,
                    Some(s6) => {
                        let d = g.3 * bs;
                        if d + 128 > len {
                            None
                        } else {
                            let s7 = write_bytes(s6, d, dir_entry_bytes(1, dots(1)));
                            Some(write_bytes(s7, d + 64, dir_entry_bytes(1, dots(2))))
                        }
                    },
                },
            }
        },
    }
}

/// Computes the geometry; see `init_geometry`.
fn geometry(len: usize, bs: usize) -> (r: Option<(u32, u32, usize, u32, usize)>)
    ensures
        match r {
            None => init_geometry(len as int, bs) is None,
            Some(g) => init_geometry(len as int, bs) == Some((g.0, g.1, g.2 as int, g.3, g.4 as int)),
        },
{
    if bs == 0 {
        return None;
    }
    let total = len / bs;
    let ninodes = #[verifier::truncate] ((total / 8) as u32);
    let bs32 = #[verifier::truncate] (bs as u32);
    let ipb = bs32 / 64;
    if ipb == 0 {
        return None;
    }
    let itb = match ninodes.checked_add(ipb) {
        Some(x) => (x - 1) / ipb,
        None => {
            return None;
        },
    };
    let bpb = match bs32.checked_mul(8) {
        Some(b) => b,
        None => {
            return None;
        },
    };
    let imap = match ninodes.checked_add(bpb) {
        Some(x) => (x - 1) / bpb,
        None => {
            return None;
        },
    };
    let zmap = match total.checked_add(bpb as usize) {
        Some(x) => (x - 1) / (bpb as usize),
        None => {
            return None;
        },
    };
    let zmap32 = #[verifier::truncate] (zmap as u32);
    let fdz = match 2u32.checked_add(imap) {
        Some(a) => match a.checked_add(zmap32) {
            Some(b) => match b.checked_add(itb) {
                Some(c) => c,
                None => {
                    return None;
                },
            },
            None => {
                return None;
            },
        },
        None => {
            return None;
        },
    };
    Some((ninodes, imap, zmap, fdz, total))
}

/// Writes the first formatting steps; see `init_base`.
fn init_base_in(mem: &mut [u8], bs: usize, g: (u32, u32, usize, u32, usize))
    requires
        init_geometry(old(mem)@.len() as int, bs) == Some((g.0, g.1, g.2 as int, g.3, g.4 as int)),
        init_fits(old(mem)@.len() as int, bs, (g.0, g.1, g.2 as int, g.3, g.4 as int)),
    ensures
        final(mem)@ == init_base(old(mem)@, bs, (g.0, g.1, g.2 as int, g.3, g.4 as int)),
        final(mem)@.len() == old(mem)@.len(),
{
    proof {
        reveal(init_base);
    }
    let ghost gi = (g.0, g.1, g.2 as int, g.3, g.4 as int);
    let (ninodes, imap, zmap, fdz, total) = g;
    let bs32 = #[verifier::truncate] (bs as u32);
    let zmap32 = #[verifier::truncate] (zmap as u32);
    let begin = 2u32 * bs32;
    let end = (2u32 + imap + zmap32) * bs32;
    let mut sb = minix3_super_block::new(bs);
    sb.s_ninodes = ninodes;
    sb.s_imap_blocks = #[verifier::truncate] (imap as u16);
    sb.s_zmap_blocks = #[verifier::truncate] (zmap as u16);
    sb.s_firstdatazone = #[verifier::truncate] (fdz as u16);
    sb.s_zones = #[verifier::truncate] (total as u32);
    assert(sb == init_super_block(bs, gi));
    let sbytes = sb.as_bytes();
    assert(mem@.len() == mem.len());
    write_slice(mem, 1024, sbytes.as_slice());
    fill_zero(mem, begin as usize, (end - begin) as usize);
    let e = end as usize;
    let ghost s2 = mem@;
    write_u16(mem, e, DIR_MODE);
    fill_zero(mem, e + 2, 6);
    write_u32(mem, e + 8, 128);
    fill_zero(mem, e + 12, 12);
    write_u32(mem, e + 24, fdz);
    fill_zero(mem, e + 28, 36);
    assert(mem@ =~= write_bytes(s2, e as int, root_inode_bytes(fdz)));
    change_i_bitmap(mem, bs, 0, 1);
    change_i_bitmap(mem, bs, 1, 1);
}

/// Sets bit `k` of the first zone-bitmap byte; see `init_mark_zone`.
fn init_mark_zone_in(mem: &mut [u8], bs: usize, k: usize) -> (ok: bool)
    requires
        k < 8,
        bs + SUPER_BLOCK_SIZE <= old(mem)@.len(),
    ensures
        ok == (init_mark_zone(old(mem)@, bs, k as int) is Some),
        ok ==> final(mem)@ == init_mark_zone(old(mem)@, bs, k as int)->Some_0,
        final(mem)@.len() == old(mem)@.len(),
{
    proof {
        reveal(init_mark_zone);
    }
    let zs = read_super_block(mem, bs).zmap_start_block();
    assert(mem@.len() == mem.len());
    let zb = match zs.checked_mul(bs) {
        Some(z) => z,
        None => {
            return false;
        },
    };
    if zb >= mem.len() {
        return false;
    }
    change_z_bitmap(mem, bs, k, 1);
    true
}

/// Formats an image; see `spec_init`.  Gives `false`, with the image
/// partly written, where formatting cannot go on.
#[verifier::rlimit(40)]
pub fn init_in(mem: &mut [u8], bs: usize) -> (ok: bool)
    ensures
        ok == (spec_init(old(mem)@, bs) is Some),
        ok ==> final(mem)@ == spec_init(old(mem)@, bs)->Some_0,
{
    proof {
        reveal(spec_init);
    }
    let len = mem.len();
    let g = match geometry(len, bs) {
        Some(g) => g,
        None => {
            return false;
        },
    };
    let ghost gi = (g.0, g.1, g.2 as int, g.3, g.4 as int);
    let (ninodes, imap, zmap, fdz, total) = g;
    let bs32 = #[verifier::truncate] (bs as u32);
    let zmap32 = #[verifier::truncate] (zmap as u32);
    let begin = match 2u32.checked_mul(bs32) {
        Some(b) => b,
        None => {
            return false;
        },
    };
    let sum = match (2u32 + imap).checked_add(zmap32) {
        Some(x) => x,
        None => {
            return false;
        },
    };
    let end = match sum.checked_mul(bs32) {
        Some(e) => e,
        None => {
            return false;
        },
    };
    if len < 1024 + SUPER_BLOCK_SIZE || begin > end || end as usize > len || len - (end as usize)
        < 64 || bs > len || len - bs < SUPER_BLOCK_SIZE {
        return false;
    }
    let two_bs = match bs.checked_mul(2) {
        Some(t) => t,
        None => {
            return false;
        },
    };
    if two_bs >= len {
        return false;
    }
    assert(init_fits(len as int, bs, gi));
    init_base_in(mem, bs, g);
    if !init_mark_zone_in(mem, bs, 0) {
        return false;
    }
    if !init_mark_zone_in(mem, bs, 1) {
        return false;
    }
    let d = match (fdz as usize).checked_mul(bs) {
        Some(d) => d,
        None => {
            return false;
        },
    };
    if d > len || len - d < 128 {
        return false;
    }
    let dot: &[u8] = &[46u8];
    let dotdot: &[u8] = &[46u8, 46u8];
    assert(dot@ =~= dots(1));
    assert(dotdot@ =~= dots(2));
    write_dir_entry(mem, d, 1, dot);
    write_dir_entry(mem, d + 64, 1, dotdot);
    true
}


// ---------------------------------------------------------------------------
// The operations, as methods of an inode
// ---------------------------------------------------------------------------

impl minix3_inode {
    /// Offset of the record of inode `inode_num` in the image (see
    /// `spec_get_inode`).  Inode numbers start at 1.
    pub fn get_inode(&self, inode_num: u32, block_size: usize, minix_img: &mut [u8]) -> (r: Result<
        usize,
        Error,
    >)
        requires
            spec_get_inode(old(minix_img)@, block_size, inode_num) != Err::<usize, Error>(
                Error::Aborted,
            ),
        ensures
            r == spec_get_inode(old(minix_img)@, block_size, inode_num),
            final(minix_img)@ == old(minix_img)@,
    {
        find_inode(minix_img, block_size, inode_num)
    }

    /// Looks `name` up among the entries of this directory's first zone
    /// and gives the inode number of the first entry so named.
    pub fn lookup(&self, name: &[u8], minix_img: &[u8], block_size: usize) -> (r: Result<u32, Error>)
        requires
            spec_lookup(self.i_mode, self.i_zone[0], name@, minix_img@, block_size) != Err::<
                u32,
                Error,
            >(Error::Aborted),
        ensures
            r == spec_lookup(self.i_mode, self.i_zone[0], name@, minix_img@, block_size),
    {
        lookup_in(self.i_mode, self.i_zone[0], name, minix_img, block_size)
    }

    /// Resolves `path` from the root directory (inode 1) and gives the
    /// inode number it names.
    pub fn lookup_iter(&self, path: &[u8], minix_img: &mut [u8], block_size: usize) -> (r: Result<
        u32,
        Error,
    >)
        requires
            spec_lookup_iter(old(minix_img)@, block_size, path@) != Err::<u32, Error>(
                Error::Aborted,
            ),
        ensures
            r == spec_lookup_iter(old(minix_img)@, block_size, path@),
            final(minix_img)@ == old(minix_img)@,
    {
        resolve_path(minix_img, block_size, path)
    }

    /// Allocates a fresh inode of mode `mode` (see `spec_alloc_inode`).
    pub fn alloc_inode(&self, minix_img: &mut [u8], block_size: usize, mode: u16) -> (r: Result<
        u32,
        Error,
    >)
        requires
            spec_alloc_inode(old(minix_img)@, block_size, mode).0 != Err::<u32, Error>(
                Error::Aborted,
            ),
        ensures
            (r, final(minix_img)@) == spec_alloc_inode(old(minix_img)@, block_size, mode),
    {
        alloc_inode_in(minix_img, block_size, mode)
    }

    /// Links inode `new_inode_num` into directory `parent_inode_num` under
    /// `file_name` (see `spec_link`).
    pub fn link_inode(
        &self,
        minix_img: &mut [u8],
        parent_inode_num: u32,
        new_inode_num: u32,
        block_size: usize,
        file_name: &[u8],
    ) -> (r: Result<(), Error>)
        requires
            spec_link(old(minix_img)@, block_size, parent_inode_num, new_inode_num, file_name@).0
                != Err::<(), Error>(Error::Aborted),
        ensures
            (r, final(minix_img)@) == spec_link(
                old(minix_img)@,
                block_size,
                parent_inode_num,
                new_inode_num,
                file_name@,
            ),
    {
        link_in(minix_img, block_size, parent_inode_num, new_inode_num, file_name)
    }

    /// Creates an empty file at `path` (see `spec_create_file`) and gives
    /// its inode number.
    pub fn create_file(&self, minix_img: &mut [u8], block_size: usize, path: &[u8]) -> (r: Result<
        u32,
        Error,
    >)
        requires
            spec_create_file(old(minix_img)@, block_size, path@).0 != Err::<u32, Error>(
                Error::Aborted,
            ),
        ensures
            (r, final(minix_img)@) == spec_create_file(old(minix_img)@, block_size, path@),
    {
        create_file_in(minix_img, block_size, path)
    }

    /// Allocates the first zone of inode `inode_num` (see
    /// `spec_alloc_zone`) and gives its number.
    pub fn alloc_zone(&self, minix_img: &mut [u8], inode_num: u32, block_size: usize) -> (r: Result<
        u32,
        Error,
    >)
        requires
            spec_alloc_zone(old(minix_img)@, block_size, inode_num).0 != Err::<u32, Error>(
                Error::Aborted,
            ),
        ensures
            (r, final(minix_img)@) == spec_alloc_zone(old(minix_img)@, block_size, inode_num),
    {
        alloc_zone_in(minix_img, block_size, inode_num)
    }

    /// Writes `data` to the file at `file_path` (see `spec_write`).
    pub fn write(&self, minix_img: &mut [u8], file_path: &[u8], block_size: usize, data: &[u8]) -> (r:
        Result<(), Error>)
        requires
            spec_write(old(minix_img)@, block_size, file_path@, data@).0 != Err::<(), Error>(
                Error::Aborted,
            ),
        ensures
            (r, final(minix_img)@) == spec_write(old(minix_img)@, block_size, file_path@, data@),
    {
        write_in(minix_img, block_size, file_path, data)
    }

    /// Makes a directory at `path` (see `spec_mkdir`) and gives its inode
    /// number.
    pub fn mkdir(&self, minix_img: &mut [u8], path: &[u8], block_size: usize) -> (r: Result<
        u32,
        Error,
    >)
        requires
            spec_mkdir(old(minix_img)@, block_size, path@).0 != Err::<u32, Error>(Error::Aborted),
        ensures
            (r, final(minix_img)@) == spec_mkdir(old(minix_img)@, block_size, path@),
    {
        mkdir_in(minix_img, block_size, path)
    }

    /// The content of the file at `file_path` (see `spec_read`), as a view
    /// into the image.
    pub fn read<'a>(&self, minix_img: &'a mut [u8], file_path: &[u8], block_size: usize) -> (r:
        Result<&'a [u8], Error>)
        requires
            spec_read(old(minix_img)@, block_size, file_path@) != Err::<Seq<u8>, Error>(
                Error::Aborted,
            ),
        ensures
            final(minix_img)@ == old(minix_img)@,
            match r {
                Ok(d) => spec_read(old(minix_img)@, block_size, file_path@) == Ok::<Seq<u8>, Error>(
                    d@,
                ),
                Err(e) => spec_read(old(minix_img)@, block_size, file_path@) == Err::<Seq<u8>, Error>(
                    e,
                ),
            },
    {
        let img: &'a [u8] = minix_img;
        read_in(img, block_size, file_path)
    }

    /// Lists the tree below directory `inode_num` at `depth` (see
    /// `spec_tree`), appending its lines to `out`.
    pub fn print_tree(
        &self,
        minix_img: &mut [u8],
        block_size: usize,
        depth: u8,
        inode_num: u32,
        out: &mut Vec<TreeLine>,
    ) -> (r: Result<(), Error>)
        requires
            spec_tree(old(minix_img)@, block_size, depth, inode_num).0 != Err::<(), Error>(
                Error::Aborted,
            ),
        ensures
            final(minix_img)@ == old(minix_img)@,
            r == spec_tree(old(minix_img)@, block_size, depth, inode_num).0,
            lines_view(final(out)@) == lines_view(old(out)@) + spec_tree(
                old(minix_img)@,
                block_size,
                depth,
                inode_num,
            ).1,
    {
        tree_in(minix_img, block_size, depth, inode_num, out)
    }

    /// Lists the whole tree: the line for the root directory, then the
    /// tree below it with the root's entries at depth 1; the lines are
    /// appended to `out`.
    pub fn show_directory_tree(&self, minix_img: &mut [u8], block_size: usize, out: &mut Vec<
        TreeLine,
    >) -> (r: Result<(), Error>)
        requires
            spec_tree(old(minix_img)@, block_size, 1, 1).0 != Err::<(), Error>(Error::Aborted),
        ensures
            final(minix_img)@ == old(minix_img)@,
            r == spec_tree(old(minix_img)@, block_size, 1, 1).0,
            lines_view(final(out)@) == lines_view(old(out)@).push(root_line()) + spec_tree(
                old(minix_img)@,
                block_size,
                1,
                1,
            ).1,
    {
        push_root_line(out);
        self.print_tree(minix_img, block_size, 1, 1, out)
    }

    /// Deletes the file or empty directory at `file_path` (see
    /// `spec_delete`).
    pub fn delete_dir_entry(&self, minix_img: &mut [u8], file_path: &[u8], block_size: usize) -> (r:
        Result<(), Error>)
        requires
            spec_delete(old(minix_img)@, block_size, file_path@).0 != Err::<(), Error>(
                Error::Aborted,
            ),
        ensures
            (r, final(minix_img)@) == spec_delete(old(minix_img)@, block_size, file_path@),
    {
        delete_in(minix_img, block_size, file_path)
    }
}

/// Formats `mem` as an empty file system with `block_size`-byte blocks
/// (see `spec_init`).
pub fn init_minixfs(mem: &mut [u8], block_size: usize)
    requires
        spec_init(old(mem)@, block_size) is Some,
    ensures
        final(mem)@ == spec_init(old(mem)@, block_size)->Some_0,
{
    init_in(mem, block_size);
}


// ---------------------------------------------------------------------------
// Encoding laws
// ---------------------------------------------------------------------------

/// The super block read back from its encoding is the super block that
/// was encoded.
pub proof fn lemma_super_block_roundtrip(sb: minix3_super_block)
    ensures
        super_block_bytes(sb).len() == SUPER_BLOCK_SIZE,
        super_block_at(super_block_bytes(sb), 0) == sb,
{
    let b = super_block_bytes(sb);
    assert(b.len() == 31);
    assert(b.subrange(0, 4) =~= u32_bytes(sb.s_ninodes));
    assert(b.subrange(4, 6) =~= u16_bytes(sb.s_pad0));
    assert(b.subrange(6, 8) =~= u16_bytes(sb.s_imap_blocks));
    assert(b.subrange(8, 10) =~= u16_bytes(sb.s_zmap_blocks));
    assert(b.subrange(10, 12) =~= u16_bytes(sb.s_firstdatazone));
    assert(b.subrange(12, 14) =~= u16_bytes(sb.s_log_zone_size));
    assert(b.subrange(14, 16) =~= u16_bytes(sb.s_pad1));
    assert(b.subrange(16, 20) =~= u32_bytes(sb.s_max_size));
    assert(b.subrange(20, 24) =~= u32_bytes(sb.s_zones));
    assert(b.subrange(24, 26) =~= u16_bytes(sb.s_magic));
    assert(b.subrange(26, 28) =~= u16_bytes(sb.s_pad2));
    assert(b.subrange(28, 30) =~= u16_bytes(sb.s_blocksize));
    lemma_u32_at(b, 0, sb.s_ninodes);
    lemma_u16_at(b, 4, sb.s_pad0);
    lemma_u16_at(b, 6, sb.s_imap_blocks);
    lemma_u16_at(b, 8, sb.s_zmap_blocks);
    lemma_u16_at(b, 10, sb.s_firstdatazone);
    lemma_u16_at(b, 12, sb.s_log_zone_size);
    lemma_u16_at(b, 14, sb.s_pad1);
    lemma_u32_at(b, 16, sb.s_max_size);
    lemma_u32_at(b, 20, sb.s_zones);
    lemma_u16_at(b, 24, sb.s_magic);
    lemma_u16_at(b, 26, sb.s_pad2);
    lemma_u16_at(b, 28, sb.s_blocksize);
}

/// A 32-bit value whose encoding stands at `off` is read back there.
pub proof fn lemma_u32_at(b: Seq<u8>, off: int, v: u32)
    requires
        0 <= off,
        off + 4 <= b.len(),
        b.subrange(off, off + 4) == u32_bytes(v),
    ensures
        u32_le(b, off) == v,
{
    crate::layout::lemma_u32_roundtrip(v);
    assert(b[off] == b.subrange(off, off + 4)[0]);
    assert(b[off + 1] == b.subrange(off, off + 4)[1]);
    assert(b[off + 2] == b.subrange(off, off + 4)[2]);
    assert(b[off + 3] == b.subrange(off, off + 4)[3]);
}

/// A 16-bit value whose encoding stands at `off` is read back there.
pub proof fn lemma_u16_at(b: Seq<u8>, off: int, v: u16)
    requires
        0 <= off,
        off + 2 <= b.len(),
        b.subrange(off, off + 2) == u16_bytes(v),
    ensures
        u16_le(b, off) == v,
{
    crate::layout::lemma_u16_roundtrip(v);
    assert(b[off] == b.subrange(off, off + 2)[0]);
    assert(b[off + 1] == b.subrange(off, off + 2)[1]);
}

/// The super block stored at `off` depends only on the 31 bytes there.
pub proof fn lemma_super_block_at_subrange(s: Seq<u8>, off: int)
    requires
        0 <= off,
        off + 31 <= s.len(),
    ensures
        super_block_at(s, off) == super_block_at(s.subrange(off, off + 31), 0),
{
}

/// The inode read back from its encoding is the inode that was encoded.
pub proof fn lemma_inode_roundtrip(ino: minix3_inode)
    ensures
        inode_bytes(ino).len() == INODE_SIZE,
        inode_stored_at(ino, inode_bytes(ino), 0),
{
    let b = inode_bytes(ino);
    lemma_zones_bytes_len(ino.i_zone@);
    assert(b.subrange(0, 2) =~= u16_bytes(ino.i_mode));
    assert(b.subrange(2, 4) =~= u16_bytes(ino.i_nlinks));
    assert(b.subrange(4, 6) =~= u16_bytes(ino.i_uid));
    assert(b.subrange(6, 8) =~= u16_bytes(ino.i_gid));
    assert(b.subrange(8, 12) =~= u32_bytes(ino.i_size));
    assert(b.subrange(12, 16) =~= u32_bytes(ino.i_atime));
    assert(b.subrange(16, 20) =~= u32_bytes(ino.i_mtime));
    assert(b.subrange(20, 24) =~= u32_bytes(ino.i_ctime));
    lemma_u16_at(b, 0, ino.i_mode);
    lemma_u16_at(b, 2, ino.i_nlinks);
    lemma_u16_at(b, 4, ino.i_uid);
    lemma_u16_at(b, 6, ino.i_gid);
    lemma_u32_at(b, 8, ino.i_size);
    lemma_u32_at(b, 12, ino.i_atime);
    lemma_u32_at(b, 16, ino.i_mtime);
    lemma_u32_at(b, 20, ino.i_ctime);
    assert(b.subrange(24, 64) =~= zones_bytes(ino.i_zone@));
    assert forall|k: int| 0 <= k < 10 implies #[trigger] ino.i_zone@[k] == u32_le(b, 24 + 4 * k) by {
        lemma_zones_bytes_index(ino.i_zone@, k);
        assert(b.subrange(24 + 4 * k, 24 + 4 * k + 4) =~= zones_bytes(ino.i_zone@).subrange(
            4 * k,
            4 * k + 4,
        ));
        lemma_u32_at(b, 24 + 4 * k, ino.i_zone@[k]);
    }
}

proof fn lemma_zones_bytes_index(z: Seq<u32>, k: int)
    requires
        0 <= k < z.len(),
    ensures
        zones_bytes(z).subrange(4 * k, 4 * k + 4) == u32_bytes(z[k]),
    decreases z.len(),
{
    lemma_zones_bytes_len(z);
    lemma_zones_bytes_len(z.drop_first());
    if k == 0 {
        assert(zones_bytes(z).subrange(0, 4) =~= u32_bytes(z[0]));
    } else {
        lemma_zones_bytes_index(z.drop_first(), k - 1);
        assert(zones_bytes(z).subrange(4 * k, 4 * k + 4) =~= zones_bytes(z.drop_first()).subrange(
            4 * (k - 1),
            4 * (k - 1) + 4,
        ));
    }
}

/// A directory entry read back from its encoding refers to the encoded
/// inode, and carries the encoded name when that name has at most 60
/// bytes and no zero byte.
pub proof fn lemma_dir_entry_roundtrip(inode: u32, name: Seq<u8>)
    requires
        name.len() <= 60,
        forall|i: int| 0 <= i < name.len() ==> name[i] != 0,
    ensures
        dir_entry_bytes(inode, name).len() == DIR_ENTRY_SIZE,
        entry_inode_at(dir_entry_bytes(inode, name), 0) == inode,
        entry_name_at(dir_entry_bytes(inode, name), 0) == name,
{
    let b = dir_entry_bytes(inode, name);
    assert(b.subrange(0, 4) =~= u32_bytes(inode));
    lemma_u32_at(b, 0, inode);
    let nm = b.subrange(4, 64);
    assert(nm =~= padded_name(name));
    lemma_c_len_bounds(nm, 0);
    lemma_c_len_at(nm, name.len() as int);
    assert(nm.subrange(0, name.len() as int) =~= name);
}

proof fn lemma_c_len_at(s: Seq<u8>, n: int)
    requires
        0 <= n <= s.len(),
        forall|i: int| 0 <= i < n ==> s[i] != 0,
        n < s.len() ==> s[n] == 0,
    ensures
        c_len_from(s, 0) == n,
{
    lemma_c_len_from_at(s, 0, n);
}

proof fn lemma_c_len_from_at(s: Seq<u8>, k: int, n: int)
    requires
        0 <= k <= n <= s.len(),
        forall|i: int| k <= i < n ==> s[i] != 0,
        n < s.len() ==> s[n] == 0,
    ensures
        c_len_from(s, k) == n,
    decreases n - k,
{
    if k < n {
        lemma_c_len_from_at(s, k + 1, n);
    }
}

} // verus!
