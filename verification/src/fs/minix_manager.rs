//! The file system the kernel keeps: one formatted in-memory image.
use vstd::prelude::*;
use crate::error::Error;
use crate::fs::minix::{
    create_file_in, delete_in, dots, entry_inode_at, entry_name_at, find_inode, image_super_block,
    init_base, init_fits, init_geometry, init_in, init_mark_zone, init_super_block, is_dir_mode,
    lemma_super_block_roundtrip, lines_view, mkdir_in, mode_at, push_root_line, read_in,
    resolve_path, root_line, spec_create_file, spec_delete, spec_get_inode, spec_init,
    spec_lookup_iter, spec_mkdir, spec_read, spec_tree, spec_write, super_block_bytes, tree_in,
    write_in, TreeLine, DIR_MODE, bit_mask, dir_entry_bytes, root_inode_bytes,
};
use crate::layout::{read_u16, read_u32, write_bytes, zeros};

verus! {

/// Size of the image the kernel formats.
pub const IMAGE_SIZE: usize = 32768;

/// Block size of the image the kernel formats.
pub const BLOCK_SIZE: usize = 1024;

/// Formatting an all-zero image of `IMAGE_SIZE` bytes with `BLOCK_SIZE`-byte
/// blocks succeeds.
pub proof fn lemma_fresh_image_formats()
    ensures
        spec_init(zeros(IMAGE_SIZE as nat), BLOCK_SIZE) is Some,
{
    reveal(spec_init);
    reveal(init_base);
    reveal(init_mark_zone);
    let mem = zeros(IMAGE_SIZE as nat);
    let g = (4u32, 1u32, 1int, 5u32, 32int);
    assert(init_geometry(32768, 1024) == Some(g));
    assert(init_fits(32768, 1024, g));
    let sb = init_super_block(1024, g);
    lemma_super_block_roundtrip(sb);
    let s1 = write_bytes(mem, 1024, super_block_bytes(sb));
    assert(s1.subrange(1024, 1055) =~= super_block_bytes(sb));
    let s4 = init_base(mem, 1024, g);
    assert(s4.subrange(1024, 1055) =~= s1.subrange(1024, 1055));
    crate::fs::minix::lemma_super_block_at_subrange(s4, 1024);
    assert(image_super_block(s4, 1024).s_imap_blocks == 1);
    let s5 = init_mark_zone(s4, 1024, 0)->Some_0;
    assert(s5.subrange(1024, 1055) =~= s4.subrange(1024, 1055));
    crate::fs::minix::lemma_super_block_at_subrange(s5, 1024);
    assert(image_super_block(s5, 1024).s_imap_blocks == 1);
}


/// The freshly formatted image in concrete terms: four inodes, one block
/// each of inode and zone bitmap, the first data zone 5 of 32 zones; the
/// first bytes of both bitmaps are 3 (bits 0 and 1 set); the root inode
/// (at the start of the inode table, block 4) is a directory of size 128
/// whose first zone is 5; and block 5 begins with `.` and `..` naming the
/// root.
pub proof fn lemma_fresh_image_contents()
    ensures
        ({
            let img = spec_init(zeros(IMAGE_SIZE as nat), BLOCK_SIZE)->Some_0;
            let sb = image_super_block(img, BLOCK_SIZE);
            &&& img.len() == IMAGE_SIZE
            &&& sb == init_super_block(BLOCK_SIZE, (4u32, 1u32, 1int, 5u32, 32int))
            &&& sb.s_ninodes == 4 && sb.s_imap_blocks == 1 && sb.s_zmap_blocks == 1
            &&& sb.s_firstdatazone == 5 && sb.s_zones == 32 && sb.s_magic == 0x4D5A
            &&& img[2048] == 3 && img[3072] == 3
            &&& img.subrange(4096, 4160) == root_inode_bytes(5)
            &&& img.subrange(5120, 5248) == dir_entry_bytes(1, dots(1)) + dir_entry_bytes(1, dots(2))
        }),
{
    lemma_fresh_image_formats();
    reveal(spec_init);
    reveal(init_base);
    reveal(init_mark_zone);
    let mem = zeros(IMAGE_SIZE as nat);
    let g = (4u32, 1u32, 1int, 5u32, 32int);
    assert(init_geometry(32768, 1024) == Some(g));
    let sb = init_super_block(1024, g);
    lemma_super_block_roundtrip(sb);
    let s1 = write_bytes(mem, 1024, super_block_bytes(sb));
    let s4 = init_base(mem, 1024, g);
    let s5 = init_mark_zone(s4, 1024, 0)->Some_0;
    let s6 = init_mark_zone(s5, 1024, 1)->Some_0;
    let img = spec_init(mem, 1024)->Some_0;
    assert(s4.subrange(1024, 1055) =~= s1.subrange(1024, 1055));
    crate::fs::minix::lemma_super_block_at_subrange(s4, 1024);
    crate::fs::minix::lemma_super_block_at_subrange(s5, 1024);
    assert(s5.subrange(1024, 1055) =~= s4.subrange(1024, 1055));
    assert(img.subrange(1024, 1055) =~= s1.subrange(1024, 1055));
    assert(s1.subrange(1024, 1055) =~= super_block_bytes(sb));
    crate::fs::minix::lemma_super_block_at_subrange(img, 1024);
    assert(image_super_block(img, 1024) == sb);
    assert(img[2048] == (0u8 | bit_mask(0)) | bit_mask(1));
    assert(img[3072] == (0u8 | bit_mask(0)) | bit_mask(1));
    assert(((0u8 | (1u8 << 0u8)) | (1u8 << 1u8)) == 3u8) by (bit_vector);
    assert(img.subrange(4096, 4160) =~= root_inode_bytes(5));
    assert(img.subrange(5120, 5248) =~= dir_entry_bytes(1, dots(1)) + dir_entry_bytes(1, dots(2)));
}

/// Formatting an image of `N` bytes (a multiple of 1024 from 8 KiB to
/// 64 MiB) with 1024-byte blocks succeeds, and with `B = N / 1024` blocks
/// and `ni = B / 8` inodes the super block holds `ni` inodes, one inode
/// bitmap block per 8192 inodes and one zone bitmap block per 8192 blocks
/// (rounded up), the first data zone `f = 2 + imap + zmap + ceil(ni / 16)`
/// and `B` zones; the first bytes of both bitmaps are 3; the root inode is
/// a directory of size 128 with first zone `f`; and block `f` begins with
/// `.` and `..` naming the root.
#[verifier::rlimit(100)]
pub proof fn lemma_init_contents(mem: Seq<u8>)
    requires
        mem.len() % 1024 == 0,
        8192 <= mem.len() <= 67108864,
    ensures
        ({
            let b = (mem.len() / 1024) as int;
            let ni = b / 8;
            let imap = (ni + 8191) / 8192;
            let zmap = (b + 8191) / 8192;
            let f = 2 + imap + zmap + (ni + 15) / 16;
            spec_init(mem, 1024) matches Some(img) && {
                let sb = image_super_block(img, 1024);
                &&& img.len() == mem.len()
                &&& sb == init_super_block(1024, (ni as u32, imap as u32, zmap, f as u32, b))
                &&& sb.s_ninodes == ni && sb.s_imap_blocks == imap && sb.s_zmap_blocks == zmap
                &&& sb.s_firstdatazone == f && sb.s_zones == b && sb.s_magic == 0x4D5A
                &&& sb.s_blocksize == 1024
                &&& img[2048] == 3
                &&& img[(2 + imap) * 1024] == 3
                &&& img.subrange((2 + imap + zmap) * 1024, (2 + imap + zmap) * 1024 + 64)
                    == root_inode_bytes(f as u32)
                &&& img.subrange(f * 1024, f * 1024 + 128) == dir_entry_bytes(1, dots(1))
                    + dir_entry_bytes(1, dots(2))
            }
        }),
{
    reveal(spec_init);
    reveal(init_base);
    reveal(init_mark_zone);
    let len = mem.len() as int;
    let b = len / 1024;
    let ni = b / 8;
    let imap = (ni + 8191) / 8192;
    let zmap = (b + 8191) / 8192;
    let itb = (ni + 15) / 16;
    let f = 2 + imap + zmap + itb;
    assert(8 <= b <= 65536);
    assert(1 <= ni <= 8192);
    assert(imap == 1);
    assert(1 <= zmap <= 8);
    assert(1 <= itb <= 512);
    assert(b * 1024 == len);
    let g = (ni as u32, imap as u32, zmap, f as u32, b);
    assert(init_geometry(len, 1024) == Some(g));
    assert(init_fits(len, 1024, g));
    let sb = init_super_block(1024, g);
    lemma_super_block_roundtrip(sb);
    let s1 = write_bytes(mem, 1024, super_block_bytes(sb));
    let s4 = init_base(mem, 1024, g);
    assert(s4.subrange(1024, 1055) =~= s1.subrange(1024, 1055));
    crate::fs::minix::lemma_super_block_at_subrange(s4, 1024);
    assert(s1.subrange(1024, 1055) =~= super_block_bytes(sb));
    assert(image_super_block(s4, 1024) == sb);
    let s5 = init_mark_zone(s4, 1024, 0)->Some_0;
    assert(s5.subrange(1024, 1055) =~= s4.subrange(1024, 1055));
    crate::fs::minix::lemma_super_block_at_subrange(s5, 1024);
    assert(image_super_block(s5, 1024) == sb);
    let s6 = init_mark_zone(s5, 1024, 1)->Some_0;
    assert(f * 1024 + 128 <= len);
    let img = spec_init(mem, 1024)->Some_0;
    assert(img.subrange(1024, 1055) =~= s1.subrange(1024, 1055));
    crate::fs::minix::lemma_super_block_at_subrange(img, 1024);
    assert(image_super_block(img, 1024) == sb);
    assert(img[2048] == (0u8 | bit_mask(0)) | bit_mask(1));
    assert(img[3072] == (0u8 | bit_mask(0)) | bit_mask(1));
    assert(((0u8 | (1u8 << 0u8)) | (1u8 << 1u8)) == 3u8) by (bit_vector);
    assert(img.subrange((2 + imap + zmap) * 1024, (2 + imap + zmap) * 1024 + 64) =~= root_inode_bytes(
        f as u32,
    ));
    assert(img.subrange(f * 1024, f * 1024 + 128) =~= dir_entry_bytes(1, dots(1)) + dir_entry_bytes(
        1,
        dots(2),
    ));
}

/// The names listed from the directory content `data`, from entry `k` on,
/// when `written` bytes are already in a buffer of `buflen` bytes: every
/// entry that refers to an inode and is not `.` or `..` contributes its
/// name and a newline; a name that no longer fits is an error.  Gives the
/// number of bytes written (or the error) and the bytes appended.
pub open spec fn listing_from(data: Seq<u8>, k: int, written: int, buflen: int) -> (
    Result<usize, Error>,
    Seq<u8>,
)
    decreases data.len() / 64 - k,
{
    if k >= data.len() / 64 || k < 0 {
        (Ok(written as usize), Seq::empty())
    } else {
        let off = 64 * k;
        let name = entry_name_at(data, off);
        if entry_inode_at(data, off) == 0 || name == dots(1) || name == dots(2) {
            listing_from(data, k + 1, written, buflen)
        } else if written + name.len() + 1 > buflen {
            (Err(Error::BufferTooSmall), Seq::empty())
        } else {
            let rest = listing_from(data, k + 1, written + name.len() + 1, buflen);
            (rest.0, name.push(10u8) + rest.1)
        }
    }
}

/// The number of bytes the listing of the directory content `data` takes
/// from entry `k` on: each listed name and its newline.
pub open spec fn listing_len(data: Seq<u8>, k: int) -> int
    decreases data.len() / 64 - k,
{
    if k >= data.len() / 64 || k < 0 {
        0
    } else {
        let off = 64 * k;
        let name = entry_name_at(data, off);
        if entry_inode_at(data, off) == 0 || name == dots(1) || name == dots(2) {
            listing_len(data, k + 1)
        } else {
            name.len() + 1 + listing_len(data, k + 1)
        }
    }
}

/// The listing of the directory content `data` from entry `k` on: each
/// entry in use that is not `.` or `..` gives its name and a newline.
pub open spec fn listing_text(data: Seq<u8>, k: int) -> Seq<u8>
    decreases data.len() / 64 - k,
{
    if k >= data.len() / 64 || k < 0 {
        Seq::empty()
    } else {
        let off = 64 * k;
        let name = entry_name_at(data, off);
        if entry_inode_at(data, off) == 0 || name == dots(1) || name == dots(2) {
            listing_text(data, k + 1)
        } else {
            name.push(10u8) + listing_text(data, k + 1)
        }
    }
}

/// The listing's length is `listing_len`.
pub proof fn lemma_listing_len(data: Seq<u8>, k: int)
    requires
        0 <= k,
    ensures
        listing_text(data, k).len() == listing_len(data, k),
        listing_len(data, k) >= 0,
    decreases data.len() / 64 - k,
{
    if k < data.len() / 64 {
        lemma_listing_len(data, k + 1);
    }
}

/// Where the listing fits, it is written whole: the bytes appended are
/// `listing_text`.
pub proof fn lemma_listing_written(data: Seq<u8>, k: int, written: int, buflen: int)
    requires
        0 <= k,
        written + listing_len(data, k) <= buflen,
    ensures
        listing_from(data, k, written, buflen).1 == listing_text(data, k),
    decreases data.len() / 64 - k,
{
    if k < data.len() / 64 {
        lemma_listing_len(data, k + 1);
        let name = entry_name_at(data, 64 * k);
        if !(entry_inode_at(data, 64 * k) == 0 || name == dots(1) || name == dots(2)) {
            lemma_listing_written(data, k + 1, written + name.len() + 1, buflen);
        } else {
            lemma_listing_written(data, k + 1, written, buflen);
        }
    }
}

/// A listing fails for want of room exactly when the names and their
/// newlines do not fit in the buffer; otherwise it gives how many bytes
/// they take.
pub proof fn lemma_listing_fits(data: Seq<u8>, k: int, written: int, buflen: int)
    requires
        0 <= k,
        written <= buflen,
    ensures
        listing_from(data, k, written, buflen).0 == (if written + listing_len(data, k) > buflen {
            Err::<usize, Error>(Error::BufferTooSmall)
        } else {
            Ok::<usize, Error>((written + listing_len(data, k)) as usize)
        }),
        listing_len(data, k) >= 0,
    decreases data.len() / 64 - k,
{
    if k < data.len() / 64 {
        lemma_listing_fits(data, k + 1, written, buflen);
        let name = entry_name_at(data, 64 * k);
        if written + name.len() + 1 <= buflen {
            lemma_listing_fits(data, k + 1, written + name.len() + 1, buflen);
        }
    }
}

/// Listing a directory whose listing fits: with `L` the listing of its
/// content, the result is `Ok(L.len())`, the buffer begins with `L` and
/// the rest of it is as it was.
pub proof fn lemma_list_dir_fits(s: Seq<u8>, bs: usize, path: Seq<u8>, buf: Seq<u8>)
    requires
        spec_lookup_iter(s, bs, path) is Ok,
        spec_get_inode(s, bs, spec_lookup_iter(s, bs, path)->Ok_0) is Ok,
        is_dir_mode(
            mode_at(s, spec_get_inode(s, bs, spec_lookup_iter(s, bs, path)->Ok_0)->Ok_0 as int),
        ),
        spec_read(s, bs, path) is Ok,
        listing_text(spec_read(s, bs, path)->Ok_0, 0).len() <= buf.len(),
    ensures
        ({
            let l = listing_text(spec_read(s, bs, path)->Ok_0, 0);
            let (r, w) = spec_list_dir(s, bs, path, buf.len() as int);
            let out = write_bytes(buf, 0, w);
            &&& r == Ok::<usize, Error>(l.len() as usize)
            &&& out.subrange(0, l.len() as int) == l
            &&& out.subrange(l.len() as int, buf.len() as int) == buf.subrange(
                l.len() as int,
                buf.len() as int,
            )
        }),
{
    let data = spec_read(s, bs, path)->Ok_0;
    lemma_listing_len(data, 0);
    lemma_listing_fits(data, 0, 0, buf.len() as int);
    let l = listing_text(data, 0);
    lemma_listing_written(data, 0, 0, buf.len() as int);
    let out = write_bytes(buf, 0, l);
    assert(out.subrange(0, l.len() as int) =~= l);
    assert(out.subrange(l.len() as int, buf.len() as int) =~= buf.subrange(
        l.len() as int,
        buf.len() as int,
    ));
}

/// Listing a directory fails when the path does not resolve, when it
/// names no directory, and when the names with their newlines need more
/// than `buflen` bytes; it succeeds, giving that number of bytes,
/// otherwise.
pub proof fn lemma_list_dir_outcome(s: Seq<u8>, bs: usize, path: Seq<u8>, buflen: int)
    requires
        0 <= buflen,
    ensures
        match spec_lookup_iter(s, bs, path) {
            Err(_) => spec_list_dir(s, bs, path, buflen).0 is Err,
            Ok(n) => match spec_get_inode(s, bs, n) {
                Err(_) => spec_list_dir(s, bs, path, buflen).0 is Err,
                Ok(off) => if !is_dir_mode(mode_at(s, off as int)) {
                    spec_list_dir(s, bs, path, buflen).0 == Err::<usize, Error>(
                        Error::NotADirectory,
                    )
                } else {
                    match spec_read(s, bs, path) {
                        Err(_) => spec_list_dir(s, bs, path, buflen).0 is Err,
                        Ok(data) => spec_list_dir(s, bs, path, buflen).0 == (if listing_len(data, 0)
                            > buflen {
                            Err::<usize, Error>(Error::BufferTooSmall)
                        } else {
                            Ok::<usize, Error>(listing_len(data, 0) as usize)
                        }),
                    }
                },
            },
        },
{
    if let Ok(data) = spec_read(s, bs, path) {
        lemma_listing_fits(data, 0, 0, buflen);
    }
}

/// Listing the directory at `path` into a buffer of `buflen` bytes: the
/// path must name a directory; its content (as `spec_read` gives it) is
/// listed by `listing_from`.
pub open spec fn spec_list_dir(s: Seq<u8>, bs: usize, path: Seq<u8>, buflen: int) -> (
    Result<usize, Error>,
    Seq<u8>,
) {
    match spec_lookup_iter(s, bs, path) {
        Err(e) => (Err(e), Seq::empty()),
        Ok(n) => match spec_get_inode(s, bs, n) {
            Err(e) => (Err(e), Seq::empty()),
            Ok(off) => if !is_dir_mode(mode_at(s, off as int)) {
                (Err(Error::NotADirectory), Seq::empty())
            } else {
                match spec_read(s, bs, path) {
                    Err(e) => (Err(e), Seq::empty()),
                    Ok(data) => listing_from(data, 0, 0, buflen),
                }
            },
        },
    }
}

/// The file system: a formatted image and its block size.
pub struct MinixFs {
    image: Vec<u8>,
    block_size: usize,
}

impl MinixFs {
    /// The bytes of the image.
    pub closed spec fn image(&self) -> Seq<u8> {
        self.image@
    }

    /// The block size of the image.
    pub closed spec fn block_size(&self) -> usize {
        self.block_size
    }

    /// A fresh file system: an all-zero image of `IMAGE_SIZE` bytes
    /// formatted with `BLOCK_SIZE`-byte blocks.
    pub fn init() -> (r: Result<MinixFs, Error>)
        ensures
            r is Ok,
            r matches Ok(fs) ==> fs.block_size() == BLOCK_SIZE && fs.image() == spec_init(
                zeros(IMAGE_SIZE as nat),
                BLOCK_SIZE,
            )->Some_0,
    {
        let mut mem: Vec<u8> = Vec::new();
        let mut k: usize = 0;
        while k < IMAGE_SIZE
            invariant
                k <= IMAGE_SIZE,
                mem@ == zeros(k as nat),
            decreases IMAGE_SIZE - k,
        {
            mem.push(0);
            k = k + 1;
            assert(mem@ =~= zeros(k as nat));
        }
        proof {
            lemma_fresh_image_formats();
        }
        let ok = init_in(mem.as_mut_slice(), BLOCK_SIZE);
        if !ok {
            return Err(Error::Aborted);
        }
        Ok(MinixFs { image: mem, block_size: BLOCK_SIZE })
    }

    /// Lists the whole tree: the line for the root directory, then the
    /// tree below it (see `spec_tree` at depth 1 for inode 1); the lines
    /// are appended to `out`.
    pub fn show_directory_tree(&mut self, out: &mut Vec<TreeLine>) -> (r: Result<(), Error>)
        ensures
            final(self).image() == old(self).image(),
            final(self).block_size() == old(self).block_size(),
            r == spec_tree(old(self).image(), old(self).block_size(), 1, 1).0,
            lines_view(final(out)@) == lines_view(old(out)@).push(root_line()) + spec_tree(
                old(self).image(),
                old(self).block_size(),
                1,
                1,
            ).1,
    {
        push_root_line(out);
        tree_in(self.image.as_slice(), self.block_size, 1, 1, out)
    }

    /// Writes the names in the directory at `path`, each followed by a
    /// newline, to the start of `buf` (see `spec_list_dir`) and gives how
    /// many bytes were written.  Names written before an error stay.
    pub fn list_dir_entries(&mut self, path: &[u8], buf: &mut [u8]) -> (r: Result<usize, Error>)
        ensures
            final(self).image() == old(self).image(),
            final(self).block_size() == old(self).block_size(),
            r == spec_list_dir(old(self).image(), old(self).block_size(), path@, old(buf)@.len() as int).0,
            final(buf)@ == write_bytes(
                old(buf)@,
                0,
                spec_list_dir(old(self).image(), old(self).block_size(), path@, old(buf)@.len() as int).1,
            ),
    {
        let img = self.image.as_slice();
        let bs = self.block_size;
        assert(write_bytes(buf@, 0, Seq::<u8>::empty()) =~= buf@);
        let n = resolve_path(img, bs, path)?;
        let off = find_inode(img, bs, n)?;
        let mode = read_u16(img, off);
        if mode & DIR_MODE == 0 {
            return Err(Error::NotADirectory);
        }
        let entries = read_in(img, bs, path)?;
        list_entries(entries, buf)
    }
}

impl MinixFs {
    /// A copy of the content of the file at `file_path` (see `spec_read`).
    pub fn read(&mut self, file_path: &[u8]) -> (r: Result<Vec<u8>, Error>)
        ensures
            final(self).image() == old(self).image(),
            final(self).block_size() == old(self).block_size(),
            match r {
                Ok(d) => spec_read(old(self).image(), old(self).block_size(), file_path@) == Ok::<
                    Seq<u8>,
                    Error,
                >(d@),
                Err(e) => spec_read(old(self).image(), old(self).block_size(), file_path@) == Err::<
                    Seq<u8>,
                    Error,
                >(e),
            },
    {
        let data = read_in(self.image.as_slice(), self.block_size, file_path)?;
        Ok(vstd::slice::slice_to_vec(data))
    }

    /// Writes `data` to the file at `file_path` (see `spec_write`).
    pub fn write(&mut self, file_path: &[u8], data: &[u8]) -> (r: Result<(), Error>)
        ensures
            final(self).block_size() == old(self).block_size(),
            (r, final(self).image()) == spec_write(
                old(self).image(),
                old(self).block_size(),
                file_path@,
                data@,
            ),
    {
        write_in(self.image.as_mut_slice(), self.block_size, file_path, data)
    }

    /// Deletes the file or empty directory at `file_path` (see
    /// `spec_delete`).
    pub fn delete(&mut self, file_path: &[u8]) -> (r: Result<(), Error>)
        ensures
            final(self).block_size() == old(self).block_size(),
            (r, final(self).image()) == spec_delete(
                old(self).image(),
                old(self).block_size(),
                file_path@,
            ),
    {
        delete_in(self.image.as_mut_slice(), self.block_size, file_path)
    }

    /// The inode number `file_path` resolves to (see `spec_lookup_iter`).
    pub fn lookup_iter(&mut self, file_path: &[u8]) -> (r: Result<u32, Error>)
        ensures
            final(self).image() == old(self).image(),
            final(self).block_size() == old(self).block_size(),
            r == spec_lookup_iter(old(self).image(), old(self).block_size(), file_path@),
    {
        resolve_path(self.image.as_slice(), self.block_size, file_path)
    }

    /// Makes a directory at `file_path` (see `spec_mkdir`) and gives its
    /// inode number.
    pub fn mkdir(&mut self, file_path: &[u8]) -> (r: Result<u32, Error>)
        ensures
            final(self).block_size() == old(self).block_size(),
            (r, final(self).image()) == spec_mkdir(
                old(self).image(),
                old(self).block_size(),
                file_path@,
            ),
    {
        mkdir_in(self.image.as_mut_slice(), self.block_size, file_path)
    }

    /// Creates an empty file at `file_path` (see `spec_create_file`) and
    /// gives its inode number.
    pub fn create_file(&mut self, file_path: &[u8]) -> (r: Result<u32, Error>)
        ensures
            final(self).block_size() == old(self).block_size(),
            (r, final(self).image()) == spec_create_file(
                old(self).image(),
                old(self).block_size(),
                file_path@,
            ),
    {
        create_file_in(self.image.as_mut_slice(), self.block_size, file_path)
    }

    /// Copies the whole image into `buffer`, which must have its size.
    pub fn fs_img(&self, buffer: &mut [u8]) -> (r: Result<(), Error>)
        ensures
            r is Ok <==> old(buffer)@.len() == self.image().len(),
            r is Ok ==> final(buffer)@ == self.image(),
            r is Err ==> r == Err::<(), Error>(Error::InvalidBufferSize) && final(buffer)@ == old(
                buffer,
            )@,
    {
        if buffer.len() != self.image.len() {
            return Err(Error::InvalidBufferSize);
        }
        crate::layout::write_slice(buffer, 0, self.image.as_slice());
        assert(buffer@ =~= self.image@);
        Ok(())
    }
}

/// Lists the names in the directory content `data` into `buf`; see
/// `listing_from`.
fn list_entries(data: &[u8], buf: &mut [u8]) -> (r: Result<usize, Error>)
    ensures
        r == listing_from(data@, 0, 0, old(buf)@.len() as int).0,
        final(buf)@ == write_bytes(old(buf)@, 0, listing_from(data@, 0, 0, old(buf)@.len() as int).1),
{
    let count = data.len() / 64;
    let ghost buflen = buf@.len() as int;
    let ghost mut emitted: Seq<u8> = Seq::empty();
    let mut written: usize = 0;
    let mut k: usize = 0;
    assert(buf@ =~= write_bytes(old(buf)@, 0, emitted));
    while k < count
        invariant
            k <= count,
            count == data@.len() / 64,
            data@.len() == data.len(),
            buflen == old(buf)@.len(),
            buf@.len() == buflen,
            buf@.len() == buf.len(),
            written == emitted.len(),
            written <= buflen,
            buf@ == write_bytes(old(buf)@, 0, emitted),
            listing_from(data@, 0, 0, buflen).0 == listing_from(data@, k as int, written as int, buflen).0,
            listing_from(data@, 0, 0, buflen).1 == emitted + listing_from(data@, k as int, written as int, buflen).1,
        decreases count - k,
    {
        assert(k * 64 + 64 <= data@.len());
        let off = k * 64;
        let ino = read_u32(data, off);
        let name = crate::fs::minix::entry_name_slice(data, off);
        let dot: &[u8] = &[46u8];
        let dotdot: &[u8] = &[46u8, 46u8];
        assert(dot@ =~= dots(1));
        assert(dotdot@ =~= dots(2));
        if ino == 0 || crate::layout::bytes_eq(name, dot) || crate::layout::bytes_eq(name, dotdot) {
            k = k + 1;
            continue;
        }
        if name.len() + 1 > buf.len() - written {
            assert(emitted + Seq::<u8>::empty() =~= emitted);
            return Err(Error::BufferTooSmall);
        }
        let ghost pre = buf@;
        crate::layout::write_slice(buf, written, name);
        buf[written + name.len()] = 10u8;
        proof {
            let add = name@.push(10u8);
            assert(buf@ =~= write_bytes(old(buf)@, 0, emitted + add));
            assert(emitted + (add + listing_from(data@, k + 1, written + name@.len() + 1, buflen).1)
                =~= (emitted + add) + listing_from(data@, k + 1, written + name@.len() + 1, buflen).1);
            emitted = emitted + add;
        }
        written = written + name.len() + 1;
        k = k + 1;
    }
    assert(emitted + Seq::<u8>::empty() =~= emitted);
    Ok(written)
}

} // verus!
