//! What allocating and making a directory do, in closed form, and
//! undoing a made directory: deleting a directory right after making it
//! gives the inode and zone bitmaps back as they were.
use vstd::prelude::*;
use crate::error::Error;
use crate::fs::laws::{
    agree, delete_cleared, delete_keeps_parent, lemma_delete_shape, lemma_get_inode_frame,
    lemma_lookup_after_delete, lemma_lookup_after_mkdir, lemma_walk_frame, mkdir_keeps_parent,
    name_fits, write_keeps_inode,
};
use crate::fs::minix::{
    bit_is_set, bit_mask, bit_scan, clear_bit, size_at, spec_write, dir_block_in_use,
    live_entry_scan, mode_at, is_dir_mode, spec_unlink, spec_unlink_parent, spec_create_file, entry_inode_at, entry_name_at, spec_delete, dir_entry_bytes, dots, fresh_inode_bytes, free_entry_scan,
    image_super_block, inode_table_start, lemma_bit_scan_found, lemma_bit_scan_range,
    lemma_free_entry_scan_range, lemma_super_block_at_subrange, candidate_taken,
    lemma_bit_scan_passed, set_bit, spec_alloc_inode,
    spec_alloc_zone, spec_get_inode, spec_link, spec_lookup_iter, spec_mkdir, zone0_at, DIR_MODE,
    SUPER_BLOCK_SIZE,
};
use crate::layout::{u32_bytes, write_bytes, zeros};
use crate::path::{path_segments, spec_split_path, SLASH};

verus! {

/// The steps of a successful `spec_mkdir`: the parent resolves to `p`
/// (`/` is inode 1), an inode `n` is allocated, linked into `p`, given a
/// zone `z` whose block begins with `.` and `..`, and its size set.
proof fn lemma_mkdir_steps(s: Seq<u8>, bs: usize, path: Seq<u8>)
    requires
        spec_mkdir(s, bs, path).0 is Ok,
    ensures
        ({
            let dir = spec_split_path(path).0;
            let name = spec_split_path(path).1;
            let p = spec_lookup_iter(s, bs, dir)->Ok_0;
            let (ar, s1) = spec_alloc_inode(s, bs, DIR_MODE);
            let n = ar->Ok_0;
            let (lr, s2) = spec_link(s1, bs, p, n, name);
            let (zr, s3) = spec_alloc_zone(s2, bs, n);
            let z = zr->Ok_0;
            let zo = z * bs;
            let s4 = write_bytes(s3, zo, dir_entry_bytes(n, dots(1)));
            let s5 = write_bytes(s4, zo + 64, dir_entry_bytes(p, dots(2)));
            &&& spec_lookup_iter(s, bs, dir) is Ok
            &&& p != 0
            &&& ar is Ok
            &&& spec_mkdir(s, bs, path).0 == Ok::<u32, Error>(n)
            &&& lr is Ok
            &&& zr is Ok
            &&& bs >= 128
            &&& zo + bs <= s3.len()
            &&& spec_get_inode(s5, bs, n) is Ok
            &&& spec_mkdir(s, bs, path).1 == write_bytes(
                s5,
                spec_get_inode(s5, bs, n)->Ok_0 + 8,
                u32_bytes(128),
            )
        }),
{
    reveal(spec_mkdir);
    reveal_with_fuel(crate::fs::minix::walk, 1);
    let root = seq![SLASH];
    assert(crate::path::segments_from(root, 1) == Seq::<Seq<u8>>::empty());
    assert(path_segments(root) == Seq::<Seq<u8>>::empty());
}

/// A successful inode allocation sets the clear bit `b1` of inode `n`
/// and writes a fresh record at `n`'s place in the inode table.
pub proof fn lemma_alloc_inode_steps(s: Seq<u8>, bs: usize, mode: u16)
    requires
        spec_alloc_inode(s, bs, mode).0 is Ok,
    ensures
        ({
            let sb = image_super_block(s, bs);
            let i = bit_scan(s, 2 * bs as int, 1, sb.s_imap_blocks * bs * 8, 1);
            let b1 = 2 * bs + (i - 1) / 8;
            let noff = inode_table_start(sb) * bs + (i - 1) * 64;
            &&& bs + SUPER_BLOCK_SIZE <= s.len()
            &&& 1 <= i < sb.s_imap_blocks * bs * 8
            &&& spec_alloc_inode(s, bs, mode).0 == Ok::<u32, Error>(i as u32)
            &&& b1 < s.len()
            &&& !bit_is_set(s[b1], (i - 1) % 8)
            &&& noff + 64 <= s.len()
            &&& spec_alloc_inode(s, bs, mode).1 == write_bytes(
                set_bit(s, b1, (i - 1) % 8),
                noff,
                fresh_inode_bytes(mode),
            )
        }),
{
    reveal(spec_alloc_inode);
    let sb = image_super_block(s, bs);
    let max = sb.s_imap_blocks * bs * 8;
    lemma_bit_scan_range(s, 2 * bs as int, 1, max, 1);
    lemma_bit_scan_found(s, 2 * bs as int, 1, max, 1);
}

/// A successful link writes the entry into the first free slot `f` of the
/// parent's first block.
pub proof fn lemma_link_steps(s: Seq<u8>, bs: usize, parent: u32, new: u32, name: Seq<u8>)
    requires
        spec_link(s, bs, parent, new, name).0 is Ok,
    ensures
        ({
            let poff = spec_get_inode(s, bs, parent)->Ok_0;
            let base = zone0_at(s, poff as int) * bs;
            let count = (bs / 64) as int;
            let f = free_entry_scan(s, base, 0, count);
            &&& spec_get_inode(s, bs, parent) is Ok
            &&& 0 <= f < count
            &&& base + count * 64 <= s.len()
            &&& spec_link(s, bs, parent, new, name).1 == write_bytes(
                s,
                base + f * 64,
                dir_entry_bytes(new, name),
            )
        }),
{
    reveal(spec_link);
    let poff = spec_get_inode(s, bs, parent)->Ok_0;
    let base = zone0_at(s, poff as int) * bs;
    lemma_free_entry_scan_range(s, base, 0, (bs / 64) as int);
}

/// A successful zone allocation either finds the zone bitmap full and
/// changes nothing (zone 0), or sets the clear bit `j >= 1` of zone
/// `j + s_firstdatazone - 1`, records that zone in the inode and zeroes
/// its block where it lies in the image.
pub proof fn lemma_alloc_zone_steps(s: Seq<u8>, bs: usize, n: u32)
    requires
        spec_alloc_zone(s, bs, n).0 is Ok,
    ensures
        ({
            let sb = image_super_block(s, bs);
            let ioff = spec_get_inode(s, bs, n)->Ok_0;
            let zmax = sb.s_zmap_blocks * bs * 8;
            let zstart = 2 + sb.s_imap_blocks;
            let j = bit_scan(s, zstart * bs, 1, zmax, 0);
            let z = spec_alloc_zone(s, bs, n).0->Ok_0;
            let b2 = zstart * bs + j / 8;
            let s2 = write_bytes(set_bit(s, b2, j % 8), ioff + 24, u32_bytes(z));
            &&& spec_get_inode(s, bs, n) is Ok
            &&& j == zmax ==> z == 0 && spec_alloc_zone(s, bs, n).1 == s
            &&& j != zmax ==> {
                &&& 1 <= j < zmax
                &&& z == (j + sb.s_firstdatazone - 1) as u32
                &&& b2 < s.len()
                &&& !bit_is_set(s[b2], j % 8)
                &&& spec_alloc_zone(s, bs, n).1 == (if (j + sb.s_firstdatazone - 1) * bs + bs
                    <= s.len() {
                    write_bytes(s2, (j + sb.s_firstdatazone - 1) * bs, zeros(bs as nat))
                } else {
                    s2
                })
            }
        }),
{
    reveal(spec_alloc_zone);
    let sb = image_super_block(s, bs);
    let zmax = sb.s_zmap_blocks * bs * 8;
    let zstart = 2 + sb.s_imap_blocks;
    lemma_bit_scan_range(s, zstart * bs, 1, zmax, 0);
    let j = bit_scan(s, zstart * bs, 1, zmax, 0);
    if 1 <= j < zmax {
        lemma_bit_scan_found(s, zstart * bs, 1, zmax, 0);
    }
    assert(zstart * bs >= 0) by (nonlinear_arith)
        requires
            zstart >= 0,
    ;
}

/// Allocating an inode takes the lowest free one: every inode number from
/// 1 below the one handed out has its bitmap bit set; the one handed out
/// had its bit clear, and afterwards its bit is set and its record is a
/// fresh inode of mode `mode` (and nothing else changes).  When the
/// bitmap has no clear bit the result is `NoFreeInode` and the image is
/// unchanged.
pub proof fn lemma_alloc_inode_effect(s: Seq<u8>, bs: usize, mode: u16)
    ensures
        ({
            let sb = image_super_block(s, bs);
            let max = sb.s_imap_blocks * bs * 8;
            let i = bit_scan(s, 2 * bs as int, 1, max, 1);
            let b1 = 2 * bs + (i - 1) / 8;
            let noff = inode_table_start(sb) * bs + (i - 1) * 64;
            let (r, t) = spec_alloc_inode(s, bs, mode);
            &&& forall|k: int| 1 <= k < i && k < max ==> #[trigger] candidate_taken(s, 2 * bs as int, k, 1)
            &&& r is Ok ==> {
                &&& 1 <= i < max
                &&& r == Ok::<u32, Error>(i as u32)
                &&& !bit_is_set(s[b1], (i - 1) % 8)
                &&& t == write_bytes(set_bit(s, b1, (i - 1) % 8), noff, fresh_inode_bytes(mode))
            }
            &&& r == Err::<u32, Error>(Error::NoFreeInode) ==> i == max && t == s
        }),
{
    let sb = image_super_block(s, bs);
    let max = sb.s_imap_blocks * bs * 8;
    lemma_bit_scan_passed(s, 2 * bs as int, 1, max, 1);
    if spec_alloc_inode(s, bs, mode).0 is Ok {
        lemma_alloc_inode_steps(s, bs, mode);
    }
    reveal(spec_alloc_inode);
}

/// Allocating a zone for inode `n` takes the lowest free zone: with `j`
/// the lowest clear bit from bit 1 on of the zone bitmap (every bit before
/// it is set), the zone is `j + s_firstdatazone - 1`; its bit, which was
/// clear, is set, it becomes `n`'s first zone, and its block is zeroed
/// where it lies in the image.  A full bitmap gives zone 0 and changes
/// nothing.
pub proof fn lemma_alloc_zone_effect(s: Seq<u8>, bs: usize, n: u32)
    ensures
        ({
            let sb = image_super_block(s, bs);
            let ioff = spec_get_inode(s, bs, n)->Ok_0;
            let zmax = sb.s_zmap_blocks * bs * 8;
            let zstart = 2 + sb.s_imap_blocks;
            let j = bit_scan(s, zstart * bs, 1, zmax, 0);
            let a = j + sb.s_firstdatazone - 1;
            let b2 = zstart * bs + j / 8;
            let s2 = write_bytes(set_bit(s, b2, j % 8), ioff + 24, u32_bytes(a as u32));
            let (r, t) = spec_alloc_zone(s, bs, n);
            &&& forall|k: int| 1 <= k < j && k < zmax ==> #[trigger] candidate_taken(s, zstart * bs, k, 0)
            &&& r is Ok ==> {
                &&& j == zmax ==> r == Ok::<u32, Error>(0) && t == s
                &&& j != zmax ==> {
                    &&& 1 <= j < zmax
                    &&& r == Ok::<u32, Error>(a as u32)
                    &&& !bit_is_set(s[b2], j % 8)
                    &&& t == (if a * bs + bs <= s.len() {
                        write_bytes(s2, a * bs, zeros(bs as nat))
                    } else {
                        s2
                    })
                }
            }
        }),
{
    let sb = image_super_block(s, bs);
    let zmax = sb.s_zmap_blocks * bs * 8;
    let zstart = 2 + sb.s_imap_blocks;
    lemma_bit_scan_passed(s, zstart * bs, 1, zmax, 0);
    if spec_alloc_zone(s, bs, n).0 is Ok {
        lemma_alloc_zone_steps(s, bs, n);
    }
}

/// What writing `data` to a file does, in closed form, where the data
/// goes to a zone other than zone 0 without covering the file's size and
/// zone fields (`write_keeps_inode`): the file's size becomes the data's
/// length, its first zone `z` is the one it had, or, when it had none,
/// the lowest free zone (`j + s_firstdatazone - 1` for the lowest clear
/// bit `j` from 1 on, every bit before it set), whose bit was clear; the
/// data stands at the start of `z`'s block; and every other byte is as it
/// was, except, for a newly taken zone, its bitmap byte, the zone field
/// and the rest of its block.
#[verifier::rlimit(100)]
pub proof fn lemma_write_effect(s: Seq<u8>, bs: usize, path: Seq<u8>, data: Seq<u8>)
    requires
        s.len() <= usize::MAX,
        spec_write(s, bs, path, data).0 is Ok,
        write_keeps_inode(s, bs, path, data),
    ensures
        ({
            let t = spec_write(s, bs, path, data).1;
            let sb = image_super_block(s, bs);
            let n = spec_lookup_iter(s, bs, path)->Ok_0;
            let ioff = spec_get_inode(s, bs, n)->Ok_0 as int;
            let z0 = zone0_at(s, ioff);
            let z = zone0_at(t, ioff);
            let zb = z * bs;
            let len = data.len() as int;
            let ib = 2 + sb.s_imap_blocks;
            let zmax = sb.s_zmap_blocks * bs * 8;
            let j = bit_scan(s, ib * bs, 1, zmax, 0);
            let b2 = ib * bs + j / 8;
            &&& t.len() == s.len()
            &&& size_at(t, ioff) == data.len() as u32
            &&& z != 0
            &&& t.subrange(zb, zb + len) == data
            &&& z0 != 0 ==> z == z0
            &&& z0 == 0 ==> {
                &&& 1 <= j < zmax
                &&& z == (j + sb.s_firstdatazone - 1) as u32
                &&& forall|k: int| 1 <= k < j ==> #[trigger] candidate_taken(s, ib * bs, k, 0)
                &&& !bit_is_set(s[b2], j % 8)
            }
            &&& forall|i: int|
                0 <= i < s.len() && !(ioff + 8 <= i < ioff + 12) && !(zb <= i < zb + len) && !(
                z0 == 0 && (i == b2 || ioff + 24 <= i < ioff + 28 || (j + sb.s_firstdatazone - 1)
                    * bs <= i < (j + sb.s_firstdatazone - 1) * bs + bs)) ==> #[trigger] t[i] == s[i]
        }),
{
    reveal(spec_write);
    let t = spec_write(s, bs, path, data).1;
    let n = spec_lookup_iter(s, bs, path)->Ok_0;
    let ioff = spec_get_inode(s, bs, n)->Ok_0;
    let (zr, s1) = crate::fs::minix::write_zone(s, bs, n, ioff);
    let z = zr->Ok_0;
    let zb = z * bs;
    let len = data.len() as int;
    let s2 = write_bytes(s1, zb, data);
    crate::fs::minix::lemma_alloc_zone_len(s, bs, n);
    assert(s1.len() == s.len());
    assert(t == write_bytes(s2, ioff + 8, u32_bytes(data.len() as u32)));
    crate::layout::lemma_read_after_write_u32(s2, ioff + 8, data.len() as u32);
    assert(size_at(t, ioff as int) == data.len() as u32);
    let z0 = zone0_at(s, ioff as int);
    if z0 == 0 {
        lemma_alloc_zone_effect(s, bs, n);
        lemma_alloc_zone_steps(s, bs, n);
        let sb = image_super_block(s, bs);
        let ib = 2 + sb.s_imap_blocks;
        let j = bit_scan(s, ib * bs, 1, sb.s_zmap_blocks * bs * 8, 0);
        let b2 = ib * bs + j / 8;
        let s2z = write_bytes(set_bit(s, b2, j % 8), ioff + 24, u32_bytes(z));
        crate::layout::lemma_read_after_write_u32(set_bit(s, b2, j % 8), ioff + 24, z);
        assert(zone0_at(s1, ioff as int) == z) by {
            assert(s1[ioff + 24] == s2z[ioff + 24] && s1[ioff + 25] == s2z[ioff + 25] && s1[ioff
                + 26] == s2z[ioff + 26] && s1[ioff + 27] == s2z[ioff + 27]);
        }
    }
    assert(zone0_at(t, ioff as int) == z) by {
        assert(t[ioff + 24] == s1[ioff + 24] && t[ioff + 25] == s1[ioff + 25] && t[ioff + 26]
            == s1[ioff + 26] && t[ioff + 27] == s1[ioff + 27]);
    }
    assert(t.subrange(zb, zb + len) =~= data);
    let sb = image_super_block(s, bs);
    let ib = 2 + sb.s_imap_blocks;
    let jj = bit_scan(s, ib * bs, 1, sb.s_zmap_blocks * bs * 8, 0);
    let b2 = ib * bs + jj / 8;
    assert forall|i: int|
        0 <= i < s.len() && !(ioff + 8 <= i < ioff + 12) && !(zb <= i < zb + len) && !(z0 == 0
            && (i == b2 || ioff + 24 <= i < ioff + 28 || (jj + sb.s_firstdatazone - 1) * bs <= i
            < (jj + sb.s_firstdatazone - 1) * bs + bs)) implies #[trigger] t[i] == s[i] by {
        assert(t[i] == s1[i]);
    }
}

/// Creating a file succeeds, giving the inode that allocation hands out,
/// whatever the name (entries hold names of up to 60 bytes and longer ones
/// are cut), where the parent is `/` or resolves, an inode is free, and the
/// parent's first block lies in the image and has a free entry; on images
/// whose data zones come after the inode records involved, whose inode
/// numbers fit 32 bits, and where the parent's first zone is a data zone
/// and the parent is not the inode handed out.
#[verifier::rlimit(100)]
pub proof fn lemma_create_file_succeeds(s: Seq<u8>, bs: usize, path: Seq<u8>)
    requires
        bs >= 64,
        spec_alloc_inode(s, bs, 0).0 is Ok,
        ({
            let dir = spec_split_path(path).0;
            let sb = image_super_block(s, bs);
            let fdz = sb.s_firstdatazone as int;
            let p = if dir == seq![SLASH] { 1u32 } else { spec_lookup_iter(s, bs, dir)->Ok_0 };
            let n = spec_alloc_inode(s, bs, 0).0->Ok_0;
            let poff = spec_get_inode(s, bs, p)->Ok_0 as int;
            let base = zone0_at(s, poff) * bs;
            let count = (bs / 64) as int;
            &&& (dir != seq![SLASH] ==> spec_lookup_iter(s, bs, dir) is Ok)
            &&& spec_get_inode(s, bs, p) is Ok
            &&& base + count * 64 <= s.len()
            &&& free_entry_scan(s, base, 0, count) < count
            &&& sb.s_imap_blocks * bs * 8 <= u32::MAX
            &&& fdz >= inode_table_start(sb)
            &&& inode_table_start(sb) * bs + (n - 1) * 64 + 64 <= fdz * bs
            &&& zone0_at(s, poff) >= fdz
            &&& n != p
        }),
    ensures
        spec_create_file(s, bs, path).0 == Ok::<u32, Error>(spec_alloc_inode(s, bs, 0).0->Ok_0),
{
    let dir = spec_split_path(path).0;
    let name = spec_split_path(path).1;
    let sb = image_super_block(s, bs);
    let fdz = sb.s_firstdatazone as int;
    let p = if dir == seq![SLASH] { 1u32 } else { spec_lookup_iter(s, bs, dir)->Ok_0 };
    let (ar, s1) = spec_alloc_inode(s, bs, 0);
    let n = ar->Ok_0;
    let poff = spec_get_inode(s, bs, p)->Ok_0 as int;
    let zp = zone0_at(s, poff);
    let base = zp * bs;
    let count = (bs / 64) as int;
    let tbl = inode_table_start(sb) * bs;
    lemma_alloc_inode_steps(s, bs, 0);
    let i = bit_scan(s, 2 * bs as int, 1, sb.s_imap_blocks * bs * 8, 1);
    assert(n == i);
    let b1 = 2 * bs + (n - 1) / 8;
    let noff = tbl + (n - 1) * 64;
    assert(tbl >= 2 * bs + sb.s_imap_blocks * bs) by (nonlinear_arith)
        requires
            tbl == inode_table_start(sb) * bs,
            inode_table_start(sb) == 2 + sb.s_imap_blocks + sb.s_zmap_blocks,
    ;
    assert(sb.s_imap_blocks * bs >= 0) by (nonlinear_arith);
    assert(b1 < tbl);
    assert(fdz * bs >= tbl) by (nonlinear_arith)
        requires
            tbl == inode_table_start(sb) * bs,
            fdz >= inode_table_start(sb),
    ;
    assert(base >= fdz * bs) by (nonlinear_arith)
        requires
            base == zp * bs,
            zp >= fdz,
    ;
    assert(agree(s, s1, bs as int, bs + SUPER_BLOCK_SIZE));
    lemma_get_inode_frame(s, s1, bs, p);
    assert(poff == tbl + (p - 1) * 64);
    assert(zone0_at(s1, poff) == zp) by {
        assert(s1[poff + 24] == s[poff + 24] && s1[poff + 25] == s[poff + 25] && s1[poff + 26]
            == s[poff + 26] && s1[poff + 27] == s[poff + 27]);
    }
    assert forall|q: int| 0 <= q < count implies #[trigger] entry_inode_at(s1, base + q * 64)
        == entry_inode_at(s, base + q * 64) by {
        assert(q * 64 + 64 <= count * 64) by (nonlinear_arith)
            requires
                q < count,
        ;
        assert(s1[base + q * 64] == s[base + q * 64] && s1[base + q * 64 + 1] == s[base + q * 64
            + 1] && s1[base + q * 64 + 2] == s[base + q * 64 + 2] && s1[base + q * 64 + 3]
            == s[base + q * 64 + 3]);
    }
    crate::fs::laws::lemma_free_entry_scan_agree(s, s1, base, 0, count);
    assert(spec_link(s1, bs, p, n, name).0 is Ok) by {
        reveal(spec_link);
    }
    reveal(spec_create_file);
}

/// The layout that undoing a made directory relies on: the data zones
/// come after the bitmaps and the inode table starts, inode and zone
/// numbers of the bitmaps fit in 32 bits, the record of the inode that
/// making the directory at `path` hands out lies before the first data
/// zone, and the parent's first zone is a data zone.
pub open spec fn mkdir_layout(s: Seq<u8>, bs: usize, path: Seq<u8>) -> bool {
    let sb = image_super_block(s, bs);
    let fdz = sb.s_firstdatazone;
    let p = spec_lookup_iter(s, bs, spec_split_path(path).0)->Ok_0;
    let poff = spec_get_inode(s, bs, p)->Ok_0 as int;
    let n = spec_mkdir(s, bs, path).0->Ok_0;
    &&& fdz >= inode_table_start(sb)
    &&& sb.s_imap_blocks * bs * 8 <= u32::MAX
    &&& sb.s_zmap_blocks * bs * 8 + fdz <= u32::MAX
    &&& inode_table_start(sb) * bs + (n - 1) * 64 + 64 <= fdz * bs
    &&& zone0_at(s, poff) >= fdz
}

/// Images that agree on the super block read the same super block.
pub proof fn lemma_super_block_frame(s: Seq<u8>, t: Seq<u8>, bs: usize)
    requires
        s.len() == t.len(),
        bs + SUPER_BLOCK_SIZE <= s.len(),
        agree(s, t, bs as int, bs + SUPER_BLOCK_SIZE),
    ensures
        image_super_block(s, bs) == image_super_block(t, bs),
{
    assert(s.subrange(bs as int, bs + 31) =~= t.subrange(bs as int, bs + 31));
    lemma_super_block_at_subrange(s, bs as int);
    lemma_super_block_at_subrange(t, bs as int);
}

/// What making a directory does to the bitmaps: under `mkdir_layout`, the
/// image after it differs from `s` in the bitmap blocks only in the bit of
/// the new inode `n`, which was clear, and, when a zone `z` was handed
/// out, in that zone's bit, which was clear too; `n`'s record holds `z`
/// as its first zone, and the super block is unchanged.
#[verifier::rlimit(100)]
pub proof fn lemma_mkdir_bitmaps(s: Seq<u8>, bs: usize, path: Seq<u8>)
    requires
        s.len() <= usize::MAX,
        spec_mkdir(s, bs, path).0 is Ok,
        mkdir_keeps_parent(s, bs, path),
        mkdir_layout(s, bs, path),
    ensures
        ({
            let t = spec_mkdir(s, bs, path).1;
            let sb = image_super_block(s, bs);
            let fdz = sb.s_firstdatazone as int;
            let p = spec_lookup_iter(s, bs, spec_split_path(path).0)->Ok_0;
            let poff = spec_get_inode(s, bs, p)->Ok_0 as int;
            let n = spec_mkdir(s, bs, path).0->Ok_0;
            let noff = inode_table_start(sb) * bs + (n - 1) * 64;
            let z = zone0_at(t, noff) as int;
            let b1 = 2 * bs + (n - 1) / 8;
            let bit = z - fdz + 1;
            let b2 = (2 + sb.s_imap_blocks) * bs + bit / 8;
            &&& t.len() == s.len()
            &&& bs >= 128
            &&& n >= 1
            &&& spec_get_inode(s, bs, n) == Ok::<usize, Error>(noff as usize)
            &&& agree(s, t, bs as int, bs + SUPER_BLOCK_SIZE)
            &&& image_super_block(t, bs) == sb
            &&& spec_get_inode(s, bs, p) is Ok
            &&& zone0_at(t, poff) == zone0_at(s, poff)
            &&& 2 * bs <= b1 < (2 + sb.s_imap_blocks) * bs
            &&& !bit_is_set(s[b1], (n - 1) % 8)
            &&& z != 0 ==> z >= fdz && 1 <= bit && (2 + sb.s_imap_blocks) * bs <= b2
                < inode_table_start(sb) * bs && !bit_is_set(s[b2], bit % 8)
            &&& forall|i: int|
                2 * bs <= i < inode_table_start(sb) * bs ==> #[trigger] t[i] == (if i == b1 {
                    s[b1] | bit_mask((n - 1) % 8)
                } else if z != 0 && i == b2 {
                    s[b2] | bit_mask(bit % 8)
                } else {
                    s[i]
                })
        }),
{
    lemma_mkdir_steps(s, bs, path);
    let dir = spec_split_path(path).0;
    let name = spec_split_path(path).1;
    let p = spec_lookup_iter(s, bs, dir)->Ok_0;
    let (ar, s1) = spec_alloc_inode(s, bs, DIR_MODE);
    let n = ar->Ok_0;
    let (lr, s2) = spec_link(s1, bs, p, n, name);
    let (zr, s3) = spec_alloc_zone(s2, bs, n);
    let z = zr->Ok_0;
    let zo = z * bs;
    let s4 = write_bytes(s3, zo, dir_entry_bytes(n, dots(1)));
    let s5 = write_bytes(s4, zo + 64, dir_entry_bytes(p, dots(2)));
    let t = spec_mkdir(s, bs, path).1;
    let sb = image_super_block(s, bs);
    let fdz = sb.s_firstdatazone as int;
    let tbl = inode_table_start(sb) * bs;
    let ib = 2 + sb.s_imap_blocks;
    // The inode.
    lemma_alloc_inode_steps(s, bs, DIR_MODE);
    let imax = sb.s_imap_blocks * bs * 8;
    let ii = bit_scan(s, 2 * bs as int, 1, imax, 1);
    assert(n == ii);
    let b1 = 2 * bs + (n - 1) / 8;
    let noff = tbl + (n - 1) * 64;
    let s1a = set_bit(s, b1, (n - 1) % 8);
    assert(s1 == write_bytes(s1a, noff, fresh_inode_bytes(DIR_MODE)));
    assert(tbl == ib * bs + sb.s_zmap_blocks * bs && ib * bs == 2 * bs + sb.s_imap_blocks * bs)
        by (nonlinear_arith)
        requires
            tbl == inode_table_start(sb) * bs,
            inode_table_start(sb) == ib + sb.s_zmap_blocks,
            ib == 2 + sb.s_imap_blocks,
    ;
    assert(sb.s_zmap_blocks * bs >= 0 && sb.s_imap_blocks * bs >= 0) by (nonlinear_arith);
    assert(b1 < ib * bs);
    assert(fdz * bs >= tbl) by (nonlinear_arith)
        requires
            tbl == inode_table_start(sb) * bs,
            fdz >= inode_table_start(sb),
    ;
    assert(spec_get_inode(s, bs, n) == Ok::<usize, Error>(noff as usize));
    // The link.
    assert(agree(s, s1, bs as int, bs + SUPER_BLOCK_SIZE));
    lemma_get_inode_frame(s, s1, bs, p);
    lemma_link_steps(s1, bs, p, n, name);
    let poff = spec_get_inode(s, bs, p)->Ok_0 as int;
    assert(zone0_at(s1, poff) == zone0_at(s, poff)) by {
        assert(s1[poff + 24] == s[poff + 24] && s1[poff + 25] == s[poff + 25] && s1[poff + 26]
            == s[poff + 26] && s1[poff + 27] == s[poff + 27]);
    }
    let base = zone0_at(s, poff) * bs;
    let f = free_entry_scan(s1, base, 0, (bs / 64) as int);
    assert(base >= fdz * bs) by (nonlinear_arith)
        requires
            base == zone0_at(s, poff) * bs,
            zone0_at(s, poff) >= fdz,
    ;
    assert(s2 == write_bytes(s1, base + f * 64, dir_entry_bytes(n, name)));
    assert(agree(s, s2, bs as int, bs + SUPER_BLOCK_SIZE));
    lemma_super_block_frame(s, s2, bs);
    lemma_get_inode_frame(s, s2, bs, n);
    // The zone.
    lemma_alloc_zone_steps(s2, bs, n);
    let zmax = sb.s_zmap_blocks * bs * 8;
    let j = bit_scan(s2, ib * bs, 1, zmax, 0);
    let b2 = ib * bs + j / 8;
    let a = j + fdz - 1;
    let s2z = write_bytes(set_bit(s2, b2, j % 8), noff + 24, u32_bytes(z));
    if j != zmax {
        assert(z == a);
        assert(a * bs >= fdz * bs) by (nonlinear_arith)
            requires
                a >= fdz,
        ;
        assert(b2 < tbl);
        assert(s2[b2] == s[b2]);
    } else {
        assert(z == 0);
    }
    assert(zo >= fdz * bs || zo == 0) by (nonlinear_arith)
        requires
            zo == z * bs,
            z == 0 || z >= fdz,
    ;
    assert(s5.len() == s.len());
    assert(agree(s, s5, bs as int, bs + SUPER_BLOCK_SIZE));
    lemma_get_inode_frame(s, s5, bs, n);
    assert(t == write_bytes(s5, noff + 8, u32_bytes(128)));
    assert(agree(s, t, bs as int, bs + SUPER_BLOCK_SIZE));
    lemma_super_block_frame(s, t, bs);
    // The first zone recorded for `n`.
    if j != zmax {
        crate::layout::lemma_read_after_write_u32(set_bit(s2, b2, j % 8), noff + 24, z);
        assert(t[noff + 24] == s2z[noff + 24] && t[noff + 25] == s2z[noff + 25] && t[noff + 26]
            == s2z[noff + 26] && t[noff + 27] == s2z[noff + 27]);
        assert(zone0_at(t, noff) == z);
    } else {
        assert(t[noff + 24] == 0 && t[noff + 25] == 0 && t[noff + 26] == 0 && t[noff + 27] == 0);
        let x0 = t[noff + 24];
        let x1 = t[noff + 25];
        let x2 = t[noff + 26];
        let x3 = t[noff + 27];
        assert(((x0 as u32) | ((x1 as u32) << 8u32) | ((x2 as u32) << 16u32) | ((x3 as u32)
            << 24u32)) == 0u32) by (bit_vector)
            requires
                x0 == 0 && x1 == 0 && x2 == 0 && x3 == 0,
        ;
        assert(zone0_at(t, noff) == 0);
    }
    assert(zone0_at(t, poff) == zone0_at(s, poff)) by {
        assert(base + f * 64 + 64 <= poff || poff + 64 <= base + f * 64) by (nonlinear_arith)
            requires
                0 <= f < (bs / 64) as int,
                base + (bs / 64) as int * 64 <= poff || poff + 64 <= base,
        ;
        assert(s2[poff + 24] == s1[poff + 24] && s2[poff + 25] == s1[poff + 25] && s2[poff + 26]
            == s1[poff + 26] && s2[poff + 27] == s1[poff + 27]);
        assert(t[poff + 24] == s2[poff + 24] && t[poff + 25] == s2[poff + 25] && t[poff + 26]
            == s2[poff + 26] && t[poff + 27] == s2[poff + 27]);
    }
    assert forall|i: int| 2 * bs <= i < tbl implies #[trigger] t[i] == (if i == b1 {
        s[b1] | bit_mask((n - 1) % 8)
    } else if z != 0 && i == b2 {
        s[b2] | bit_mask(j % 8)
    } else {
        s[i]
    }) by {
        assert(t[i] == s3[i]);
        assert(s2[i] == s1a[i]);
    }
}

/// What making a directory does to the parent's first block: under
/// `mkdir_layout`, and where the zone handed out is not the parent's first
/// zone, the block after it differs from the block before only in its
/// first free entry `f`, which now names the new inode.
#[verifier::rlimit(100)]
proof fn lemma_mkdir_parent_block(s: Seq<u8>, bs: usize, path: Seq<u8>) -> (f: int)
    requires
        s.len() <= usize::MAX,
        spec_mkdir(s, bs, path).0 is Ok,
        mkdir_keeps_parent(s, bs, path),
        mkdir_layout(s, bs, path),
        ({
            let sb = image_super_block(s, bs);
            let n = spec_mkdir(s, bs, path).0->Ok_0;
            let noff = inode_table_start(sb) * bs + (n - 1) * 64;
            let p = spec_lookup_iter(s, bs, spec_split_path(path).0)->Ok_0;
            let poff = spec_get_inode(s, bs, p)->Ok_0 as int;
            zone0_at(spec_mkdir(s, bs, path).1, noff) != zone0_at(s, poff)
        }),
    ensures
        ({
            let t = spec_mkdir(s, bs, path).1;
            let n = spec_mkdir(s, bs, path).0->Ok_0;
            let p = spec_lookup_iter(s, bs, spec_split_path(path).0)->Ok_0;
            let poff = spec_get_inode(s, bs, p)->Ok_0 as int;
            let base = zone0_at(s, poff) * bs;
            let count = (bs / 64) as int;
            &&& f == free_entry_scan(s, base, 0, count)
            &&& 0 <= f < count
            &&& base + count * 64 <= s.len()
            &&& forall|i: int|
                base <= i < base + count * 64 ==> #[trigger] t[i] == (if base + f * 64 <= i < base
                    + f * 64 + 64 {
                    dir_entry_bytes(n, spec_split_path(path).1)[i - base - f * 64]
                } else {
                    s[i]
                })
        }),
{
    lemma_mkdir_bitmaps(s, bs, path);
    lemma_mkdir_steps(s, bs, path);
    let dir = spec_split_path(path).0;
    let name = spec_split_path(path).1;
    let p = spec_lookup_iter(s, bs, dir)->Ok_0;
    let (ar, s1) = spec_alloc_inode(s, bs, DIR_MODE);
    let n = ar->Ok_0;
    let (lr, s2) = spec_link(s1, bs, p, n, name);
    let (zr, s3) = spec_alloc_zone(s2, bs, n);
    let z = zr->Ok_0;
    let zo = z * bs;
    let s4 = write_bytes(s3, zo, dir_entry_bytes(n, dots(1)));
    let s5 = write_bytes(s4, zo + 64, dir_entry_bytes(p, dots(2)));
    let t = spec_mkdir(s, bs, path).1;
    let sb = image_super_block(s, bs);
    let fdz = sb.s_firstdatazone as int;
    let tbl = inode_table_start(sb) * bs;
    let ib = 2 + sb.s_imap_blocks;
    let count = (bs / 64) as int;
    lemma_alloc_inode_steps(s, bs, DIR_MODE);
    let b1 = 2 * bs + (n - 1) / 8;
    let noff = tbl + (n - 1) * 64;
    let s1a = set_bit(s, b1, (n - 1) % 8);
    assert(fdz * bs >= tbl) by (nonlinear_arith)
        requires
            tbl == inode_table_start(sb) * bs,
            fdz >= inode_table_start(sb),
    ;
    assert(tbl >= 2 * bs + sb.s_imap_blocks * bs) by (nonlinear_arith)
        requires
            tbl == inode_table_start(sb) * bs,
            inode_table_start(sb) == ib + sb.s_zmap_blocks,
            ib == 2 + sb.s_imap_blocks,
    ;
    assert(sb.s_zmap_blocks * bs >= 0 && sb.s_imap_blocks * bs >= 0) by (nonlinear_arith);
    lemma_get_inode_frame(s, s1, bs, p);
    lemma_link_steps(s1, bs, p, n, name);
    let poff = spec_get_inode(s, bs, p)->Ok_0 as int;
    let zp = zone0_at(s, poff);
    assert(zone0_at(s1, poff) == zp) by {
        assert(s1[poff + 24] == s[poff + 24] && s1[poff + 25] == s[poff + 25] && s1[poff + 26]
            == s[poff + 26] && s1[poff + 27] == s[poff + 27]);
    }
    let base = zp * bs;
    assert(base >= fdz * bs) by (nonlinear_arith)
        requires
            base == zp * bs,
            zp >= fdz,
    ;
    assert(count * 64 <= bs) by (nonlinear_arith)
        requires
            count == (bs / 64) as int,
    ;
    // The first free entry is the same in `s1` and `s`.
    assert forall|q: int| 0 <= q < count implies #[trigger] entry_inode_at(s1, base + q * 64)
        == entry_inode_at(s, base + q * 64) by {
        assert(q * 64 + 64 <= count * 64) by (nonlinear_arith)
            requires
                q < count,
        ;
        assert(s1[base + q * 64] == s[base + q * 64] && s1[base + q * 64 + 1] == s[base + q * 64
            + 1] && s1[base + q * 64 + 2] == s[base + q * 64 + 2] && s1[base + q * 64 + 3]
            == s[base + q * 64 + 3]);
    }
    crate::fs::laws::lemma_free_entry_scan_agree(s, s1, base, 0, count);
    let f = free_entry_scan(s, base, 0, count);
    assert(s2 == write_bytes(s1, base + f * 64, dir_entry_bytes(n, name)));
    // The new zone's block lies apart from the parent's block.
    let zt = zone0_at(t, noff);
    assert(zt == 0 || zt >= fdz);
    if zt != 0 {
        assert(zt * bs + bs <= base || base + bs <= zt * bs) by (nonlinear_arith)
            requires
                zt != zp,
                base == zp * bs,
                bs >= 0,
        ;
    }
    lemma_alloc_zone_steps(s2, bs, n);
    assert forall|i: int| base <= i < base + count * 64 implies #[trigger] t[i] == (if base + f
        * 64 <= i < base + f * 64 + 64 {
        dir_entry_bytes(n, name)[i - base - f * 64]
    } else {
        s[i]
    }) by {
        assert(t[i] == s2[i]);
        assert(s1[i] == s[i]);
    }
    f
}

/// The record of a made directory whose first zone is `z`: mode
/// directory, size 128, first zone `z`, every other field 0.
pub open spec fn made_dir_record(z: u32) -> Seq<u8> {
    write_bytes(write_bytes(fresh_inode_bytes(DIR_MODE), 8, u32_bytes(128)), 24, u32_bytes(z))
}

/// The first block of a made directory `n` with parent `p`: `.` naming
/// `n`, `..` naming `p`, then zeros.
pub open spec fn made_dir_block(n: u32, p: u32, bs: usize) -> Seq<u8> {
    dir_entry_bytes(n, dots(1)) + dir_entry_bytes(p, dots(2)) + zeros((bs - 128) as nat)
}

/// The byte-level account of the writes that making a directory makes:
/// the bit `k1` of byte `b1`, the record at `noff`, the entry at `slot`,
/// when a zone was found its bit `k2` of byte `b2`, its number in the
/// record and its zeroed block at `zo`, then `.` and `..` at `zo` and the
/// size in the record, all at places apart from one another.
#[verifier::rlimit(100)]
proof fn lemma_mkdir_layers(
    s: Seq<u8>,
    s1: Seq<u8>,
    s2: Seq<u8>,
    s3: Seq<u8>,
    t: Seq<u8>,
    bs: usize,
    b1: int,
    k1: int,
    noff: int,
    slot: int,
    e: Seq<u8>,
    found: bool,
    b2: int,
    k2: int,
    z: u32,
    zo: int,
    e1: Seq<u8>,
    e2: Seq<u8>,
    fb: int,
)
    requires
        128 <= bs,
        2 * bs <= b1 < noff,
        noff + 64 <= fb <= slot,
        slot + 64 <= s.len(),
        e.len() == 64 && e1.len() == 64 && e2.len() == 64,
        s1 == write_bytes(set_bit(s, b1, k1), noff, fresh_inode_bytes(DIR_MODE)),
        s2 == write_bytes(s1, slot, e),
        found ==> {
            &&& b2 != b1
            &&& 2 * bs <= b2 < noff
            &&& fb <= zo
            &&& zo + bs <= s.len()
            &&& s3 == write_bytes(
                write_bytes(set_bit(s2, b2, k2), noff + 24, u32_bytes(z)),
                zo,
                zeros(bs as nat),
            )
        },
        !found ==> z == 0 && zo == 0 && s3 == s2,
        t == write_bytes(
            write_bytes(write_bytes(s3, zo, e1), zo + 64, e2),
            noff + 8,
            u32_bytes(128),
        ),
    ensures
        t.len() == s.len(),
        t.subrange(noff, noff + 64) == made_dir_record(z),
        found ==> t.subrange(zo, zo + bs) == e1 + e2 + zeros((bs - 128) as nat),
        !found ==> t.subrange(0, 128) == e1 + e2,
        (!found || zo + bs <= slot || slot + 64 <= zo) ==> t.subrange(slot, slot + 64) == e,
        t[b1] == s[b1] | bit_mask(k1),
        found ==> t[b2] == s[b2] | bit_mask(k2),
        forall|i: int|
            0 <= i < s.len() && i != b1 && !(found && i == b2) && !(noff <= i < noff + 64) && !(
            slot <= i < slot + 64) && !(zo <= i < zo + (if found { bs as int } else { 128 }))
                ==> #[trigger] t[i] == s[i],
{
    if !found {
        assert(u32_bytes(0) =~= seq![0u8, 0u8, 0u8, 0u8]) by {
            assert((0u32 >> 8u32) == 0u32 && (0u32 >> 16u32) == 0u32 && (0u32 >> 24u32) == 0u32)
                by (bit_vector);
        }
        assert(t.subrange(0, 128) =~= e1 + e2);
    } else {
        let blk = e1 + e2 + zeros((bs - 128) as nat);
        assert forall|q: int| 0 <= q < bs implies #[trigger] t.subrange(zo, zo + bs)[q] == blk[q] by {
            if q < 64 {
                assert(t[zo + q] == e1[q]);
            } else if q < 128 {
                assert(t[zo + q] == e2[q - 64]);
            } else {
                assert(t[zo + q] == s3[zo + q]);
            }
        }
        assert(t.subrange(zo, zo + bs) =~= blk);
    }
    assert(t.subrange(noff, noff + 64) =~= made_dir_record(z));
    if !found || zo + bs <= slot || slot + 64 <= zo {
        assert(t.subrange(slot, slot + 64) =~= e);
    }
}

/// What making a directory does, in closed form.  Under `mkdir_layout`,
/// where making it leaves alone what finding the parent reads: the new
/// inode `n` is the lowest one whose bitmap bit was clear, and that bit is
/// set; the zone
/// `z` is the lowest whose bit was clear (zone 0 when none was, and then
/// no zone bit changes), and that bit is set; `n`'s record is
/// `made_dir_record(z)`; `z`'s block is `made_dir_block` (at the start of
/// the image for zone 0); the parent's first free entry names `n` (where
/// `z` is not the parent's first zone, whose block it would overwrite);
/// and every other byte of the image is as it was.
#[verifier::rlimit(100)]
#[verifier::spinoff_prover]
pub proof fn lemma_mkdir_effect(s: Seq<u8>, bs: usize, path: Seq<u8>)
    requires
        s.len() <= usize::MAX,
        spec_mkdir(s, bs, path).0 is Ok,
        mkdir_keeps_parent(s, bs, path),
        mkdir_layout(s, bs, path),
    ensures
        ({
            let t = spec_mkdir(s, bs, path).1;
            let sb = image_super_block(s, bs);
            let fdz = sb.s_firstdatazone as int;
            let ib = 2 + sb.s_imap_blocks;
            let zmax = sb.s_zmap_blocks * bs * 8;
            let name = spec_split_path(path).1;
            let p = spec_lookup_iter(s, bs, spec_split_path(path).0)->Ok_0;
            let poff = spec_get_inode(s, bs, p)->Ok_0 as int;
            let base = zone0_at(s, poff) * bs;
            let f = free_entry_scan(s, base, 0, (bs / 64) as int);
            let slot = base + f * 64;
            let n = spec_mkdir(s, bs, path).0->Ok_0;
            let noff = inode_table_start(sb) * bs + (n - 1) * 64;
            let z = zone0_at(t, noff) as int;
            let zo = z * bs;
            let zlen = if z != 0 { bs as int } else { 128int };
            let b1 = 2 * bs + (n - 1) / 8;
            let bit = z - fdz + 1;
            let b2 = ib * bs + bit / 8;
            &&& n >= 1
            &&& forall|k: int| 1 <= k < n ==> #[trigger] candidate_taken(s, 2 * bs as int, k, 1)
            &&& !bit_is_set(s[b1], (n - 1) % 8)
            &&& t[b1] == s[b1] | bit_mask((n - 1) % 8)
            &&& z != 0 ==> {
                &&& 1 <= bit < zmax
                &&& forall|k: int| 1 <= k < bit ==> #[trigger] candidate_taken(s, ib * bs, k, 0)
                &&& !bit_is_set(s[b2], bit % 8)
                &&& t[b2] == s[b2] | bit_mask(bit % 8)
                &&& zo + bs <= s.len()
                &&& t.subrange(zo, zo + bs) == made_dir_block(n, p, bs)
            }
            &&& z == 0 ==> {
                &&& forall|k: int| 1 <= k < zmax ==> #[trigger] candidate_taken(s, ib * bs, k, 0)
                &&& t.subrange(0, 128) == dir_entry_bytes(n, dots(1)) + dir_entry_bytes(p, dots(2))
            }
            &&& t.subrange(noff, noff + 64) == made_dir_record(z as u32)
            &&& z != zone0_at(s, poff) ==> t.subrange(slot, slot + 64) == dir_entry_bytes(n, name)
            &&& forall|i: int|
                0 <= i < s.len() && i != b1 && !(z != 0 && i == b2) && !(noff <= i < noff + 64)
                    && !(slot <= i < slot + 64) && !(zo <= i < zo + zlen) ==> #[trigger] t[i]
                    == s[i]
        }),
{
    lemma_mkdir_steps(s, bs, path);
    let dir = spec_split_path(path).0;
    let name = spec_split_path(path).1;
    let p = spec_lookup_iter(s, bs, dir)->Ok_0;
    let (ar, s1) = spec_alloc_inode(s, bs, DIR_MODE);
    let n = ar->Ok_0;
    let (lr, s2) = spec_link(s1, bs, p, n, name);
    let (zr, s3) = spec_alloc_zone(s2, bs, n);
    let z = zr->Ok_0;
    let zo = z * bs;
    let t = spec_mkdir(s, bs, path).1;
    let sb = image_super_block(s, bs);
    let fdz = sb.s_firstdatazone as int;
    let tbl = inode_table_start(sb) * bs;
    let ib = 2 + sb.s_imap_blocks;
    let count = (bs / 64) as int;
    let zmax = sb.s_zmap_blocks * bs * 8;
    lemma_alloc_inode_effect(s, bs, DIR_MODE);
    lemma_alloc_inode_steps(s, bs, DIR_MODE);
    let b1 = 2 * bs + (n - 1) / 8;
    let noff = tbl + (n - 1) * 64;
    assert(fdz * bs >= tbl) by (nonlinear_arith)
        requires
            tbl == inode_table_start(sb) * bs,
            fdz >= inode_table_start(sb),
    ;
    assert(tbl == ib * bs + sb.s_zmap_blocks * bs && ib * bs == 2 * bs + sb.s_imap_blocks * bs)
        by (nonlinear_arith)
        requires
            tbl == inode_table_start(sb) * bs,
            inode_table_start(sb) == ib + sb.s_zmap_blocks,
            ib == 2 + sb.s_imap_blocks,
    ;
    assert(sb.s_zmap_blocks * bs >= 0 && sb.s_imap_blocks * bs >= 0) by (nonlinear_arith);
    assert(agree(s, s1, bs as int, bs + SUPER_BLOCK_SIZE));
    lemma_get_inode_frame(s, s1, bs, p);
    lemma_link_steps(s1, bs, p, n, name);
    let poff = spec_get_inode(s, bs, p)->Ok_0 as int;
    let zp = zone0_at(s, poff);
    assert(zone0_at(s1, poff) == zp) by {
        assert(s1[poff + 24] == s[poff + 24] && s1[poff + 25] == s[poff + 25] && s1[poff + 26]
            == s[poff + 26] && s1[poff + 27] == s[poff + 27]);
    }
    let base = zp * bs;
    assert(base >= fdz * bs) by (nonlinear_arith)
        requires
            base == zp * bs,
            zp >= fdz,
    ;
    assert(count * 64 <= bs) by (nonlinear_arith)
        requires
            count == (bs / 64) as int,
    ;
    assert forall|q: int| 0 <= q < count implies #[trigger] entry_inode_at(s1, base + q * 64)
        == entry_inode_at(s, base + q * 64) by {
        assert(q * 64 + 64 <= count * 64) by (nonlinear_arith)
            requires
                q < count,
        ;
        assert(s1[base + q * 64] == s[base + q * 64] && s1[base + q * 64 + 1] == s[base + q * 64
            + 1] && s1[base + q * 64 + 2] == s[base + q * 64 + 2] && s1[base + q * 64 + 3]
            == s[base + q * 64 + 3]);
    }
    crate::fs::laws::lemma_free_entry_scan_agree(s, s1, base, 0, count);
    let f = free_entry_scan(s, base, 0, count);
    let slot = base + f * 64;
    assert(slot + 64 <= base + count * 64) by (nonlinear_arith)
        requires
            0 <= f < count,
            slot == base + f * 64,
    ;
    assert(s2 == write_bytes(s1, slot, dir_entry_bytes(n, name)));
    assert(agree(s, s2, bs as int, bs + SUPER_BLOCK_SIZE));
    lemma_super_block_frame(s, s2, bs);
    lemma_get_inode_frame(s, s2, bs, n);
    lemma_alloc_zone_effect(s2, bs, n);
    lemma_alloc_zone_steps(s2, bs, n);
    let j = bit_scan(s2, ib * bs, 1, zmax, 0);
    let a = j + fdz - 1;
    let b2 = ib * bs + j / 8;
    // The zone bitmap of `s2` is that of `s`.
    assert forall|k: int| 1 <= k < zmax && candidate_taken(s2, ib * bs, k, 0) implies
        #[trigger] candidate_taken(s, ib * bs, k, 0) by {
        assert(k / 8 < sb.s_zmap_blocks * bs);
        assert(s2[ib * bs + k / 8] == s[ib * bs + k / 8]);
    }
    let found = j != zmax;
    if found {
        assert(z == a);
        assert(a * bs >= fdz * bs) by (nonlinear_arith)
            requires
                a >= fdz,
        ;
        let s2z = write_bytes(set_bit(s2, b2, j % 8), noff + 24, u32_bytes(z));
        assert(zone0_at(t, noff) == z) by {
            crate::layout::lemma_read_after_write_u32(set_bit(s2, b2, j % 8), noff + 24, z);
            assert(t[noff + 24] == s2z[noff + 24] && t[noff + 25] == s2z[noff + 25] && t[noff
                + 26] == s2z[noff + 26] && t[noff + 27] == s2z[noff + 27]);
        }
        if z != zp {
            assert(zo + bs <= base || base + bs <= zo) by (nonlinear_arith)
                requires
                    z != zp,
                    zo == z * bs,
                    base == zp * bs,
                    bs >= 0,
            ;
        }
        assert(s2[b2] == s[b2]);
        assert(b2 < tbl);
    }
    let e1 = dir_entry_bytes(n, dots(1));
    let e2 = dir_entry_bytes(p, dots(2));
    crate::fs::minix::lemma_dir_entry_roundtrip(n, dots(1));
    crate::fs::minix::lemma_dir_entry_roundtrip(p, dots(2));
    crate::fs::minix::lemma_dir_entry_roundtrip(n, seq![46u8]);
    assert(dir_entry_bytes(n, name).len() == 64);
    lemma_mkdir_layers(
        s,
        s1,
        s2,
        s3,
        t,
        bs,
        b1,
        (n - 1) % 8,
        noff,
        slot,
        dir_entry_bytes(n, name),
        found,
        b2,
        j % 8,
        z,
        zo,
        e1,
        e2,
        fdz * bs,
    );
    assert(zone0_at(t, noff) == z) by {
        assert(t.subrange(noff, noff + 64) == made_dir_record(z));
        crate::layout::lemma_read_after_write_u32(
            write_bytes(fresh_inode_bytes(DIR_MODE), 8, u32_bytes(128)),
            24,
            z,
        );
        assert(t[noff + 24] == made_dir_record(z)[24] && t[noff + 25] == made_dir_record(z)[25]
            && t[noff + 26] == made_dir_record(z)[26] && t[noff + 27] == made_dir_record(z)[27]);
    }
}

/// A scan over entries that all refer to no inode finds none in use.
proof fn lemma_live_scan_unused(t: Seq<u8>, base: int, k: int, count: int)
    requires
        0 <= k <= count,
        forall|q: int| k <= q < count ==> #[trigger] entry_inode_at(t, base + q * 64) == 0,
    ensures
        live_entry_scan(t, base, k, count) == count,
    decreases count - k,
{
    if k < count {
        assert(entry_inode_at(t, base + k * 64) == 0);
        lemma_live_scan_unused(t, base, k + 1, count);
    }
}

/// The first block of a made directory holds no entry in use other than
/// `.` and `..`.
proof fn lemma_made_block_unused(t: Seq<u8>, zo: int, bs: usize, n: u32, p: u32)
    requires
        0 <= zo,
        bs >= 128,
        zo + bs <= t.len(),
        t.subrange(zo, zo + bs) == made_dir_block(n, p, bs),
    ensures
        !dir_block_in_use(t, zo, (bs / 64) as int),
{
    let blk = made_dir_block(n, p, bs);
    let e1 = dir_entry_bytes(n, dots(1));
    let e2 = dir_entry_bytes(p, dots(2));
    crate::fs::minix::lemma_dir_entry_roundtrip(n, dots(1));
    crate::fs::minix::lemma_dir_entry_roundtrip(p, dots(2));
    let count = (bs / 64) as int;
    assert(count >= 2 && count * 64 <= bs) by (nonlinear_arith)
        requires
            count == (bs / 64) as int,
            bs >= 128,
    ;
    assert(t.subrange(zo + 4, zo + 64) =~= e1.subrange(4, 64)) by {
        assert forall|q: int| 0 <= q < 60 implies t.subrange(zo + 4, zo + 64)[q] == e1.subrange(
            4,
            64,
        )[q] by {
            assert(t[zo + 4 + q] == blk[4 + q]);
        }
    }
    assert(entry_name_at(t, zo) == dots(1));
    assert(t.subrange(zo + 68, zo + 128) =~= e2.subrange(4, 64)) by {
        assert forall|q: int| 0 <= q < 60 implies t.subrange(zo + 68, zo + 128)[q] == e2.subrange(
            4,
            64,
        )[q] by {
            assert(t[zo + 68 + q] == blk[68 + q]);
        }
    }
    assert(entry_name_at(t, zo + 64) == dots(2));
    assert forall|q: int| 2 <= q < count implies #[trigger] entry_inode_at(t, zo + q * 64) == 0 by {
        assert(q * 64 + 64 <= count * 64) by (nonlinear_arith)
            requires
                q < count,
        ;
        let x0 = t[zo + q * 64];
        let x1 = t[zo + q * 64 + 1];
        let x2 = t[zo + q * 64 + 2];
        let x3 = t[zo + q * 64 + 3];
        assert(x0 == blk[q * 64] && x1 == blk[q * 64 + 1] && x2 == blk[q * 64 + 2] && x3 == blk[q
            * 64 + 3]);
        assert(x0 == 0 && x1 == 0 && x2 == 0 && x3 == 0);
        assert(((x0 as u32) | ((x1 as u32) << 8u32) | ((x2 as u32) << 16u32) | ((x3 as u32)
            << 24u32)) == 0u32) by (bit_vector)
            requires
                x0 == 0 && x1 == 0 && x2 == 0 && x3 == 0,
        ;
    }
    lemma_live_scan_unused(t, zo, 2, count);
    assert(live_entry_scan(t, zo, 1, count) == count);
    assert(live_entry_scan(t, zo, 0, count) == count);
}

/// A deletion succeeds when each of its checks passes: the path resolves
/// to an inode `n` whose record is found, a directory's block in the image
/// holds no entry in use besides `.` and `..`, the bitmap bytes to clear
/// lie in the image, and, after clearing, the parent resolves to an inode
/// other than 0 with a first zone whose block lies in the image.
#[verifier::rlimit(100)]
proof fn lemma_delete_ok(t: Seq<u8>, bs: usize, path: Seq<u8>, n: u32, noff: usize, p: u32, poff: usize)
    requires
        t.len() <= usize::MAX,
        bs + SUPER_BLOCK_SIZE <= t.len(),
        spec_lookup_iter(t, bs, path) == Ok::<u32, Error>(n),
        n >= 1,
        spec_get_inode(t, bs, n) == Ok::<usize, Error>(noff),
        2 * bs + (n - 1) / 8 < t.len(),
        ({
            let sb = image_super_block(t, bs);
            let z = zone0_at(t, noff as int);
            let fdz = sb.s_firstdatazone as int;
            z != 0 ==> {
                &&& z * bs + bs <= t.len()
                &&& (is_dir_mode(mode_at(t, noff as int)) ==> !dir_block_in_use(
                    t,
                    z * bs,
                    (bs / 64) as int,
                ))
                &&& z >= fdz >= 1
                &&& (2 + sb.s_imap_blocks) * bs + (z - fdz + 1) / 8 < t.len()
            }
        }),
        ({
            let s3 = delete_cleared(t, bs, path);
            let dir = spec_split_path(path).0;
            &&& p != 0
            &&& (dir == seq![SLASH] ==> p == 1)
            &&& (dir != seq![SLASH] ==> spec_lookup_iter(s3, bs, dir) == Ok::<u32, Error>(p))
            &&& spec_get_inode(s3, bs, p) == Ok::<usize, Error>(poff)
            &&& zone0_at(s3, poff as int) != 0
            &&& zone0_at(s3, poff as int) * bs + (bs / 64) as int * 64 <= t.len()
        }),
    ensures
        spec_delete(t, bs, path).0 is Ok,
{
    reveal(spec_delete);
    reveal(crate::fs::minix::spec_unlink);
    reveal(crate::fs::minix::spec_unlink_parent);
    let z = zone0_at(t, noff as int);
    assert(z * bs >= 0) by (nonlinear_arith);
    let sb = image_super_block(t, bs);
    let dir = spec_split_path(path).0;
    let name = spec_split_path(path).1;
    let s1 = if z != 0 {
        let zo = z * bs;
        let sa = if zo + bs <= t.len() {
            write_bytes(t, zo, zeros(bs as nat))
        } else {
            t
        };
        write_bytes(write_bytes(sa, noff + 24, u32_bytes(0)), noff + 8, u32_bytes(0))
    } else {
        t
    };
    let s3 = delete_cleared(t, bs, path);
    assert(s3.len() == t.len());
    let pr = if dir == seq![SLASH] {
        Ok::<u32, Error>(1u32)
    } else {
        spec_lookup_iter(s3, bs, dir)
    };
    assert(pr == Ok::<u32, Error>(p));
    let pz = zone0_at(s3, poff as int);
    assert(pz != 0);
    assert(!(pz * bs + (bs / 64) as int * 64 > s3.len()));
    assert(spec_get_inode(s3, bs, p) == Ok::<usize, Error>(poff));
    assert(spec_unlink_parent(s3, bs, n, dir, name) == (
        Ok::<(), Error>(()),
        crate::fs::minix::spec_remove_entry(s3, pz * bs, (bs / 64) as int, n, name),
    )) by {
        reveal(spec_unlink_parent);
    }
    assert(spec_unlink(s1, bs, sb, n, z, dir, name).0 is Ok);
}

/// Deleting a directory right after making it succeeds, where the name was
/// new in its parent and fits an entry, the image has the layout of
/// `mkdir_layout`, and making and deleting leave alone what finding the
/// parent reads (`mkdir_keeps_parent`, `delete_keeps_parent`).
#[verifier::rlimit(100)]
#[verifier::spinoff_prover]
pub proof fn lemma_delete_after_mkdir_succeeds(s: Seq<u8>, bs: usize, path: Seq<u8>)
    requires
        s.len() <= usize::MAX,
        spec_mkdir(s, bs, path).0 is Ok,
        name_fits(spec_split_path(path).1),
        spec_lookup_iter(s, bs, path) == Err::<u32, Error>(Error::LookupFailed),
        mkdir_keeps_parent(s, bs, path),
        mkdir_layout(s, bs, path),
        delete_keeps_parent(spec_mkdir(s, bs, path).1, bs, path),
    ensures
        spec_delete(spec_mkdir(s, bs, path).1, bs, path).0 is Ok,
{
    let t = spec_mkdir(s, bs, path).1;
    let dir = spec_split_path(path).0;
    let name = spec_split_path(path).1;
    let p = spec_lookup_iter(s, bs, dir)->Ok_0;
    let n = spec_mkdir(s, bs, path).0->Ok_0;
    let sb = image_super_block(s, bs);
    let fdz = sb.s_firstdatazone as int;
    let tbl = inode_table_start(sb) * bs;
    let noff = tbl + (n - 1) * 64;
    let z = zone0_at(t, noff);
    let zo = z * bs;
    let count = (bs / 64) as int;
    let poff = spec_get_inode(s, bs, p)->Ok_0 as int;
    let ib = 2 + sb.s_imap_blocks;
    assert({
        &&& t.len() == s.len()
        &&& bs >= 128
        &&& n >= 1
        &&& spec_get_inode(s, bs, n) == Ok::<usize, Error>(noff as usize)
        &&& agree(s, t, bs as int, bs + SUPER_BLOCK_SIZE)
        &&& image_super_block(t, bs) == sb
        &&& spec_get_inode(s, bs, p) is Ok
        &&& zone0_at(t, poff) == zone0_at(s, poff)
        &&& 2 * bs + (n - 1) / 8 < ib * bs
        &&& (z != 0 ==> z >= fdz && ib * bs + (z - fdz + 1) / 8 < tbl)
    }) by {
        lemma_mkdir_bitmaps(s, bs, path);
    }
    assert({
        &&& t.subrange(noff, noff + 64) == made_dir_record(z)
        &&& (z != 0 ==> zo + bs <= s.len() && t.subrange(zo, zo + bs) == made_dir_block(n, p, bs))
    }) by {
        lemma_mkdir_effect(s, bs, path);
    }
    assert(spec_lookup_iter(t, bs, path) == Ok::<u32, Error>(n)) by {
        lemma_lookup_after_mkdir(s, bs, path);
    }
    assert(tbl + (n - 1) * 64 + 64 <= fdz * bs);
    assert(fdz * bs >= tbl) by (nonlinear_arith)
        requires
            tbl == inode_table_start(sb) * bs,
            fdz >= inode_table_start(sb),
    ;
    assert(tbl <= s.len()) by {
        assert(spec_get_inode(s, bs, n) is Ok);
    }
    assert(zone0_at(s, poff) >= fdz);
    assert(ib * bs <= tbl) by (nonlinear_arith)
        requires
            tbl == inode_table_start(sb) * bs,
            inode_table_start(sb) == ib + sb.s_zmap_blocks,
            sb.s_zmap_blocks >= 0,
    ;
    // The parent's block lies in the image.
    assert(zone0_at(s, poff) * bs + count * 64 <= s.len()) by {
        lemma_mkdir_steps(s, bs, path);
        let (ar, s1) = spec_alloc_inode(s, bs, DIR_MODE);
        crate::fs::minix::lemma_alloc_inode_len(s, bs, DIR_MODE);
        lemma_get_inode_frame(s, s1, bs, p);
        lemma_link_steps(s1, bs, p, n, name);
        assert(zone0_at(s1, poff) == zone0_at(s, poff)) by {
            assert(s1[poff + 24] == s[poff + 24] && s1[poff + 25] == s[poff + 25] && s1[poff + 26]
                == s[poff + 26] && s1[poff + 27] == s[poff + 27]);
        }
    }
    // The new inode is a directory whose block holds only `.` and `..`.
    lemma_get_inode_frame(s, t, bs, n);
    assert(mode_at(t, noff) == DIR_MODE) by {
        let r = made_dir_record(z);
        assert(t[noff] == r[0] && t[noff + 1] == r[1]);
        crate::layout::lemma_read_after_write_u16(t, noff, DIR_MODE);
        let w = write_bytes(t, noff, crate::layout::u16_bytes(DIR_MODE));
        assert(w[noff] == t[noff] && w[noff + 1] == t[noff + 1]);
    }
    if z != 0 {
        assert(zo >= 0) by (nonlinear_arith)
            requires
                zo == z * bs,
        ;
        lemma_made_block_unused(t, zo, bs, n, p);
    }
    // What finding the parent reads is kept up to the removal.
    assert(spec_lookup_iter(s, bs, dir) is Ok) by {
        lemma_mkdir_steps(s, bs, path);
    }
    assert(spec_lookup_iter(t, bs, dir) == spec_lookup_iter(s, bs, dir)) by {
        lemma_walk_frame(s, t, bs, 1, path_segments(dir));
    }
    let s3 = delete_cleared(t, bs, path);
    assert(spec_lookup_iter(s3, bs, dir) == Ok::<u32, Error>(p)) by {
        lemma_walk_frame(s, t, bs, 1, path_segments(dir));
        lemma_walk_frame(t, s3, bs, 1, path_segments(dir));
    }
    lemma_get_inode_frame(s, t, bs, p);
    lemma_get_inode_frame(t, s3, bs, p);
    assert(zone0_at(s3, poff) == zone0_at(t, poff)) by {
        assert(s3[poff + 24] == t[poff + 24] && s3[poff + 25] == t[poff + 25] && s3[poff + 26]
            == t[poff + 26] && s3[poff + 27] == t[poff + 27]);
    }
    let root = seq![SLASH];
    assert(dir == root ==> p == 1) by {
        assert(crate::path::segments_from(root, 1) == Seq::<Seq<u8>>::empty());
        assert(path_segments(root) == Seq::<Seq<u8>>::empty());
        reveal_with_fuel(crate::fs::minix::walk, 1);
    }
    assert(p != 0) by {
        lemma_mkdir_steps(s, bs, path);
    }
    lemma_delete_ok(t, bs, path, n, noff as usize, p, poff as usize);
}

/// Setting a clear bit and clearing it again gives the byte back.
proof fn lemma_set_then_clear(x: u8, m: u8)
    requires
        x & m == 0,
    ensures
        (x | m) & !m == x,
{
    assert((x | m) & !m == x) by (bit_vector)
        requires
            x & m == 0,
    ;
}

/// The inode and zone bitmaps, blocks `2` up to the inode table, are the
/// same in `s` and `t`.
pub open spec fn bitmaps_agree(s: Seq<u8>, t: Seq<u8>, bs: usize) -> bool {
    agree(s, t, 2 * bs as int, inode_table_start(image_super_block(s, bs)) * bs)
}

/// Deleting a directory right after making it succeeds and undoes the
/// allocation: the inode and zone bitmaps are as they were before, and the
/// path no longer resolves.  This holds where the name was new in its
/// parent and fits an entry, the image has the layout of `mkdir_layout`,
/// and making and deleting leave alone what finding the parent reads
/// (`mkdir_keeps_parent`, `delete_keeps_parent`).
#[verifier::rlimit(100)]
pub proof fn lemma_delete_after_mkdir(s: Seq<u8>, bs: usize, path: Seq<u8>)
    requires
        s.len() <= usize::MAX,
        spec_mkdir(s, bs, path).0 is Ok,
        name_fits(spec_split_path(path).1),
        spec_lookup_iter(s, bs, path) == Err::<u32, Error>(Error::LookupFailed),
        mkdir_keeps_parent(s, bs, path),
        mkdir_layout(s, bs, path),
        delete_keeps_parent(spec_mkdir(s, bs, path).1, bs, path),
    ensures
        spec_delete(spec_mkdir(s, bs, path).1, bs, path).0 is Ok,
        bitmaps_agree(s, spec_delete(spec_mkdir(s, bs, path).1, bs, path).1, bs),
        spec_lookup_iter(spec_delete(spec_mkdir(s, bs, path).1, bs, path).1, bs, path) == Err::<
            u32,
            Error,
        >(Error::LookupFailed),
{
    lemma_delete_after_mkdir_succeeds(s, bs, path);
    let t = spec_mkdir(s, bs, path).1;
    let u = spec_delete(t, bs, path).1;
    lemma_mkdir_bitmaps(s, bs, path);
    lemma_lookup_after_mkdir(s, bs, path);
    lemma_lookup_after_delete(t, bs, path);
    let k = lemma_delete_shape(t, bs, path);
    let sb = image_super_block(s, bs);
    let fdz = sb.s_firstdatazone as int;
    let tbl = inode_table_start(sb) * bs;
    let dir = spec_split_path(path).0;
    let n = spec_mkdir(s, bs, path).0->Ok_0;
    let noff = tbl + (n - 1) * 64;
    let z = zone0_at(t, noff) as int;
    let b1 = 2 * bs + (n - 1) / 8;
    let bit = z - fdz + 1;
    let b2 = (2 + sb.s_imap_blocks) * bs + bit / 8;
    // The parent's first block lies among the data zones in `t` too.
    lemma_walk_frame(s, t, bs, 1, path_segments(dir));
    let p = spec_lookup_iter(s, bs, dir)->Ok_0;
    lemma_get_inode_frame(s, t, bs, p);
    let poff = spec_get_inode(s, bs, p)->Ok_0 as int;
    let base = zone0_at(t, poff) * bs;
    assert(fdz * bs >= tbl) by (nonlinear_arith)
        requires
            tbl == inode_table_start(sb) * bs,
            fdz >= inode_table_start(sb),
    ;
    assert(base >= fdz * bs) by (nonlinear_arith)
        requires
            base == zone0_at(t, poff) * bs,
            zone0_at(t, poff) >= fdz,
    ;
    // The steps of the deletion before the entry goes.
    lemma_get_inode_frame(s, t, bs, n);
    assert(spec_lookup_iter(t, bs, path) == Ok::<u32, Error>(n));
    assert(spec_get_inode(t, bs, n) == Ok::<usize, Error>(noff as usize));
    assert(z == 0 || z * bs >= fdz * bs) by (nonlinear_arith)
        requires
            z == 0 || z >= fdz,
    ;
    let dc = delete_cleared(t, bs, path);
    let tz = if z != 0 {
        let zo = z * bs;
        let sa = if zo + bs <= t.len() {
            write_bytes(t, zo, zeros(bs as nat))
        } else {
            t
        };
        write_bytes(write_bytes(sa, noff + 24, u32_bytes(0)), noff + 8, u32_bytes(0))
    } else {
        t
    };
    let tc = clear_bit(tz, b1, (n - 1) % 8);
    assert(dc == (if z > 0 {
        clear_bit(tc, b2, bit % 8)
    } else {
        tc
    }));
    assert(u == write_bytes(dc, base + k * 64, zeros(64)));
    lemma_set_then_clear(s[b1], bit_mask((n - 1) % 8));
    if z != 0 {
        lemma_set_then_clear(s[b2], bit_mask(bit % 8));
    }
    assert forall|i: int| 2 * bs <= i < tbl && 0 <= i < s.len() implies #[trigger] s[i] == u[i] by {
        assert(u[i] == dc[i]);
        assert(tz[i] == t[i]);
    }
}

/// Deleting a directory right after making it gives the parent's first
/// block back as it was, under the conditions of `lemma_delete_after_mkdir`
/// and where, in addition, no entry of that block had the name, its first
/// free entry was all zero bytes, and the zone handed out to the new
/// directory is not the parent's first zone.
#[verifier::rlimit(100)]
pub proof fn lemma_delete_after_mkdir_parent_block(s: Seq<u8>, bs: usize, path: Seq<u8>)
    requires
        s.len() <= usize::MAX,
        spec_mkdir(s, bs, path).0 is Ok,
        name_fits(spec_split_path(path).1),
        spec_lookup_iter(s, bs, path) == Err::<u32, Error>(Error::LookupFailed),
        mkdir_keeps_parent(s, bs, path),
        mkdir_layout(s, bs, path),
        delete_keeps_parent(spec_mkdir(s, bs, path).1, bs, path),
        ({
            let sb = image_super_block(s, bs);
            let n = spec_mkdir(s, bs, path).0->Ok_0;
            let noff = inode_table_start(sb) * bs + (n - 1) * 64;
            let p = spec_lookup_iter(s, bs, spec_split_path(path).0)->Ok_0;
            let poff = spec_get_inode(s, bs, p)->Ok_0 as int;
            let base = zone0_at(s, poff) * bs;
            let count = (bs / 64) as int;
            let f = free_entry_scan(s, base, 0, count);
            &&& zone0_at(spec_mkdir(s, bs, path).1, noff) != zone0_at(s, poff)
            &&& forall|j: int|
                0 <= j < count ==> #[trigger] entry_name_at(s, base + j * 64)
                    != spec_split_path(path).1
            &&& forall|q: int| 0 <= q < 64 ==> #[trigger] s[base + f * 64 + q] == 0
        }),
    ensures
        ({
            let p = spec_lookup_iter(s, bs, spec_split_path(path).0)->Ok_0;
            let poff = spec_get_inode(s, bs, p)->Ok_0 as int;
            let base = zone0_at(s, poff) * bs;
            agree(
                s,
                spec_delete(spec_mkdir(s, bs, path).1, bs, path).1,
                base,
                base + (bs / 64) as int * 64,
            )
        }),
{
    lemma_delete_after_mkdir_succeeds(s, bs, path);
    let t = spec_mkdir(s, bs, path).1;
    let u = spec_delete(t, bs, path).1;
    lemma_mkdir_bitmaps(s, bs, path);
    let f = lemma_mkdir_parent_block(s, bs, path);
    lemma_lookup_after_mkdir(s, bs, path);
    let k = lemma_delete_shape(t, bs, path);
    let sb = image_super_block(s, bs);
    let fdz = sb.s_firstdatazone as int;
    let tbl = inode_table_start(sb) * bs;
    let dir = spec_split_path(path).0;
    let name = spec_split_path(path).1;
    let n = spec_mkdir(s, bs, path).0->Ok_0;
    let noff = tbl + (n - 1) * 64;
    let z = zone0_at(t, noff) as int;
    let b1 = 2 * bs + (n - 1) / 8;
    let bit = z - fdz + 1;
    let b2 = (2 + sb.s_imap_blocks) * bs + bit / 8;
    let count = (bs / 64) as int;
    lemma_walk_frame(s, t, bs, 1, path_segments(dir));
    let p = spec_lookup_iter(s, bs, dir)->Ok_0;
    lemma_get_inode_frame(s, t, bs, p);
    let poff = spec_get_inode(s, bs, p)->Ok_0 as int;
    let zp = zone0_at(s, poff);
    let base = zp * bs;
    assert(fdz * bs >= tbl) by (nonlinear_arith)
        requires
            tbl == inode_table_start(sb) * bs,
            fdz >= inode_table_start(sb),
    ;
    assert(base >= fdz * bs) by (nonlinear_arith)
        requires
            base == zp * bs,
            zp >= fdz,
    ;
    assert(count * 64 <= bs) by (nonlinear_arith)
        requires
            count == (bs / 64) as int,
    ;
    // The entry the deletion removes is the one the link wrote.
    assert(k == f) by {
        if k != f {
            let off = base + k * 64;
            assert(k * 64 + 64 <= count * 64 && (k < f ==> k * 64 + 64 <= f * 64) && (f < k
                ==> f * 64 + 64 <= k * 64)) by (nonlinear_arith)
                requires
                    0 <= k < count,
                    0 <= f < count,
                    k != f,
            ;
            assert(t.subrange(off + 4, off + 64) =~= s.subrange(off + 4, off + 64));
            assert(entry_name_at(t, off) == entry_name_at(s, off));
        }
    }
    // The steps of the deletion before the entry goes leave the block alone.
    lemma_get_inode_frame(s, t, bs, n);
    assert(z == 0 || z >= fdz);
    if z != 0 {
        assert(z * bs + bs <= base || base + bs <= z * bs) by (nonlinear_arith)
            requires
                z != zp,
                base == zp * bs,
                bs >= 0,
        ;
    }
    let dc = delete_cleared(t, bs, path);
    let tz = if z != 0 {
        let zo = z * bs;
        let sa = if zo + bs <= t.len() {
            write_bytes(t, zo, zeros(bs as nat))
        } else {
            t
        };
        write_bytes(write_bytes(sa, noff + 24, u32_bytes(0)), noff + 8, u32_bytes(0))
    } else {
        t
    };
    let tc = clear_bit(tz, b1, (n - 1) % 8);
    assert(dc == (if z > 0 {
        clear_bit(tc, b2, bit % 8)
    } else {
        tc
    }));
    assert(u == write_bytes(dc, base + k * 64, zeros(64)));
    assert forall|i: int| base <= i < base + count * 64 && 0 <= i < s.len() implies #[trigger] s[i]
        == u[i] by {
        assert(dc[i] == tz[i]);
        assert(tz[i] == t[i]);
        if base + f * 64 <= i < base + f * 64 + 64 {
            assert(s[base + f * 64 + (i - base - f * 64)] == 0);
        }
    }
}

} // verus!
