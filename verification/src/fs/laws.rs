//! Laws of the Minix v3 operations: what path resolution depends on,
//! what a read gives back after a write, and that a created file or
//! directory can be found and a deleted one cannot.
use vstd::prelude::*;
use crate::error::Error;
use crate::fs::minix::{
    bit_scan, clear_bit, dir_entry_bytes, dir_scan, entry_inode_at, entry_name_at,
    free_entry_scan, image_super_block, is_dir_mode, lemma_alloc_inode_len,
    lemma_dir_entry_roundtrip, lemma_free_entry_scan_range, lemma_super_block_at_subrange, mode_at,
    named_entry_scan, set_bit, size_at, spec_alloc_inode, spec_alloc_zone, spec_create_file,
    spec_delete, spec_get_inode, spec_link, spec_lookup, spec_lookup_iter, spec_mkdir, spec_read,
    spec_unlink, spec_unlink_parent, spec_write, walk, write_zone, zone0_at, dir_block_in_use,
    DIR_MODE, SUPER_BLOCK_SIZE, dots, spec_tree, spec_tree_entries,
};
use crate::layout::{lemma_read_after_write_u32, u32_bytes, write_bytes, zeros};
use crate::minixv3::{spec_read_in_band, spec_write_in_band};
use crate::path::{last_slash, lemma_split_segments, path_segments, spec_split_path, SLASH};

verus! {

/// `s` and `t` have the same bytes in `lo..hi` (as far as `s` reaches).
pub open spec fn agree(s: Seq<u8>, t: Seq<u8>, lo: int, hi: int) -> bool {
    forall|i: int| lo <= i < hi && 0 <= i < s.len() ==> #[trigger] s[i] == t[i]
}

/// `t` has the length of `s` and the same bytes in every place that
/// resolving the components `segs` from inode `cur` in `s` reads: the
/// super block, and for every directory passed its mode, its first zone
/// and the entries of that zone's block.
pub open spec fn walk_reads_agree(s: Seq<u8>, t: Seq<u8>, bs: usize, cur: u32, segs: Seq<
    Seq<u8>,
>) -> bool
    decreases segs.len(),
{
    &&& s.len() == t.len()
    &&& agree(s, t, bs as int, bs + SUPER_BLOCK_SIZE)
    &&& segs.len() > 0 ==> match spec_get_inode(s, bs, cur) {
        Err(_) => true,
        Ok(off) => {
            let zb = zone0_at(s, off as int) * bs;
            &&& agree(s, t, off as int, off + 2)
            &&& agree(s, t, off + 24, off + 28)
            &&& agree(s, t, zb, zb + (bs / 64) * 64)
            &&& match spec_lookup(mode_at(s, off as int), zone0_at(s, off as int), segs[0], s, bs) {
                Err(_) => true,
                Ok(next) => walk_reads_agree(s, t, bs, next, segs.drop_first()),
            }
        },
    }
}

/// Where the inode records are found depends only on the super block.
pub proof fn lemma_get_inode_frame(s: Seq<u8>, t: Seq<u8>, bs: usize, n: u32)
    requires
        s.len() == t.len(),
        agree(s, t, bs as int, bs + SUPER_BLOCK_SIZE),
    ensures
        spec_get_inode(t, bs, n) == spec_get_inode(s, bs, n),
{
    if bs + SUPER_BLOCK_SIZE <= s.len() {
        assert(s.subrange(bs as int, bs + 31) =~= t.subrange(bs as int, bs + 31));
        lemma_super_block_at_subrange(s, bs as int);
        lemma_super_block_at_subrange(t, bs as int);
        assert(image_super_block(s, bs) == image_super_block(t, bs));
    }
}

/// Scanning a directory block depends only on the bytes of that block.
pub proof fn lemma_dir_scan_frame(s: Seq<u8>, t: Seq<u8>, base: int, i: int, count: int, name: Seq<u8>)
    requires
        s.len() == t.len(),
        0 <= i,
        0 <= base,
        agree(s, t, base, base + count * 64),
    ensures
        dir_scan(t, base, i, count, name) == dir_scan(s, base, i, count, name),
    decreases count - i,
{
    if i < count && base + i * 64 + 64 <= s.len() {
        let off = base + i * 64;
        assert(s.subrange(off, off + 64) =~= t.subrange(off, off + 64)) by {
            assert forall|k: int| 0 <= k < 64 implies #[trigger] s.subrange(off, off + 64)[k]
                == t.subrange(off, off + 64)[k] by {
                assert(s[off + k] == t[off + k]);
            }
        }
        assert(entry_name_at(s, off) == entry_name_at(t, off)) by {
            assert(s.subrange(off + 4, off + 64) =~= s.subrange(off, off + 64).subrange(4, 64));
            assert(t.subrange(off + 4, off + 64) =~= t.subrange(off, off + 64).subrange(4, 64));
        }
        assert(s[off] == t[off] && s[off + 1] == t[off + 1] && s[off + 2] == t[off + 2] && s[off
            + 3] == t[off + 3]);
        assert(entry_inode_at(s, off) == entry_inode_at(t, off));
        lemma_dir_scan_frame(s, t, base, i + 1, count, name);
    }
}

/// Path resolution depends only on the bytes it reads: an image that
/// agrees with `s` on them resolves `segs` from `cur` to the same result.
pub proof fn lemma_walk_frame(s: Seq<u8>, t: Seq<u8>, bs: usize, cur: u32, segs: Seq<Seq<u8>>)
    requires
        walk_reads_agree(s, t, bs, cur, segs),
    ensures
        walk(t, bs, cur, segs) == walk(s, bs, cur, segs),
    decreases segs.len(),
{
    if segs.len() > 0 {
        lemma_get_inode_frame(s, t, bs, cur);
        if let Ok(off) = spec_get_inode(s, bs, cur) {
            assert(s[off as int] == t[off as int] && s[off + 1] == t[off + 1]);
            assert(mode_at(s, off as int) == mode_at(t, off as int));
            assert(s[off + 24] == t[off + 24] && s[off + 25] == t[off + 25] && s[off + 26] == t[off
                + 26] && s[off + 27] == t[off + 27]);
            assert(zone0_at(s, off as int) == zone0_at(t, off as int));
            let zb = zone0_at(s, off as int) * bs;
            assert(zb >= 0) by (nonlinear_arith)
                requires
                    zb == zone0_at(s, off as int) * bs,
            ;
            lemma_dir_scan_frame(s, t, zb, 0, (bs / 64) as int, segs[0]);
            if let Ok(next) = spec_lookup(mode_at(s, off as int), zone0_at(s, off as int), segs[0], s, bs) {
                lemma_walk_frame(s, t, bs, next, segs.drop_first());
            }
        }
    }
}

/// The byte ranges `[a, a + alen)` and `[b, b + blen)` have no byte in
/// common.
pub open spec fn disjoint(a: int, alen: int, b: int, blen: int) -> bool {
    a + alen <= b || b + blen <= a
}

/// The zone that allocating a zone in `s` hands out: the one the first
/// clear bit from bit 1 on of the zone bitmap stands for.
pub open spec fn free_zone(s: Seq<u8>, bs: usize) -> int {
    let sb = image_super_block(s, bs);
    bit_scan(s, (2 + sb.s_imap_blocks) * bs, 1, sb.s_zmap_blocks * bs * 8, 0) + sb.s_firstdatazone
        - 1
}

/// Writing `data` to `path` in `s` puts it in a zone other than zone 0,
/// and neither the data nor the zeroing of a freshly allocated zone
/// covers the size or first-zone field of the file's inode record.
pub open spec fn write_keeps_inode(s: Seq<u8>, bs: usize, path: Seq<u8>, data: Seq<u8>) -> bool {
    match spec_lookup_iter(s, bs, path) {
        Ok(n) => match spec_get_inode(s, bs, n) {
            Ok(ioff) => match write_zone(s, bs, n, ioff).0 {
                Ok(z) => {
                    let zb = z * bs;
                    &&& z != 0
                    &&& disjoint(zb, data.len() as int, ioff + 8, 4)
                    &&& disjoint(zb, data.len() as int, ioff + 24, 4)
                    &&& zone0_at(s, ioff as int) == 0 ==> disjoint(
                        free_zone(s, bs) * bs,
                        bs as int,
                        ioff + 24,
                        4,
                    )
                },
                Err(_) => false,
            },
            Err(_) => false,
        },
        Err(_) => false,
    }
}

/// When writing succeeds: exactly when the path resolves to an inode whose
/// record is found, a zone is found for the file (its first zone, or a
/// newly allocated one) and the data fits in the image from the start of
/// that zone's block; the data's length is not otherwise limited.  In
/// particular a file that already has a first zone `z` takes any data that
/// fits from `z`'s block on.
pub proof fn lemma_write_succeeds(s: Seq<u8>, bs: usize, path: Seq<u8>, data: Seq<u8>)
    ensures
        ({
            let n = spec_lookup_iter(s, bs, path)->Ok_0;
            let ioff = spec_get_inode(s, bs, n)->Ok_0;
            let zr = write_zone(s, bs, n, ioff).0;
            spec_write(s, bs, path, data).0 is Ok <==> {
                &&& spec_lookup_iter(s, bs, path) is Ok
                &&& spec_get_inode(s, bs, n) is Ok
                &&& zr is Ok
                &&& zr->Ok_0 * bs + data.len() <= s.len()
            }
        }),
        ({
            let n = spec_lookup_iter(s, bs, path)->Ok_0;
            let ioff = spec_get_inode(s, bs, n)->Ok_0;
            let z = zone0_at(s, ioff as int);
            spec_lookup_iter(s, bs, path) is Ok && spec_get_inode(s, bs, n) is Ok && z != 0 && z * bs
                + data.len() <= s.len() ==> spec_write(s, bs, path, data).0 is Ok
        }),
{
    reveal(spec_write);
    if spec_lookup_iter(s, bs, path) is Ok {
        let n = spec_lookup_iter(s, bs, path)->Ok_0;
        if spec_get_inode(s, bs, n) is Ok {
            crate::fs::minix::lemma_alloc_zone_len(s, bs, n);
        }
    }
}

/// Reading a file after a successful write of `data` to it gives `data`
/// back, provided the write left alone what finding the file reads (the
/// super block and the directories on its path), the data went to a zone
/// other than zone 0 without covering the file's size and zone fields,
/// and the length of `data` fits the 32-bit size field.  (The image is
/// one that memory can hold.)
pub proof fn lemma_read_after_write(s: Seq<u8>, bs: usize, path: Seq<u8>, data: Seq<u8>)
    requires
        s.len() <= usize::MAX,
        spec_write(s, bs, path, data).0 is Ok,
        data.len() <= u32::MAX,
        walk_reads_agree(s, spec_write(s, bs, path, data).1, bs, 1, path_segments(path)),
        write_keeps_inode(s, bs, path, data),
    ensures
        spec_read(spec_write(s, bs, path, data).1, bs, path) == Ok::<Seq<u8>, Error>(data),
{
    reveal(spec_write);
    reveal(spec_read);
    let t = spec_write(s, bs, path, data).1;
    lemma_walk_frame(s, t, bs, 1, path_segments(path));
    let n = spec_lookup_iter(s, bs, path)->Ok_0;
    lemma_get_inode_frame(s, t, bs, n);
    let ioff = spec_get_inode(s, bs, n)->Ok_0;
    let (zr, s1) = write_zone(s, bs, n, ioff);
    let z = zr->Ok_0;
    let zb = z * bs;
    assert(zb >= 0) by (nonlinear_arith)
        requires
            zb == z * bs,
    ;
    let len = data.len() as int;
    // The first-zone field holds `z` once the zone is found.
    assert(zone0_at(s1, ioff as int) == z) by {
        if zone0_at(s, ioff as int) == 0 {
            reveal(spec_alloc_zone);
            let sb = image_super_block(s, bs);
            let zstart = 2 + sb.s_imap_blocks;
            let j = bit_scan(s, zstart * bs, 1, sb.s_zmap_blocks * bs * 8, 0);
            let s0 = set_bit(s, zstart * bs + j / 8, j % 8);
            let s2 = write_bytes(s0, ioff + 24, u32_bytes(z));
            lemma_read_after_write_u32(s0, ioff + 24, z);
            if s1 != s2 {
                assert(s1 == write_bytes(s2, free_zone(s, bs) * bs, zeros(bs as nat)));
                assert(s1[ioff + 24] == s2[ioff + 24] && s1[ioff + 25] == s2[ioff + 25] && s1[ioff
                    + 26] == s2[ioff + 26] && s1[ioff + 27] == s2[ioff + 27]);
            }
        }
    }
    let s3 = write_bytes(s1, zb, data);
    assert(t == write_bytes(s3, ioff + 8, u32_bytes(len as u32)));
    assert(zone0_at(t, ioff as int) == z) by {
        assert(t[ioff + 24] == s1[ioff + 24] && t[ioff + 25] == s1[ioff + 25] && t[ioff + 26]
            == s1[ioff + 26] && t[ioff + 27] == s1[ioff + 27]);
    }
    assert(size_at(t, ioff as int) == len) by {
        lemma_read_after_write_u32(s3, ioff + 8, len as u32);
    }
    if len > 0 {
        assert(t.subrange(zb, zb + len) =~= data);
    } else {
        assert(data =~= Seq::<u8>::empty());
    }
}

/// The in-band interface keeps the same promise: after a successful write
/// of `data` to `path`, under the conditions of `lemma_read_after_write`,
/// reading `path` gives `data` back.
pub proof fn lemma_read_after_write_in_band(s: Seq<u8>, bs: usize, path: Seq<u8>, data: Seq<u8>)
    requires
        s.len() <= usize::MAX,
        spec_write(s, bs, path, data).0 is Ok,
        data.len() <= u32::MAX,
        walk_reads_agree(s, spec_write(s, bs, path, data).1, bs, 1, path_segments(path)),
        write_keeps_inode(s, bs, path, data),
    ensures
        spec_write_in_band(s, bs, path, data) == Some(spec_write(s, bs, path, data).1),
        spec_read_in_band(spec_write(s, bs, path, data).1, bs, path) == Some(data),
{
    lemma_read_after_write(s, bs, path, data);
}

/// Splitting a path and joining the parts again gives the path back: the
/// parent directory, a `/` and the name, where the path has a `/` after
/// its first byte; `/` and the name where its only `/` comes first; the
/// name alone where it has none.
pub proof fn lemma_split_path_rejoin(path: Seq<u8>)
    ensures
        last_slash(path) > 0 ==> spec_split_path(path).0 + seq![SLASH] + spec_split_path(path).1
            == path,
        last_slash(path) == 0 ==> spec_split_path(path).0 == seq![SLASH] && seq![SLASH]
            + spec_split_path(path).1 == path,
        last_slash(path) < 0 ==> spec_split_path(path).0 == seq![SLASH] && spec_split_path(path).1
            == path,
{
    crate::path::lemma_last_slash_bounds(path);
    let idx = last_slash(path);
    if idx > 0 {
        assert(spec_split_path(path).0 + seq![SLASH] + spec_split_path(path).1 =~= path);
    } else if idx == 0 {
        assert(seq![SLASH] + spec_split_path(path).1 =~= path);
    }
}

/// A name that a directory entry holds as it is: 1 to 60 bytes, none of
/// them zero.
pub open spec fn name_fits(name: Seq<u8>) -> bool {
    &&& 0 < name.len() <= 60
    &&& forall|i: int| 0 <= i < name.len() ==> name[i] != 0
}

/// Scanning a directory block in which an entry for `new` named `name` was
/// written at entry `k`, from an entry `i <= k` on, finds `new` there when
/// the block had no entry so named from `i` on.
proof fn lemma_dir_scan_finds_written(
    s: Seq<u8>,
    base: int,
    i: int,
    k: int,
    count: int,
    name: Seq<u8>,
    new: u32,
)
    requires
        0 <= base,
        0 <= i <= k < count,
        base + count * 64 <= s.len(),
        name_fits(name),
        dir_scan(s, base, i, count, name) == Err::<u32, Error>(Error::LookupFailed),
    ensures
        dir_scan(write_bytes(s, base + k * 64, dir_entry_bytes(new, name)), base, i, count, name)
            == Ok::<u32, Error>(new),
    decreases k - i,
{
    let t = write_bytes(s, base + k * 64, dir_entry_bytes(new, name));
    let off = base + i * 64;
    if i == k {
        lemma_dir_entry_roundtrip(new, name);
        let b = dir_entry_bytes(new, name);
        assert(t.subrange(off, off + 64) =~= b);
        assert(t.subrange(off + 4, off + 64) =~= b.subrange(4, 64));
        assert(t[off] == b[0] && t[off + 1] == b[1] && t[off + 2] == b[2] && t[off + 3] == b[3]);
        assert(entry_inode_at(t, off) == entry_inode_at(b, 0));
    } else {
        assert(t.subrange(off + 4, off + 64) =~= s.subrange(off + 4, off + 64));
        assert(entry_name_at(t, off) == entry_name_at(s, off));
        lemma_dir_scan_finds_written(s, base, i + 1, k, count, name, new);
    }
}

/// Looking a name up after linking it: once inode `new` has been linked
/// into directory `parent` under `name`, looking `name` up in `parent`
/// gives `new`, provided `parent` is a directory that had no entry named
/// `name`, the name fits an entry, and the parent's first block does not
/// overlap its own inode record.
pub proof fn lemma_lookup_after_link(s: Seq<u8>, bs: usize, parent: u32, new: u32, name: Seq<u8>)
    requires
        spec_link(s, bs, parent, new, name).0 is Ok,
        name_fits(name),
        spec_lookup(
            mode_at(s, spec_get_inode(s, bs, parent)->Ok_0 as int),
            zone0_at(s, spec_get_inode(s, bs, parent)->Ok_0 as int),
            name,
            s,
            bs,
        ) == Err::<u32, Error>(Error::LookupFailed),
        disjoint(
            zone0_at(s, spec_get_inode(s, bs, parent)->Ok_0 as int) * bs,
            (bs / 64) * 64,
            spec_get_inode(s, bs, parent)->Ok_0 as int,
            64,
        ),
    ensures
        ({
            let t = spec_link(s, bs, parent, new, name).1;
            let poff = spec_get_inode(s, bs, parent)->Ok_0 as int;
            &&& spec_lookup(mode_at(t, poff), zone0_at(t, poff), name, t, bs) == Ok::<u32, Error>(new)
            &&& mode_at(t, poff) == mode_at(s, poff)
            &&& zone0_at(t, poff) == zone0_at(s, poff)
        }),
{
    reveal(spec_link);
    let poff = spec_get_inode(s, bs, parent)->Ok_0 as int;
    let base = zone0_at(s, poff) * bs;
    let count = (bs / 64) as int;
    assert(base >= 0) by (nonlinear_arith)
        requires
            base == zone0_at(s, poff) * bs,
    ;
    lemma_free_entry_scan_range(s, base, 0, count);
    let k = free_entry_scan(s, base, 0, count);
    let t = write_bytes(s, base + k * 64, dir_entry_bytes(new, name));
    assert(t[poff] == s[poff] && t[poff + 1] == s[poff + 1]);
    assert(t[poff + 24] == s[poff + 24] && t[poff + 25] == s[poff + 25] && t[poff + 26] == s[poff
        + 26] && t[poff + 27] == s[poff + 27]);
    assert(mode_at(t, poff) == mode_at(s, poff));
    assert(zone0_at(t, poff) == zone0_at(s, poff));
    lemma_dir_scan_finds_written(s, base, 0, k, count, name, new);
}

/// Resolving `a` followed by `b` is resolving `a`, then `b` from where `a`
/// led.
proof fn lemma_walk_append(s: Seq<u8>, bs: usize, cur: u32, a: Seq<Seq<u8>>, b: Seq<Seq<u8>>)
    ensures
        walk(s, bs, cur, a + b) == match walk(s, bs, cur, a) {
            Ok(m) => walk(s, bs, m, b),
            Err(e) => Err(e),
        },
    decreases a.len(),
{
    if a.len() == 0 {
        assert(a + b =~= b);
    } else {
        assert((a + b)[0] == a[0]);
        assert((a + b).drop_first() =~= a.drop_first() + b);
        if let Ok(off) = spec_get_inode(s, bs, cur) {
            if let Ok(next) = spec_lookup(mode_at(s, off as int), zone0_at(s, off as int), a[0], s, bs) {
                lemma_walk_append(s, bs, next, a.drop_first(), b);
            }
        }
    }
}

/// What creating the file at `path` must leave alone for the new file to
/// be found: what finding its parent directory reads (over the whole
/// creation), and, while the inode is allocated, the super block, the
/// parent's inode record and the parent's first block.  Also, the parent's
/// first block has a free entry and does not overlap the parent's record.
pub open spec fn create_keeps_parent(s: Seq<u8>, bs: usize, path: Seq<u8>) -> bool {
    let dir = spec_split_path(path).0;
    let p = spec_lookup_iter(s, bs, dir)->Ok_0;
    let poff = spec_get_inode(s, bs, p)->Ok_0 as int;
    let base = zone0_at(s, poff) * bs;
    let count = (bs / 64) as int;
    let s1 = spec_alloc_inode(s, bs, 0).1;
    &&& walk_reads_agree(s, spec_create_file(s, bs, path).1, bs, 1, path_segments(dir))
    &&& agree(s, s1, bs as int, bs + SUPER_BLOCK_SIZE)
    &&& agree(s, s1, poff, poff + 64)
    &&& agree(s, s1, base, base + count * 64)
    &&& free_entry_scan(s, base, 0, count) < count
    &&& disjoint(base, count * 64, poff, 64)
}

/// A created file can be found: after creating a file at `path` whose name
/// was not in use in its directory, resolving `path` gives the new inode,
/// provided the name fits a directory entry and the creation leaves alone
/// what finding the directory reads (see `create_keeps_parent`).
pub proof fn lemma_lookup_after_create(s: Seq<u8>, bs: usize, path: Seq<u8>)
    requires
        spec_create_file(s, bs, path).0 is Ok,
        name_fits(spec_split_path(path).1),
        spec_lookup_iter(s, bs, path) == Err::<u32, Error>(Error::LookupFailed),
        create_keeps_parent(s, bs, path),
    ensures
        spec_lookup_iter(spec_create_file(s, bs, path).1, bs, path) == Ok::<u32, Error>(
            spec_create_file(s, bs, path).0->Ok_0,
        ),
{
    reveal(spec_create_file);
    reveal_with_fuel(walk, 2);
    let (dir, name) = spec_split_path(path);
    let segs = path_segments(dir);
    lemma_split_segments(path);
    assert(path_segments(path) == segs + seq![name]);
    lemma_walk_append(s, bs, 1, segs, seq![name]);
    let root = seq![SLASH];
    assert(crate::path::segments_from(root, 1) == Seq::<Seq<u8>>::empty());
    assert(path_segments(root) == Seq::<Seq<u8>>::empty());
    // The parent resolves in `s`.
    let pr = walk(s, bs, 1, segs);
    assert(pr is Ok);
    let p = pr->Ok_0;
    assert(spec_lookup_iter(s, bs, dir) == pr);
    let poff = spec_get_inode(s, bs, p)->Ok_0 as int;
    assert(spec_get_inode(s, bs, p) is Ok);
    let base = zone0_at(s, poff) * bs;
    let count = (bs / 64) as int;
    assert(seq![name][0] == name);
    assert(seq![name].drop_first() =~= Seq::<Seq<u8>>::empty());
    assert(spec_lookup(mode_at(s, poff), zone0_at(s, poff), name, s, bs) == Err::<u32, Error>(
        Error::LookupFailed,
    ));
    // Allocating the inode leaves the parent as it was.
    let (ar, s1) = spec_alloc_inode(s, bs, 0);
    let n = ar->Ok_0;
    lemma_alloc_inode_len(s, bs, 0);
    lemma_get_inode_frame(s, s1, bs, p);
    assert(mode_at(s1, poff) == mode_at(s, poff) && zone0_at(s1, poff) == zone0_at(s, poff)) by {
        assert(s1[poff] == s[poff] && s1[poff + 1] == s[poff + 1]);
        assert(s1[poff + 24] == s[poff + 24] && s1[poff + 25] == s[poff + 25] && s1[poff + 26]
            == s[poff + 26] && s1[poff + 27] == s[poff + 27]);
    }
    assert(base >= 0) by (nonlinear_arith)
        requires
            base == zone0_at(s, poff) * bs,
    ;
    lemma_dir_scan_frame(s, s1, base, 0, count, name);
    assert(dir_scan(s, base, 0, count, name) == Err::<u32, Error>(Error::LookupFailed));
    lemma_dir_scan_in_image(s, base, 0, count, name);
    assert forall|k: int| 0 <= k < count implies #[trigger] entry_inode_at(s1, base + k * 64)
        == entry_inode_at(s, base + k * 64) by {
        assert(k * 64 + 64 <= count * 64) by (nonlinear_arith)
            requires
                k < count,
        ;
        assert(s1[base + k * 64] == s[base + k * 64] && s1[base + k * 64 + 1] == s[base + k * 64
            + 1] && s1[base + k * 64 + 2] == s[base + k * 64 + 2] && s1[base + k * 64 + 3] == s[base
            + k * 64 + 3]);
    }
    lemma_free_entry_scan_agree(s, s1, base, 0, count);
    // Linking it then makes the name resolve in the parent.
    assert(spec_link(s1, bs, p, n, name).0 is Ok) by {
        reveal(spec_link);
    }
    lemma_lookup_after_link(s1, bs, p, n, name);
    let s2 = spec_create_file(s, bs, path).1;
    assert(s2 == spec_link(s1, bs, p, n, name).1);
    lemma_walk_frame(s, s2, bs, 1, segs);
    lemma_get_inode_frame(s, s2, bs, p);
    lemma_walk_append(s2, bs, 1, segs, seq![name]);
}

/// A scan that ends without finding the name has read every entry from
/// `i` on inside the image.
proof fn lemma_dir_scan_in_image(s: Seq<u8>, base: int, i: int, count: int, name: Seq<u8>)
    requires
        0 <= i <= count,
        dir_scan(s, base, i, count, name) == Err::<u32, Error>(Error::LookupFailed),
    ensures
        i < count ==> base + count * 64 <= s.len(),
    decreases count - i,
{
    if i < count {
        lemma_dir_scan_in_image(s, base, i + 1, count, name);
    }
}

/// The first free entry of a block is found at the same place in two
/// images whose entries there refer to the same inodes.
pub proof fn lemma_free_entry_scan_agree(s: Seq<u8>, t: Seq<u8>, base: int, k: int, count: int)
    requires
        0 <= k <= count,
        forall|j: int| 0 <= j < count ==> #[trigger] entry_inode_at(t, base + j * 64)
            == entry_inode_at(s, base + j * 64),
    ensures
        free_entry_scan(t, base, k, count) == free_entry_scan(s, base, k, count),
    decreases count - k,
{
    if k < count {
        assert(entry_inode_at(t, base + k * 64) == entry_inode_at(s, base + k * 64));
        lemma_free_entry_scan_agree(s, t, base, k + 1, count);
    }
}

/// The image that deleting `path` has reached just before it removes the
/// directory entry: the file's first zone zeroed where it lies in the
/// image, the file's first-zone and size fields reset, and its bits in
/// the inode and zone bitmaps cleared.
pub open spec fn delete_cleared(s: Seq<u8>, bs: usize, path: Seq<u8>) -> Seq<u8> {
    let sb = image_super_block(s, bs);
    let n = spec_lookup_iter(s, bs, path)->Ok_0;
    let ioff = spec_get_inode(s, bs, n)->Ok_0;
    let z = zone0_at(s, ioff as int);
    let s1 = if z != 0 {
        let zo = z * bs;
        let sa = if zo + bs <= s.len() {
            write_bytes(s, zo, zeros(bs as nat))
        } else {
            s
        };
        write_bytes(write_bytes(sa, ioff + 24, u32_bytes(0)), ioff + 8, u32_bytes(0))
    } else {
        s
    };
    let s2 = clear_bit(s1, 2 * bs + (n - 1) / 8, (n - 1) % 8);
    if z > 0 {
        let bit = z - sb.s_firstdatazone + 1;
        clear_bit(s2, (2 + sb.s_imap_blocks) * bs + bit / 8, bit % 8)
    } else {
        s2
    }
}

/// No two entries of the `count` entries at `base` carry the name `name`.
pub open spec fn named_once(s: Seq<u8>, base: int, count: int, name: Seq<u8>) -> bool {
    forall|i: int, j: int|
        0 <= i < j < count ==> !(#[trigger] entry_name_at(s, base + i * 64) == name
            && #[trigger] entry_name_at(s, base + j * 64) == name)
}

/// What deleting `path` must leave alone for its name to disappear: what
/// finding the parent directory reads (before the entry is removed and at
/// the end), and, until the entry is removed, the super block, the
/// parent's record and the parent's first block; the parent's first block
/// does not overlap its record and holds the name only once.
pub open spec fn delete_keeps_parent(s: Seq<u8>, bs: usize, path: Seq<u8>) -> bool {
    let dir = spec_split_path(path).0;
    let name = spec_split_path(path).1;
    let p = spec_lookup_iter(s, bs, dir)->Ok_0;
    let poff = spec_get_inode(s, bs, p)->Ok_0 as int;
    let base = zone0_at(s, poff) * bs;
    let count = (bs / 64) as int;
    let s3 = delete_cleared(s, bs, path);
    &&& walk_reads_agree(s, s3, bs, 1, path_segments(dir))
    &&& walk_reads_agree(s, spec_delete(s, bs, path).1, bs, 1, path_segments(dir))
    &&& agree(s, s3, bs as int, bs + SUPER_BLOCK_SIZE)
    &&& agree(s, s3, poff, poff + 64)
    &&& agree(s, s3, base, base + count * 64)
    &&& disjoint(base, count * 64, poff, 64)
    &&& named_once(s, base, count, name)
}

/// A successful scan stops at an entry with the name, after entries
/// without it.
proof fn lemma_dir_scan_found(s: Seq<u8>, base: int, i: int, count: int, name: Seq<u8>) -> (k: int)
    requires
        0 <= i,
        dir_scan(s, base, i, count, name) is Ok,
    ensures
        i <= k < count,
        base + k * 64 + 64 <= s.len(),
        entry_name_at(s, base + k * 64) == name,
        entry_inode_at(s, base + k * 64) == dir_scan(s, base, i, count, name)->Ok_0,
        forall|j: int| i <= j < k ==> #[trigger] entry_name_at(s, base + j * 64) != name,
    decreases count - i,
{
    if entry_name_at(s, base + i * 64) == name {
        i
    } else {
        lemma_dir_scan_found(s, base, i + 1, count, name)
    }
}

/// The entry that refers to `n` under `name` is the first one named `name`
/// when that one refers to `n`.
proof fn lemma_named_entry_scan_at(s: Seq<u8>, base: int, i: int, k: int, count: int, n: u32, name: Seq<u8>)
    requires
        0 <= i <= k < count,
        entry_name_at(s, base + k * 64) == name,
        entry_inode_at(s, base + k * 64) == n,
        forall|j: int| i <= j < k ==> #[trigger] entry_name_at(s, base + j * 64) != name,
    ensures
        named_entry_scan(s, base, i, count, n, name) == k,
    decreases k - i,
{
    if i < k {
        assert(entry_name_at(s, base + i * 64) != name);
        lemma_named_entry_scan_at(s, base, i + 1, k, count, n, name);
    }
}

/// A scan over entries none of which carries the name finds nothing.
proof fn lemma_dir_scan_absent(s: Seq<u8>, base: int, i: int, count: int, name: Seq<u8>)
    requires
        0 <= i <= count,
        base + count * 64 <= s.len(),
        forall|j: int| i <= j < count ==> #[trigger] entry_name_at(s, base + j * 64) != name,
    ensures
        dir_scan(s, base, i, count, name) == Err::<u32, Error>(Error::LookupFailed),
    decreases count - i,
{
    if i < count {
        assert(entry_name_at(s, base + i * 64) != name);
        lemma_dir_scan_absent(s, base, i + 1, count, name);
    }
}

/// How a successful deletion of `path` ends: the parent resolves in `s`
/// and its first block lies in the image; the first entry of that block
/// named after the file is entry `k`, and the result is the image of
/// `delete_cleared` with that entry zeroed.
#[verifier::rlimit(40)]
pub proof fn lemma_delete_shape(s: Seq<u8>, bs: usize, path: Seq<u8>) -> (k: int)
    requires
        spec_delete(s, bs, path).0 is Ok,
        spec_split_path(path).1.len() > 0,
        delete_keeps_parent(s, bs, path),
    ensures
        ({
            let dir = spec_split_path(path).0;
            let name = spec_split_path(path).1;
            let p = spec_lookup_iter(s, bs, dir)->Ok_0;
            let poff = spec_get_inode(s, bs, p)->Ok_0 as int;
            let base = zone0_at(s, poff) * bs;
            let count = (bs / 64) as int;
            &&& spec_lookup_iter(s, bs, dir) is Ok
            &&& spec_get_inode(s, bs, p) is Ok
            &&& is_dir_mode(mode_at(s, poff))
            &&& 0 <= base
            &&& 0 <= k < count
            &&& base + count * 64 <= s.len()
            &&& entry_name_at(s, base + k * 64) == name
            &&& forall|j: int| 0 <= j < k ==> #[trigger] entry_name_at(s, base + j * 64) != name
            &&& spec_delete(s, bs, path).1 == write_bytes(
                delete_cleared(s, bs, path),
                base + k * 64,
                zeros(64),
            )
            &&& delete_cleared(s, bs, path).len() == s.len()
        }),
{
    reveal(spec_delete);
    reveal(spec_unlink);
    reveal(spec_unlink_parent);
    reveal_with_fuel(walk, 2);
    let (dir, name) = spec_split_path(path);
    let segs = path_segments(dir);
    lemma_split_segments(path);
    lemma_walk_append(s, bs, 1, segs, seq![name]);
    let root = seq![SLASH];
    assert(crate::path::segments_from(root, 1) == Seq::<Seq<u8>>::empty());
    assert(path_segments(root) == Seq::<Seq<u8>>::empty());
    assert(seq![name][0] == name);
    assert(seq![name].drop_first() =~= Seq::<Seq<u8>>::empty());
    let n = spec_lookup_iter(s, bs, path)->Ok_0;
    let pr = walk(s, bs, 1, segs);
    assert(pr is Ok);
    let p = pr->Ok_0;
    assert(spec_lookup_iter(s, bs, dir) == pr);
    let poff = spec_get_inode(s, bs, p)->Ok_0 as int;
    let base = zone0_at(s, poff) * bs;
    let count = (bs / 64) as int;
    assert(base >= 0) by (nonlinear_arith)
        requires
            base == zone0_at(s, poff) * bs,
    ;
    assert(dir_scan(s, base, 0, count, name) == Ok::<u32, Error>(n));
    let k = lemma_dir_scan_found(s, base, 0, count, name);
    let s3 = delete_cleared(s, bs, path);
    lemma_walk_frame(s, s3, bs, 1, segs);
    lemma_get_inode_frame(s, s3, bs, p);
    assert(zone0_at(s3, poff) == zone0_at(s, poff)) by {
        assert(s3[poff + 24] == s[poff + 24] && s3[poff + 25] == s[poff + 25] && s3[poff + 26]
            == s[poff + 26] && s3[poff + 27] == s[poff + 27]);
    }
    assert(base + count * 64 <= s.len());
    assert forall|j: int| 0 <= j < count implies #[trigger] entry_name_at(s3, base + j * 64)
        == entry_name_at(s, base + j * 64) && entry_inode_at(s3, base + j * 64) == entry_inode_at(
        s,
        base + j * 64,
    ) by {
        assert(j * 64 + 64 <= count * 64) by (nonlinear_arith)
            requires
                j < count,
        ;
        let o = base + j * 64;
        assert(s3.subrange(o + 4, o + 64) =~= s.subrange(o + 4, o + 64));
        assert(s3[o] == s[o] && s3[o + 1] == s[o + 1] && s3[o + 2] == s[o + 2] && s3[o + 3]
            == s[o + 3]);
    }
    lemma_named_entry_scan_at(s3, base, 0, k, count, n, name);
    k
}

/// Zeroing entry `k` of a block whose entries are those of `s`, where `k`
/// is the only entry of `s` named `name`, leaves no entry so named.
proof fn lemma_removed_name_absent(s: Seq<u8>, s3: Seq<u8>, base: int, k: int, count: int, name: Seq<u8>)
    requires
        0 <= base,
        0 <= k < count,
        base + count * 64 <= s.len(),
        s3.len() == s.len(),
        agree(s, s3, base, base + count * 64),
        name.len() > 0,
        entry_name_at(s, base + k * 64) == name,
        forall|j: int| 0 <= j < k ==> #[trigger] entry_name_at(s, base + j * 64) != name,
        named_once(s, base, count, name),
    ensures
        forall|j: int|
            0 <= j < count ==> #[trigger] entry_name_at(
                write_bytes(s3, base + k * 64, zeros(64)),
                base + j * 64,
            ) != name,
{
    let t = write_bytes(s3, base + k * 64, zeros(64));
    assert forall|j: int| 0 <= j < count implies #[trigger] entry_name_at(t, base + j * 64)
        != name by {
        let o = base + j * 64;
        assert(j * 64 + 64 <= count * 64) by (nonlinear_arith)
            requires
                j < count,
        ;
        if j == k {
            assert(t.subrange(o + 4, o + 64) =~= zeros(60));
            assert(crate::fs::minix::c_len_from(zeros(60), 0) == 0);
            assert(entry_name_at(t, o) =~= Seq::<u8>::empty());
            assert(entry_name_at(t, o) != name);
        } else {
            if j < k {
                assert(k * 64 >= j * 64 + 64) by (nonlinear_arith)
                    requires
                        j < k,
                ;
            } else {
                assert(j * 64 >= k * 64 + 64) by (nonlinear_arith)
                    requires
                        k < j,
                ;
            }
            assert(t.subrange(o + 4, o + 64) =~= s3.subrange(o + 4, o + 64));
            assert forall|i: int| o + 4 <= i < o + 64 implies s3[i] == s[i] by {
                assert(base <= i < base + count * 64);
            }
            assert(s3.subrange(o + 4, o + 64) =~= s.subrange(o + 4, o + 64));
            assert(entry_name_at(t, o) == entry_name_at(s, o));
            if j > k {
                assert(!(entry_name_at(s, base + k * 64) == name && entry_name_at(
                    s,
                    base + j * 64,
                ) == name));
            } else {
                assert(entry_name_at(s, base + j * 64) != name);
            }
        }
    }
}

/// A deleted file is gone: after deleting the file (or empty directory) at
/// `path`, resolving `path` fails, provided its name is not empty and the
/// deletion leaves alone what finding the parent reads (see
/// `delete_keeps_parent`).
pub proof fn lemma_lookup_after_delete(s: Seq<u8>, bs: usize, path: Seq<u8>)
    requires
        spec_delete(s, bs, path).0 is Ok,
        spec_split_path(path).1.len() > 0,
        delete_keeps_parent(s, bs, path),
    ensures
        spec_lookup_iter(spec_delete(s, bs, path).1, bs, path) == Err::<u32, Error>(
            Error::LookupFailed,
        ),
{
    let k = lemma_delete_shape(s, bs, path);
    reveal_with_fuel(walk, 2);
    let (dir, name) = spec_split_path(path);
    let segs = path_segments(dir);
    lemma_split_segments(path);
    assert(seq![name][0] == name);
    assert(seq![name].drop_first() =~= Seq::<Seq<u8>>::empty());
    let p = spec_lookup_iter(s, bs, dir)->Ok_0;
    let poff = spec_get_inode(s, bs, p)->Ok_0 as int;
    let base = zone0_at(s, poff) * bs;
    let count = (bs / 64) as int;
    let s3 = delete_cleared(s, bs, path);
    let t = spec_delete(s, bs, path).1;
    lemma_walk_frame(s, t, bs, 1, segs);
    lemma_get_inode_frame(s, t, bs, p);
    assert(mode_at(t, poff) == mode_at(s, poff) && zone0_at(t, poff) == zone0_at(s, poff)) by {
        assert(t[poff] == s3[poff] && t[poff + 1] == s3[poff + 1]);
        assert(t[poff + 24] == s3[poff + 24] && t[poff + 25] == s3[poff + 25] && t[poff + 26]
            == s3[poff + 26] && t[poff + 27] == s3[poff + 27]);
        assert(s3[poff] == s[poff] && s3[poff + 1] == s[poff + 1]);
        assert(s3[poff + 24] == s[poff + 24] && s3[poff + 25] == s[poff + 25] && s3[poff + 26]
            == s[poff + 26] && s3[poff + 27] == s[poff + 27]);
    }
    lemma_removed_name_absent(s, s3, base, k, count, name);
    lemma_dir_scan_absent(t, base, 0, count, name);
    lemma_walk_append(t, bs, 1, segs, seq![name]);
    let root = seq![SLASH];
    assert(crate::path::segments_from(root, 1) == Seq::<Seq<u8>>::empty());
    assert(path_segments(root) == Seq::<Seq<u8>>::empty());
}

/// What making the directory at `path` must leave alone for it to be
/// found: what finding its parent reads (over the whole operation); while
/// the inode is allocated, the super block, the parent's record and the
/// parent's first block; after the link, the parent's record and first
/// block.  Also, the parent's first block has a free entry and does not
/// overlap the parent's record.
pub open spec fn mkdir_keeps_parent(s: Seq<u8>, bs: usize, path: Seq<u8>) -> bool {
    let dir = spec_split_path(path).0;
    let name = spec_split_path(path).1;
    let p = spec_lookup_iter(s, bs, dir)->Ok_0;
    let poff = spec_get_inode(s, bs, p)->Ok_0 as int;
    let base = zone0_at(s, poff) * bs;
    let count = (bs / 64) as int;
    let (ar, s1) = spec_alloc_inode(s, bs, DIR_MODE);
    let s2 = spec_link(s1, bs, p, ar->Ok_0, name).1;
    let t = spec_mkdir(s, bs, path).1;
    &&& walk_reads_agree(s, t, bs, 1, path_segments(dir))
    &&& agree(s, s1, bs as int, bs + SUPER_BLOCK_SIZE)
    &&& agree(s, s1, poff, poff + 64)
    &&& agree(s, s1, base, base + count * 64)
    &&& agree(s2, t, poff, poff + 64)
    &&& agree(s2, t, base, base + count * 64)
    &&& free_entry_scan(s, base, 0, count) < count
    &&& disjoint(base, count * 64, poff, 64)
}

/// A made directory can be found: after making a directory at `path`
/// whose name was not in use in its parent, resolving `path` gives the new
/// inode, provided the name fits a directory entry and the operation
/// leaves alone what finding the parent reads (see `mkdir_keeps_parent`).
#[verifier::rlimit(40)]
pub proof fn lemma_lookup_after_mkdir(s: Seq<u8>, bs: usize, path: Seq<u8>)
    requires
        spec_mkdir(s, bs, path).0 is Ok,
        name_fits(spec_split_path(path).1),
        spec_lookup_iter(s, bs, path) == Err::<u32, Error>(Error::LookupFailed),
        mkdir_keeps_parent(s, bs, path),
    ensures
        spec_lookup_iter(spec_mkdir(s, bs, path).1, bs, path) == Ok::<u32, Error>(
            spec_mkdir(s, bs, path).0->Ok_0,
        ),
{
    reveal_with_fuel(walk, 2);
    let (dir, name) = spec_split_path(path);
    let segs = path_segments(dir);
    lemma_split_segments(path);
    lemma_walk_append(s, bs, 1, segs, seq![name]);
    let root = seq![SLASH];
    assert(crate::path::segments_from(root, 1) == Seq::<Seq<u8>>::empty());
    assert(path_segments(root) == Seq::<Seq<u8>>::empty());
    assert(seq![name][0] == name);
    assert(seq![name].drop_first() =~= Seq::<Seq<u8>>::empty());
    let pr = walk(s, bs, 1, segs);
    assert(pr is Ok) by {
        reveal(spec_mkdir);
    }
    let p = pr->Ok_0;
    assert(spec_lookup_iter(s, bs, dir) == pr);
    let poff = spec_get_inode(s, bs, p)->Ok_0 as int;
    assert(spec_get_inode(s, bs, p) is Ok);
    let base = zone0_at(s, poff) * bs;
    let count = (bs / 64) as int;
    assert(spec_lookup(mode_at(s, poff), zone0_at(s, poff), name, s, bs) == Err::<u32, Error>(
        Error::LookupFailed,
    ));
    let (ar, s1) = spec_alloc_inode(s, bs, DIR_MODE);
    let n = ar->Ok_0;
    assert(ar is Ok && p != 0) by {
        reveal(spec_mkdir);
    }
    lemma_alloc_inode_len(s, bs, DIR_MODE);
    lemma_get_inode_frame(s, s1, bs, p);
    assert(mode_at(s1, poff) == mode_at(s, poff) && zone0_at(s1, poff) == zone0_at(s, poff)) by {
        assert(s1[poff] == s[poff] && s1[poff + 1] == s[poff + 1]);
        assert(s1[poff + 24] == s[poff + 24] && s1[poff + 25] == s[poff + 25] && s1[poff + 26]
            == s[poff + 26] && s1[poff + 27] == s[poff + 27]);
    }
    assert(base >= 0) by (nonlinear_arith)
        requires
            base == zone0_at(s, poff) * bs,
    ;
    lemma_dir_scan_frame(s, s1, base, 0, count, name);
    lemma_dir_scan_in_image(s, base, 0, count, name);
    assert forall|k: int| 0 <= k < count implies #[trigger] entry_inode_at(s1, base + k * 64)
        == entry_inode_at(s, base + k * 64) by {
        assert(k * 64 + 64 <= count * 64) by (nonlinear_arith)
            requires
                k < count,
        ;
        assert(s1[base + k * 64] == s[base + k * 64] && s1[base + k * 64 + 1] == s[base + k * 64
            + 1] && s1[base + k * 64 + 2] == s[base + k * 64 + 2] && s1[base + k * 64 + 3] == s[base
            + k * 64 + 3]);
    }
    lemma_free_entry_scan_agree(s, s1, base, 0, count);
    assert(spec_link(s1, bs, p, n, name).0 is Ok) by {
        reveal(spec_link);
    }
    lemma_lookup_after_link(s1, bs, p, n, name);
    let s2 = spec_link(s1, bs, p, n, name).1;
    let t = spec_mkdir(s, bs, path).1;
    assert(spec_mkdir(s, bs, path).0 == Ok::<u32, Error>(n)) by {
        reveal(spec_mkdir);
    }
    // The steps after the link keep what the lookup reads in the parent.
    assert(s2.len() == s.len()) by {
        crate::fs::minix::lemma_link_len(s1, bs, p, n, name);
    }
    assert(t.len() == s.len()) by {
        reveal(spec_mkdir);
        crate::fs::minix::lemma_link_len(s1, bs, p, n, name);
        crate::fs::minix::lemma_alloc_zone_len(s2, bs, n);
    }
    assert(mode_at(t, poff) == mode_at(s2, poff) && zone0_at(t, poff) == zone0_at(s2, poff)) by {
        assert(t[poff] == s2[poff] && t[poff + 1] == s2[poff + 1]);
        assert(t[poff + 24] == s2[poff + 24] && t[poff + 25] == s2[poff + 25] && t[poff + 26]
            == s2[poff + 26] && t[poff + 27] == s2[poff + 27]);
    }
    lemma_dir_scan_frame(s2, t, base, 0, count, name);
    lemma_walk_frame(s, t, bs, 1, segs);
    lemma_get_inode_frame(s, t, bs, p);
    lemma_walk_append(t, bs, 1, segs, seq![name]);
}

/// Deleting a path that does not resolve fails and leaves the image as
/// it was.
pub proof fn lemma_delete_unresolved(s: Seq<u8>, bs: usize, path: Seq<u8>)
    requires
        spec_lookup_iter(s, bs, path) is Err,
    ensures
        spec_delete(s, bs, path).0 is Err,
        spec_delete(s, bs, path).1 == s,
{
    reveal(spec_delete);
}

/// A directory that still holds an entry in use other than `.` and `..`
/// cannot be deleted: the deletion fails with `DirectoryNotEmpty` and the
/// image stays as it was.
pub proof fn lemma_delete_refuses_non_empty_dir(s: Seq<u8>, bs: usize, path: Seq<u8>)
    requires
        bs + SUPER_BLOCK_SIZE <= s.len(),
        spec_lookup_iter(s, bs, path) is Ok,
        spec_get_inode(s, bs, spec_lookup_iter(s, bs, path)->Ok_0) is Ok,
        ({
            let ioff = spec_get_inode(s, bs, spec_lookup_iter(s, bs, path)->Ok_0)->Ok_0 as int;
            let z = zone0_at(s, ioff);
            &&& is_dir_mode(mode_at(s, ioff))
            &&& z != 0
            &&& z * bs + bs <= s.len()
            &&& dir_block_in_use(s, z * bs, (bs / 64) as int)
        }),
    ensures
        spec_delete(s, bs, path) == (Err::<(), Error>(Error::DirectoryNotEmpty), s),
{
    reveal(spec_delete);
}

/// Making a directory whose parent does not resolve fails and allocates
/// nothing: the image stays as it was.
pub proof fn lemma_mkdir_unresolved_parent(s: Seq<u8>, bs: usize, path: Seq<u8>)
    requires
        spec_split_path(path).0 != seq![SLASH],
        spec_lookup_iter(s, bs, spec_split_path(path).0) is Err,
    ensures
        spec_mkdir(s, bs, path).0 is Err,
        spec_mkdir(s, bs, path).1 == s,
{
    reveal(spec_mkdir);
}

/// Every entry in use from entry `i` on of a directory block gets its line
/// in the listing of those entries; see `lemma_tree_lists_every_entry`.
proof fn lemma_entries_list_entry(s: Seq<u8>, bs: usize, d: u8, zo: int, i: int, k: int) -> (j: int)
    requires
        0 <= i <= k < bs / 64,
        spec_tree_entries(s, bs, d, zo, i).0 is Ok,
        entry_inode_at(s, zo + k * 64) != 0,
        entry_name_at(s, zo + k * 64) != dots(1),
        entry_name_at(s, zo + k * 64) != dots(2),
    ensures
        ({
            let lines = spec_tree_entries(s, bs, d, zo, i).1;
            let ino = entry_inode_at(s, zo + k * 64);
            let coff = spec_get_inode(s, bs, ino)->Ok_0;
            let is_dir = is_dir_mode(mode_at(s, coff as int));
            let sub = spec_tree(s, bs, (d + 1) as u8, ino);
            &&& spec_get_inode(s, bs, ino) is Ok
            &&& 0 <= j < lines.len()
            &&& lines[j] == (d, entry_name_at(s, zo + k * 64), is_dir)
            &&& is_dir ==> {
                &&& d < 255
                &&& sub.0 is Ok
                &&& j + 1 + sub.1.len() <= lines.len()
                &&& lines.subrange(j + 1, j + 1 + sub.1.len()) == sub.1
            }
        }),
    decreases k - i,
{
    reveal_with_fuel(spec_tree_entries, 2);
    reveal_with_fuel(spec_tree, 2);
    let off = zo + i * 64;
    let ino = entry_inode_at(s, off);
    let name = entry_name_at(s, off);
    let lines = spec_tree_entries(s, bs, d, zo, i).1;
    if ino == 0 || name == dots(1) || name == dots(2) {
        lemma_entries_list_entry(s, bs, d, zo, i + 1, k)
    } else {
        let coff = spec_get_inode(s, bs, ino)->Ok_0;
        if is_dir_mode(mode_at(s, coff as int)) {
            let line = (d, name, true);
            let sub = spec_tree(s, bs, (d + 1) as u8, ino);
            let rest = spec_tree_entries(s, bs, d, zo, i + 1);
            assert(spec_get_inode(s, bs, ino) is Ok);
            assert(d != 255);
            assert(sub.0 is Ok);
            assert(lines == seq![line] + sub.1 + rest.1);
            if i == k {
                assert(lines.subrange(1, 1 + sub.1.len() as int) =~= sub.1);
                0
            } else {
                let j0 = lemma_entries_list_entry(s, bs, d, zo, i + 1, k);
                let j = 1 + sub.1.len() + j0;
                let ino_k = entry_inode_at(s, zo + k * 64);
                let coff_k = spec_get_inode(s, bs, ino_k)->Ok_0;
                let sub_k = spec_tree(s, bs, (d + 1) as u8, ino_k);
                if is_dir_mode(mode_at(s, coff_k as int)) {
                    assert(lines.subrange(j + 1, j + 1 + sub_k.1.len()) =~= rest.1.subrange(
                        j0 + 1,
                        j0 + 1 + sub_k.1.len(),
                    ));
                }
                j
            }
        } else {
            let rest = spec_tree_entries(s, bs, d, zo, i + 1);
            assert(lines == seq![(d, name, false)] + rest.1);
            if i == k {
                0
            } else {
                let j0 = lemma_entries_list_entry(s, bs, d, zo, i + 1, k);
                let j = 1 + j0;
                let ino_k = entry_inode_at(s, zo + k * 64);
                let coff_k = spec_get_inode(s, bs, ino_k)->Ok_0;
                let sub_k = spec_tree(s, bs, (d + 1) as u8, ino_k);
                if is_dir_mode(mode_at(s, coff_k as int)) {
                    assert(lines.subrange(j + 1, j + 1 + sub_k.1.len()) =~= rest.1.subrange(
                        j0 + 1,
                        j0 + 1 + sub_k.1.len(),
                    ));
                }
                j
            }
        }
    }
}

/// The tree lists every entry: when listing the tree of directory `n` at
/// depth `d` succeeds, every entry `k` of its first block that is in use
/// and is neither `.` nor `..` has a line `j` at depth `d` with its name
/// and whether it is a directory; and a directory's line is followed at
/// once by the whole tree of that directory one level deeper (which
/// succeeds too), so that directories are expanded at every depth.
pub proof fn lemma_tree_lists_every_entry(s: Seq<u8>, bs: usize, d: u8, n: u32, k: int) -> (j: int)
    requires
        spec_tree(s, bs, d, n).0 is Ok,
        0 <= k < bs / 64,
        ({
            let zo = zone0_at(s, spec_get_inode(s, bs, n)->Ok_0 as int) * bs;
            &&& entry_inode_at(s, zo + k * 64) != 0
            &&& entry_name_at(s, zo + k * 64) != dots(1)
            &&& entry_name_at(s, zo + k * 64) != dots(2)
        }),
    ensures
        ({
            let zo = zone0_at(s, spec_get_inode(s, bs, n)->Ok_0 as int) * bs;
            let lines = spec_tree(s, bs, d, n).1;
            let ino = entry_inode_at(s, zo + k * 64);
            let coff = spec_get_inode(s, bs, ino)->Ok_0;
            let is_dir = is_dir_mode(mode_at(s, coff as int));
            let sub = spec_tree(s, bs, (d + 1) as u8, ino);
            &&& spec_get_inode(s, bs, ino) is Ok
            &&& 0 <= j < lines.len()
            &&& lines[j] == (d, entry_name_at(s, zo + k * 64), is_dir)
            &&& is_dir ==> {
                &&& d < 255
                &&& sub.0 is Ok
                &&& j + 1 + sub.1.len() <= lines.len()
                &&& lines.subrange(j + 1, j + 1 + sub.1.len()) == sub.1
            }
        }),
{
    let zo = zone0_at(s, spec_get_inode(s, bs, n)->Ok_0 as int) * bs;
    reveal_with_fuel(spec_tree, 2);
    reveal_with_fuel(spec_tree_entries, 2);
    assert(spec_get_inode(s, bs, n) is Ok);
    let off = spec_get_inode(s, bs, n)->Ok_0;
    assert(is_dir_mode(mode_at(s, off as int)));
    assert(zo <= usize::MAX && zo != 0 && zo + (bs / 64) * 64 <= s.len());
    assert(spec_tree(s, bs, d, n) == spec_tree_entries(s, bs, d, zo, 0));
    lemma_entries_list_entry(s, bs, d, zo, 0, k)
}

} // verus!
