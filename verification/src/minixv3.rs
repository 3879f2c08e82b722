//! A Minix v3 interface that reports failures in-band: as inode number 0,
//! as an empty slice, or by leaving the image as it was.
//!
//! It works on the on-disk format of `fs::minix` and is built on its
//! operations.  Where an operation would read or write outside the image
//! or overflow, this interface has no defined behaviour; its functions
//! require that this does not happen.
use vstd::prelude::*;
use crate::error::Error;
use crate::fs::minix::{
    alloc_inode_in, alloc_zone_in, dir_entry_bytes, dir_scan, dots, entry_inode_at, entry_name_at,
    entry_name_vec, find_inode, image_super_block, inode_table_start, is_dir_mode, is_dot_entry,
    lemma_lines_push, lines_view, link_in, lookup_in, mode_at, push_root_line,
    read_in, read_super_block, resolve_path, root_line, scan_dir, spec_alloc_inode,
    spec_alloc_zone, spec_get_inode, spec_link, spec_lookup, spec_lookup_iter, spec_read,
    bit_scan, set_bit,
    spec_write, write_dir_entry, write_in, zone0_at, TreeLine, DIR_MODE, SUPER_BLOCK_SIZE,
};
use crate::layout::{bytes_eq, read_u16, read_u32, u32_bytes, write_bytes};
use crate::fs::laws::{agree, lemma_get_inode_frame};
use crate::fs::undo::{
    lemma_alloc_inode_steps, lemma_alloc_zone_steps, lemma_link_steps, lemma_super_block_frame,
};
use crate::path::{spec_split_path, split_path_and_filename, SLASH};
pub use crate::fs::minix::{minix3_dir_entry, minix3_super_block};

verus! {

/// A Minix v3 inode; the operations of this interface are its methods.
#[allow(non_camel_case_types)]
#[derive(Clone, Copy)]
pub struct minix3_inode {
    pub i_mode: u16,
    pub i_nlinks: u16,
    pub i_uid: u16,
    pub i_gid: u16,
    pub i_size: u32,
    pub i_atime: u32,
    pub i_mtime: u32,
    pub i_ctime: u32,
    pub i_zone: [u32; 10],
}

/// Whether a failure of the underlying operation is reported in-band:
/// every failure but a record outside the image (`InodeBeyondImage`) and
/// an access outside the image or an overflow (`Aborted`).
pub open spec fn reported(e: Error) -> bool {
    e != Error::Aborted && e != Error::InodeBeyondImage
}

/// The in-band form of a result: the value itself, 0 for a reported
/// failure, nothing where the behaviour is not defined.
pub open spec fn in_band(r: Result<u32, Error>) -> Option<u32> {
    match r {
        Ok(n) => Some(n),
        Err(e) => if reported(e) {
            Some(0u32)
        } else {
            None
        },
    }
}

/// Where the record of inode `n` starts: no record for inode 0, and
/// `Aborted` where the super block lies outside the image or the offset
/// overflows or lies past the end of the image.
pub open spec fn spec_inode_offset(s: Seq<u8>, bs: usize, n: u32) -> Result<usize, Error> {
    if n == 0 {
        Err(Error::InodeNumZero)
    } else if bs + SUPER_BLOCK_SIZE > s.len() {
        Err(Error::Aborted)
    } else {
        let total = inode_table_start(image_super_block(s, bs)) * bs + (n - 1) * 64;
        if total > usize::MAX || total > s.len() {
            Err(Error::Aborted)
        } else {
            Ok(total as usize)
        }
    }
}

/// Looking `name` up in a directory whose mode is `mode` and whose first
/// zone is `zone`: the inode number of the first entry so named, 0 when
/// there is none or the mode is not a directory's.
pub open spec fn spec_lookup_in_band(mode: u16, zone: u32, name: Seq<u8>, s: Seq<u8>, bs: usize) -> Option<
    u32,
> {
    in_band(spec_lookup(mode, zone, name, s, bs))
}

/// Looking `name` up among the entries 2 to 31 of a directory's first
/// zone (the entries after `.` and `..`); 0 when there is none or the mode
/// is not a directory's.
pub open spec fn spec_lookup_helper(mode: u16, zone: u32, name: Seq<u8>, s: Seq<u8>, bs: usize) -> Option<
    u32,
> {
    if !is_dir_mode(mode) {
        Some(0u32)
    } else {
        in_band(dir_scan(s, zone * bs, 2, 32, name))
    }
}

/// Resolving a path from the root inode; 0 when a component is missing.
pub open spec fn spec_lookup_iter_in_band(s: Seq<u8>, bs: usize, path: Seq<u8>) -> Option<u32> {
    in_band(spec_lookup_iter(s, bs, path))
}

/// Allocating an inode of mode `mode` (see `spec_alloc_inode`): its
/// number, 0 when none is free, and the image after.
pub open spec fn spec_alloc_inode_in_band(s: Seq<u8>, bs: usize, mode: u16) -> Option<(u32, Seq<u8>)> {
    match in_band(spec_alloc_inode(s, bs, mode).0) {
        Some(n) => Some((n, spec_alloc_inode(s, bs, mode).1)),
        None => None,
    }
}

/// Linking inode `new` into directory `parent` under `name` (see
/// `spec_link`): `Err(false)` for a reported failure, and the image after.
pub open spec fn spec_link_in_band(s: Seq<u8>, bs: usize, parent: u32, new: u32, name: Seq<u8>) -> Option<
    (Result<(), bool>, Seq<u8>),
> {
    let (r, t) = spec_link(s, bs, parent, new, name);
    match r {
        Ok(_) => Some((Ok(()), t)),
        Err(e) => if reported(e) {
            Some((Err(false), t))
        } else {
            None
        },
    }
}

/// Creating a file at `path`: under `/` a fresh inode of mode 0 is only
/// allocated; elsewhere the parent directory is resolved (0 when it is
/// missing), an inode is allocated and linked into it, a failed link
/// being ignored.  Gives the inode number (0 when none was allocated) and
/// the image after.
pub open spec fn spec_create_file_in_band(s: Seq<u8>, bs: usize, path: Seq<u8>) -> Option<
    (u32, Seq<u8>),
> {
    let (dir, name) = spec_split_path(path);
    if dir == seq![SLASH] {
        spec_alloc_inode_in_band(s, bs, 0)
    } else {
        match spec_lookup_iter_in_band(s, bs, dir) {
            None => None,
            Some(parent) => if parent == 0 {
                Some((0u32, s))
            } else {
                match spec_alloc_inode_in_band(s, bs, 0) {
                    None => None,
                    Some((n, s1)) => match spec_link_in_band(s1, bs, parent, n, name) {
                        None => None,
                        Some((_, s2)) => Some((n, s2)),
                    },
                }
            },
        }
    }
}

/// Allocating the first zone of inode `n` (see `spec_alloc_zone`): the
/// zone number, 0 for inode 0, for an inode that has a first zone already
/// and for a full zone bitmap, and the image after.
pub open spec fn spec_alloc_zone_in_band(s: Seq<u8>, bs: usize, n: u32) -> Option<(u32, Seq<u8>)> {
    match in_band(spec_alloc_zone(s, bs, n).0) {
        Some(z) => Some((z, spec_alloc_zone(s, bs, n).1)),
        None => None,
    }
}

/// Writing `data` to the file at `path` (see `spec_write`): the image
/// after; unchanged when the file is missing.
pub open spec fn spec_write_in_band(s: Seq<u8>, bs: usize, path: Seq<u8>, data: Seq<u8>) -> Option<
    Seq<u8>,
> {
    let (r, t) = spec_write(s, bs, path, data);
    match r {
        Ok(_) => Some(t),
        Err(e) => if reported(e) {
            Some(t)
        } else {
            None
        },
    }
}

/// Making a directory at `path`: the parent (the root for a path directly
/// under `/`) must exist; a fresh directory inode is allocated and linked
/// into it, a zone is allocated for it and its first two entries become
/// `.` (the new directory) and `..` (the parent).  Gives the new inode
/// number, 0 when the parent is missing, no inode is free or the link
/// fails, and the image after.  The size field of the new directory is
/// left at 0.
pub open spec fn spec_mkdir_in_band(s: Seq<u8>, bs: usize, path: Seq<u8>) -> Option<(u32, Seq<u8>)> {
    let (dir, name) = spec_split_path(path);
    let parent = if dir == seq![SLASH] {
        Some(1u32)
    } else {
        spec_lookup_iter_in_band(s, bs, dir)
    };
    match parent {
        None => None,
        Some(p) => if p == 0 {
            Some((0u32, s))
        } else {
            match spec_alloc_inode_in_band(s, bs, DIR_MODE) {
                None => None,
                Some((n, s1)) => if n == 0 {
                    Some((0u32, s1))
                } else {
                    match spec_link_in_band(s1, bs, p, n, name) {
                        None => None,
                        Some((lr, s2)) => if lr is Err {
                            Some((0u32, s2))
                        } else {
                            match spec_alloc_zone_in_band(s2, bs, n) {
                                None => None,
                                Some((z, s3)) => {
                                    let zo = z * bs;
                                    if zo + 128 > s3.len() {
                                        None
                                    } else {
                                        Some(
                                            (
                                                n,
                                                write_bytes(
                                                    write_bytes(s3, zo, dir_entry_bytes(n, dots(1))),
                                                    zo + 64,
                                                    dir_entry_bytes(p, dots(2)),
                                                ),
                                            ),
                                        )
                                    }
                                },
                            }
                        }
                    }
                },
            }
        },
    }
}

/// Reading the file at `path` (see `spec_read`); empty when it is missing.
pub open spec fn spec_read_in_band(s: Seq<u8>, bs: usize, path: Seq<u8>) -> Option<Seq<u8>> {
    match spec_read(s, bs, path) {
        Ok(d) => Some(d),
        Err(e) => if reported(e) {
            Some(Seq::empty())
        } else {
            None
        },
    }
}

/// The tree below inode `n` at `depth`: nothing for inode 0, for an inode
/// that is not a directory and for one without a first zone; else the
/// lines for the entries of that zone's block.
#[verifier::opaque]
pub open spec fn spec_tree_in_band(s: Seq<u8>, bs: usize, depth: u8, n: u32) -> Option<
    Seq<(u8, Seq<u8>, bool)>,
>
    decreases 256 - depth, bs / 64 + 1,
{
    match spec_get_inode(s, bs, n) {
        Err(e) => if e == Error::InodeNumZero {
            Some(Seq::empty())
        } else {
            None
        },
        Ok(off) => if !is_dir_mode(mode_at(s, off as int)) {
            Some(Seq::empty())
        } else {
            let zo = zone0_at(s, off as int) * bs;
            if zo > usize::MAX {
                None
            } else if zo == 0 {
                Some(Seq::empty())
            } else if zo + (bs / 64) * 64 > s.len() {
                None
            } else {
                spec_tree_entries_in_band(s, bs, depth, zo, 0)
            }
        },
    }
}

/// The lines for the entries `i..` of the directory block at `zo`: entries
/// with inode 0 and the entries `.` and `..` are skipped; every other
/// entry gives a line, and a directory entry is followed by the tree below
/// it one level deeper.
#[verifier::opaque]
pub open spec fn spec_tree_entries_in_band(s: Seq<u8>, bs: usize, depth: u8, zo: int, i: int) -> Option<
    Seq<(u8, Seq<u8>, bool)>,
>
    decreases 256 - depth, bs / 64 - i,
{
    if i >= bs / 64 || i < 0 {
        Some(Seq::empty())
    } else {
        let off = zo + i * 64;
        let ino = entry_inode_at(s, off);
        let name = entry_name_at(s, off);
        if ino == 0 || name == dots(1) || name == dots(2) {
            spec_tree_entries_in_band(s, bs, depth, zo, i + 1)
        } else {
            match spec_get_inode(s, bs, ino) {
                Err(_) => None,
                Ok(coff) => if is_dir_mode(mode_at(s, coff as int)) {
                    if depth == 255 {
                        None
                    } else {
                        match spec_tree_in_band(s, bs, (depth + 1) as u8, ino) {
                            None => None,
                            Some(sub) => match spec_tree_entries_in_band(s, bs, depth, zo, i + 1) {
                                None => None,
                                Some(rest) => Some(seq![(depth, name, true)] + sub + rest),
                            },
                        }
                    }
                } else {
                    match spec_tree_entries_in_band(s, bs, depth, zo, i + 1) {
                        None => None,
                        Some(rest) => Some(seq![(depth, name, false)] + rest),
                    }
                },
            }
        }
    }
}

/// Lists the tree below inode `n`; see `spec_tree_in_band`.
fn tree_in_band(img: &[u8], bs: usize, depth: u8, n: u32, out: &mut Vec<TreeLine>)
    requires
        spec_tree_in_band(img@, bs, depth, n) is Some,
    ensures
        lines_view(final(out)@) == lines_view(old(out)@) + spec_tree_in_band(img@, bs, depth, n)->Some_0,
    decreases 256 - depth, bs / 64 + 1,
{
    proof {
        reveal(spec_tree_in_band);
    }
    assert(lines_view(out@) =~= lines_view(out@) + Seq::<(u8, Seq<u8>, bool)>::empty());
    let off = match find_inode(img, bs, n) {
        Ok(o) => o,
        Err(_) => {
            return;
        },
    };
    let mode = read_u16(img, off);
    if mode & DIR_MODE == 0 {
        return;
    }
    let zone = read_u32(img, off + 24);
    let zo = match (zone as usize).checked_mul(bs) {
        Some(z) => z,
        None => {
            return;
        },
    };
    if zo == 0 {
        return;
    }
    let count = bs / 64;
    assert(img@.len() == img.len());
    if zo > img.len() || (img.len() - zo) / 64 < count {
        assert(zo + (bs / 64) * 64 > img@.len());
        return;
    }
    let ghost out0 = lines_view(out@);
    let ghost mut emitted: Seq<(u8, Seq<u8>, bool)> = Seq::empty();
    let mut i: usize = 0;
    proof {
        reveal(spec_tree_entries_in_band);
    }
    while i < count
        invariant
            i <= count,
            count == bs / 64,
            zo + count * 64 <= img@.len(),
            img@.len() == img.len(),
            lines_view(out@) == out0 + emitted,
            out0 == lines_view(old(out)@),
            spec_tree_entries_in_band(img@, bs, depth, zo as int, i as int) is Some,
            spec_tree_in_band(img@, bs, depth, n)->Some_0 == emitted + spec_tree_entries_in_band(
                img@,
                bs,
                depth,
                zo as int,
                i as int,
            )->Some_0,
        decreases count - i,
    {
        proof {
            reveal(spec_tree_entries_in_band);
            reveal(spec_tree_in_band);
        }
        let eoff = zo + i * 64;
        let ino = read_u32(img, eoff);
        if ino == 0 || is_dot_entry(img, eoff) {
            i = i + 1;
            continue;
        }
        let name = entry_name_vec(img, eoff);
        let coff = match find_inode(img, bs, ino) {
            Ok(c) => c,
            Err(_) => {
                return;
            },
        };
        let cmode = read_u16(img, coff);
        let ghost restv = spec_tree_entries_in_band(img@, bs, depth, zo as int, i + 1);
        if cmode & DIR_MODE != 0 {
            let ghost line = (depth, name@, true);
            let ghost pre = out@;
            let tl = TreeLine { depth, name, is_dir: true };
            let ghost gtl = tl;
            out.push(tl);
            proof {
                lemma_lines_push(pre, gtl);
            }
            let ghost subv = spec_tree_in_band(img@, bs, (depth + 1) as u8, ino);
            tree_in_band(img, bs, depth + 1, ino, out);
            proof {
                assert(emitted + (seq![line] + subv->Some_0 + restv->Some_0) =~= (emitted.push(line)
                    + subv->Some_0) + restv->Some_0);
                assert(out0 + (emitted.push(line) + subv->Some_0) =~= (out0 + emitted).push(line)
                    + subv->Some_0);
                emitted = emitted.push(line) + subv->Some_0;
            }
        } else {
            let ghost line = (depth, name@, false);
            let ghost pre = out@;
            let tl = TreeLine { depth, name, is_dir: false };
            let ghost gtl = tl;
            out.push(tl);
            proof {
                lemma_lines_push(pre, gtl);
                assert(emitted + (seq![line] + restv->Some_0) =~= emitted.push(line)
                    + restv->Some_0);
                emitted = emitted.push(line);
            }
        }
        i = i + 1;
    }
    proof {
        reveal(spec_tree_entries_in_band);
        assert(emitted + Seq::<(u8, Seq<u8>, bool)>::empty() =~= emitted);
    }
}

impl minix3_inode {
    /// Offset of the record of inode `inode_num` in the image, `None` for
    /// inode 0 (see `spec_inode_offset`).
    pub fn get_inode(&self, inode_num: u32, block_size: usize, minix_img: &mut [u8]) -> (r: Option<
        usize,
    >)
        requires
            spec_inode_offset(old(minix_img)@, block_size, inode_num) != Err::<usize, Error>(
                Error::Aborted,
            ),
        ensures
            final(minix_img)@ == old(minix_img)@,
            r == (match spec_inode_offset(old(minix_img)@, block_size, inode_num) {
                Ok(o) => Some(o),
                Err(_) => None::<usize>,
            }),
    {
        if inode_num == 0 {
            return None;
        }
        if block_size > minix_img.len() || minix_img.len() - block_size < SUPER_BLOCK_SIZE {
            return None;
        }
        let sb = read_super_block(minix_img, block_size);
        let start = sb.inode_table_start_block();
        let base = match start.checked_mul(block_size) {
            Some(b) => b,
            None => {
                return None;
            },
        };
        let idx = match ((inode_num - 1) as usize).checked_mul(64) {
            Some(x) => x,
            None => {
                return None;
            },
        };
        match base.checked_add(idx) {
            Some(t) => Some(t),
            None => None,
        }
    }

    /// A fresh inode of mode `mode`: every other field is zero.
    pub fn new(mode: u16) -> (r: minix3_inode)
        ensures
            r.i_mode == mode,
            r.i_nlinks == 0 && r.i_uid == 0 && r.i_gid == 0 && r.i_size == 0,
            r.i_atime == 0 && r.i_mtime == 0 && r.i_ctime == 0,
            forall|k: int| 0 <= k < 10 ==> r.i_zone[k] == 0,
    {
        minix3_inode {
            i_mode: mode,
            i_nlinks: 0,
            i_uid: 0,
            i_gid: 0,
            i_size: 0,
            i_atime: 0,
            i_mtime: 0,
            i_ctime: 0,
            i_zone: [0u32; 10],
        }
    }

    /// Looks `name` up in the directory whose record is at `parent_inode`;
    /// whether it is a directory is judged by this inode's mode (see
    /// `spec_lookup_in_band`).
    pub fn lookup(&self, parent_inode: usize, name: &[u8], minix_img: &[u8], block_size: usize) -> (r:
        u32)
        requires
            parent_inode + 28 <= minix_img.len(),
            spec_lookup_in_band(
                self.i_mode,
                zone0_at(minix_img@, parent_inode as int),
                name@,
                minix_img@,
                block_size,
            ) is Some,
        ensures
            r == spec_lookup_in_band(
                self.i_mode,
                zone0_at(minix_img@, parent_inode as int),
                name@,
                minix_img@,
                block_size,
            )->Some_0,
    {
        let zone = read_u32(minix_img, parent_inode + 24);
        match lookup_in(self.i_mode, zone, name, minix_img, block_size) {
            Ok(n) => n,
            Err(_) => 0,
        }
    }

    /// Resolves `path` from the root directory (inode 1); 0 when a
    /// component is missing.
    pub fn lookup_iter(&self, path: &[u8], minix_img: &mut [u8], block_size: usize) -> (r: u32)
        requires
            spec_lookup_iter_in_band(old(minix_img)@, block_size, path@) is Some,
        ensures
            final(minix_img)@ == old(minix_img)@,
            r == spec_lookup_iter_in_band(old(minix_img)@, block_size, path@)->Some_0,
    {
        match resolve_path(minix_img, block_size, path) {
            Ok(n) => n,
            Err(_) => 0,
        }
    }

    /// Looks `name` up among the entries after `.` and `..` of the
    /// directory whose record is at `parent_inode` (see
    /// `spec_lookup_helper`).
    pub fn lookup_helper(&self, parent_inode: usize, name: &[u8], minix_img: &[u8], block_size: usize) -> (r:
        u32)
        requires
            parent_inode + 28 <= minix_img.len(),
            spec_lookup_helper(
                self.i_mode,
                zone0_at(minix_img@, parent_inode as int),
                name@,
                minix_img@,
                block_size,
            ) is Some,
        ensures
            r == spec_lookup_helper(
                self.i_mode,
                zone0_at(minix_img@, parent_inode as int),
                name@,
                minix_img@,
                block_size,
            )->Some_0,
    {
        if self.i_mode & DIR_MODE == 0 {
            return 0;
        }
        let zone = read_u32(minix_img, parent_inode + 24);
        assert(minix_img@.len() == minix_img.len());
        let base = match (zone as usize).checked_mul(block_size) {
            Some(b) => b,
            None => {
                assert(dir_scan(minix_img@, zone * block_size, 2, 32, name@) == Err::<u32, Error>(
                    Error::Aborted,
                ));
                return 0;
            },
        };
        match scan_dir(minix_img, base, 2, 32, name) {
            Ok(n) => n,
            Err(_) => 0,
        }
    }

    /// Allocates an inode of mode `mode`; 0 when none is free (see
    /// `spec_alloc_inode_in_band`).
    fn alloc_inode(&self, minix_img: &mut [u8], block_size: usize, mode: u16) -> (r: u32)
        requires
            spec_alloc_inode_in_band(old(minix_img)@, block_size, mode) is Some,
        ensures
            (r, final(minix_img)@) == spec_alloc_inode_in_band(old(minix_img)@, block_size, mode)->Some_0,
    {
        match alloc_inode_in(minix_img, block_size, mode) {
            Ok(n) => n,
            Err(_) => 0,
        }
    }

    /// Links inode `new_inode_num` into directory `parent_inode_num` under
    /// `file_name` (see `spec_link_in_band`).
    fn link_inode(
        &self,
        minix_img: &mut [u8],
        parent_inode_num: u32,
        new_inode_num: u32,
        block_size: usize,
        file_name: &[u8],
    ) -> (r: Result<(), bool>)
        requires
            spec_link_in_band(
                old(minix_img)@,
                block_size,
                parent_inode_num,
                new_inode_num,
                file_name@,
            ) is Some,
        ensures
            (r, final(minix_img)@) == spec_link_in_band(
                old(minix_img)@,
                block_size,
                parent_inode_num,
                new_inode_num,
                file_name@,
            )->Some_0,
    {
        match link_in(minix_img, block_size, parent_inode_num, new_inode_num, file_name) {
            Ok(_) => Ok(()),
            Err(_) => Err(false),
        }
    }

    /// Creates a file at `path` and gives its inode number (see
    /// `spec_create_file_in_band`).
    pub fn create_file(&self, minix_img: &mut [u8], block_size: usize, path: &[u8]) -> (r: u32)
        requires
            spec_create_file_in_band(old(minix_img)@, block_size, path@) is Some,
        ensures
            (r, final(minix_img)@) == spec_create_file_in_band(old(minix_img)@, block_size, path@)->Some_0,
    {
        let (dir, filename) = split_path_and_filename(path);
        let root: &[u8] = &[47u8];
        assert(root@ =~= seq![SLASH]);
        if bytes_eq(dir, root) {
            return self.alloc_inode(minix_img, block_size, 0);
        }
        let parent = self.lookup_iter(dir, minix_img, block_size);
        if parent == 0 {
            return 0;
        }
        let n = self.alloc_inode(minix_img, block_size, 0);
        let _ = self.link_inode(minix_img, parent, n, block_size, filename);
        n
    }

    /// Allocates the first zone of inode `inode_num` and gives its number
    /// (see `spec_alloc_zone_in_band`).
    fn alloc_zone(&self, minix_img: &mut [u8], inode_num: u32, block_size: usize) -> (r: u32)
        requires
            spec_alloc_zone_in_band(old(minix_img)@, block_size, inode_num) is Some,
        ensures
            (r, final(minix_img)@) == spec_alloc_zone_in_band(old(minix_img)@, block_size, inode_num)->Some_0,
    {
        match alloc_zone_in(minix_img, block_size, inode_num) {
            Ok(z) => z,
            Err(_) => 0,
        }
    }

    /// Writes `data` to the file at `file_path` (see `spec_write_in_band`).
    pub fn write(&self, minix_img: &mut [u8], file_path: &[u8], block_size: usize, data: &[u8])
        requires
            spec_write_in_band(old(minix_img)@, block_size, file_path@, data@) is Some,
        ensures
            final(minix_img)@ == spec_write_in_band(old(minix_img)@, block_size, file_path@, data@)->Some_0,
    {
        let _ = write_in(minix_img, block_size, file_path, data);
    }

    /// Makes a directory at `path` and gives its inode number (see
    /// `spec_mkdir_in_band`).
    pub fn mkdir(&self, minix_img: &mut [u8], path: &[u8], block_size: usize) -> (r: u32)
        requires
            spec_mkdir_in_band(old(minix_img)@, block_size, path@) is Some,
        ensures
            (r, final(minix_img)@) == spec_mkdir_in_band(old(minix_img)@, block_size, path@)->Some_0,
    {
        let (dir, dirname) = split_path_and_filename(path);
        let root: &[u8] = &[47u8];
        assert(root@ =~= seq![SLASH]);
        let parent = if bytes_eq(dir, root) {
            1
        } else {
            self.lookup_iter(dir, minix_img, block_size)
        };
        if parent == 0 {
            return 0;
        }
        let n = self.alloc_inode(minix_img, block_size, DIR_MODE);
        if n == 0 {
            return 0;
        }
        if self.link_inode(minix_img, parent, n, block_size, dirname).is_err() {
            return 0;
        }
        let zone = self.alloc_zone(minix_img, n, block_size);
        assert(minix_img@.len() == minix_img.len());
        let zo = match (zone as usize).checked_mul(block_size) {
            Some(z) => z,
            None => {
                return n;
            },
        };
        if zo > minix_img.len() || minix_img.len() - zo < 128 {
            return n;
        }
        let dot: &[u8] = &[46u8];
        let dotdot: &[u8] = &[46u8, 46u8];
        assert(dot@ =~= dots(1));
        assert(dotdot@ =~= dots(2));
        write_dir_entry(minix_img, zo, n, dot);
        write_dir_entry(minix_img, zo + 64, parent, dotdot);
        n
    }

    /// The content of the file at `file_path` as a view into the image;
    /// empty when the file is missing (see `spec_read_in_band`).
    pub fn read<'a>(&self, minix_img: &'a mut [u8], file_path: &[u8], block_size: usize) -> (r: &'a [u8])
        requires
            spec_read_in_band(old(minix_img)@, block_size, file_path@) is Some,
        ensures
            final(minix_img)@ == old(minix_img)@,
            r@ == spec_read_in_band(old(minix_img)@, block_size, file_path@)->Some_0,
    {
        let img: &'a [u8] = minix_img;
        match read_in(img, block_size, file_path) {
            Ok(d) => d,
            Err(_) => {
                let empty: &'a [u8] = vstd::slice::slice_subrange(img, 0, 0);
                assert(empty@ =~= Seq::<u8>::empty());
                empty
            },
        }
    }

    /// Lists the tree below directory `inode_num` at `depth` (see
    /// `spec_tree_in_band`), appending its lines to `out`.
    fn print_tree(
        &self,
        minix_img: &mut [u8],
        block_size: usize,
        depth: u8,
        inode_num: u32,
        out: &mut Vec<TreeLine>,
    )
        requires
            spec_tree_in_band(old(minix_img)@, block_size, depth, inode_num) is Some,
        ensures
            final(minix_img)@ == old(minix_img)@,
            lines_view(final(out)@) == lines_view(old(out)@) + spec_tree_in_band(
                old(minix_img)@,
                block_size,
                depth,
                inode_num,
            )->Some_0,
    {
        tree_in_band(minix_img, block_size, depth, inode_num, out);
    }

    /// Lists the tree below the root directory, then the line for the root
    /// directory, then the tree below the root once more; the lines are
    /// appended to `out`.
    pub fn show_directry_tree(&self, minix_img: &mut [u8], block_size: usize, out: &mut Vec<TreeLine>)
        requires
            spec_tree_in_band(old(minix_img)@, block_size, 1, 1) is Some,
        ensures
            final(minix_img)@ == old(minix_img)@,
            lines_view(final(out)@) == lines_view(old(out)@) + spec_tree_in_band(
                old(minix_img)@,
                block_size,
                1,
                1,
            )->Some_0.push(root_line()) + spec_tree_in_band(old(minix_img)@, block_size, 1, 1)->Some_0,
    {
        proof {
            reveal(spec_tree_in_band);
        }
        let ghost t = spec_tree_in_band(minix_img@, block_size, 1, 1)->Some_0;
        let ghost o0 = lines_view(out@);
        let root = self.get_inode(1, block_size, minix_img);
        if root.is_some() {
            self.print_tree(minix_img, block_size, 1, 1, out);
        }
        push_root_line(out);
        self.print_tree(minix_img, block_size, 1, 1, out);
        assert(lines_view(out@) =~= o0 + t.push(root_line()) + t);
    }
}

/// Deleting is not part of this interface: the call has no effect.
pub fn delete() {
}

/// A failed zone allocation that is reported in-band changes nothing.
proof fn lemma_alloc_zone_reported_error(s: Seq<u8>, bs: usize, n: u32)
    requires
        spec_alloc_zone(s, bs, n).0 matches Err(e) && reported(e),
    ensures
        spec_alloc_zone(s, bs, n).1 == s,
{
    reveal(spec_alloc_zone);
}

/// A made directory names its parent: after making a directory at `path`
/// whose parent is `q` (the root for a path directly under `/`), the first
/// block of the new directory `n` begins with `.` naming `n` and `..`
/// naming `q`, so that looking `..` up in the new directory gives `q`.
/// This holds on images whose data zones come after the inode records
/// involved, whose inode and zone numbers fit 32 bits, where the parent's
/// first zone is a data zone and the parent is not the inode handed out.
#[verifier::rlimit(100)]
pub proof fn lemma_mkdir_in_band_names_parent(s: Seq<u8>, bs: usize, path: Seq<u8>)
    requires
        bs >= 128,
        spec_mkdir_in_band(s, bs, path) matches Some((n, t)) && n != 0,
        ({
            let dir = spec_split_path(path).0;
            let sb = image_super_block(s, bs);
            let fdz = sb.s_firstdatazone as int;
            let q = if dir == seq![SLASH] { 1u32 } else { spec_lookup_iter(s, bs, dir)->Ok_0 };
            let n = spec_mkdir_in_band(s, bs, path)->Some_0.0;
            let poff = spec_get_inode(s, bs, q)->Ok_0 as int;
            &&& fdz >= inode_table_start(sb)
            &&& sb.s_imap_blocks * bs * 8 <= u32::MAX
            &&& sb.s_zmap_blocks * bs * 8 + fdz <= u32::MAX
            &&& inode_table_start(sb) * bs + (n - 1) * 64 + 64 <= fdz * bs
            &&& zone0_at(s, poff) >= fdz
            &&& n != q
        }),
    ensures
        ({
            let dir = spec_split_path(path).0;
            let sb = image_super_block(s, bs);
            let q = if dir == seq![SLASH] { 1u32 } else { spec_lookup_iter(s, bs, dir)->Ok_0 };
            let (n, t) = spec_mkdir_in_band(s, bs, path)->Some_0;
            let noff = inode_table_start(sb) * bs + (n - 1) * 64;
            let zo = zone0_at(t, noff) * bs;
            &&& entry_inode_at(t, zo) == n
            &&& entry_name_at(t, zo) == dots(1)
            &&& entry_inode_at(t, zo + 64) == q
            &&& entry_name_at(t, zo + 64) == dots(2)
            &&& spec_lookup(mode_at(t, noff), zone0_at(t, noff), dots(2), t, bs) == Ok::<u32, Error>(q)
        }),
{
    let dir = spec_split_path(path).0;
    let name = spec_split_path(path).1;
    let sb = image_super_block(s, bs);
    let fdz = sb.s_firstdatazone as int;
    let tbl = inode_table_start(sb) * bs;
    let ib = 2 + sb.s_imap_blocks;
    let q = if dir == seq![SLASH] { 1u32 } else { spec_lookup_iter(s, bs, dir)->Ok_0 };
    let root = seq![SLASH];
    if dir != root {
        assert(spec_lookup_iter_in_band(s, bs, dir) == Some(q));
    }
    let (ar, s1) = spec_alloc_inode(s, bs, DIR_MODE);
    assert(ar is Ok);
    let n = ar->Ok_0;
    lemma_alloc_inode_steps(s, bs, DIR_MODE);
    let i = bit_scan(s, 2 * bs as int, 1, sb.s_imap_blocks * bs * 8, 1);
    assert(n == i);
    let b1 = 2 * bs + (n - 1) / 8;
    let noff = tbl + (n - 1) * 64;
    assert(tbl >= 2 * bs + sb.s_imap_blocks * bs) by (nonlinear_arith)
        requires
            tbl == inode_table_start(sb) * bs,
            inode_table_start(sb) == ib + sb.s_zmap_blocks,
            ib == 2 + sb.s_imap_blocks,
    ;
    assert(sb.s_imap_blocks * bs >= 0) by (nonlinear_arith);
    assert(fdz * bs >= tbl) by (nonlinear_arith)
        requires
            tbl == inode_table_start(sb) * bs,
            fdz >= inode_table_start(sb),
    ;
    // The link.
    let (lr, s2) = spec_link(s1, bs, q, n, name);
    assert(lr is Ok);
    assert(agree(s, s1, bs as int, bs + SUPER_BLOCK_SIZE));
    lemma_get_inode_frame(s, s1, bs, q);
    lemma_link_steps(s1, bs, q, n, name);
    let poff = spec_get_inode(s, bs, q)->Ok_0 as int;
    let zp = zone0_at(s, poff);
    assert(poff == tbl + (q - 1) * 64);
    assert(zone0_at(s1, poff) == zp) by {
        assert(s1[poff + 24] == s[poff + 24] && s1[poff + 25] == s[poff + 25] && s1[poff + 26]
            == s[poff + 26] && s1[poff + 27] == s[poff + 27]);
    }
    let base = zp * bs;
    assert(base >= fdz * bs) by (nonlinear_arith)
        requires
            base == zp * bs,
            zp >= fdz,
    ;
    assert(agree(s, s2, bs as int, bs + SUPER_BLOCK_SIZE));
    lemma_super_block_frame(s, s2, bs);
    lemma_get_inode_frame(s, s2, bs, n);
    // The zone.
    let (zr, s3) = spec_alloc_zone(s2, bs, n);
    let z = spec_mkdir_in_band(s, bs, path)->Some_0.1;
    let zz: u32 = if zr is Ok { zr->Ok_0 } else { 0u32 };
    if zr is Err {
        lemma_alloc_zone_reported_error(s2, bs, n);
        assert(s3 == s2);
    } else {
        lemma_alloc_zone_steps(s2, bs, n);
    }
    let zo = zz * bs;
    let e1 = dir_entry_bytes(n, dots(1));
    let e2 = dir_entry_bytes(q, dots(2));
    let t = spec_mkdir_in_band(s, bs, path)->Some_0.1;
    assert(t == write_bytes(write_bytes(s3, zo, e1), zo + 64, e2));
    crate::fs::minix::lemma_dir_entry_roundtrip(n, dots(1));
    crate::fs::minix::lemma_dir_entry_roundtrip(q, dots(2));
    // The new record keeps its mode and first zone.
    let zmax = sb.s_zmap_blocks * bs * 8;
    let j = bit_scan(s2, ib * bs, 1, zmax, 0);
    if zz != 0 {
        assert(zr is Ok && j != zmax);
        let a = j + fdz - 1;
        assert(zz == a);
        assert(a * bs >= fdz * bs) by (nonlinear_arith)
            requires
                a >= fdz,
        ;
        let b2 = ib * bs + j / 8;
        assert(tbl == ib * bs + sb.s_zmap_blocks * bs) by (nonlinear_arith)
            requires
                tbl == inode_table_start(sb) * bs,
                inode_table_start(sb) == ib + sb.s_zmap_blocks,
        ;
        assert(b2 < tbl);
        let s2z = write_bytes(set_bit(s2, b2, j % 8), noff + 24, u32_bytes(zz));
        assert(s3[noff] == s2[noff] && s3[noff + 1] == s2[noff + 1]);
        crate::layout::lemma_read_after_write_u32(set_bit(s2, b2, j % 8), noff + 24, zz);
        assert(t[noff + 24] == s2z[noff + 24] && t[noff + 25] == s2z[noff + 25] && t[noff + 26]
            == s2z[noff + 26] && t[noff + 27] == s2z[noff + 27]);
        assert(zone0_at(t, noff) == zz);
    } else {
        assert(t[noff + 24] == s1[noff + 24] && t[noff + 25] == s1[noff + 25] && t[noff + 26]
            == s1[noff + 26] && t[noff + 27] == s1[noff + 27]);
        let x0 = t[noff + 24];
        let x1 = t[noff + 25];
        let x2 = t[noff + 26];
        let x3 = t[noff + 27];
        assert(x0 == 0 && x1 == 0 && x2 == 0 && x3 == 0);
        assert(((x0 as u32) | ((x1 as u32) << 8u32) | ((x2 as u32) << 16u32) | ((x3 as u32)
            << 24u32)) == 0u32) by (bit_vector)
            requires
                x0 == 0 && x1 == 0 && x2 == 0 && x3 == 0,
        ;
        assert(zone0_at(t, noff) == 0);
    }
    assert(s2[noff] == s1[noff] && s2[noff + 1] == s1[noff + 1]);
    assert(s3[noff] == s2[noff] && s3[noff + 1] == s2[noff + 1]);
    assert(zo + 128 <= noff || noff + 64 <= zo) by (nonlinear_arith)
        requires
            zo == zz * bs,
            zz == 0 || zz * bs >= fdz * bs,
            noff + 64 <= fdz * bs,
            noff >= 256,
    ;
    assert(t[noff] == s3[noff] && t[noff + 1] == s3[noff + 1]);
    assert(mode_at(t, noff) == DIR_MODE) by {
        crate::layout::lemma_read_after_write_u16(t, noff, DIR_MODE);
        let w = write_bytes(t, noff, crate::layout::u16_bytes(DIR_MODE));
        assert(w[noff] == t[noff] && w[noff + 1] == t[noff + 1]);
        assert(s1[noff] == crate::layout::u16_bytes(DIR_MODE)[0] && s1[noff + 1]
            == crate::layout::u16_bytes(DIR_MODE)[1]);
    }
    // The two entries.
    assert(t.subrange(zo + 4, zo + 64) =~= e1.subrange(4, 64));
    assert(t.subrange(zo + 68, zo + 128) =~= e2.subrange(4, 64));
    assert(t[zo] == e1[0] && t[zo + 1] == e1[1] && t[zo + 2] == e1[2] && t[zo + 3] == e1[3]);
    assert(t[zo + 64] == e2[0] && t[zo + 65] == e2[1] && t[zo + 66] == e2[2] && t[zo + 67] == e2[3]);
    assert(entry_inode_at(t, zo) == entry_inode_at(e1, 0));
    assert(entry_inode_at(t, zo + 64) == entry_inode_at(e2, 0));
    assert(dots(1) != dots(2));
    assert(dir_scan(t, zo, 1, (bs / 64) as int, dots(2)) == Ok::<u32, Error>(q));
    assert(dir_scan(t, zo, 0, (bs / 64) as int, dots(2)) == Ok::<u32, Error>(q));
    assert((0x4000u16 & 0x4000u16) != 0u16) by (bit_vector);
    assert(is_dir_mode(mode_at(t, noff)));
    assert(zone0_at(t, noff) * bs == zo);
}

} // verus!
