//! Splitting of slash-separated byte paths.
use vstd::prelude::*;

verus! {

/// The byte `/`.
pub const SLASH: u8 = 47;

/// Index of the last `/` in `p`, or -1 when there is none.
pub open spec fn last_slash(p: Seq<u8>) -> int
    decreases p.len(),
{
    if p.len() == 0 {
        -1
    } else if p.last() == SLASH {
        p.len() - 1
    } else {
        last_slash(p.drop_last())
    }
}

/// The parent directory and the last component of `p`: everything before
/// the last `/` (or `/` itself when that slash is the first byte or there
/// is none) and everything after it.
pub open spec fn spec_split_path(p: Seq<u8>) -> (Seq<u8>, Seq<u8>) {
    let idx = last_slash(p);
    if idx < 0 {
        (seq![SLASH], p)
    } else if idx == 0 {
        (seq![SLASH], p.subrange(1, p.len() as int))
    } else {
        (p.subrange(0, idx), p.subrange(idx + 1, p.len() as int))
    }
}

pub proof fn lemma_last_slash_bounds(p: Seq<u8>)
    ensures
        -1 <= last_slash(p) < p.len(),
        last_slash(p) >= 0 ==> p[last_slash(p)] == SLASH,
        forall|j: int| last_slash(p) < j < p.len() ==> p[j] != SLASH,
    decreases p.len(),
{
    if p.len() > 0 && p.last() != SLASH {
        lemma_last_slash_bounds(p.drop_last());
        assert forall|j: int| last_slash(p) < j < p.len() implies p[j] != SLASH by {
            if j < p.len() - 1 {
                assert(p.drop_last()[j] == p[j]);
            }
        }
    }
}

/// Splits a path at its last `/` into the parent directory and the name.
pub fn split_path_and_filename(file_path: &[u8]) -> (r: (&[u8], &[u8]))
    ensures
        (r.0@, r.1@) == spec_split_path(file_path@),
{
    let n = file_path.len();
    let mut k: usize = n;
    assert(file_path@.subrange(0, n as int) =~= file_path@);
    // Scan from the end for the last slash.
    while k > 0
        invariant
            k <= n,
            n == file_path@.len(),
            last_slash(file_path@) == last_slash(file_path@.subrange(0, k as int)),
        decreases k,
    {
        let ghost pre = file_path@.subrange(0, k as int);
        assert(pre.drop_last() =~= file_path@.subrange(0, k - 1));
        if file_path[k - 1] == SLASH {
            let idx = k - 1;
            let root: &[u8] = &[47u8];
            assert(last_slash(file_path@) == idx);
            let name = vstd::slice::slice_subrange(file_path, idx + 1, n);
            if idx == 0 {
                return (root, name);
            } else {
                let parent = vstd::slice::slice_subrange(file_path, 0, idx);
                return (parent, name);
            }
        }
        k = k - 1;
    }
    assert(file_path@.subrange(0, 0) =~= Seq::<u8>::empty());
    let root: &[u8] = &[47u8];
    (root, file_path)
}

/// End of the path component that starts at `i`: the index of the next
/// `/` at or after `i`, or the length of `p`.
pub open spec fn segment_end(p: Seq<u8>, i: int) -> int
    decreases p.len() - i,
{
    if i >= p.len() || i < 0 {
        p.len() as int
    } else if p[i] == SLASH {
        i
    } else {
        segment_end(p, i + 1)
    }
}

/// The non-empty `/`-separated components of `p` from index `i` on.
pub open spec fn segments_from(p: Seq<u8>, i: int) -> Seq<Seq<u8>>
    decreases p.len() - i,
{
    if i >= p.len() || i < 0 {
        Seq::empty()
    } else if p[i] == SLASH {
        segments_from(p, i + 1)
    } else {
        let e = segment_end(p, i);
        if e <= i || e > p.len() {
            Seq::empty()
        } else {
            seq![p.subrange(i, e)] + segments_from(p, e)
        }
    }
}

/// The non-empty `/`-separated components of `p`, in order.
pub open spec fn path_segments(p: Seq<u8>) -> Seq<Seq<u8>> {
    segments_from(p, 0)
}

pub proof fn lemma_segment_end_bounds(p: Seq<u8>, i: int)
    requires
        0 <= i <= p.len(),
    ensures
        i <= segment_end(p, i) <= p.len(),
        segment_end(p, i) < p.len() ==> p[segment_end(p, i)] == SLASH,
        forall|j: int| i <= j < segment_end(p, i) ==> p[j] != SLASH,
    decreases p.len() - i,
{
    if i < p.len() && p[i] != SLASH {
        lemma_segment_end_bounds(p, i + 1);
    }
}

/// The next path component at or after index `i`: its start and end, or
/// `None` when only slashes remain.
pub fn next_segment(p: &[u8], i: usize) -> (r: Option<(usize, usize)>)
    requires
        i <= p@.len(),
    ensures
        match r {
            None => segments_from(p@, i as int) == Seq::<Seq<u8>>::empty(),
            Some((s, e)) => {
                &&& i <= s < e <= p@.len()
                &&& segments_from(p@, i as int) == seq![p@.subrange(s as int, e as int)]
                    + segments_from(p@, e as int)
            },
        },
{
    let n = p.len();
    let mut s = i;
    while s < n && p[s] == SLASH
        invariant
            i <= s <= n,
            n == p@.len(),
            segments_from(p@, i as int) == segments_from(p@, s as int),
        decreases n - s,
    {
        s = s + 1;
    }
    if s >= n {
        return None;
    }
    let mut e = s;
    while e < n && p[e] != SLASH
        invariant
            s <= e <= n,
            n == p@.len(),
            s < n,
            p@[s as int] != SLASH,
            segment_end(p@, s as int) == segment_end(p@, e as int),
        decreases n - e,
    {
        e = e + 1;
    }
    proof {
        lemma_segment_end_bounds(p@, s as int);
    }
    Some((s, e))
}

/// Where `p` has a `/` at `idx`, a component that starts at or before
/// `idx` ends where it ends in the part of `p` before `idx`.
proof fn lemma_segment_end_prefix(p: Seq<u8>, idx: int, i: int)
    requires
        0 <= i <= idx < p.len(),
        p[idx] == SLASH,
    ensures
        segment_end(p, i) == segment_end(p.subrange(0, idx), i),
    decreases idx - i,
{
    if i < idx && p[i] != SLASH {
        lemma_segment_end_prefix(p, idx, i + 1);
    }
}

/// The components of `p` from `i <= idx` on, where `p` has its last `/`
/// at `idx` and a non-empty name after it: those of the part before `idx`
/// and then the name.
proof fn lemma_segments_prefix(p: Seq<u8>, idx: int, i: int)
    requires
        0 <= i <= idx,
        idx == last_slash(p),
        idx + 1 < p.len(),
    ensures
        segments_from(p, i) == segments_from(p.subrange(0, idx), i) + seq![
            p.subrange(idx + 1, p.len() as int),
        ],
    decreases idx - i,
{
    lemma_last_slash_bounds(p);
    let d = p.subrange(0, idx);
    if i == idx {
        lemma_segment_end_bounds(p, idx + 1);
        assert(segment_end(p, idx + 1) == p.len());
        assert(segments_from(p, p.len() as int) == Seq::<Seq<u8>>::empty());
        assert(segments_from(p, idx + 1) =~= seq![p.subrange(idx + 1, p.len() as int)]);
        assert(segments_from(d, i) == Seq::<Seq<u8>>::empty());
        assert(segments_from(d, i) + seq![p.subrange(idx + 1, p.len() as int)] =~= seq![
            p.subrange(idx + 1, p.len() as int),
        ]);
    } else if p[i] == SLASH {
        lemma_segments_prefix(p, idx, i + 1);
    } else {
        lemma_segment_end_prefix(p, idx, i);
        lemma_segment_end_bounds(d, i);
        let e = segment_end(d, i);
        assert(e > i);
        lemma_segments_prefix(p, idx, e);
        assert(p.subrange(i, e) =~= d.subrange(i, e));
        assert(seq![d.subrange(i, e)] + (segments_from(d, e) + seq![p.subrange(idx + 1, p.len() as int)])
            =~= (seq![d.subrange(i, e)] + segments_from(d, e)) + seq![
            p.subrange(idx + 1, p.len() as int),
        ]);
    }
}

/// The components of a path whose last component is not empty: those of
/// its parent directory, then that last component.
pub proof fn lemma_split_segments(p: Seq<u8>)
    requires
        spec_split_path(p).1.len() > 0,
    ensures
        path_segments(p) == path_segments(spec_split_path(p).0) + seq![spec_split_path(p).1],
{
    lemma_last_slash_bounds(p);
    let idx = last_slash(p);
    let root = seq![SLASH];
    assert(segments_from(root, 1) == Seq::<Seq<u8>>::empty());
    assert(path_segments(root) == Seq::<Seq<u8>>::empty());
    if idx < 0 {
        lemma_segment_end_bounds(p, 0);
        assert(segment_end(p, 0) == p.len());
        assert(segments_from(p, p.len() as int) == Seq::<Seq<u8>>::empty());
        assert(p.subrange(0, p.len() as int) =~= p);
        assert(path_segments(p) =~= seq![p]);
        assert(path_segments(root) + seq![p] =~= seq![p]);
    } else if idx == 0 {
        lemma_segment_end_bounds(p, 1);
        assert(segment_end(p, 1) == p.len());
        assert(segments_from(p, p.len() as int) == Seq::<Seq<u8>>::empty());
        assert(p[1] != SLASH);
        assert(segments_from(p, 0) == segments_from(p, 1));
        assert(segments_from(p, 1) =~= seq![p.subrange(1, p.len() as int)]);
        assert(path_segments(p) =~= seq![p.subrange(1, p.len() as int)]);
        assert(path_segments(root) + seq![p.subrange(1, p.len() as int)] =~= seq![
            p.subrange(1, p.len() as int),
        ]);
    } else {
        lemma_segments_prefix(p, idx, 0);
    }
}

/// Every component of a path is non-empty and holds no `/`.
pub proof fn lemma_segments_from_shape(p: Seq<u8>, i: int)
    requires
        0 <= i,
    ensures
        forall|k: int|
            0 <= k < segments_from(p, i).len() ==> #[trigger] segments_from(p, i)[k].len() > 0
                && forall|q: int|
                0 <= q < segments_from(p, i)[k].len() ==> segments_from(p, i)[k][q] != SLASH,
    decreases p.len() - i,
{
    if i < p.len() {
        if p[i] == SLASH {
            lemma_segments_from_shape(p, i + 1);
            assert(segments_from(p, i) == segments_from(p, i + 1));
        } else {
            lemma_segment_end_bounds(p, i);
            let e = segment_end(p, i);
            if e > i && e <= p.len() {
                lemma_segments_from_shape(p, e);
                let rest = segments_from(p, e);
                let first = p.subrange(i, e);
                assert(segments_from(p, i) == seq![first] + rest);
                assert forall|k: int| 0 <= k < segments_from(p, i).len() implies #[trigger] segments_from(
                    p,
                    i,
                )[k].len() > 0 && forall|q: int|
                    0 <= q < segments_from(p, i)[k].len() ==> segments_from(p, i)[k][q] != SLASH by {
                    if k > 0 {
                        assert(segments_from(p, i)[k] == rest[k - 1]);
                    } else {
                        assert(segments_from(p, i)[0] == first);
                        assert forall|q: int| 0 <= q < first.len() implies first[q] != SLASH by {
                            assert(first[q] == p[i + q]);
                        }
                    }
                }
            }
        }
    }
}

} // verus!
