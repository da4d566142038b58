//! Facts about single regions, about the frames a list holds and about the
//! search for a region, which the proofs of the allocator rest on.

use crate::model::{
    after_allocate, after_request, can_merge, fit_index, merged, none_serves, remainder, serves,
    total_frames,
};
use crate::noalloc::Atom;
use vstd::prelude::*;

verus! {

/// The first `n` frames of a region in bounds end within the region, and what
/// is left after them is in bounds and ends where the region ends.
pub proof fn lemma_remainder_in_bounds<const FRAME_SIZE: usize>(a: Atom<FRAME_SIZE>, n: usize)
    requires
        a.in_bounds(),
        n <= a.frame_count,
    ensures
        0 <= n * FRAME_SIZE <= a.frame_count * FRAME_SIZE,
        a.start + n * FRAME_SIZE <= usize::MAX,
        remainder(a, n).start == a.start + n * FRAME_SIZE,
        remainder(a, n).frame_count == a.frame_count - n,
        remainder(a, n).end() == a.end(),
{
    let fs = FRAME_SIZE as int;
    let f = a.frame_count as int;
    let m = n as int;
    assert(0 <= m * fs <= f * fs) by (nonlinear_arith)
        requires
            0 <= m <= f,
            0 <= fs,
    ;
    assert((f - m) * fs == f * fs - m * fs) by (nonlinear_arith);
}

/// A valid region of frames of positive size ends after its start.
pub proof fn lemma_positive_length<const FRAME_SIZE: usize>(a: Atom<FRAME_SIZE>)
    requires
        FRAME_SIZE > 0,
        a.valid(),
    ensures
        a.start < a.end(),
        a.frame_count <= a.frame_count * FRAME_SIZE,
{
    let f = a.frame_count as int;
    let fs = FRAME_SIZE as int;
    assert(f <= f * fs) by (nonlinear_arith)
        requires
            f > 0,
            fs > 0,
    ;
}

/// A region that cannot merge into `a` cannot merge into `a` either once
/// another region has been merged into it.
pub proof fn lemma_grown_region_stays_apart<const FRAME_SIZE: usize>(
    a: Atom<FRAME_SIZE>,
    b: Atom<FRAME_SIZE>,
    c: Atom<FRAME_SIZE>,
)
    requires
        !can_merge(a, b),
        can_merge(b, c),
    ensures
        !can_merge(a, merged(b, c)),
{
    let fs = FRAME_SIZE as int;
    let x = a.frame_count as int;
    let y = b.frame_count as int;
    let z = c.frame_count as int;
    assert((x + y) * fs <= (x + (y + z)) * fs) by (nonlinear_arith)
        requires
            0 <= fs,
            0 <= z,
    ;
}

/// A region put on top adds its frames to the total.
pub proof fn lemma_total_push<const FRAME_SIZE: usize>(
    s: Seq<Atom<FRAME_SIZE>>,
    a: Atom<FRAME_SIZE>,
)
    ensures
        total_frames(s.push(a)) == total_frames(s) + a.frame_count,
{
    assert(s.push(a).drop_last() =~= s);
}

/// No two regions of a list hold more frames than the list.
pub proof fn lemma_total_covers_pair<const FRAME_SIZE: usize>(
    s: Seq<Atom<FRAME_SIZE>>,
    i: int,
    j: int,
)
    requires
        0 <= i < j < s.len(),
    ensures
        s[i].frame_count + s[j].frame_count <= total_frames(s),
    decreases s.len(),
{
    let front = s.drop_last();
    if j == s.len() - 1 {
        lemma_total_remove(front, i);
    } else {
        lemma_total_covers_pair(front, i, j);
    }
}

/// A region taken out of the list takes its frames from the total.
pub proof fn lemma_total_remove<const FRAME_SIZE: usize>(s: Seq<Atom<FRAME_SIZE>>, k: int)
    requires
        0 <= k < s.len(),
    ensures
        total_frames(s.remove(k)) + s[k].frame_count == total_frames(s),
    decreases s.len(),
{
    if k < s.len() - 1 {
        lemma_total_remove(s.drop_last(), k);
        assert(s.remove(k).drop_last() =~= s.drop_last().remove(k));
    }
}

/// Serving a request takes exactly the frames asked for out of the total.
pub proof fn lemma_total_after_allocate<const FRAME_SIZE: usize>(
    s: Seq<Atom<FRAME_SIZE>>,
    n: usize,
    k: int,
)
    requires
        0 <= k < s.len(),
        s[k].frame_count >= n,
    ensures
        total_frames(after_allocate(s, n, k)) + n == total_frames(s),
{
    lemma_total_remove(s, k);
    if s[k].frame_count > n {
        lemma_total_push(s.remove(k), remainder(s[k], n));
    }
}

/// At most one region serves a request: the one that does is the one that
/// `fit_index` names.
pub proof fn lemma_serves_unique<const FRAME_SIZE: usize>(
    s: Seq<Atom<FRAME_SIZE>>,
    n: usize,
    k: int,
)
    requires
        n > 0,
        serves(s, n, k),
    ensures
        fit_index(s, n) == Some(k),
        after_request(s, n) == after_allocate(s, n, k),
{
    // Of two regions that serve, the upper one would be too small for the
    // lower one to serve.
    let chosen = choose|j: int| serves(s, n, j);
    assert(chosen == k);
}

/// Where some region holds `n` frames, one of them serves the request.
pub proof fn lemma_some_region_serves<const FRAME_SIZE: usize>(s: Seq<Atom<FRAME_SIZE>>, n: usize)
    requires
        !none_serves(s, n),
    ensures
        exists|k: int| serves(s, n, k),
    decreases s.len(),
{
    if s.len() > 0 {
        if s.last().frame_count >= n {
            assert(serves(s, n, s.len() - 1));
        } else {
            let front = s.drop_last();
            let j = choose|j: int| 0 <= j < s.len() && !((#[trigger] s[j]).frame_count < n);
            assert(front[j] == s[j]);
            lemma_some_region_serves(front, n);
            let k = choose|k: int| serves(front, n, k);
            assert forall|i: int| k < i < s.len() implies (#[trigger] s[i]).frame_count < n by {
                if i < front.len() {
                    assert(front[i] == s[i]);
                }
            }
            assert(serves(s, n, k));
        }
    }
}

} // verus!
