//! What coalescing makes of a list of regions.

use crate::laws::law_disjoint_regions_merge_when_touching;
use crate::lemmas::{
    lemma_grown_region_stays_apart, lemma_remainder_in_bounds, lemma_total_push,
};
use crate::model::{
    all_valid, ascending, can_merge, coalesce, merged, remainder, separate, settled, spaced,
    total_frames,
};
use crate::noalloc::Atom;
use vstd::prelude::*;

verus! {

/// Coalescing never leaves more regions than it was given, keeps one where
/// there was one, conserves the frames, and begins where its input begins.
pub proof fn lemma_coalesce_conserves<const FRAME_SIZE: usize>(s: Seq<Atom<FRAME_SIZE>>)
    ensures
        coalesce(s).len() <= s.len(),
        s.len() > 0 ==> coalesce(s).len() > 0 && coalesce(s)[0].start == s[0].start,
        total_frames(coalesce(s)) == total_frames(s),
    decreases s.len(),
{
    if s.len() > 1 {
        let done = coalesce(s.drop_last());
        lemma_coalesce_conserves(s.drop_last());
        if can_merge(done.last(), s.last()) {
            lemma_total_push(done.drop_last(), merged(done.last(), s.last()));
        } else {
            lemma_total_push(done, s.last());
        }
    }
}

/// Coalescing keeps valid regions valid.
pub proof fn lemma_coalesce_valid<const FRAME_SIZE: usize>(s: Seq<Atom<FRAME_SIZE>>)
    requires
        all_valid(s),
    ensures
        all_valid(coalesce(s)),
    decreases s.len(),
{
    if s.len() > 1 {
        lemma_coalesce_valid(s.drop_last());
    }
}

/// No region of a coalesced list starts after a bound on the starts of the input.
pub proof fn lemma_coalesce_starts_bounded<const FRAME_SIZE: usize>(
    s: Seq<Atom<FRAME_SIZE>>,
    bound: usize,
)
    requires
        forall|i: int| 0 <= i < s.len() ==> (#[trigger] s[i]).start <= bound,
    ensures
        forall|i: int| 0 <= i < coalesce(s).len() ==> (#[trigger] coalesce(s)[i]).start <= bound,
    decreases s.len(),
{
    if s.len() > 1 {
        lemma_coalesce_starts_bounded(s.drop_last(), bound);
        lemma_coalesce_conserves(s.drop_last());
    }
}

/// Coalescing an ascending list leaves it ascending.
pub proof fn lemma_coalesce_ascending<const FRAME_SIZE: usize>(s: Seq<Atom<FRAME_SIZE>>)
    requires
        ascending(s),
    ensures
        ascending(coalesce(s)),
    decreases s.len(),
{
    if s.len() > 1 {
        let front = s.drop_last();
        lemma_coalesce_ascending(front);
        lemma_coalesce_starts_bounded(front, s.last().start);
    }
}

/// After coalescing, no region can merge into the one before it.
pub proof fn lemma_coalesce_settles<const FRAME_SIZE: usize>(s: Seq<Atom<FRAME_SIZE>>)
    ensures
        settled(coalesce(s)),
    decreases s.len(),
{
    if s.len() > 1 {
        let done = coalesce(s.drop_last());
        lemma_coalesce_settles(s.drop_last());
        let r = coalesce(s);
        if can_merge(done.last(), s.last()) {
            assert forall|i: int| 0 <= i < r.len() - 1 implies !can_merge(
                #[trigger] r[i],
                r[i + 1],
            ) by {
                if i + 1 == r.len() - 1 {
                    lemma_grown_region_stays_apart(done[i], done.last(), s.last());
                }
            }
        }
    }
}

/// Coalescing a list in which no region can merge into the one before it
/// changes nothing.
pub proof fn lemma_coalesce_of_settled<const FRAME_SIZE: usize>(s: Seq<Atom<FRAME_SIZE>>)
    requires
        settled(s),
    ensures
        coalesce(s) == s,
    decreases s.len(),
{
    if s.len() > 1 {
        lemma_coalesce_of_settled(s.drop_last());
    }
}

/// Coalescing a separate list of valid regions merges exactly the regions
/// that touch: a gap is left between each region of the result and the next,
/// and the result ends where the list ends.
pub proof fn lemma_coalesce_of_separate<const FRAME_SIZE: usize>(s: Seq<Atom<FRAME_SIZE>>)
    requires
        FRAME_SIZE > 0,
        all_valid(s),
        separate(s),
    ensures
        spaced(coalesce(s)),
        all_valid(coalesce(s)),
        s.len() > 0 ==> coalesce(s).len() > 0 && coalesce(s).last().end() == s.last().end(),
    decreases s.len(),
{
    if s.len() > 1 {
        let front = s.drop_last();
        lemma_coalesce_of_separate(front);
        law_disjoint_regions_merge_when_touching(coalesce(front).last(), s.last());
    }
}

/// What coalescing makes of a list that goes on depends only on what it
/// made of the list so far.
pub proof fn lemma_coalesce_continues<const FRAME_SIZE: usize>(
    a: Seq<Atom<FRAME_SIZE>>,
    b: Seq<Atom<FRAME_SIZE>>,
    y: Seq<Atom<FRAME_SIZE>>,
)
    requires
        a.len() > 0,
        b.len() > 0,
        coalesce(a) == coalesce(b),
    ensures
        coalesce(a + y) == coalesce(b + y),
    decreases y.len(),
{
    if y.len() > 0 {
        lemma_coalesce_continues(a, b, y.drop_last());
        assert((a + y).drop_last() =~= a + y.drop_last());
        assert((b + y).drop_last() =~= b + y.drop_last());
    }
}

/// A region cut in two coalesces as the whole region does: behind a separate
/// list that ends at or before its start, the first `n` frames of `region`
/// and what is left of it give what `region` gives.
pub proof fn lemma_coalesce_joins_pieces<const FRAME_SIZE: usize>(
    x: Seq<Atom<FRAME_SIZE>>,
    region: Atom<FRAME_SIZE>,
    n: usize,
)
    requires
        FRAME_SIZE > 0,
        all_valid(x),
        separate(x),
        region.valid(),
        0 < n < region.frame_count,
        forall|i: int| 0 <= i < x.len() ==> (#[trigger] x[i]).end() <= region.start,
    ensures
        coalesce(x.push(Atom { start: region.start, frame_count: n }).push(remainder(region, n)))
            == coalesce(x.push(region)),
{
    let low = Atom::<FRAME_SIZE> { start: region.start, frame_count: n };
    let high = remainder(region, n);
    lemma_remainder_in_bounds(region, n);
    assert(can_merge(low, high) && merged(low, high) == region);
    let whole = x.push(region);
    let first = x.push(low);
    let both = first.push(high);
    assert(both.drop_last() =~= first);
    assert(first.drop_last() =~= x);
    assert(whole.drop_last() =~= x);
    if x.len() == 0 {
        assert(coalesce(first) == first);
    } else {
        lemma_coalesce_of_separate(x);
        let done = coalesce(x);
        law_disjoint_regions_merge_when_touching(done.last(), region);
        law_disjoint_regions_merge_when_touching(done.last(), low);
        if can_merge(done.last(), region) {
            // The list so far ends where `region` begins: its last region
            // takes in the first piece, and then the second.
            let grown = merged(done.last(), low);
            assert(coalesce(first) == done.drop_last().push(grown));
            assert(can_merge(grown, high));
            assert(merged(grown, high) == merged(done.last(), region));
        } else {
            assert(coalesce(first) == done.push(low));
        }
    }
}

} // verus!
