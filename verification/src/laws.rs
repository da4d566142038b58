//! What holds of the allocator's operations, stated over the model.

use crate::coalescing::{
    lemma_coalesce_ascending, lemma_coalesce_conserves, lemma_coalesce_continues,
    lemma_coalesce_joins_pieces, lemma_coalesce_of_separate, lemma_coalesce_of_settled,
    lemma_coalesce_settles, lemma_coalesce_starts_bounded, lemma_coalesce_valid,
};
use crate::lemmas::{
    lemma_positive_length, lemma_remainder_in_bounds, lemma_serves_unique,
    lemma_some_region_serves, lemma_total_after_allocate, lemma_total_covers_pair,
    lemma_total_push,
};
use crate::model::{
    account_after, after_allocate, after_call, after_request, after_round_trip, all_valid, apart,
    ascending, can_merge, coalesce, defragmented, disjoint, fit_index, frames_added,
    frames_handed_out, merged, none_serves, remainder, roomy, separate, serves, settled,
    sorted_by_start, spaced, starting_at, strictly_ascending, total_frames, touches, Call,
};
use crate::noalloc::Atom;
use crate::sorting::{
    lemma_rising_lists_equal, lemma_sorted_is_ascending_permutation, lemma_sorted_keeps_valid,
    lemma_sorted_members, lemma_sorted_of_ascending, lemma_sorted_of_disjoint,
    lemma_sorted_stable,
};
use vstd::prelude::*;

verus! {

/// A request is refused exactly when it asks for no frame or no region holds
/// as many frames as it asks for.
pub proof fn law_request_refused<const FRAME_SIZE: usize>(s: Seq<Atom<FRAME_SIZE>>, n: usize)
    ensures
        fit_index(s, n) is None <==> n == 0 || none_serves(s, n),
        fit_index(s, n) is Some ==> serves(s, n, fit_index(s, n)->0),
{
    if n > 0 && !none_serves(s, n) {
        lemma_some_region_serves(s, n);
    }
}

/// A request that the top region can meet is served from the top region.
pub proof fn law_top_region_serves<const FRAME_SIZE: usize>(s: Seq<Atom<FRAME_SIZE>>, n: usize)
    requires
        n > 0,
        s.len() > 0,
        s.last().frame_count >= n,
    ensures
        fit_index(s, n) == Some(s.len() - 1),
        s.last().frame_count > n ==> after_request(s, n) == s.drop_last().push(
            remainder(s.last(), n),
        ),
        s.last().frame_count == n ==> after_request(s, n) == s.drop_last(),
{
    lemma_serves_unique(s, n, s.len() - 1);
}

/// Every call conserves the frames: the free frames after it are the free
/// frames before it, and those it adds, less those it hands out.
pub proof fn law_call_conserves<const FRAME_SIZE: usize>(
    s: Seq<Atom<FRAME_SIZE>>,
    slots: nat,
    call: Call,
)
    ensures
        total_frames(after_call(s, slots, call)) + frames_handed_out(s, slots, call)
            == total_frames(s) + frames_added(s, slots, call),
{
    match call {
        Call::AddMemory { start, frame_count } => {
            lemma_total_push(s, Atom::<FRAME_SIZE> { start, frame_count });
        },
        Call::Allocate { frame_count } => {
            if let Some(k) = fit_index(s, frame_count) {
                lemma_total_after_allocate(s, frame_count, k);
            }
        },
        Call::Deallocate { start, frame_count } => {
            lemma_total_push(s, Atom::<FRAME_SIZE> { start, frame_count });
        },
        Call::Defragment => {
            law_defragment_result(s);
        },
    }
}

/// Conservation: after any sequence of calls on a new allocator, the free
/// frames and the frames handed out and not given back are together the
/// frames ever added.
pub proof fn law_conservation<const FRAME_SIZE: usize>(slots: nat, calls: Seq<Call>)
    ensures
        ({
            let account = account_after::<FRAME_SIZE>(slots, calls);
            total_frames(account.free) + account.outstanding == account.added
        }),
    decreases calls.len(),
{
    if calls.len() > 0 {
        law_conservation::<FRAME_SIZE>(slots, calls.drop_last());
        let before = account_after::<FRAME_SIZE>(slots, calls.drop_last());
        law_call_conserves(before.free, slots, calls.last());
    }
}

/// Sorting puts the regions in ascending order of their starts and is
/// stable; it keeps every region, each as often as the list has it.
pub proof fn law_sort<const FRAME_SIZE: usize>(s: Seq<Atom<FRAME_SIZE>>)
    ensures
        ascending(sorted_by_start(s)),
        forall|v: usize| #[trigger] starting_at(sorted_by_start(s), v) == starting_at(s, v),
        sorted_by_start(s).to_multiset() == s.to_multiset(),
        sorted_by_start(s).len() == s.len(),
{
    lemma_sorted_is_ascending_permutation(s);
    assert forall|v: usize| #[trigger] starting_at(sorted_by_start(s), v) == starting_at(s, v) by {
        lemma_sorted_stable(s, v);
    }
}

/// Regions that share no address merge exactly when they touch: where `a`
/// ends at or before the start of `b`, the region that holds both ends where
/// `b` ends, and so lies within the address space.
pub proof fn law_disjoint_regions_merge_when_touching<const FRAME_SIZE: usize>(
    a: Atom<FRAME_SIZE>,
    b: Atom<FRAME_SIZE>,
)
    requires
        FRAME_SIZE > 0,
        a.valid(),
        b.valid(),
        a.end() <= b.start,
    ensures
        can_merge(a, b) == touches(a, b),
        can_merge(a, b) <==> b.start == a.end(),
        can_merge(a, b) ==> merged(a, b).end() == b.end() && merged(a, b).valid(),
{
    if touches(a, b) {
        let fs = FRAME_SIZE as int;
        let x = a.frame_count as int;
        let y = b.frame_count as int;
        assert((x + y) * fs == x * fs + y * fs) by (nonlinear_arith);
        assert(x + y <= (x + y) * fs) by (nonlinear_arith)
            requires
                x + y > 0,
                fs > 0,
        ;
    }
}

/// Defragmentation leaves a list that is ascending by start and in which no
/// region can merge into the one before it; it holds the frames of the input,
/// in no more regions. A list of fewer than two regions is left as it is.
pub proof fn law_defragment_result<const FRAME_SIZE: usize>(s: Seq<Atom<FRAME_SIZE>>)
    ensures
        ascending(defragmented(s)),
        settled(defragmented(s)),
        total_frames(defragmented(s)) == total_frames(s),
        defragmented(s).len() <= s.len(),
        s.len() > 0 ==> defragmented(s).len() > 0,
        s.len() <= 1 ==> defragmented(s) == s,
        all_valid(s) ==> all_valid(defragmented(s)),
{
    lemma_sorted_is_ascending_permutation(s);
    let sorted = sorted_by_start(s);
    lemma_coalesce_ascending(sorted);
    lemma_coalesce_settles(sorted);
    lemma_coalesce_conserves(sorted);
    if s.len() <= 1 {
        lemma_sorted_of_ascending(s);
    }
    if all_valid(s) {
        lemma_sorted_keeps_valid(s);
        lemma_coalesce_valid(sorted);
    }
}

/// Defragmenting a second time changes nothing.
pub proof fn law_defragment_idempotent<const FRAME_SIZE: usize>(s: Seq<Atom<FRAME_SIZE>>)
    ensures
        defragmented(defragmented(s)) == defragmented(s),
{
    law_defragment_result(s);
    lemma_sorted_of_ascending(defragmented(s));
    lemma_coalesce_of_settled(defragmented(s));
}

/// Where the frames of a list of valid regions, counted from any of its
/// starts, stay within the address space, defragmentation merges every region
/// that touches or overlaps the one before it: a gap is left between each
/// region of the result and the next, and the starts rise.
pub proof fn law_defragment_with_room<const FRAME_SIZE: usize>(s: Seq<Atom<FRAME_SIZE>>)
    requires
        all_valid(s),
        roomy(s),
    ensures
        forall|i: int|
            0 <= i < defragmented(s).len() - 1 ==> !touches(
                #[trigger] defragmented(s)[i],
                defragmented(s)[i + 1],
            ),
        spaced(defragmented(s)),
        strictly_ascending(defragmented(s)),
{
    let total = total_frames(s) as int;
    let fs = FRAME_SIZE as int;
    let sorted = sorted_by_start(s);
    let r = defragmented(s);
    law_defragment_result(s);
    if s.len() > 0 {
        let bound = (usize::MAX - total * fs) as usize;
        assert forall|i: int| 0 <= i < sorted.len() implies (#[trigger] sorted[i]).start
            <= bound by {
            lemma_sorted_members(s, i);
        }
        lemma_coalesce_starts_bounded(sorted, bound);
        assert forall|i: int| 0 <= i < r.len() - 1 implies !touches(#[trigger] r[i], r[i + 1]) by {
            lemma_total_covers_pair(r, i, i + 1);
            let both = r[i].frame_count + r[i + 1].frame_count;
            assert(both * fs <= total * fs) by (nonlinear_arith)
                requires
                    0 <= both <= total,
                    0 <= fs,
            ;
        }
    }
}

/// Defragmenting valid regions that share no address leaves them in the
/// order of their addresses, strictly increasing by start, with a gap between
/// each region and the next.
pub proof fn law_defragment_of_disjoint<const FRAME_SIZE: usize>(s: Seq<Atom<FRAME_SIZE>>)
    requires
        FRAME_SIZE > 0,
        all_valid(s),
        disjoint(s),
    ensures
        spaced(defragmented(s)),
        strictly_ascending(defragmented(s)),
        all_valid(defragmented(s)),
{
    lemma_sorted_of_disjoint(s);
    lemma_coalesce_of_separate(sorted_by_start(s));
}

/// The free list after a round trip holds valid regions that share no
/// address, as the list before it does: the regions of the list before it,
/// with the region that served the request replaced by its pieces.
proof fn lemma_round_trip_regions<const FRAME_SIZE: usize>(
    s: Seq<Atom<FRAME_SIZE>>,
    n: usize,
    k: int,
)
    requires
        FRAME_SIZE > 0,
        all_valid(s),
        disjoint(s),
        n > 0,
        serves(s, n, k),
    ensures
        all_valid(after_round_trip(s, n, k)),
        disjoint(after_round_trip(s, n, k)),
        s[k].frame_count == n ==> after_round_trip(s, n, k).to_multiset() == s.to_multiset(),
        s[k].frame_count > n ==> after_round_trip(s, n, k).to_multiset() == s.to_multiset().remove(
            s[k],
        ).insert(remainder(s[k], n)).insert(Atom { start: s[k].start, frame_count: n }),
{
    let region = s[k];
    let low = Atom::<FRAME_SIZE> { start: region.start, frame_count: n };
    let high = remainder(region, n);
    let rest = s.remove(k);
    lemma_remainder_in_bounds(region, n);
    assert forall|i: int| 0 <= i < rest.len() implies (#[trigger] rest[i]).valid() && apart(
        rest[i],
        region,
    ) by {
        if i >= k {
            assert(apart(s[k], s[i + 1]));
        }
    }
    vstd::seq_lib::to_multiset_remove(s, k);
    if region.frame_count > n {
        vstd::seq_lib::to_multiset_build(rest, high);
        vstd::seq_lib::to_multiset_build(rest.push(high), low);
    } else {
        vstd::seq_lib::to_multiset_build(rest, low);
        assert(s.to_multiset().count(region) > 0) by {
            vstd::seq_lib::to_multiset_contains(s, region);
        }
    }
}

/// In a separate list of valid regions, a region cut in two stands where the
/// whole region stood: the list with the two pieces in its place has rising
/// starts, holds the other regions and the pieces, and coalesces to what the
/// list coalesces to.
proof fn lemma_pieces_in_place<const FRAME_SIZE: usize>(
    s: Seq<Atom<FRAME_SIZE>>,
    m: int,
    n: usize,
) -> (pieced: Seq<Atom<FRAME_SIZE>>)
    requires
        FRAME_SIZE > 0,
        all_valid(s),
        separate(s),
        0 <= m < s.len(),
        0 < n < s[m].frame_count,
    ensures
        strictly_ascending(pieced),
        pieced.to_multiset() == s.to_multiset().remove(s[m]).insert(remainder(s[m], n)).insert(
            Atom { start: s[m].start, frame_count: n },
        ),
        coalesce(pieced) == coalesce(s),
{
    let region = s[m];
    let low = Atom::<FRAME_SIZE> { start: region.start, frame_count: n };
    let high = remainder(region, n);
    lemma_remainder_in_bounds(region, n);
    lemma_positive_length(low);
    let x = s.take(m);
    let y = s.skip(m + 1);
    let whole = x.push(region);
    let both = x.push(low).push(high);
    let pieced = both + y;
    assert(whole + y =~= s);
    assert(pieced =~= s.remove(m).insert(m, high).insert(m, low));
    vstd::seq_lib::to_multiset_remove(s, m);
    vstd::seq_lib::to_multiset_insert(s.remove(m), m, high);
    vstd::seq_lib::to_multiset_insert(s.remove(m).insert(m, high), m, low);
    assert forall|i: int, j: int| 0 <= i < j < pieced.len() implies pieced[i].start
        < pieced[j].start by {
        // Region `i` of the list with the pieces is a region of `s`, or
        // one of the pieces of region `m`.
        let p = if i <= m { i } else { i - 1 };
        lemma_positive_length(s[p]);
        lemma_positive_length(high);
    }
    lemma_coalesce_joins_pieces(x, region, n);
    lemma_coalesce_continues(both, whole, y);
    pieced
}

/// Round trip: frames that are taken from a free list of valid regions that
/// share no address and are then handed back are free again, on top of the
/// list, and defragmentation joins them to what was left of their region:
/// the defragmented list is the one that the list before the request gives.
pub proof fn law_round_trip<const FRAME_SIZE: usize>(s: Seq<Atom<FRAME_SIZE>>, n: usize, k: int)
    requires
        FRAME_SIZE > 0,
        all_valid(s),
        disjoint(s),
        n > 0,
        serves(s, n, k),
    ensures
        after_round_trip(s, n, k).last() == (Atom::<FRAME_SIZE> {
            start: s[k].start,
            frame_count: n,
        }),
        total_frames(after_round_trip(s, n, k)) == total_frames(s),
        defragmented(after_round_trip(s, n, k)) == defragmented(s),
{
    let region = s[k];
    let low = Atom::<FRAME_SIZE> { start: region.start, frame_count: n };
    let t = after_round_trip(s, n, k);
    lemma_total_after_allocate(s, n, k);
    lemma_total_push(after_allocate(s, n, k), low);
    lemma_round_trip_regions(s, n, k);
    let sorted_s = sorted_by_start(s);
    let sorted_t = sorted_by_start(t);
    lemma_sorted_of_disjoint(s);
    lemma_sorted_of_disjoint(t);
    lemma_sorted_is_ascending_permutation(s);
    lemma_sorted_is_ascending_permutation(t);
    if region.frame_count == n {
        lemma_rising_lists_equal(sorted_t, sorted_s);
    } else {
        assert(sorted_s.contains(region)) by {
            vstd::seq_lib::to_multiset_contains(s, region);
            vstd::seq_lib::to_multiset_contains(sorted_s, region);
        }
        let m = choose|m: int| 0 <= m < sorted_s.len() && sorted_s[m] == region;
        let pieced = lemma_pieces_in_place(sorted_s, m, n);
        lemma_rising_lists_equal(sorted_t, pieced);
    }
}

} // verus!
