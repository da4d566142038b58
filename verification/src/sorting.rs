//! What sorting by start makes of a list of regions.

use crate::lemmas::{lemma_positive_length, lemma_total_push};
use crate::model::{
    all_valid, apart, ascending, disjoint, insert_by_start, separate, sorted_by_start, starting_at,
    strictly_ascending, total_frames,
};
use crate::noalloc::Atom;
use vstd::prelude::*;

verus! {

/// Inserting a region by its start keeps every region and adds the one.
pub proof fn lemma_insert_keeps_regions<const FRAME_SIZE: usize>(
    s: Seq<Atom<FRAME_SIZE>>,
    a: Atom<FRAME_SIZE>,
)
    ensures
        insert_by_start(s, a).len() == s.len() + 1,
        insert_by_start(s, a).to_multiset() == s.to_multiset().insert(a),
        total_frames(insert_by_start(s, a)) == total_frames(s) + a.frame_count,
    decreases s.len(),
{
    broadcast use vstd::seq_lib::group_to_multiset_ensures;

    if s.len() > 0 && s.last().start > a.start {
        let front = s.drop_last();
        lemma_insert_keeps_regions(front, a);
        assert(front.push(s.last()) =~= s);
        lemma_total_push(insert_by_start(front, a), s.last());
    } else {
        lemma_total_push(s, a);
    }
}

/// Every region of a list with `a` inserted is `a` or a region of the list.
pub proof fn lemma_insert_members<const FRAME_SIZE: usize>(
    s: Seq<Atom<FRAME_SIZE>>,
    a: Atom<FRAME_SIZE>,
    i: int,
)
    requires
        0 <= i < insert_by_start(s, a).len(),
    ensures
        insert_by_start(s, a)[i] == a || s.contains(insert_by_start(s, a)[i]),
{
    broadcast use vstd::seq_lib::group_to_multiset_ensures;

    lemma_insert_keeps_regions(s, a);
    let r = insert_by_start(s, a);
    assert(r.to_multiset().contains(r[i]));
}

/// Inserting a region by its start into an ascending list leaves it ascending.
pub proof fn lemma_insert_ascending<const FRAME_SIZE: usize>(
    s: Seq<Atom<FRAME_SIZE>>,
    a: Atom<FRAME_SIZE>,
)
    requires
        ascending(s),
    ensures
        ascending(insert_by_start(s, a)),
    decreases s.len(),
{
    broadcast use vstd::seq_lib::group_to_multiset_ensures;

    if s.len() > 0 && s.last().start > a.start {
        let front = s.drop_last();
        lemma_insert_ascending(front, a);
        lemma_insert_keeps_regions(front, a);
    }
}

/// The regions that start at `v` after region `a` is put on top of `s`.
pub proof fn lemma_starting_at_push<const FRAME_SIZE: usize>(
    s: Seq<Atom<FRAME_SIZE>>,
    a: Atom<FRAME_SIZE>,
    v: usize,
)
    ensures
        starting_at(s.push(a), v) == if a.start == v {
            starting_at(s, v).push(a)
        } else {
            starting_at(s, v)
        },
{
    reveal(Seq::filter);
    assert(s.push(a).drop_last() =~= s);
}

/// Inserting a region by its start puts it behind the regions that start
/// where it starts and leaves the order of all others as it was.
pub proof fn lemma_insert_stable<const FRAME_SIZE: usize>(
    s: Seq<Atom<FRAME_SIZE>>,
    a: Atom<FRAME_SIZE>,
    v: usize,
)
    ensures
        starting_at(insert_by_start(s, a), v) == starting_at(s.push(a), v),
    decreases s.len(),
{
    if s.len() > 0 && s.last().start > a.start {
        let front = s.drop_last();
        lemma_insert_stable(front, a, v);
        assert(front.push(s.last()) =~= s);
        lemma_starting_at_push(insert_by_start(front, a), s.last(), v);
        lemma_starting_at_push(front, a, v);
        lemma_starting_at_push(front, s.last(), v);
        lemma_starting_at_push(s, a, v);
    }
}

/// Inserting a region into a separate list that it shares no address with
/// leaves the list separate.
pub proof fn lemma_insert_separate<const FRAME_SIZE: usize>(
    s: Seq<Atom<FRAME_SIZE>>,
    a: Atom<FRAME_SIZE>,
)
    requires
        FRAME_SIZE > 0,
        all_valid(s),
        a.valid(),
        separate(s),
        forall|i: int| 0 <= i < s.len() ==> apart(#[trigger] s[i], a),
    ensures
        separate(insert_by_start(s, a)),
    decreases s.len(),
{
    lemma_positive_length(a);
    if s.len() > 0 && s.last().start > a.start {
        let front = s.drop_last();
        lemma_insert_separate(front, a);
        lemma_insert_keeps_regions(front, a);
    }
}

/// Sorting keeps every region: the result has the regions of the input, each
/// as often as the input has it, in ascending order of their starts.
pub proof fn lemma_sorted_is_ascending_permutation<const FRAME_SIZE: usize>(
    s: Seq<Atom<FRAME_SIZE>>,
)
    ensures
        sorted_by_start(s).len() == s.len(),
        sorted_by_start(s).to_multiset() == s.to_multiset(),
        total_frames(sorted_by_start(s)) == total_frames(s),
        ascending(sorted_by_start(s)),
    decreases s.len(),
{
    broadcast use vstd::seq_lib::group_to_multiset_ensures;

    if s.len() > 0 {
        let front = s.drop_last();
        lemma_sorted_is_ascending_permutation(front);
        lemma_insert_keeps_regions(sorted_by_start(front), s.last());
        lemma_insert_ascending(sorted_by_start(front), s.last());
        assert(front.push(s.last()) =~= s);
    }
}

/// Every region of a sorted list is a region of the list.
pub proof fn lemma_sorted_members<const FRAME_SIZE: usize>(s: Seq<Atom<FRAME_SIZE>>, i: int)
    requires
        0 <= i < sorted_by_start(s).len(),
    ensures
        s.contains(sorted_by_start(s)[i]),
{
    broadcast use vstd::seq_lib::group_to_multiset_ensures;

    lemma_sorted_is_ascending_permutation(s);
    let r = sorted_by_start(s);
    assert(r.to_multiset().contains(r[i]));
}

/// Sorting keeps valid regions valid.
pub proof fn lemma_sorted_keeps_valid<const FRAME_SIZE: usize>(s: Seq<Atom<FRAME_SIZE>>)
    requires
        all_valid(s),
    ensures
        all_valid(sorted_by_start(s)),
{
    broadcast use vstd::seq_lib::group_to_multiset_ensures;

    lemma_sorted_is_ascending_permutation(s);
    let r = sorted_by_start(s);
    assert forall|i: int| 0 <= i < r.len() implies (#[trigger] r[i]).valid() by {
        assert(r.to_multiset().contains(r[i]));
    }
}

/// Sorting is stable: the regions that start at one address stand in the
/// sorted list in the order they had.
pub proof fn lemma_sorted_stable<const FRAME_SIZE: usize>(s: Seq<Atom<FRAME_SIZE>>, v: usize)
    ensures
        starting_at(sorted_by_start(s), v) == starting_at(s, v),
    decreases s.len(),
{
    if s.len() > 0 {
        let front = s.drop_last();
        lemma_sorted_stable(front, v);
        lemma_insert_stable(sorted_by_start(front), s.last(), v);
        lemma_starting_at_push(sorted_by_start(front), s.last(), v);
        lemma_starting_at_push(front, s.last(), v);
        assert(front.push(s.last()) =~= s);
    }
}

/// Sorting a list that is ascending already changes nothing.
pub proof fn lemma_sorted_of_ascending<const FRAME_SIZE: usize>(s: Seq<Atom<FRAME_SIZE>>)
    requires
        ascending(s),
    ensures
        sorted_by_start(s) == s,
    decreases s.len(),
{
    if s.len() > 0 {
        let front = s.drop_last();
        lemma_sorted_of_ascending(front);
    }
}

/// The starts of a separate list of valid regions rise.
pub proof fn lemma_separate_rises<const FRAME_SIZE: usize>(s: Seq<Atom<FRAME_SIZE>>)
    requires
        FRAME_SIZE > 0,
        all_valid(s),
        separate(s),
    ensures
        strictly_ascending(s),
{
    assert forall|i: int, j: int| 0 <= i < j < s.len() implies s[i].start < s[j].start by {
        lemma_positive_length(s[i]);
    }
}

/// Sorting valid regions that share no address puts them in the order of
/// their addresses.
pub proof fn lemma_sorted_of_disjoint<const FRAME_SIZE: usize>(s: Seq<Atom<FRAME_SIZE>>)
    requires
        FRAME_SIZE > 0,
        all_valid(s),
        disjoint(s),
    ensures
        separate(sorted_by_start(s)),
        all_valid(sorted_by_start(s)),
        strictly_ascending(sorted_by_start(s)),
    decreases s.len(),
{
    lemma_sorted_keeps_valid(s);
    if s.len() > 0 {
        let front = s.drop_last();
        lemma_sorted_of_disjoint(front);
        let inner = sorted_by_start(front);
        assert forall|i: int| 0 <= i < inner.len() implies apart(#[trigger] inner[i], s.last()) by {
            lemma_sorted_members(front, i);
        }
        lemma_insert_separate(inner, s.last());
    }
    lemma_separate_rises(sorted_by_start(s));
}

/// Two lists with rising starts that hold the same regions are the same list.
pub proof fn lemma_rising_lists_equal<const FRAME_SIZE: usize>(
    a: Seq<Atom<FRAME_SIZE>>,
    b: Seq<Atom<FRAME_SIZE>>,
)
    requires
        strictly_ascending(a),
        strictly_ascending(b),
        a.to_multiset() == b.to_multiset(),
    ensures
        a == b,
    decreases a.len(),
{
    broadcast use vstd::seq_lib::group_to_multiset_ensures;

    assert(a.len() == b.len()) by {
        assert(a.to_multiset().len() == a.len());
    }
    if a.len() > 0 {
        // The last region of each list is the one that starts highest, so
        // the two lists end in the same region, and what stands before it
        // holds the same regions in both.
        let x = a.last();
        let y = b.last();
        assert(a.to_multiset().contains(x));
        assert(b.to_multiset().contains(y));
        assert(x == y);
        let a0 = a.drop_last();
        let b0 = b.drop_last();
        assert(a0.push(x) =~= a);
        assert(b0.push(x) =~= b);
        assert(a0.to_multiset() =~= a.to_multiset().remove(x));
        assert(b0.to_multiset() =~= b.to_multiset().remove(x));
        lemma_rising_lists_equal(a0, b0);
    }
}

} // verus!
