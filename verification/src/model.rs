//! The mathematical model of the free list: a sequence of regions, bottom of
//! the stack first, and the functions on it that the allocator's contracts
//! and laws are stated over.

use crate::noalloc::Atom;
use vstd::prelude::*;

verus! {

/// Every region of `s` holds at least one frame and lies within the address space.
pub open spec fn all_valid<const FRAME_SIZE: usize>(s: Seq<Atom<FRAME_SIZE>>) -> bool {
    forall|i: int| 0 <= i < s.len() ==> (#[trigger] s[i]).valid()
}

/// The number of frames that the regions of `s` hold together.
pub open spec fn total_frames<const FRAME_SIZE: usize>(s: Seq<Atom<FRAME_SIZE>>) -> nat
    decreases s.len(),
{
    if s.len() == 0 {
        0
    } else {
        total_frames(s.drop_last()) + s.last().frame_count as nat
    }
}

/// The free list of a store of `slots` slots after region `a` is handed to
/// it: `a` goes on top, unless it holds no frame or the store is full.
pub open spec fn after_push<const FRAME_SIZE: usize>(
    s: Seq<Atom<FRAME_SIZE>>,
    slots: nat,
    a: Atom<FRAME_SIZE>,
) -> Seq<Atom<FRAME_SIZE>> {
    if a.frame_count > 0 && s.len() < slots {
        s.push(a)
    } else {
        s
    }
}

/// `k` is the region that a request for `n` frames is served from: the one
/// nearest the top of the stack that holds at least `n` frames.
pub open spec fn serves<const FRAME_SIZE: usize>(
    s: Seq<Atom<FRAME_SIZE>>,
    n: usize,
    k: int,
) -> bool {
    &&& 0 <= k < s.len()
    &&& s[k].frame_count >= n
    &&& forall|j: int| k < j < s.len() ==> (#[trigger] s[j]).frame_count < n
}

/// No region of `s` holds `n` frames.
pub open spec fn none_serves<const FRAME_SIZE: usize>(s: Seq<Atom<FRAME_SIZE>>, n: usize) -> bool {
    forall|j: int| 0 <= j < s.len() ==> (#[trigger] s[j]).frame_count < n
}

/// The region that serves a request for `n` frames, if there is one. A
/// request for no frame is served by none.
pub open spec fn fit_index<const FRAME_SIZE: usize>(s: Seq<Atom<FRAME_SIZE>>, n: usize) -> Option<
    int,
> {
    if n > 0 && exists|k: int| serves(s, n, k) {
        Some(choose|k: int| serves(s, n, k))
    } else {
        None
    }
}

/// What is left of region `a` once its first `n` frames are taken.
pub open spec fn remainder<const FRAME_SIZE: usize>(a: Atom<FRAME_SIZE>, n: usize) -> Atom<
    FRAME_SIZE,
> {
    Atom {
        start: (a.start + n * FRAME_SIZE) as usize,
        frame_count: (a.frame_count - n) as usize,
    }
}

/// The free list after `n` frames are taken from region `k`: the region
/// leaves its place, and what is left of it, if anything, goes on top.
pub open spec fn after_allocate<const FRAME_SIZE: usize>(
    s: Seq<Atom<FRAME_SIZE>>,
    n: usize,
    k: int,
) -> Seq<Atom<FRAME_SIZE>> {
    if s[k].frame_count > n {
        s.remove(k).push(remainder(s[k], n))
    } else {
        s.remove(k)
    }
}

/// The free list after a request for `n` frames.
pub open spec fn after_request<const FRAME_SIZE: usize>(s: Seq<Atom<FRAME_SIZE>>, n: usize) -> Seq<
    Atom<FRAME_SIZE>,
> {
    match fit_index(s, n) {
        Some(k) => after_allocate(s, n, k),
        None => s,
    }
}

/// The free list after `n` frames are taken from region `k` of `s` and
/// handed back: what `allocate` leaves, with the frames it handed out on top.
pub open spec fn after_round_trip<const FRAME_SIZE: usize>(
    s: Seq<Atom<FRAME_SIZE>>,
    n: usize,
    k: int,
) -> Seq<Atom<FRAME_SIZE>> {
    after_allocate(s, n, k).push(Atom { start: s[k].start, frame_count: n })
}

/// The starts of `s` never fall from one region to the next.
pub open spec fn ascending<const FRAME_SIZE: usize>(s: Seq<Atom<FRAME_SIZE>>) -> bool {
    forall|i: int, j: int| 0 <= i < j < s.len() ==> s[i].start <= s[j].start
}

/// The starts of `s` rise from each region to the next.
pub open spec fn strictly_ascending<const FRAME_SIZE: usize>(s: Seq<Atom<FRAME_SIZE>>) -> bool {
    forall|i: int, j: int| 0 <= i < j < s.len() ==> s[i].start < s[j].start
}

/// The regions of `s` that start at `v`, in their order.
pub open spec fn starting_at<const FRAME_SIZE: usize>(s: Seq<Atom<FRAME_SIZE>>, v: usize) -> Seq<
    Atom<FRAME_SIZE>,
> {
    s.filter(|a: Atom<FRAME_SIZE>| a.start == v)
}

/// `s` with `a` put behind the last region that does not start after `a`.
pub open spec fn insert_by_start<const FRAME_SIZE: usize>(
    s: Seq<Atom<FRAME_SIZE>>,
    a: Atom<FRAME_SIZE>,
) -> Seq<Atom<FRAME_SIZE>>
    decreases s.len(),
{
    if s.len() > 0 && s.last().start > a.start {
        insert_by_start(s.drop_last(), a).push(s.last())
    } else {
        s.push(a)
    }
}

/// The regions of `s` in ascending order of their starts; regions with the
/// same start keep the order they had.
pub open spec fn sorted_by_start<const FRAME_SIZE: usize>(s: Seq<Atom<FRAME_SIZE>>) -> Seq<
    Atom<FRAME_SIZE>,
>
    decreases s.len(),
{
    if s.len() == 0 {
        s
    } else {
        insert_by_start(sorted_by_start(s.drop_last()), s.last())
    }
}

/// Region `b` begins at or before the end of region `a`: the two touch or overlap.
pub open spec fn touches<const FRAME_SIZE: usize>(
    a: Atom<FRAME_SIZE>,
    b: Atom<FRAME_SIZE>,
) -> bool {
    b.start <= a.end()
}

/// Region `b` is merged into region `a`: it touches `a`, and the region that
/// begins where `a` begins and holds the frames of both lies within the
/// address space.
pub open spec fn can_merge<const FRAME_SIZE: usize>(
    a: Atom<FRAME_SIZE>,
    b: Atom<FRAME_SIZE>,
) -> bool {
    &&& touches(a, b)
    &&& a.frame_count + b.frame_count <= usize::MAX
    &&& a.start + (a.frame_count + b.frame_count) * FRAME_SIZE <= usize::MAX
}

/// The region that begins where `a` begins and holds the frames of `a` and `b`.
pub open spec fn merged<const FRAME_SIZE: usize>(a: Atom<FRAME_SIZE>, b: Atom<FRAME_SIZE>) -> Atom<
    FRAME_SIZE,
> {
    Atom { start: a.start, frame_count: (a.frame_count + b.frame_count) as usize }
}

/// No region of `s` can merge into the one before it.
pub open spec fn settled<const FRAME_SIZE: usize>(s: Seq<Atom<FRAME_SIZE>>) -> bool {
    forall|i: int| 0 <= i < s.len() - 1 ==> !can_merge(#[trigger] s[i], s[i + 1])
}

/// One pass over `s` from its first region to its last that merges each
/// region into the one before it wherever `can_merge` allows. The region
/// before it is the one that the pass has built so far, with all that was
/// merged into it.
pub open spec fn coalesce<const FRAME_SIZE: usize>(s: Seq<Atom<FRAME_SIZE>>) -> Seq<
    Atom<FRAME_SIZE>,
>
    decreases s.len(),
{
    if s.len() <= 1 {
        s
    } else {
        let done = coalesce(s.drop_last());
        if can_merge(done.last(), s.last()) {
            done.drop_last().push(merged(done.last(), s.last()))
        } else {
            done.push(s.last())
        }
    }
}

/// The free list after defragmentation: sorted by start, then coalesced.
pub open spec fn defragmented<const FRAME_SIZE: usize>(s: Seq<Atom<FRAME_SIZE>>) -> Seq<
    Atom<FRAME_SIZE>,
> {
    coalesce(sorted_by_start(s))
}

/// Regions `a` and `b` share no address.
pub open spec fn apart<const FRAME_SIZE: usize>(a: Atom<FRAME_SIZE>, b: Atom<FRAME_SIZE>) -> bool {
    a.end() <= b.start || b.end() <= a.start
}

/// No two regions of `s` share an address.
pub open spec fn disjoint<const FRAME_SIZE: usize>(s: Seq<Atom<FRAME_SIZE>>) -> bool {
    forall|i: int, j: int| 0 <= i < j < s.len() ==> apart(s[i], s[j])
}

/// The regions of `s` stand in the order of their addresses and share none:
/// each ends at or before the start of every later one.
pub open spec fn separate<const FRAME_SIZE: usize>(s: Seq<Atom<FRAME_SIZE>>) -> bool {
    forall|i: int, j: int| 0 <= i < j < s.len() ==> s[i].end() <= s[j].start
}

/// The regions of `s` stand in the order of their addresses with a gap
/// between each and the next: each ends before the start of every later one.
pub open spec fn spaced<const FRAME_SIZE: usize>(s: Seq<Atom<FRAME_SIZE>>) -> bool {
    forall|i: int, j: int| 0 <= i < j < s.len() ==> s[i].end() < s[j].start
}

/// The frames of `s`, counted from any of its starts, stay within the
/// address space: nothing that its regions can merge to leaves it.
pub open spec fn roomy<const FRAME_SIZE: usize>(s: Seq<Atom<FRAME_SIZE>>) -> bool {
    &&& total_frames(s) <= usize::MAX
    &&& forall|i: int|
        0 <= i < s.len() ==> (#[trigger] s[i]).start + total_frames(s) * FRAME_SIZE <= usize::MAX
}

/// One call of an operation of the allocator.
pub enum Call {
    /// `add_memory(start, frame_count)`
    AddMemory { start: usize, frame_count: usize },
    /// `allocate(frame_count)`
    Allocate { frame_count: usize },
    /// `deallocate(start, frame_count)`
    Deallocate { start: usize, frame_count: usize },
    /// `defragment()`
    Defragment,
}

/// The free list of a store of `slots` slots after `call`.
pub open spec fn after_call<const FRAME_SIZE: usize>(
    s: Seq<Atom<FRAME_SIZE>>,
    slots: nat,
    call: Call,
) -> Seq<Atom<FRAME_SIZE>> {
    match call {
        Call::AddMemory { start, frame_count } => after_push(s, slots, Atom { start, frame_count }),
        Call::Allocate { frame_count } => after_request(s, frame_count),
        Call::Deallocate { start, frame_count } => after_push(
            s,
            slots,
            Atom { start, frame_count },
        ),
        Call::Defragment => defragmented(s),
    }
}

/// The frames that `call` adds to the memory under the allocator's care,
/// when the free list is `s` before it.
pub open spec fn frames_added<const FRAME_SIZE: usize>(
    s: Seq<Atom<FRAME_SIZE>>,
    slots: nat,
    call: Call,
) -> int {
    match call {
        Call::AddMemory { start, frame_count } => if s.len() < slots {
            frame_count as int
        } else {
            0
        },
        _ => 0,
    }
}

/// The change that `call` makes to the number of frames that are handed out
/// and not given back, when the free list is `s` before it.
pub open spec fn frames_handed_out<const FRAME_SIZE: usize>(
    s: Seq<Atom<FRAME_SIZE>>,
    slots: nat,
    call: Call,
) -> int {
    match call {
        Call::Allocate { frame_count } => if fit_index(s, frame_count) is Some {
            frame_count as int
        } else {
            0
        },
        Call::Deallocate { start, frame_count } => if s.len() < slots {
            -(frame_count as int)
        } else {
            0
        },
        _ => 0,
    }
}

/// The books of an allocator: its free list, the frames handed out and not
/// given back, and the frames ever added.
pub struct Account<const FRAME_SIZE: usize> {
    pub free: Seq<Atom<FRAME_SIZE>>,
    pub outstanding: int,
    pub added: int,
}

/// The books of a new allocator of `slots` slots after `calls`, in order.
pub open spec fn account_after<const FRAME_SIZE: usize>(slots: nat, calls: Seq<Call>) -> Account<
    FRAME_SIZE,
>
    decreases calls.len(),
{
    if calls.len() == 0 {
        Account { free: Seq::empty(), outstanding: 0, added: 0 }
    } else {
        let before = account_after::<FRAME_SIZE>(slots, calls.drop_last());
        Account {
            free: after_call(before.free, slots, calls.last()),
            outstanding: before.outstanding + frames_handed_out(before.free, slots, calls.last()),
            added: before.added + frames_added(before.free, slots, calls.last()),
        }
    }
}

} // verus!
