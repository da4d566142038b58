//! The allocator: a stack of free regions in a fixed number of slots.
//!
//! `AtomAlloc<SLOTS, FRAME_SIZE>` tracks up to `SLOTS` regions of frames of
//! `FRAME_SIZE` address units each. Memory comes in through `add_memory` and
//! `deallocate`, which put a region on top of the stack, and goes out through
//! `allocate`, which searches the stack from its top. `defragment` sorts the
//! regions and merges those that touch.
//!
//! The allocator never looks at the memory itself, aligns nothing and does
//! not compare the regions it is given: that they do not overlap is for the
//! caller to see to. A region must lie within the address space, so that the
//! addresses computed from it do not overflow. It is not safe for use from
//! several threads at once.

use crate::laws::{law_defragment_result, law_request_refused};
use crate::lemmas::{lemma_remainder_in_bounds, lemma_total_after_allocate, lemma_total_push};
use crate::model::{
    after_allocate, after_push, after_request, all_valid, ascending, can_merge, coalesce,
    defragmented, insert_by_start, merged, none_serves, remainder, serves, settled,
    sorted_by_start, total_frames,
};
use vstd::prelude::*;

verus! {

/// One contiguous run of free frames, `frame_count` frames of `FRAME_SIZE`
/// address units each, beginning at `start`.
#[derive(PartialEq, Eq, Debug, Clone, Copy)]
pub struct Atom<const FRAME_SIZE: usize> {
    pub start: usize,
    pub frame_count: usize,
}

/// Why an insertion into the free list was refused.
#[derive(PartialEq, Eq, Debug, Clone, Copy)]
pub enum AllocError {
    /// Every slot of the free list already holds a region.
    CapacityExceeded,
}

/// A frame allocator that tracks up to `SLOTS` free regions without a heap.
///
/// The regions form a stack: `atoms[0]` is the bottom, `atoms[head]` the top,
/// and every slot above the top is empty. The operations ask for a
/// well-formed allocator (`wf`) and leave one; `new` makes one.
pub struct AtomAlloc<const SLOTS: usize, const FRAME_SIZE: usize> {
    pub atoms: [Option<Atom<FRAME_SIZE>>; SLOTS],
    pub head: Option<usize>,
}

impl<const FRAME_SIZE: usize> Atom<FRAME_SIZE> {
    /// The address one past the last frame of the region.
    pub open spec fn end(self) -> int {
        self.start + self.frame_count * FRAME_SIZE
    }

    /// The region lies within the address space.
    pub open spec fn in_bounds(self) -> bool {
        self.end() <= usize::MAX
    }

    /// A region that the free list may hold: it has at least one frame and
    /// lies within the address space.
    pub open spec fn valid(self) -> bool {
        self.frame_count > 0 && self.in_bounds()
    }
}

impl<const SLOTS: usize, const FRAME_SIZE: usize> View for AtomAlloc<SLOTS, FRAME_SIZE> {
    type V = Seq<Atom<FRAME_SIZE>>;

    /// The free regions, bottom of the stack first.
    open spec fn view(&self) -> Seq<Atom<FRAME_SIZE>> {
        Seq::new(self.count(), |i: int| self.atoms[i]->0)
    }
}

impl<const SLOTS: usize, const FRAME_SIZE: usize> Default for AtomAlloc<SLOTS, FRAME_SIZE> {
    fn default() -> (alloc: Self)
        ensures
            alloc.wf(),
            alloc@ == Seq::<Atom<FRAME_SIZE>>::empty(),
    {
        Self::new()
    }
}

impl<const SLOTS: usize, const FRAME_SIZE: usize> AtomAlloc<SLOTS, FRAME_SIZE> {
    /// Number of regions on the stack.
    pub open spec fn count(self) -> nat {
        match self.head {
            Some(i) => (i + 1) as nat,
            None => 0,
        }
    }

    /// The top marker names a populated slot or is absent, the slots up to it
    /// hold valid regions, and the slots above it are empty.
    pub open spec fn wf(self) -> bool {
        &&& self.count() <= SLOTS
        &&& forall|i: int|
            0 <= i < self.count() ==> (#[trigger] self.atoms[i]) is Some && self.atoms[i]->0.valid()
        &&& forall|i: int| self.count() <= i < SLOTS ==> (#[trigger] self.atoms[i]) is None
    }

    /// Two well-formed allocators that track the same regions are the same value.
    pub proof fn lemma_view_determines(self, other: Self)
        requires
            self.wf(),
            other.wf(),
            self@ == other@,
        ensures
            self == other,
    {
        assert(self.count() == self@.len());
        assert forall|i: int| 0 <= i < SLOTS implies self.atoms[i] == other.atoms[i] by {
            if i < self.count() {
                assert(self@[i] == self.atoms[i]->0);
            }
        }
        assert(self.atoms =~= other.atoms);
    }

    /// An allocator that tracks no region.
    pub fn new() -> (alloc: Self)
        ensures
            alloc.wf(),
            alloc@ == Seq::<Atom<FRAME_SIZE>>::empty(),
    {
        Self { atoms: [None; SLOTS], head: None }
    }

    /// The region on top of the stack, if there is one.
    pub fn head(&self) -> (top: &Option<Atom<FRAME_SIZE>>)
        requires
            self.wf(),
        ensures
            self@.len() == 0 ==> *top is None,
            self@.len() > 0 ==> *top == Some(self@.last()),
    {
        if let Some(index) = self.head {
            &self.atoms[index]
        } else {
            &None
        }
    }

    /// Puts `atom` on top of the stack. A region without frames is dropped;
    /// a full stack refuses the region and stays as it was.
    pub fn push(&mut self, atom: Atom<FRAME_SIZE>) -> (res: Result<(), AllocError>)
        requires
            old(self).wf(),
            atom.frame_count > 0 ==> atom.in_bounds(),
        ensures
            final(self).wf(),
            final(self)@ == after_push(old(self)@, SLOTS as nat, atom),
            res == (if atom.frame_count == 0 || old(self)@.len() < SLOTS {
                Ok::<(), AllocError>(())
            } else {
                Err::<(), AllocError>(AllocError::CapacityExceeded)
            }),
            final(self)@ == old(self)@ ==> *final(self) == *old(self),
    {
        if atom.frame_count == 0 {
            return Ok(());
        }
        let slot: usize = match self.head {
            Some(index) => index + 1,
            None => 0,
        };
        if slot >= SLOTS {
            return Err(AllocError::CapacityExceeded);
        }
        self.atoms[slot] = Some(atom);
        self.head = Some(slot);
        Ok(())
    }

    /// Takes the region on top of the stack.
    pub fn pop(&mut self) -> (top: Option<Atom<FRAME_SIZE>>)
        requires
            old(self).wf(),
        ensures
            final(self).wf(),
            old(self)@.len() == 0 ==> top is None && *final(self) == *old(self),
            old(self)@.len() > 0 ==> top == Some(old(self)@.last()) && final(self)@ == old(
                self,
            )@.drop_last(),
    {
        match self.head {
            Some(index) => {
                let top = self.atoms[index];
                self.atoms[index] = None;
                self.head = if index == 0 {
                    None
                } else {
                    Some(index - 1)
                };
                top
            },
            None => None,
        }
    }

    /// Hands the region of `frame_count` frames at `start` to the allocator.
    /// A region without frames is dropped; a full store refuses the region
    /// and stays as it was.
    ///
    /// Nothing is aligned and nothing is compared with the regions already
    /// tracked: the caller sees to both.
    pub fn add_memory(&mut self, start: usize, frame_count: usize) -> (res: Result<(), AllocError>)
        requires
            old(self).wf(),
            frame_count > 0 ==> start + frame_count * FRAME_SIZE <= usize::MAX,
        ensures
            final(self).wf(),
            final(self)@ == after_push(old(self)@, SLOTS as nat, (Atom { start, frame_count })),
            res == (if frame_count == 0 || old(self)@.len() < SLOTS {
                Ok::<(), AllocError>(())
            } else {
                Err::<(), AllocError>(AllocError::CapacityExceeded)
            }),
            final(self)@ == old(self)@ ==> *final(self) == *old(self),
            total_frames(final(self)@) == total_frames(old(self)@) + (if old(self)@.len() < SLOTS {
                frame_count as int
            } else {
                0
            }),
    {
        proof {
            lemma_total_push(self@, Atom { start, frame_count });
        }
        self.push(Atom { start, frame_count })
    }

    /// Splits `n` frames off `region`: what is left of it, if anything, goes
    /// on top of the stack, and the region's start is the address handed out.
    fn split(&mut self, region: Atom<FRAME_SIZE>, n: usize) -> (start: usize)
        requires
            old(self).wf(),
            old(self)@.len() < SLOTS,
            region.valid(),
            0 < n <= region.frame_count,
        ensures
            final(self).wf(),
            start == region.start,
            start + n * FRAME_SIZE <= usize::MAX,
            region.frame_count > n ==> final(self)@ == old(self)@.push(remainder(region, n)),
            region.frame_count == n ==> final(self)@ == old(self)@,
    {
        proof {
            lemma_remainder_in_bounds(region, n);
        }
        let rest = Atom {
            start: region.start + n * FRAME_SIZE,
            frame_count: region.frame_count - n,
        };
        let _ = self.push(rest);
        region.start
    }

    /// Finds a free region of at least `frame_count` frames, takes that many
    /// frames from its start and returns the address where they begin.
    ///
    /// The regions are tried from the top of the stack downwards, and the
    /// first that is large enough serves the request; what is left of it
    /// goes on top of the stack. Every region that was passed over is back in
    /// its place when the call returns, and the call never wants for a slot.
    /// `None` says that no single region is large enough, or that
    /// `frame_count` is zero; the free list is then as it was.
    pub fn allocate(&mut self, frame_count: usize) -> (res: Option<usize>)
        requires
            old(self).wf(),
        ensures
            final(self).wf(),
            final(self)@ == after_request(old(self)@, frame_count),
            match res {
                Some(start) => {
                    &&& frame_count > 0
                    &&& start + frame_count * FRAME_SIZE <= usize::MAX
                    &&& exists|k: int|
                        {
                            &&& serves(old(self)@, frame_count, k)
                            &&& start == old(self)@[k].start
                            &&& final(self)@ == after_allocate(old(self)@, frame_count, k)
                        }
                    &&& total_frames(final(self)@) + frame_count == total_frames(old(self)@)
                },
                None => {
                    &&& frame_count == 0 || none_serves(old(self)@, frame_count)
                    &&& *final(self) == *old(self)
                },
            },
    {
        let ghost s = self@;
        proof {
            law_request_refused(s, frame_count);
        }
        if frame_count == 0 {
            return None;
        }
        let top = match self.pop() {
            Some(top) => top,
            None => {
                return None;
            },
        };
        if top.frame_count >= frame_count {
            let start = self.split(top, frame_count);
            proof {
                lemma_total_after_allocate(s, frame_count, s.len() - 1);
            }
            return Some(start);
        }
        // The top is too small: look through the rest, keeping what is passed over.

        let mut scratch: [Option<Atom<FRAME_SIZE>>; SLOTS] = [None; SLOTS];
        scratch[0] = Some(top);
        let mut held: usize = 1;
        let mut found: Option<Atom<FRAME_SIZE>> = None;
        while found.is_none()
            invariant
                self.wf(),
                s.len() <= SLOTS,
                all_valid(s),
                1 <= held <= SLOTS,
                match found {
                    Some(a) => self@.len() + held + 1 == s.len() && a == s[self@.len() as int]
                        && a.frame_count >= frame_count,
                    None => self@.len() + held == s.len(),
                },
                self@ == s.take(self@.len() as int),
                forall|i: int|
                    0 <= i < held ==> (#[trigger] scratch[i]) == Some(s[s.len() - 1 - i]),
                forall|j: int|
                    s.len() - held <= j < s.len() ==> (#[trigger] s[j]).frame_count < frame_count,
            ensures
                found is None ==> self@.len() == 0,
            decreases self@.len() + (if found is None { 1nat } else { 0nat }),
        {
            match self.pop() {
                Some(next) => {
                    if next.frame_count >= frame_count {
                        found = Some(next);
                    } else {
                        scratch[held] = Some(next);
                        held += 1;
                    }
                },
                None => {
                    break ;
                },
            }
        }
        // What the store holds once every region that was passed over is
        // back: all that it held, but for the region that was found.
        let ghost k: int = self@.len() as int;
        let ghost base = if found is Some { s.remove(k) } else { s };
        // Put back what was passed over, the last taken first.
        while held > 0
            invariant
                self.wf(),
                held <= base.len() <= SLOTS,
                found is Some ==> base.len() < SLOTS,
                all_valid(base),
                self@ == base.take(base.len() - held),
                forall|i: int|
                    0 <= i < held ==> (#[trigger] scratch[i]) == Some(base[base.len() - 1 - i]),
            decreases held,
        {
            held -= 1;
            if let Some(passed) = scratch[held] {
                let _ = self.push(passed);
            }
        }
        assert(self@ =~= base);
        match found {
            Some(region) => {
                let start = self.split(region, frame_count);
                proof {
                    lemma_total_after_allocate(s, frame_count, k);
                }
                Some(start)
            },
            None => {
                proof {
                    self.lemma_view_determines(*old(self));
                }
                None
            },
        }
    }

    /// Gives back `frame_count` frames that begin at `start`. The count is
    /// the one that was asked of `allocate`, in frames, not a length in
    /// address units. The region is handed to the allocator as `add_memory`
    /// hands one.
    pub fn deallocate(&mut self, start: usize, frame_count: usize) -> (res: Result<(), AllocError>)
        requires
            old(self).wf(),
            frame_count > 0 ==> start + frame_count * FRAME_SIZE <= usize::MAX,
        ensures
            final(self).wf(),
            final(self)@ == after_push(old(self)@, SLOTS as nat, (Atom { start, frame_count })),
            res == (if frame_count == 0 || old(self)@.len() < SLOTS {
                Ok::<(), AllocError>(())
            } else {
                Err::<(), AllocError>(AllocError::CapacityExceeded)
            }),
            final(self)@ == old(self)@ ==> *final(self) == *old(self),
            total_frames(final(self)@) == total_frames(old(self)@) + (if old(self)@.len() < SLOTS {
                frame_count as int
            } else {
                0
            }),
    {
        self.add_memory(start, frame_count)
    }

    /// Sorts the tracked regions by start, in place. Regions with the same
    /// start keep their order.
    fn sort(&mut self)
        requires
            old(self).wf(),
        ensures
            final(self).wf(),
            final(self)@ == sorted_by_start(old(self)@),
    {
        let ghost s = self@;
        let count: usize = match self.head {
            Some(head) => head + 1,
            None => {
                return ;
            },
        };
        let mut idx: usize = 1;
        assert(sorted_by_start(s.take(1)) =~= s.take(1)) by {
            reveal_with_fuel(sorted_by_start, 2);
        }
        while idx < count
            invariant
                self.wf(),
                self.head == Some((count - 1) as usize),
                1 <= count <= SLOTS,
                count == s.len(),
                1 <= idx <= count,
                self@.take(idx as int) == sorted_by_start(s.take(idx as int)),
                forall|i: int| idx <= i < count ==> (#[trigger] self.atoms[i]) == Some(s[i]),
            decreases count - idx,
        {
            let atom = self.atoms[idx].unwrap();
            let ghost p = self@.take(idx as int);
            // Move the regions that start after `atom` one slot up, from the
            // last sorted one downwards, until the slot for `atom` is free.
            let mut pos: usize = idx;
            assert(p.take(pos as int) =~= p);
            loop
                invariant
                    self.wf(),
                    self.head == Some((count - 1) as usize),
                    1 <= count <= SLOTS,
                    count == s.len(),
                    idx < count,
                    pos <= idx,
                    p.len() == idx,
                    atom == s[idx as int],
                    forall|i: int| 0 <= i < pos ==> (#[trigger] self.atoms[i]) == Some(p[i]),
                    forall|i: int| pos < i <= idx ==> (#[trigger] self.atoms[i]) == Some(p[i - 1]),
                    forall|i: int| idx < i < count ==> (#[trigger] self.atoms[i]) == Some(s[i]),
                    insert_by_start(p, atom) == insert_by_start(p.take(pos as int), atom) + p.skip(
                        pos as int,
                    ),
                ensures
                    pos == 0 || p[pos - 1].start <= atom.start,
                decreases pos,
            {
                if pos == 0 {
                    break ;
                }
                let prev = self.atoms[pos - 1].unwrap();
                if prev.start <= atom.start {
                    break ;
                }
                self.atoms[pos] = Some(prev);
                assert(p.take(pos as int).drop_last() =~= p.take(pos - 1));
                pos -= 1;
            }
            self.atoms[pos] = Some(atom);
            assert(s.take(idx + 1).drop_last() =~= s.take(idx as int));
            idx += 1;
        }
        assert(s.take(idx as int) =~= s);
    }

    /// Merges each tracked region into the one below it wherever the two
    /// can merge, in one pass from the bottom of the stack to its top.
    fn merge(&mut self)
        requires
            old(self).wf(),
        ensures
            final(self).wf(),
            final(self)@ == coalesce(old(self)@),
    {
        let ghost s = self@;
        let count: usize = match self.head {
            Some(head) => head + 1,
            None => {
                return ;
            },
        };
        // `current` is the region that is being built, in slot `top`; the
        // regions above slot `idx` are still to be looked at.
        let mut top: usize = 0;
        let mut current = self.atoms[0].unwrap();
        let mut idx: usize = 1;
        while idx < count
            invariant
                self.wf(),
                self.head == Some((count - 1) as usize),
                1 <= count <= SLOTS,
                count == s.len(),
                top < idx <= count,
                self.atoms[top as int] == Some(current),
                forall|i: int| idx <= i < count ==> (#[trigger] self.atoms[i]) == Some(s[i]),
                self@.take(top + 1) == coalesce(s.take(idx as int)),
            decreases count - idx,
        {
            let next = self.atoms[idx].unwrap();
            assert(s.take(idx + 1).drop_last() =~= s.take(idx as int));
            match merge_pair(current, next) {
                Some(both) => {
                    current = both;
                    self.atoms[top] = Some(both);
                },
                None => {
                    top += 1;
                    current = next;
                    self.atoms[top] = Some(next);
                },
            }
            idx += 1;
        }
        assert(s.take(idx as int) =~= s);
        // Empty the slots that the merged regions have left.
        let ghost kept = self@.take(top + 1);
        let mut clear: usize = top + 1;
        while clear < count
            invariant
                top < clear <= count <= SLOTS,
                forall|i: int|
                    0 <= i <= top ==> (#[trigger] self.atoms[i]) == Some(kept[i])
                        && kept[i].valid(),
                kept.len() == top + 1,
                forall|i: int| top < i < clear ==> (#[trigger] self.atoms[i]) is None,
                forall|i: int| count <= i < SLOTS ==> (#[trigger] self.atoms[i]) is None,
            decreases count - clear,
        {
            self.atoms[clear] = None;
            clear += 1;
        }
        self.head = Some(top);
    }

    /// Sorts the free regions by start and merges those that touch or
    /// overlap, so that fewer and larger regions are left.
    ///
    /// Nothing is done to a list of fewer than two regions. Overlap is not
    /// looked for: regions that overlap are merged into one that counts the
    /// frames of both. Two regions stay apart where the one that would hold
    /// the frames of both does not fit into the address space.
    pub fn defragment(&mut self)
        requires
            old(self).wf(),
        ensures
            final(self).wf(),
            final(self)@ == defragmented(old(self)@),
            ascending(final(self)@),
            settled(final(self)@),
            total_frames(final(self)@) == total_frames(old(self)@),
            final(self)@.len() <= old(self)@.len(),
            old(self)@.len() <= 1 ==> *final(self) == *old(self),
    {
        proof {
            law_defragment_result(self@);
        }
        match self.head {
            None | Some(0) => {},
            Some(_) => {
                self.sort();
                self.merge();
            },
        }
    }
}

/// The region that holds the frames of `a` and `b`, where `b` can merge
/// into `a`.
fn merge_pair<const FRAME_SIZE: usize>(a: Atom<FRAME_SIZE>, b: Atom<FRAME_SIZE>) -> (both: Option<
    Atom<FRAME_SIZE>,
>)
    requires
        a.valid(),
        b.valid(),
    ensures
        both == (if can_merge(a, b) {
            Some(merged(a, b))
        } else {
            None
        }),
        can_merge(a, b) ==> merged(a, b).valid(),
{
    proof {
    }
    if b.start > a.start + a.frame_count * FRAME_SIZE {
        return None;
    }
    let frame_count = match a.frame_count.checked_add(b.frame_count) {
        Some(sum) => sum,
        None => {
            return None;
        },
    };
    let length = match frame_count.checked_mul(FRAME_SIZE) {
        Some(product) => product,
        None => {
            return None;
        },
    };
    if a.start.checked_add(length).is_none() {
        return None;
    }
    Some(Atom { start: a.start, frame_count })
}

} // verus!
