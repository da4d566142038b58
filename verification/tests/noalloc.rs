use atom_alloc::noalloc::{AllocError, Atom, AtomAlloc};

fn regions<const SLOTS: usize, const FRAME_SIZE: usize>(
    alloc: &AtomAlloc<SLOTS, FRAME_SIZE>,
) -> Vec<(usize, usize)> {
    let mut out = Vec::new();
    if let Some(head) = alloc.head {
        for slot in 0..=head {
            let atom = alloc.atoms[slot].expect("a slot below the top is populated");
            out.push((atom.start, atom.frame_count));
        }
    }
    for slot in out.len()..SLOTS {
        assert_eq!(alloc.atoms[slot], None);
    }
    out
}

fn total<const SLOTS: usize, const FRAME_SIZE: usize>(
    alloc: &AtomAlloc<SLOTS, FRAME_SIZE>,
) -> usize {
    regions(alloc).iter().map(|r| r.1).sum()
}

#[test]
fn noalloc() {
    let mut alloc: AtomAlloc<16, 1> = AtomAlloc::default();

    assert_eq!(alloc.head, None);

    assert_eq!(alloc.add_memory(1024, 64), Ok(())); // [(1024, 64)...]
    assert_eq!(alloc.atoms[0], Some(Atom { start: 1024, frame_count: 64 }));
    assert_eq!(alloc.head, Some(0));

    // allocation

    let start = alloc.allocate(10); // [(1034, 54)...]
    assert_eq!(alloc.atoms[0], Some(Atom { start: 1034, frame_count: 54 }));
    assert_eq!(start, Some(1024));
    assert_eq!(alloc.head, Some(0));

    // deallocation

    assert_eq!(alloc.deallocate(1024, 10), Ok(())); // [(1034, 54), (1024, 10)...]
    assert_eq!(alloc.atoms[0], Some(Atom { start: 1034, frame_count: 54 }));
    assert_eq!(alloc.atoms[1], Some(Atom { start: 1024, frame_count: 10 }));
    assert_eq!(alloc.head, Some(1));

    // defragmentation

    alloc.defragment(); // [(1024, 64)...]
    assert_eq!(alloc.atoms[0], Some(Atom { start: 1024, frame_count: 64 }));
    assert_eq!(alloc.head, Some(0));
}

#[test]
fn noalloc_irl() {
    let mut alloc: AtomAlloc<1024, 4096> = AtomAlloc::default();

    assert_eq!(alloc.add_memory(0x51000, 2), Ok(()));
    assert_eq!(alloc.add_memory(0x54000, 72), Ok(()));
    assert_eq!(alloc.add_memory(0x100000, 259887), Ok(()));
    assert_eq!(alloc.add_memory(0x3f925000, 1), Ok(()));
    assert_eq!(alloc.add_memory(0x3fed3000, 15), Ok(()));

    let mut first = alloc.allocate(1);
    if first.is_none() {
        alloc.defragment();
        first = alloc.allocate(1);
    }
    assert!(first.is_some());

    let mut second = alloc.allocate(1);
    if second.is_none() {
        alloc.defragment();
        second = alloc.allocate(1);
    }
    assert!(second.is_some());

    let mut third = alloc.allocate(1);
    if third.is_none() {
        alloc.defragment();
        third = alloc.allocate(1);
    }
    assert!(third.is_some());
}

#[test]
fn irl_allocations_come_from_the_top_region() {
    let mut alloc: AtomAlloc<1024, 4096> = AtomAlloc::new();
    let memory = [(0x51000, 2), (0x54000, 72), (0x100000, 259887), (0x3f925000, 1), (0x3fed3000, 15)];
    for (start, frames) in memory {
        assert_eq!(alloc.add_memory(start, frames), Ok(()));
    }
    assert_eq!(alloc.allocate(1), Some(0x3fed3000));
    assert_eq!(alloc.allocate(1), Some(0x3fed4000));
    assert_eq!(alloc.allocate(1), Some(0x3fed5000));
    assert_eq!(
        regions(&alloc),
        vec![(0x51000, 2), (0x54000, 72), (0x100000, 259887), (0x3f925000, 1), (0x3fed6000, 12)]
    );
}

#[test]
fn new_tracks_nothing() {
    let alloc: AtomAlloc<4, 8> = AtomAlloc::new();
    assert_eq!(alloc.head, None);
    assert_eq!(regions(&alloc), vec![]);
    assert_eq!(*alloc.head(), None);
}

#[test]
fn push_pop_head_follow_stack_order() {
    let mut alloc: AtomAlloc<4, 8> = AtomAlloc::new();
    assert_eq!(alloc.pop(), None);
    assert_eq!(alloc.push(Atom { start: 64, frame_count: 2 }), Ok(()));
    assert_eq!(alloc.push(Atom { start: 16, frame_count: 3 }), Ok(()));
    assert_eq!(*alloc.head(), Some(Atom { start: 16, frame_count: 3 }));
    assert_eq!(alloc.head, Some(1));
    assert_eq!(alloc.pop(), Some(Atom { start: 16, frame_count: 3 }));
    assert_eq!(alloc.head, Some(0));
    assert_eq!(alloc.atoms[1], None);
    assert_eq!(*alloc.head(), Some(Atom { start: 64, frame_count: 2 }));
    assert_eq!(alloc.pop(), Some(Atom { start: 64, frame_count: 2 }));
    assert_eq!(alloc.head, None);
    assert_eq!(alloc.atoms[0], None);
    assert_eq!(alloc.pop(), None);
}

#[test]
fn region_without_frames_is_dropped() {
    let mut alloc: AtomAlloc<2, 4096> = AtomAlloc::new();
    assert_eq!(alloc.add_memory(0x1000, 0), Ok(()));
    assert_eq!(alloc.head, None);
    assert_eq!(alloc.add_memory(0x1000, 1), Ok(()));
    assert_eq!(alloc.deallocate(usize::MAX, 0), Ok(()));
    assert_eq!(alloc.push(Atom { start: 7, frame_count: 0 }), Ok(()));
    assert_eq!(regions(&alloc), vec![(0x1000, 1)]);
}

#[test]
fn full_store_reports_capacity_exceeded() {
    let mut alloc: AtomAlloc<2, 1> = AtomAlloc::new();
    assert_eq!(alloc.add_memory(0, 1), Ok(()));
    assert_eq!(alloc.add_memory(10, 1), Ok(()));
    assert_eq!(alloc.add_memory(20, 1), Err(AllocError::CapacityExceeded));
    assert_eq!(alloc.deallocate(30, 1), Err(AllocError::CapacityExceeded));
    assert_eq!(alloc.push(Atom { start: 40, frame_count: 1 }), Err(AllocError::CapacityExceeded));
    assert_eq!(regions(&alloc), vec![(0, 1), (10, 1)]);
    // A region without frames is dropped before the capacity is looked at.
    assert_eq!(alloc.add_memory(50, 0), Ok(()));
    assert_eq!(regions(&alloc), vec![(0, 1), (10, 1)]);
}

#[test]
fn store_without_slots_refuses_every_region() {
    let mut alloc: AtomAlloc<0, 1> = AtomAlloc::new();
    assert_eq!(alloc.add_memory(0, 1), Err(AllocError::CapacityExceeded));
    assert_eq!(alloc.allocate(1), None);
    alloc.defragment();
    assert_eq!(alloc.head, None);
}

#[test]
fn allocate_splits_the_top_region() {
    let mut alloc: AtomAlloc<4, 4096> = AtomAlloc::new();
    assert_eq!(alloc.add_memory(0x10000, 8), Ok(()));
    assert_eq!(alloc.allocate(3), Some(0x10000));
    assert_eq!(regions(&alloc), vec![(0x10000 + 3 * 4096, 5)]);
}

#[test]
fn allocate_exact_fit_leaves_no_remainder() {
    let mut alloc: AtomAlloc<4, 4096> = AtomAlloc::new();
    assert_eq!(alloc.add_memory(0x10000, 8), Ok(()));
    assert_eq!(alloc.add_memory(0x40000, 3), Ok(()));
    assert_eq!(alloc.allocate(3), Some(0x40000));
    assert_eq!(regions(&alloc), vec![(0x10000, 8)]);
    assert_eq!(alloc.allocate(8), Some(0x10000));
    assert_eq!(regions(&alloc), vec![]);
    assert_eq!(alloc.head, None);
}

#[test]
fn allocate_of_zero_frames_is_refused() {
    let mut alloc: AtomAlloc<4, 1> = AtomAlloc::new();
    assert_eq!(alloc.allocate(0), None);
    assert_eq!(alloc.add_memory(100, 5), Ok(()));
    assert_eq!(alloc.allocate(0), None);
    assert_eq!(regions(&alloc), vec![(100, 5)]);
}

#[test]
fn allocate_on_empty_store_fails() {
    let mut alloc: AtomAlloc<4, 1> = AtomAlloc::new();
    assert_eq!(alloc.allocate(1), None);
    assert_eq!(alloc.head, None);
}

#[test]
fn allocate_searches_below_the_top() {
    let mut alloc: AtomAlloc<8, 1> = AtomAlloc::new();
    assert_eq!(alloc.add_memory(100, 2), Ok(()));
    assert_eq!(alloc.add_memory(200, 9), Ok(()));
    assert_eq!(alloc.add_memory(300, 20), Ok(()));
    assert_eq!(alloc.add_memory(400, 3), Ok(()));
    assert_eq!(alloc.add_memory(500, 1), Ok(()));
    // The region nearest the top that is large enough serves the request,
    // not the first by address and not the best fit.
    assert_eq!(alloc.allocate(5), Some(300));
    assert_eq!(regions(&alloc), vec![(100, 2), (200, 9), (400, 3), (500, 1), (305, 15)]);
}

#[test]
fn allocate_from_the_bottom_with_exact_fit() {
    let mut alloc: AtomAlloc<3, 2> = AtomAlloc::new();
    assert_eq!(alloc.add_memory(100, 7), Ok(()));
    assert_eq!(alloc.add_memory(200, 1), Ok(()));
    assert_eq!(alloc.add_memory(300, 2), Ok(()));
    assert_eq!(alloc.allocate(7), Some(100));
    assert_eq!(regions(&alloc), vec![(200, 1), (300, 2)]);
}

#[test]
fn allocate_in_a_full_store() {
    let mut alloc: AtomAlloc<3, 2> = AtomAlloc::new();
    assert_eq!(alloc.add_memory(100, 7), Ok(()));
    assert_eq!(alloc.add_memory(200, 1), Ok(()));
    assert_eq!(alloc.add_memory(300, 2), Ok(()));
    assert_eq!(alloc.allocate(4), Some(100));
    assert_eq!(regions(&alloc), vec![(200, 1), (300, 2), (108, 3)]);
}

#[test]
fn failed_search_loses_no_region() {
    let mut alloc: AtomAlloc<8, 4096> = AtomAlloc::new();
    assert_eq!(alloc.add_memory(0x1000, 2), Ok(()));
    assert_eq!(alloc.add_memory(0x9000, 3), Ok(()));
    assert_eq!(alloc.add_memory(0x20000, 1), Ok(()));
    assert_eq!(alloc.add_memory(0x30000, 4), Ok(()));
    let before = regions(&alloc);
    assert_eq!(alloc.allocate(5), None);
    assert_eq!(regions(&alloc), before);
    assert_eq!(alloc.head, Some(3));
    assert_eq!(alloc.allocate(usize::MAX), None);
    assert_eq!(regions(&alloc), before);
}

#[test]
fn defragment_leaves_short_lists_alone() {
    let mut alloc: AtomAlloc<4, 1> = AtomAlloc::new();
    alloc.defragment();
    assert_eq!(alloc.head, None);
    assert_eq!(alloc.add_memory(5, 5), Ok(()));
    alloc.defragment();
    assert_eq!(regions(&alloc), vec![(5, 5)]);
}

#[test]
fn defragment_merges_touching_regions() {
    let mut alloc: AtomAlloc<4, 1> = AtomAlloc::new();
    assert_eq!(alloc.add_memory(1034, 54), Ok(()));
    assert_eq!(alloc.add_memory(1024, 10), Ok(()));
    alloc.defragment();
    assert_eq!(regions(&alloc), vec![(1024, 64)]);
    assert_eq!(alloc.atoms[1], None);
}

#[test]
fn defragment_sorts_and_keeps_gaps() {
    let mut alloc: AtomAlloc<8, 4096> = AtomAlloc::new();
    assert_eq!(alloc.add_memory(0x9000, 1), Ok(()));
    assert_eq!(alloc.add_memory(0x1000, 2), Ok(()));
    assert_eq!(alloc.add_memory(0x5000, 2), Ok(()));
    assert_eq!(alloc.add_memory(0x3000, 1), Ok(()));
    assert_eq!(alloc.add_memory(0xa000, 3), Ok(()));
    alloc.defragment();
    // 0x1000..0x3000 and 0x3000..0x4000 touch; 0x5000..0x7000 stands alone;
    // 0x9000..0xa000 and 0xa000..0xd000 touch.
    assert_eq!(regions(&alloc), vec![(0x1000, 3), (0x5000, 2), (0x9000, 4)]);
    assert_eq!(alloc.head, Some(2));
}

#[test]
fn defragment_merges_a_run_of_regions() {
    let mut alloc: AtomAlloc<8, 16> = AtomAlloc::new();
    assert_eq!(alloc.add_memory(64, 1), Ok(()));
    assert_eq!(alloc.add_memory(0, 2), Ok(()));
    assert_eq!(alloc.add_memory(48, 1), Ok(()));
    assert_eq!(alloc.add_memory(32, 1), Ok(()));
    alloc.defragment();
    assert_eq!(regions(&alloc), vec![(0, 5)]);
}

#[test]
fn defragment_coalesces_overlapping_regions() {
    let mut alloc: AtomAlloc<4, 1> = AtomAlloc::new();
    assert_eq!(alloc.add_memory(100, 10), Ok(()));
    assert_eq!(alloc.add_memory(105, 10), Ok(()));
    assert_eq!(alloc.add_memory(100, 1), Ok(()));
    alloc.defragment();
    assert_eq!(regions(&alloc), vec![(100, 21)]);
}

#[test]
fn defragment_keeps_apart_what_would_leave_the_address_space() {
    let mut alloc: AtomAlloc<4, 1> = AtomAlloc::new();
    assert_eq!(alloc.add_memory(usize::MAX - 10, 10), Ok(()));
    assert_eq!(alloc.add_memory(usize::MAX - 5, 5), Ok(()));
    assert_eq!(alloc.add_memory(0, 4), Ok(()));
    alloc.defragment();
    assert_eq!(regions(&alloc), vec![(0, 4), (usize::MAX - 10, 10), (usize::MAX - 5, 5)]);
}

#[test]
fn defragment_merges_up_to_the_end_of_the_address_space() {
    let mut alloc: AtomAlloc<4, 1> = AtomAlloc::new();
    assert_eq!(alloc.add_memory(usize::MAX - 5, 5), Ok(()));
    assert_eq!(alloc.add_memory(usize::MAX - 10, 5), Ok(()));
    alloc.defragment();
    assert_eq!(regions(&alloc), vec![(usize::MAX - 10, 10)]);
    assert_eq!(alloc.allocate(10), Some(usize::MAX - 10));
    assert_eq!(alloc.head, None);
}

#[test]
fn defragment_with_frame_size_zero() {
    let mut alloc: AtomAlloc<4, 0> = AtomAlloc::new();
    assert_eq!(alloc.add_memory(8, usize::MAX), Ok(()));
    assert_eq!(alloc.add_memory(8, 1), Ok(()));
    assert_eq!(alloc.add_memory(3, 2), Ok(()));
    assert_eq!(alloc.add_memory(3, 4), Ok(()));
    alloc.defragment();
    assert_eq!(regions(&alloc), vec![(3, 6), (8, usize::MAX), (8, 1)]);
}

#[test]
fn defragment_sort_is_stable() {
    let mut alloc: AtomAlloc<4, 1> = AtomAlloc::new();
    assert_eq!(alloc.add_memory(50, usize::MAX - 50), Ok(()));
    assert_eq!(alloc.add_memory(50, 7), Ok(()));
    assert_eq!(alloc.add_memory(10, 1), Ok(()));
    alloc.defragment();
    assert_eq!(regions(&alloc), vec![(10, 1), (50, usize::MAX - 50), (50, 7)]);
}

#[test]
fn defragment_twice_is_defragment_once() {
    let mut alloc: AtomAlloc<8, 4> = AtomAlloc::new();
    for (start, frames) in [(400, 5), (40, 10), (0, 10), (1000, 1), (420, 2), (80, 3)] {
        assert_eq!(alloc.add_memory(start, frames), Ok(()));
    }
    alloc.defragment();
    let once = regions(&alloc);
    assert_eq!(once, vec![(0, 23), (400, 7), (1000, 1)]);
    alloc.defragment();
    assert_eq!(regions(&alloc), once);
}

#[test]
fn round_trip_restores_the_region() {
    let mut alloc: AtomAlloc<8, 4096> = AtomAlloc::new();
    assert_eq!(alloc.add_memory(0x100000, 32), Ok(()));
    assert_eq!(alloc.add_memory(0x400000, 16), Ok(()));
    let start = alloc.allocate(4).expect("the top region is large enough");
    assert_eq!(start, 0x400000);
    assert_eq!(regions(&alloc), vec![(0x100000, 32), (0x404000, 12)]);
    assert_eq!(alloc.deallocate(start, 4), Ok(()));
    assert_eq!(regions(&alloc), vec![(0x100000, 32), (0x404000, 12), (0x400000, 4)]);
    alloc.defragment();
    assert_eq!(regions(&alloc), vec![(0x100000, 32), (0x400000, 16)]);
}

#[test]
fn frames_are_conserved() {
    let mut alloc: AtomAlloc<8, 4096> = AtomAlloc::new();
    let mut added = 0;
    for (start, frames) in [(0x10000, 6), (0x40000, 2), (0x80000, 9)] {
        assert_eq!(alloc.add_memory(start, frames), Ok(()));
        added += frames;
    }
    let mut outstanding = 0;
    let a = alloc.allocate(4).expect("a region of nine frames is free");
    outstanding += 4;
    assert_eq!(total(&alloc) + outstanding, added);
    let b = alloc.allocate(6).expect("a region of six frames is free");
    outstanding += 6;
    assert_eq!(total(&alloc) + outstanding, added);
    assert_eq!(alloc.allocate(6), None);
    assert_eq!(total(&alloc) + outstanding, added);
    assert_eq!(alloc.deallocate(a, 4), Ok(()));
    outstanding -= 4;
    assert_eq!(total(&alloc) + outstanding, added);
    alloc.defragment();
    assert_eq!(total(&alloc) + outstanding, added);
    assert_eq!(alloc.deallocate(b, 6), Ok(()));
    outstanding -= 6;
    assert_eq!(outstanding, 0);
    assert_eq!(total(&alloc), added);
    alloc.defragment();
    assert_eq!(regions(&alloc), vec![(0x10000, 6), (0x40000, 2), (0x80000, 9)]);
}

#[test]
fn defragment_makes_a_larger_allocation_possible() {
    let mut alloc: AtomAlloc<4, 1> = AtomAlloc::new();
    assert_eq!(alloc.add_memory(0, 4), Ok(()));
    assert_eq!(alloc.add_memory(4, 4), Ok(()));
    assert_eq!(alloc.allocate(8), None);
    alloc.defragment();
    assert_eq!(alloc.allocate(8), Some(0));
    assert_eq!(alloc.head, None);
}
