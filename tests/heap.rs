use canheap::heap::{GroupingHeap, Heap, NoGrouping, PlainHeap, SortOn};
use canheap::{Frame, FrameId};
use core::cmp::Ordering;

fn ext(id: u32, data: &[u8]) -> Frame<8> {
    Frame::new(FrameId::new_extended(id).unwrap(), data).unwrap()
}

fn std_frame(id: u16, data: &[u8]) -> Frame<8> {
    Frame::new(FrameId::new_standard(id).unwrap(), data).unwrap()
}

#[test]
fn check_sort_by_seq() {
    let mut heap = PlainHeap::<(), 8, 32>::new(SortOn::Push);
    assert_eq!(heap.push(Frame::new(FrameId::new_extended(0x123).unwrap(), &[1, 2, 3]).unwrap(), ()), Ok(0));
    assert_eq!(heap.len(), 1);
    assert_eq!(heap.push(Frame::new(FrameId::new_extended(0x123).unwrap(), &[4, 5, 6]).unwrap(), ()), Ok(0));
    assert_eq!(heap.len(), 2);
    assert_eq!(heap.push(Frame::new(FrameId::new_extended(0x123).unwrap(), &[7, 8, 9]).unwrap(), ()), Ok(0));
    assert_eq!(heap.len(), 3);

    assert_eq!(heap.pop().unwrap().0.data(), &[1, 2, 3]);
    assert_eq!(heap.len(), 2);
    assert_eq!(heap.pop().unwrap().0.data(), &[4, 5, 6]);
    assert_eq!(heap.len(), 1);
    assert_eq!(heap.pop().unwrap().0.data(), &[7, 8, 9]);
    assert_eq!(heap.len(), 0);
    assert_eq!(heap.pop(), None);

    let mut heap = PlainHeap::<(), 8, 32>::new(SortOn::Pop);
    assert_eq!(heap.push(Frame::new(FrameId::new_extended(0x123).unwrap(), &[1, 2, 3]).unwrap(), ()), Ok(0));
    assert_eq!(heap.len(), 1);
    assert_eq!(heap.push(Frame::new(FrameId::new_extended(0x123).unwrap(), &[4, 5, 6]).unwrap(), ()), Ok(0));
    assert_eq!(heap.len(), 2);
    assert_eq!(heap.push(Frame::new(FrameId::new_extended(0x123).unwrap(), &[7, 8, 9]).unwrap(), ()), Ok(0));
    assert_eq!(heap.len(), 3);

    assert_eq!(heap.pop().unwrap().0.data(), &[1, 2, 3]);
    assert_eq!(heap.len(), 2);
    assert_eq!(heap.pop().unwrap().0.data(), &[4, 5, 6]);
    assert_eq!(heap.len(), 1);
    assert_eq!(heap.pop().unwrap().0.data(), &[7, 8, 9]);
    assert_eq!(heap.len(), 0);
    assert_eq!(heap.pop(), None);
}

#[test]
fn check_sort_by_id_and_seq() {
    let mut heap = PlainHeap::<(), 8, 32>::new(SortOn::Push);
    assert_eq!(heap.push(Frame::new(FrameId::new_extended(0x123).unwrap(), &[1, 2, 3]).unwrap(), ()), Ok(0));
    assert_eq!(heap.len(), 1);
    assert_eq!(heap.push(Frame::new(FrameId::new_extended(0x1).unwrap(), &[4, 5, 6]).unwrap(), ()), Ok(0));
    assert_eq!(heap.len(), 2);
    assert_eq!(heap.push(Frame::new(FrameId::new_extended(0x123).unwrap(), &[7, 8, 9]).unwrap(), ()), Ok(0));
    assert_eq!(heap.len(), 3);
    assert_eq!(heap.push(Frame::new(FrameId::new_standard(0x1).unwrap(), &[1, 1]).unwrap(), ()), Ok(0));
    assert_eq!(heap.len(), 4);

    assert_eq!(heap.pop().unwrap().0.data(), &[1, 1]);
    assert_eq!(heap.len(), 3);
    assert_eq!(heap.pop().unwrap().0.data(), &[4, 5, 6]);
    assert_eq!(heap.len(), 2);
    assert_eq!(heap.pop().unwrap().0.data(), &[1, 2, 3]);
    assert_eq!(heap.len(), 1);
    assert_eq!(heap.pop().unwrap().0.data(), &[7, 8, 9]);
    assert_eq!(heap.len(), 0);
    assert_eq!(heap.pop(), None);
}

#[test]
fn check_yield() {
    let mut heap = PlainHeap::<(), 8, 4>::new(SortOn::Push);
    let lower_prio = Frame::new(FrameId::new_extended(0x123).unwrap(), &[1, 2, 3]).unwrap();
    let higher_prio = Frame::new(FrameId::new_extended(0x12).unwrap(), &[4, 5, 6]).unwrap();
    assert_eq!(heap.push(lower_prio, ()), Ok(0));
    assert_eq!(heap.push(lower_prio, ()), Ok(0));
    assert_eq!(heap.push(lower_prio, ()), Ok(0));
    assert_eq!(heap.push(lower_prio, ()), Ok(0));
    assert!(heap.push(lower_prio, ()).is_err());
    assert_eq!(heap.len(), 4);
    assert_eq!(heap.push(higher_prio, ()), Ok(1));
    assert_eq!(heap.len(), 4);

    assert_eq!(heap.pop().unwrap().0.data(), &[4, 5, 6]);
    assert_eq!(heap.len(), 3);
    assert_eq!(heap.pop().unwrap().0.data(), &[1, 2, 3]);
    assert_eq!(heap.len(), 2);
    assert_eq!(heap.pop().unwrap().0.data(), &[1, 2, 3]);
    assert_eq!(heap.len(), 1);
    assert_eq!(heap.pop().unwrap().0.data(), &[1, 2, 3]);
    assert_eq!(heap.len(), 0);
    assert_eq!(heap.pop(), None);
}

#[test]
fn check_grouping() {
    let mut heap = GroupingHeap::<(), 8, 4>::new(SortOn::Push);
    let group1 = &mut [(Frame::new(FrameId::new_extended(0x123).unwrap(), &[1, 2, 3]).unwrap(), ())];
    let _ = heap.push_group(group1);
}

#[test]
fn priority_order_with_standard_ids() {
    // Two frames share standard(0x1) and two share standard(0x123); within
    // each identifier the frame inserted first leaves first.
    for mode in [SortOn::Push, SortOn::Pop] {
        let mut heap = PlainHeap::<(), 8, 8>::new(mode);
        assert_eq!(heap.push(std_frame(0x123, &[1, 2, 3]), ()), Ok(0));
        assert_eq!(heap.push(std_frame(0x1, &[4, 5, 6]), ()), Ok(0));
        assert_eq!(heap.push(std_frame(0x123, &[7, 8, 9]), ()), Ok(0));
        assert_eq!(heap.push(std_frame(0x1, &[1, 1]), ()), Ok(0));
        assert_eq!(heap.pop().unwrap().0.data(), &[4, 5, 6]);
        assert_eq!(heap.pop().unwrap().0.data(), &[1, 1]);
        assert_eq!(heap.pop().unwrap().0.data(), &[1, 2, 3]);
        assert_eq!(heap.pop().unwrap().0.data(), &[7, 8, 9]);
        assert_eq!(heap.pop(), None);
    }
}

#[test]
fn fifo_with_markers_in_both_modes() {
    for mode in [SortOn::Push, SortOn::Pop] {
        let mut heap = GroupingHeap::<u32, 8, 5>::new(mode);
        let f = ext(0x42, &[1]);
        assert_eq!(heap.push(f, 10), Ok(0));
        assert_eq!(heap.push(f, 20), Ok(0));
        assert_eq!(heap.push(f, 30), Ok(0));
        assert_eq!(heap.pop().unwrap().1, 10);
        assert_eq!(heap.pop().unwrap().1, 20);
        assert_eq!(heap.pop().unwrap().1, 30);
        assert_eq!(heap.pop(), None);
    }
}

#[test]
fn fifo_survives_sequence_wraparound() {
    for mode in [SortOn::Push, SortOn::Pop] {
        let mut heap = PlainHeap::<u32, 8, 4>::new(mode);
        let f = ext(0x42, &[1]);
        for i in 0..70_000u32 {
            assert_eq!(heap.push(f, i), Ok(0));
            assert_eq!(heap.pop().unwrap().1, i);
        }
        for i in 0..4u32 {
            assert_eq!(heap.push(f, i), Ok(0));
        }
        for i in 0..4u32 {
            assert_eq!(heap.pop().unwrap().1, i);
        }
        assert_eq!(heap.pop(), None);
    }
}

#[test]
fn rejected_push_changes_nothing() {
    let mut heap = PlainHeap::<u8, 8, 2>::new(SortOn::Pop);
    let a = ext(0x10, &[1]);
    let b = ext(0x20, &[2]);
    let late = ext(0x20, &[3]);
    assert_eq!(heap.push(a, 1), Ok(0));
    assert_eq!(heap.push(b, 2), Ok(0));
    assert_eq!(heap.push(late, 3), Err(late));
    assert_eq!(heap.push(ext(0x30, &[4]), 4), Err(ext(0x30, &[4])));
    assert_eq!(heap.len(), 2);
    assert_eq!(heap.pop(), Some((a, 1)));
    assert_eq!(heap.pop(), Some((b, 2)));
    assert_eq!(heap.pop(), None);
}

#[test]
fn clear_empties_the_queue() {
    let mut heap = PlainHeap::<(), 8, 3>::new(SortOn::Push);
    assert_eq!(heap.push(ext(1, &[1]), ()), Ok(0));
    assert_eq!(heap.push(ext(2, &[2]), ()), Ok(0));
    assert_eq!(heap.pop().unwrap().0.data(), &[1]);
    heap.clear();
    assert_eq!(heap.len(), 0);
    assert_eq!(heap.pop(), None);
    assert_eq!(heap.push(ext(3, &[3]), ()), Ok(0));
    assert_eq!(heap.pop().unwrap().0.data(), &[3]);

    let mut grouping = GroupingHeap::<(), 8, 3>::new(SortOn::Pop);
    assert_eq!(grouping.push(ext(1, &[1]), ()), Ok(0));
    grouping.clear();
    assert_eq!(grouping.len(), 0);
    assert_eq!(grouping.pop(), None);
}

#[test]
fn fresh_queue_pops_nothing() {
    let mut plain = PlainHeap::<(), 8, 4>::new(SortOn::Push);
    assert_eq!(plain.pop(), None);
    assert_eq!(plain.len(), 0);
    let mut grouping = GroupingHeap::<(), 8, 4>::new(SortOn::Pop);
    assert_eq!(grouping.pop(), None);
    let mut generic = Heap::<(), NoGrouping, 8, 4>::new(SortOn::Pop);
    assert_eq!(generic.pop(), None);
    let mut empty = PlainHeap::<(), 8, 0>::new(SortOn::Push);
    assert_eq!(empty.pop(), None);
    assert_eq!(empty.push(ext(1, &[1]), ()), Err(ext(1, &[1])));
}

#[test]
fn eviction_takes_the_whole_group() {
    for mode in [SortOn::Push, SortOn::Pop] {
        let mut heap = GroupingHeap::<u8, 8, 3>::new(mode);
        assert_eq!(heap.push_group(&[(ext(0x300, &[1]), 1), (ext(0x300, &[2]), 2)]), Ok(0));
        assert_eq!(heap.push(ext(0x200, &[3]), 3), Ok(0));
        assert_eq!(heap.len(), 3);
        assert_eq!(heap.push(ext(0x100, &[4]), 4), Ok(2));
        assert_eq!(heap.len(), 2);
        assert_eq!(heap.pop().unwrap().1, 4);
        assert_eq!(heap.pop().unwrap().1, 3);
        assert_eq!(heap.pop(), None);
    }
}

#[test]
fn generic_heap_with_group_tags() {
    let mut heap = Heap::<u8, u16, 8, 2>::new(SortOn::Push);
    assert_eq!(heap.push(ext(0x300, &[1]), 1, 7), Ok(0));
    assert_eq!(heap.push(ext(0x300, &[2]), 2, 7), Ok(0));
    assert_eq!(heap.push(ext(0x100, &[3]), 3, 9), Ok(2));
    assert_eq!(heap.len(), 1);
    assert_eq!(heap.pop(), Some((ext(0x100, &[3]), 3)));
    heap.clear();
    assert_eq!(heap.len(), 0);
}

#[test]
fn group_insert_evicts_the_tail_region() {
    for mode in [SortOn::Push, SortOn::Pop] {
        let mut heap = GroupingHeap::<u8, 8, 4>::new(mode);
        assert_eq!(heap.push_group(&[(ext(0x300, &[1]), 1), (ext(0x300, &[2]), 2)]), Ok(0));
        assert_eq!(heap.push_group(&[(ext(0x200, &[3]), 3), (ext(0x200, &[4]), 4)]), Ok(0));
        assert_eq!(heap.len(), 4);
        assert_eq!(heap.push_group(&[(ext(0x100, &[5]), 5), (ext(0x100, &[6]), 6)]), Ok(2));
        assert_eq!(heap.len(), 4);
        for m in [5u8, 6, 3, 4] {
            assert_eq!(heap.pop().unwrap().1, m);
        }
        assert_eq!(heap.pop(), None);
    }
}

#[test]
fn group_insert_walks_back_over_the_evicted_group() {
    for mode in [SortOn::Push, SortOn::Pop] {
        let mut heap = GroupingHeap::<u8, 8, 4>::new(mode);
        assert_eq!(
            heap.push_group(&[(ext(0x300, &[1]), 1), (ext(0x300, &[2]), 2), (ext(0x300, &[3]), 3)]),
            Ok(0)
        );
        assert_eq!(heap.push(ext(0x400, &[4]), 4), Ok(0));
        assert_eq!(heap.push_group(&[(ext(0x100, &[5]), 5), (ext(0x100, &[6]), 6)]), Ok(4));
        assert_eq!(heap.len(), 2);
        assert_eq!(heap.pop().unwrap().1, 5);
        assert_eq!(heap.pop().unwrap().1, 6);
        assert_eq!(heap.pop(), None);
    }
}

#[test]
fn refused_group_changes_nothing() {
    let mut heap = GroupingHeap::<u8, 8, 2>::new(SortOn::Push);
    assert_eq!(heap.push(ext(0x10, &[1]), 1), Ok(0));
    assert_eq!(heap.push(ext(0x20, &[2]), 2), Ok(0));
    assert_eq!(heap.push_group(&[(ext(0x30, &[3]), 3)]), Err(()));
    assert_eq!(heap.push_group(&[(ext(0x1, &[4]), 4), (ext(0x1, &[5]), 5), (ext(0x1, &[6]), 6)]), Err(()));
    assert_eq!(heap.push_group(&[]), Ok(0));
    assert_eq!(heap.len(), 2);
    assert_eq!(heap.pop().unwrap().1, 1);
    assert_eq!(heap.pop().unwrap().1, 2);
    assert_eq!(heap.pop(), None);
}

#[test]
fn group_insert_into_free_slots() {
    let mut heap = GroupingHeap::<u8, 8, 4>::new(SortOn::Pop);
    assert_eq!(heap.push(ext(0x50, &[1]), 1), Ok(0));
    assert_eq!(heap.pop().unwrap().1, 1);
    assert_eq!(heap.push_group(&[(ext(0x60, &[2]), 2), (ext(0x60, &[3]), 3), (ext(0x5, &[4]), 4)]), Ok(0));
    assert_eq!(heap.len(), 3);
    assert_eq!(heap.pop().unwrap().1, 4);
    assert_eq!(heap.pop().unwrap().1, 2);
    assert_eq!(heap.pop().unwrap().1, 3);
}

#[test]
fn group_insert_evicts_whole_groups_of_the_tail() {
    for mode in [SortOn::Push, SortOn::Pop] {
        let mut heap = GroupingHeap::<u8, 8, 4>::new(mode);
        assert_eq!(heap.push_group(&[(ext(0x100, &[1]), 1), (ext(0x300, &[2]), 2)]), Ok(0));
        assert_eq!(heap.push(ext(0x200, &[3]), 3), Ok(0));
        assert_eq!(heap.push(ext(0x400, &[4]), 4), Ok(0));
        assert_eq!(heap.push_group(&[(ext(0x50, &[5]), 5), (ext(0x50, &[6]), 6)]), Ok(3));
        assert_eq!(heap.len(), 3);
        assert_eq!(heap.pop().unwrap().1, 5);
        assert_eq!(heap.pop().unwrap().1, 6);
        assert_eq!(heap.pop().unwrap().1, 3);
        assert_eq!(heap.pop(), None);
    }
}

#[test]
fn rejected_pushes_use_up_no_group_tag() {
    let mut heap = GroupingHeap::<u8, 8, 2>::new(SortOn::Push);
    assert_eq!(heap.push(ext(0x100, &[1]), 1), Ok(0));
    assert_eq!(heap.push(ext(0x200, &[2]), 2), Ok(0));
    for _ in 0..70_000u32 {
        assert!(heap.push(ext(0x300, &[9]), 9).is_err());
    }
    assert_eq!(heap.pop().unwrap().1, 1);
    assert_eq!(heap.push(ext(0x50, &[3]), 3), Ok(0));
    assert_eq!(heap.push(ext(0x10, &[4]), 4), Ok(1));
    assert_eq!(heap.len(), 2);
    assert_eq!(heap.pop().unwrap().1, 4);
    assert_eq!(heap.pop().unwrap().1, 3);
    assert_eq!(heap.pop(), None);
}

#[test]
fn room_follows_the_oldest_entry() {
    let mut heap = PlainHeap::<u8, 8, 2>::new(SortOn::Pop);
    assert!(heap.has_room(0x8000));
    assert!(!heap.has_room(0x8001));
    assert_eq!(heap.push(ext(0x300, &[1]), 1), Ok(0));
    assert!(heap.has_room(0x7FFF));
    assert!(!heap.has_room(0x8000));
    for _ in 0..0x7FFEu32 {
        assert_eq!(heap.push(ext(0x10, &[2]), 2), Ok(0));
        assert_eq!(heap.pop().unwrap().1, 2);
    }
    assert!(heap.has_room(1));
    assert!(!heap.has_room(2));
    assert_eq!(heap.pop().unwrap().1, 1);
    assert!(heap.has_room(0x8000));

    let grouping = GroupingHeap::<u8, 8, 2>::new(SortOn::Push);
    assert!(grouping.has_room(3));
    let generic = Heap::<u8, NoGrouping, 8, 2>::new(SortOn::Push);
    assert!(!generic.has_room(0x9000));
}

#[test]
fn frames_order_by_identifier_only() {
    let a = std_frame(0x7FF, &[1]);
    let b = ext(0, &[1]);
    assert!(a < b);
    assert_eq!(b.partial_cmp(&a), Some(Ordering::Greater));
    let c = ext(0, &[2, 3]);
    assert_eq!(b.partial_cmp(&c), Some(Ordering::Equal));
    assert!(b != c);
}
