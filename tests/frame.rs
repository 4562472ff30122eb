use canheap::{Frame, FrameId};

#[test]
fn frame_round_trip() {
    let id = FrameId::new_standard(0x55).unwrap();
    let f = Frame::<8>::new(id, &[9, 8, 7]).unwrap();
    assert_eq!(f.data(), &[9, 8, 7]);
    assert_eq!(f.id, id);
    assert_eq!(f.frame_id(), id);
    let r = f.as_frame_ref();
    assert_eq!(r.id, id);
    assert_eq!(r.data, &[9, 8, 7]);
}

#[test]
fn frame_full_and_empty_payloads() {
    let id = FrameId::new_extended(1).unwrap();
    let full = Frame::<4>::new(id, &[1, 2, 3, 4]).unwrap();
    assert_eq!(full.data(), &[1, 2, 3, 4]);
    let empty = Frame::<4>::new(id, &[]).unwrap();
    assert_eq!(empty.data().len(), 0);
}

#[test]
fn frame_too_long_is_refused() {
    let id = FrameId::new_extended(1).unwrap();
    assert!(Frame::<4>::new(id, &[1, 2, 3, 4, 5]).is_none());
    assert!(Frame::<0>::new(id, &[1]).is_none());
}

#[test]
fn frame_from_a_whole_buffer() {
    let id = FrameId::new_standard(3).unwrap();
    let f = Frame::<4>::new_move(id, [5, 6, 7, 8], 2).unwrap();
    assert_eq!(f.data(), &[5, 6]);
    assert!(Frame::<4>::new_move(id, [5, 6, 7, 8], 5).is_none());
    let g = Frame::<4>::new_move_unchecked(id, [5, 6, 7, 8], 4);
    assert_eq!(g.data(), &[5, 6, 7, 8]);
    let h = Frame::<4>::new_unchecked(id, &[1]);
    assert_eq!(h.data(), &[1]);
}
