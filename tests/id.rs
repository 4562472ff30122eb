use canheap::id::{ExtendedId, StandardId};
use canheap::FrameId;

#[test]
fn check_ids() {
    let sid = StandardId::new(123);
    assert!(sid.is_some());
    let sid = StandardId::new(0b00001000_00000000);
    assert!(sid.is_none());
    let eid = ExtendedId::new(123);
    assert!(eid.is_some());
    let eid = ExtendedId::new(0x20000000);
    assert!(eid.is_none());
    let sid0 = FrameId::new_standard(0).unwrap();
    let sid1 = FrameId::new_standard(1).unwrap();
    let sid7 = FrameId::new_standard(7).unwrap();
    assert_eq!(sid0 < sid7, true);
    let eid0 = FrameId::new_extended(0).unwrap();
    let eid1 = FrameId::new_extended(1).unwrap();
    let eid7 = FrameId::new_extended(7).unwrap();
    assert_eq!(sid0 != eid0, true);
    assert_eq!(eid0 < eid7, true);
    assert_eq!(sid0 < eid0, true);
    assert_eq!(sid1 < eid1, true);
    assert_eq!(eid0 > sid0, true);
    assert_eq!(sid7 < eid0, true);
}

#[test]
fn standard_range_boundaries() {
    assert_eq!(StandardId::new(0x7FF).unwrap().inner(), 0x7FF);
    assert!(StandardId::new(0x800).is_none());
    assert!(StandardId::new(0xFFFF).is_none());
    assert!(FrameId::new_standard(0x7FF).is_some());
    assert!(FrameId::new_standard(0x800).is_none());
    assert_eq!(StandardId::new(0).unwrap().inner(), 0);
}

#[test]
fn extended_range_boundaries() {
    assert_eq!(ExtendedId::new(0x1FFF_FFFF).unwrap().inner(), 0x1FFF_FFFF);
    assert!(ExtendedId::new(0x2000_0000).is_none());
    assert!(ExtendedId::new(0xFFFF_FFFF).is_none());
    assert!(FrameId::new_extended(0x1FFF_FFFF).is_some());
    assert!(FrameId::new_extended(0x4000_0000).is_none());
}

#[test]
fn every_standard_wins_over_every_extended() {
    let high_standard = FrameId::new_standard(0x7FF).unwrap();
    let low_extended = FrameId::new_extended(0).unwrap();
    assert!(high_standard < low_extended);
    assert!(high_standard.precedes(&low_extended));
    assert!(!low_extended.precedes(&high_standard));
    let a = FrameId::new_extended(0x100).unwrap();
    let b = FrameId::new_extended(0x101).unwrap();
    assert!(a < b);
    assert!(!(a < a));
    assert_eq!(a.partial_cmp(&a), Some(core::cmp::Ordering::Equal));
    assert_eq!(b.partial_cmp(&a), Some(core::cmp::Ordering::Greater));
}

#[test]
fn unchecked_constructors_keep_the_value() {
    assert_eq!(StandardId::new_unchecked(0x123).inner(), 0x123);
    assert_eq!(ExtendedId::new_unchecked(0x1234_5678).inner(), 0x1234_5678);
}
