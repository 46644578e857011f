use rreng::utils::{get_copyable_range, restrict_ranges, Range2};

#[test]
fn test_get_copyable_range() {
    let (mut from_r, mut to_r) = (0..10, 0..10);
    restrict_ranges(&mut from_r, &mut to_r, 10);
    assert_eq!((0..10, 0..10), (from_r, to_r));

    let (mut from_r, mut to_r) = (0..10, -5..5);
    restrict_ranges(&mut from_r, &mut to_r, 10);
    assert_eq!((5..10, 0..5), (from_r, to_r));

    let (mut from_r, mut to_r) = (0..10, 5..15);
    restrict_ranges(&mut from_r, &mut to_r, 10);
    assert_eq!((0..5, 5..10), (from_r, to_r));
}

#[test]
fn copyable_range_outside_is_empty() {
    assert_eq!(get_copyable_range(4, 10, 8), (0..0, 0..0));
    assert_eq!(get_copyable_range(4, -4, 8), (0..0, 0..0));
    assert_eq!(get_copyable_range(4, -1, 8), (1..4, 0..3));
    assert_eq!(get_copyable_range(4, 6, 8), (0..2, 6..8));
}

#[test]
fn range_overlap_and_expand() {
    let a = Range2(0..65, 0..65);
    let b = Range2(64..129, 0..65);
    let c = Range2(65..70, 0..65);
    assert!(a.overlaps(&b));
    assert!(!a.overlaps(&c));
    // an empty rectangle shares no cell with anything
    assert!(!Range2(5..5, 5..5).overlaps(&Range2(0..10, 0..10)));
    assert!(!Range2(0..10, 0..10).overlaps(&Range2(3..8, 7..7)));

    let mut r = Range2::default();
    assert!(r.is_empty());
    r.expand_to(5, 7);
    assert_eq!((r.0.clone(), r.1.clone()), (5..6, 7..8));
    r.expand_to(3, 9);
    assert_eq!((r.0.clone(), r.1.clone()), (3..6, 7..10));
    assert!(!r.is_empty());
}
