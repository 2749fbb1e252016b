use zowski::{ItemsBetween, Range};

#[test]
fn set_overlap1() {
    let r1 = Range::new(10, 14);
    let r2 = Range::new(1, 4);
    assert!(!r1.overlaps(&r2));
}

#[test]
fn set_overlap2() {
    let r1 = Range::new(10, 14);
    let r2 = Range::new(1, 11);
    assert!(r1.overlaps(&r2));
}

#[test]
fn set_overlap3() {
    let r1 = Range::new(10, 14);
    let r2 = Range::new(1, 17);
    assert!(r1.overlaps(&r2));
}

#[test]
fn set_overlap4() {
    let r1 = Range::new(10, 14);
    let r2 = Range::new(12, 13);
    assert!(r1.overlaps(&r2));
}

#[test]
fn set_overlap5() {
    let r1 = Range::new(10, 14);
    let r2 = Range::new(12, 17);
    assert!(r1.overlaps(&r2));
}

#[test]
fn set_overlap9() {
    let r1 = Range::new(10, 14);
    let r2 = Range::new(16, 19);
    assert!(!r1.overlaps(&r2));
}

#[test]
fn range_contains_and_cardinality() {
    let r = Range::new(10, 14);
    assert!(r.contains(10));
    assert!(r.contains(14));
    assert!(!r.contains(15));
    assert_eq!(r.cardinality(), 5);
    let c = Range::new('A', 'G');
    assert_eq!(c.cardinality(), 7);
    assert!(c.contains('D'));
}

#[test]
fn items_between_and_stepping() {
    assert_eq!('a'.items_between(&'e'), 5);
    assert_eq!('a'.add_index(2), 'c');
    assert_eq!('c'.sub_index(2), 'a');
    assert!('a'.at_most(&'b'));
    assert!(!'b'.at_most(&'a'));
    assert_eq!(3i32.items_between(&7), 5);
    assert_eq!(3i32.add_index(4), 7);
    assert_eq!(3i32.sub_index(4), -1);
}
