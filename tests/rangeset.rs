use zowski::{Range, RangeSet};

#[test]
fn set_with_single_element() {
    let s = RangeSet::new('A');
    assert!(!s.is_empty());
    assert_eq!(1, s.cardinality());
    assert!(s.contains('A'));
    assert!(!s.contains('B'));
}

#[test]
fn set_with_one_range() {
    let s = RangeSet::new2('A', 'G');
    assert!(!s.is_empty());
    assert_eq!(7, s.cardinality());
    assert!(s.contains('A'));
    assert!(s.contains('B'));
    assert!(!s.contains('Z'));
    assert!(!s.contains('7'));
}

#[test]
fn set_union() {
    let s1 = RangeSet::new2('A', 'G');
    let s2 = RangeSet::new2('X', 'Z');
    let s3 = s1.union(s2);
    assert!(!s3.is_empty());
    assert_eq!(10, s3.cardinality());
    assert!(s3.contains('A'));
    assert!(s3.contains('B'));
    assert!(s3.contains('Z'));
    assert!(!s3.contains('7'));
    assert_eq!(
        s3.items(),
        vec!['A', 'B', 'C', 'D', 'E', 'F', 'G', 'X', 'Y', 'Z']
    );
}

#[test]
fn set_union_glueing() {
    let s1 = RangeSet::new2('A', 'D');
    let s2 = RangeSet::new2('E', 'K');
    let s3 = s1.union(s2);
    assert!(!s3.is_empty());
    assert_eq!(s3, RangeSet::new2('A', 'K'));
}

#[test]
fn set_difference() {
    let s1 = RangeSet::new2('A', 'G');
    let s2 = RangeSet::new2('D', 'Z');
    let s3 = s1.difference(&s2);
    assert!(!s3.is_empty());
    assert_eq!(3, s3.cardinality());
    assert!(s3.contains('A'));
    assert!(s3.contains('B'));
    assert!(!s3.contains('Z'));
    assert!(!s3.contains('7'));
    assert_eq!(s3, RangeSet::new2('A', 'C'));
}

#[test]
fn set_difference2() {
    let s1 = RangeSet::new2('A', 'Z');
    let s2 = RangeSet::new2('0', '9');
    let s3 = s1.difference(&s2);
    println!("S3= {}", s3.label());
    assert!(!s3.is_empty());
    assert_eq!(s3, RangeSet::new2('A', 'Z'));
}

#[test]
fn set_intersection() {
    let s1 = RangeSet::new2('A', 'G');
    let s2 = RangeSet::new2('D', 'Z');
    let s3 = s1.intersection(&s2);
    assert!(!s3.is_empty());
    assert_eq!(4, s3.cardinality());
    assert!(!s3.contains('A'));
    assert!(!s3.contains('B'));
    assert!(s3.contains('D'));
    assert!(s3.contains('F'));
    assert!(!s3.contains('Z'));
    assert!(!s3.contains('7'));
    assert_eq!(s3, RangeSet::new2('D', 'G'));
}

#[test]
fn set_iteration() {
    let s = RangeSet::new2('A', 'G');
    let mut res = vec![];
    for c in s.items() {
        res.push(c);
    }
    assert_eq!(res, vec!['A', 'B', 'C', 'D', 'E', 'F', 'G']);
}

fn sigma_chars() -> Vec<char> {
    let mut v = vec!['\n'];
    for b in 0x20u8..=0x7E {
        v.push(b as char);
    }
    v
}

#[test]
fn from_ranges_sorts_and_glues() {
    let s = RangeSet::from_ranges(vec![
        Range::new('x', 'z'),
        Range::new('a', 'c'),
        Range::new('d', 'f'),
        Range::new('b', 'e'),
        Range::new('m', 'm'),
    ]);
    assert_eq!(s.ranges().len(), 3);
    assert_eq!(s.label(), "a-fmx-z");
    for c in sigma_chars() {
        let expected = ('a'..='f').contains(&c) || c == 'm' || ('x'..='z').contains(&c);
        assert_eq!(s.contains(c), expected);
    }
}

#[test]
fn from_ranges_of_nothing_is_empty() {
    let s = RangeSet::from_ranges(vec![]);
    assert!(s.is_empty());
    assert_eq!(s, RangeSet::empty());
    assert_eq!(s.cardinality(), 0);
    assert!(s.items().is_empty());
}

#[test]
fn operations_agree_with_membership() {
    let a = RangeSet::from_ranges(vec![Range::new('0', '9'), Range::new('a', 'k'), Range::new('~', '~')]);
    let b = RangeSet::from_ranges(vec![Range::new('5', 'c'), Range::new('z', '~')]);
    let u = a.union(b.clone());
    let i = a.intersection(&b);
    let d = a.difference(&b);
    for c in sigma_chars() {
        assert_eq!(u.contains(c), a.contains(c) || b.contains(c));
        assert_eq!(i.contains(c), a.contains(c) && b.contains(c));
        assert_eq!(d.contains(c), a.contains(c) && !b.contains(c));
    }
}

#[test]
fn symmetric_difference_is_union_of_differences() {
    let a = RangeSet::new2('A', 'M');
    let b = RangeSet::new2('H', 'T');
    let sd = a.symmetric_difference(&b);
    let expected = a.difference(&b).union(b.difference(&a));
    assert_eq!(sd, expected);
    assert_eq!(sd.label(), "A-GN-T");
}

#[test]
fn cardinality_matches_items() {
    let s = RangeSet::from_ranges(vec![Range::new('a', 'e'), Range::new('0', '3'), Range::new('Q', 'Q')]);
    assert_eq!(s.cardinality(), 10);
    assert_eq!(s.items().len(), s.cardinality());
    assert_eq!(s.items(), vec!['0', '1', '2', '3', 'Q', 'a', 'b', 'c', 'd', 'e']);
}

#[test]
fn difference_across_the_surrogate_gap() {
    let all = RangeSet::new2('\u{D000}', '\u{E100}');
    let upper = RangeSet::new2('\u{E000}', '\u{E100}');
    let lower = all.difference(&upper);
    assert_eq!(lower, RangeSet::new2('\u{D000}', '\u{D7FF}'));
    assert_eq!(all.cardinality(), 0x800 + 0x101);
    assert_eq!(lower.union(upper), all);
}

#[test]
fn first_is_least() {
    let s = RangeSet::from_ranges(vec![Range::new('q', 's'), Range::new('c', 'd')]);
    assert_eq!(s.first(), 'c');
}
