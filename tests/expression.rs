use zowski::expression::{alternation, concatenate, logical_and};
use zowski::{parse_regex, product_intersections, CharSet, Regex};

#[test]
fn blabla1() {
    let expr = Regex::symbol('A');
    assert!(!expr.is_nullable());
    assert!(expr.derivative('A').is_epsilon());
    assert!(expr.derivative('B').is_null());
}

#[test]
fn blabla2() {
    let expr = Regex::symbol('A') + Regex::symbol('B');
    assert!(!expr.is_nullable());
    assert!(expr.derivative('A') == Regex::symbol('B'));
    assert!(expr.derivative('B').is_null());
}

#[test]
fn smart_constructor_identities() {
    let a = Regex::symbol('a');
    assert_eq!(concatenate(Regex::null(), a.clone()), Regex::null());
    assert_eq!(concatenate(a.clone(), Regex::null()), Regex::null());
    assert_eq!(concatenate(Regex::epsilon(), a.clone()), a);
    assert_eq!(concatenate(a.clone(), Regex::epsilon()), a);
    assert_eq!(alternation(Regex::null(), a.clone()), a);
    assert_eq!(alternation(a.clone(), Regex::null()), a);
    assert_eq!(logical_and(Regex::null(), a.clone()), Regex::null());
    assert_eq!(logical_and(a.clone(), Regex::null()), Regex::null());
    assert_eq!(alternation(Regex::symbol('a'), Regex::symbol('b')), Regex::symbol_range('a', 'b'));
    assert_eq!(Regex::epsilon().kleene(), Regex::epsilon());
    let star = Regex::symbol('a').kleene();
    assert_eq!(star.clone().logical_not().logical_not(), star);
    assert_eq!(
        Regex::symbol('A').logical_not(),
        Regex::symbol_ranges(vec![('\n', '\n'), (' ', '@'), ('B', '~')])
    );
    assert_eq!(Regex::symbol('A').logical_not().logical_not(), Regex::symbol('A'));
}

#[test]
fn constructing_twice_gives_equal_values() {
    let build = || concatenate(Regex::symbol('x'), Regex::symbol_range('0', '9').kleene());
    assert_eq!(build(), build());
}

#[test]
fn nullability() {
    assert!(Regex::epsilon().is_nullable());
    assert!(!Regex::null().is_nullable());
    assert!(Regex::symbol('a').kleene().is_nullable());
    assert!(!Regex::symbol('a').one_or_more().is_nullable());
    assert!(Regex::symbol('a').logical_not().is_nullable() == false);
    let not_a_star = Regex::symbol('a').kleene().logical_not();
    assert!(!not_a_star.is_nullable());
}

#[test]
fn derivative_of_concatenation_with_nullable_left() {
    // (a* b): by 'a' gives a* b again, by 'b' gives the empty string.
    let r = concatenate(Regex::symbol('a').kleene(), Regex::symbol('b'));
    assert_eq!(r.derivative('a'), r);
    assert!(r.derivative('b').is_epsilon());
    assert!(r.derivative('c').is_null());
}

#[test]
fn intersection_via_programmatic_api() {
    let upper = parse_regex("[A-Z]+").unwrap();
    let has_a = parse_regex(".*A.*").unwrap();
    let r = logical_and(upper, has_a);
    assert!(!r.is_nullable());
    assert!(r.derivative('A').is_nullable());
    assert!(!r.derivative('B').is_nullable());
}

fn sigma_chars() -> Vec<char> {
    let mut v = vec!['\n'];
    for b in 0x20u8..=0x7E {
        v.push(b as char);
    }
    v
}

fn assert_partition(classes: &Vec<CharSet>) {
    for c in sigma_chars() {
        let n = classes.iter().filter(|s| s.contains(c)).count();
        assert_eq!(n, 1, "char {:?} lies in {} blocks", c, n);
    }
    for s in classes {
        assert!(!s.is_empty());
    }
}

#[test]
fn character_classes_partition_sigma() {
    let r = concatenate(Regex::symbol_range('a', 'f').kleene(), Regex::symbol('x'));
    let classes = r.character_classes();
    assert_partition(&classes);
    assert_eq!(classes.len(), 3);
    for block in &classes {
        let items = block.items();
        let d = r.derivative(items[0]);
        for c in items {
            assert_eq!(r.derivative(c), d);
        }
    }
}

#[test]
fn classes_of_sigma_symbol_have_one_block() {
    let classes = Regex::sigma().character_classes();
    assert_eq!(classes.len(), 1);
    assert_partition(&classes);
}

#[test]
fn product_of_partitions() {
    let p = vec![CharSet::new2('a', 'm'), CharSet::new2('n', 'z')];
    let q = vec![CharSet::new2('a', 'c'), CharSet::new2('d', 'z')];
    let r = product_intersections(p, q);
    assert_eq!(r.len(), 3);
    assert_eq!(r[0], CharSet::new2('a', 'c'));
    assert_eq!(r[1], CharSet::new2('d', 'm'));
    assert_eq!(r[2], CharSet::new2('n', 'z'));
}

#[test]
fn printed_forms() {
    let r = concatenate(Regex::symbol_range('a', 'c').kleene(), Regex::symbol('x'));
    assert_eq!(r.label(), "([a-c]*.[x])");
    assert_eq!(Regex::epsilon().label(), "eps");
    let n = concatenate(Regex::symbol('a'), Regex::symbol('b')).logical_not();
    assert_eq!(n.label(), "!(([a].[b]))");
    let a = logical_and(Regex::symbol('a').kleene(), Regex::sigma());
    assert_eq!(a.label(), "([a]*&[\n -~])");
    let alt = alternation(Regex::symbol('a').kleene(), Regex::symbol('b'));
    assert_eq!(alt.label(), "([a]*|[b])");
}
