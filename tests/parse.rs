use zowski::{parse_regex, Regex};

#[test]
fn parse_symbol() {
    let expr = parse_regex("G").unwrap();
    let expr2 = Regex::symbol('G');
    assert_eq!(expr, expr2);
}

#[test]
fn parse_postfix() {
    let expr = parse_regex("G*").unwrap();
    let expr2 = Regex::symbol('G').kleene();
    assert_eq!(expr, expr2);
}

#[test]
fn parse_range() {
    let expr = parse_regex("[B-LX]").unwrap();
    let expr2 = Regex::symbol_ranges(vec![('B', 'L'), ('X', 'X')]);
    assert_eq!(expr, expr2);
}

#[test]
fn parse_errors() {
    assert_eq!(parse_regex("").unwrap_err().index, 0);
    assert!(parse_regex("[ab").is_err());
    assert!(parse_regex("(ab").is_err());
    let e = parse_regex("a{2}").unwrap_err();
    assert_eq!(e.index, 1);
    assert!(parse_regex("[z-a]").is_err());
}

#[test]
fn parse_escapes_groups_and_inversion() {
    assert_eq!(parse_regex("\\n").unwrap(), Regex::symbol('\n'));
    assert_eq!(parse_regex("\\*").unwrap(), Regex::symbol('*'));
    assert_eq!(
        parse_regex("(ab)+").unwrap(),
        (Regex::symbol('a') + Regex::symbol('b')).one_or_more()
    );
    assert_eq!(parse_regex("[^A]").unwrap(), Regex::symbol('A').logical_not());
    assert_eq!(parse_regex(".").unwrap(), Regex::sigma());
    assert_eq!(parse_regex("!a").unwrap(), Regex::symbol('a').logical_not());
}
