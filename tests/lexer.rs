use zowski::{
    compile, parse_regex, parse_spec, scan, spec_to_expression_vector, Dfa, ExpressionVector,
    SpecParseError, Token,
};

fn seed(patterns: &[(&str, &str)]) -> ExpressionVector {
    let mut v = vec![];
    for (name, re) in patterns {
        v.push((name.to_string(), parse_regex(re).unwrap()));
    }
    ExpressionVector::new(v)
}

fn pairs(tokens: &[Token]) -> Vec<(String, String)> {
    tokens.iter().map(|t| (t.typ.clone(), t.text.clone())).collect()
}

fn sigma_chars() -> Vec<char> {
    let mut v = vec!['\n'];
    for b in 0x20u8..=0x7E {
        v.push(b as char);
    }
    v
}

fn assert_deterministic(dfa: &Dfa) {
    for (state, edges) in &dfa.transitions {
        for c in sigma_chars() {
            let n = edges.iter().filter(|(s, _)| s.contains(c)).count();
            assert_eq!(n, 1, "state {} char {:?}", state, c);
        }
        assert!(edges.iter().all(|(s, _)| !s.is_empty() && !s.contains('\u{e9}')));
    }
}

#[test]
fn digits_scenario() {
    let dfa = compile(seed(&[("NUM", "[0-9]+")]));
    assert_eq!(dfa.states.len(), 3);
    assert_eq!(dfa.transitions.len(), 3);
    assert_eq!(dfa.accepting.len(), 1);
    assert_eq!(dfa.accepting[0].1, vec!["NUM".to_string()]);
    assert!(dfa.error_state.is_some());
    assert_eq!(dfa.token_types, vec!["NUM".to_string()]);
    let tokens = scan(dfa, "42").unwrap();
    assert_eq!(pairs(&tokens), vec![("NUM".to_string(), "42".to_string())]);
    let dfa = compile(seed(&[("NUM", "[0-9]+")]));
    assert!(scan(dfa, "a").is_err());
}

#[test]
fn priority_scenario() {
    let patterns = [("IF", "if"), ("ID", "[A-Za-z]+")];
    let tokens = scan(compile(seed(&patterns)), "if").unwrap();
    assert_eq!(pairs(&tokens), vec![("IF".to_string(), "if".to_string())]);
    let tokens = scan(compile(seed(&patterns)), "ifx").unwrap();
    assert_eq!(pairs(&tokens), vec![("ID".to_string(), "ifx".to_string())]);
}

#[test]
fn whitespace_separated_mix() {
    let patterns = [("ID", "[A-Za-z]+"), ("NUM", "[0-9]+"), ("SPACE", "[ ]+")];
    let tokens = scan(compile(seed(&patterns)), "67432 2323  bla   mo").unwrap();
    let expected = vec![
        ("NUM", "67432"),
        ("SPACE", " "),
        ("NUM", "2323"),
        ("SPACE", "  "),
        ("ID", "bla"),
        ("SPACE", "   "),
        ("ID", "mo"),
    ];
    let expected: Vec<(String, String)> =
        expected.iter().map(|(a, b)| (a.to_string(), b.to_string())).collect();
    assert_eq!(pairs(&tokens), expected);
}

#[test]
fn character_class_inversion() {
    let patterns = [("NOTA", "[^A]+")];
    let tokens = scan(compile(seed(&patterns)), "BCBC").unwrap();
    assert_eq!(pairs(&tokens), vec![("NOTA".to_string(), "BCBC".to_string())]);
    assert!(scan(compile(seed(&patterns)), "A").is_err());
}

#[test]
fn determinism_check() {
    let patterns = [("ID", "[A-Za-z]+"), ("NUM", "[0-9]+"), ("SPACE", "[ ]+")];
    let dfa = compile(seed(&patterns));
    assert_deterministic(&dfa);
    for (i, (state, _)) in dfa.transitions.iter().enumerate() {
        assert_eq!(i, *state);
    }
}

#[test]
fn completeness_on_digits() {
    let dfa = compile(seed(&[("NUM", "[0-9]+")]));
    for (state, edges) in &dfa.transitions {
        for (set, target) in edges {
            let c = set.first();
            let d = dfa.states[*state].derivative(c);
            assert!(dfa.states[*target].equals(&d));
        }
    }
}

#[test]
fn acceptance_follows_the_seed() {
    let patterns = [("IF", "if"), ("ID", "[A-Za-z]+")];
    let dfa = compile(seed(&patterns));
    let mut state = 0usize;
    for c in "if".chars() {
        let edges = &dfa.transitions[state].1;
        state = edges.iter().find(|(s, _)| s.contains(c)).unwrap().1;
    }
    let names = &dfa.accepting.iter().find(|(s, _)| *s == state).unwrap().1;
    assert_eq!(names, &vec!["IF".to_string(), "ID".to_string()]);
}

#[test]
fn scan_outside_alphabet_fails() {
    let dfa = compile(seed(&[("ANY", ".+")]));
    assert!(scan(dfa, "\u{e9}").is_err());
}

#[test]
fn scan_of_empty_text_has_no_tokens() {
    let dfa = compile(seed(&[("NUM", "[0-9]+")]));
    assert!(scan(dfa, "").unwrap().is_empty());
}

#[test]
fn no_error_state_when_everything_matches() {
    let dfa = compile(seed(&[("ALL", ".*")]));
    assert!(dfa.error_state.is_none());
    let tokens = scan(dfa, "ab c").unwrap();
    assert_eq!(pairs(&tokens), vec![("ALL".to_string(), "ab c".to_string())]);
}

#[test]
fn expression_vector_operations() {
    let v = seed(&[("A", "a*"), ("B", "b")]);
    assert_eq!(v.names(), vec!["A".to_string(), "B".to_string()]);
    assert_eq!(v.is_nullable(), vec!["A".to_string()]);
    assert!(!v.is_null());
    let d = v.derivative('c');
    assert!(d.is_null());
    assert!(d.is_nullable().is_empty());
    let classes = v.character_classes();
    assert_eq!(classes.len(), 3);
    let empty = ExpressionVector::new(vec![]);
    assert_eq!(empty.character_classes().len(), 1);
}

#[test]
fn spec_file_is_read_in_order() {
    let text = "# comment\n\nID : [A-Za-z]+\n  NUM:[0-9]+  \r\nSPACE : [ ]+\n";
    let specs = parse_spec(text).unwrap();
    let names: Vec<String> = specs.iter().map(|s| s.name.clone()).collect();
    assert_eq!(names, vec!["ID".to_string(), "NUM".to_string(), "SPACE".to_string()]);
    assert_eq!(specs[1].pattern, parse_regex("[0-9]+").unwrap());
    let ev = spec_to_expression_vector(specs);
    let tokens = scan(compile(ev), "ab 12").unwrap();
    assert_eq!(tokens.len(), 3);
}

#[test]
fn spec_errors() {
    match parse_spec("ID [a-z]+\n") {
        Err(SpecParseError::Other(m)) => assert!(m.starts_with("1")),
        _ => panic!("a line without a colon is an error"),
    }
    match parse_spec("OK : a\nBAD : a{3}\n") {
        Err(SpecParseError::Other(m)) => assert!(m.starts_with("2,1: ")),
        _ => panic!("a bad pattern is an error"),
    }
}
