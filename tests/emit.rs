use zowski::{c_header, c_source, compile, dot_source, parse_regex, ExpressionVector};

fn digits_dfa() -> zowski::Dfa {
    compile(ExpressionVector::new(vec![("NUM".to_string(), parse_regex("[0-9]+").unwrap())]))
}

#[test]
fn header_declares_token_types() {
    let h = c_header(&digits_dfa());
    assert!(h.starts_with("#ifndef SCANNER_H\n#define SCANNER_H\n\nenum token_type {\n    TOKEN_TYP_NUM,\n    TOKEN_ERROR,\n};\n"));
    assert!(h.contains("add_result_t lexer_add(lexer_t* lex, int c);"));
    assert!(h.ends_with("#endif\n"));
}

#[test]
fn source_has_transitions_acceptance_and_names() {
    let dfa = digits_dfa();
    let src = c_source(&dfa, "scanner");
    assert!(src.starts_with("#include <stdlib.h>\n#include \"scanner.h\"\n"));
    assert!(src.contains("        case 0:\n            if ((48 <= c) && (c <= 57))\n            {\n                lex->state = "));
    assert!(src.contains("lexer_mark_accepting(lex, TOKEN_TYP_NUM);"));
    let e = dfa.error_state.unwrap();
    assert!(src.contains(&format!("        case {}:\n            lex->start_index = lex->index = lex->tok_end;", e)));
    assert!(src.contains("        case TOKEN_TYP_NUM: return \"NUM\";\n"));
}

#[test]
fn dot_lists_edges_and_accepting_states() {
    let dfa = digits_dfa();
    let dot = dot_source(&dfa);
    assert!(dot.starts_with("digraph state_machine {\n"));
    assert!(dot.contains("  0 -> "));
    assert!(dot.contains("[label=\"0-9\"];\n"));
    assert!(dot.contains("[peripheries=2];\n"));
    assert!(dot.ends_with("}\n"));
    let quote = compile(ExpressionVector::new(vec![("Q".to_string(), parse_regex("\"").unwrap())]));
    assert!(dot_source(&quote).contains("[label=\"\\\"\"]"));
}
