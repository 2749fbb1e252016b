//! Text for an automaton: a C header and a table-driven C lexer, and a
//! Graphviz digraph.
use crate::dfa::Dfa;
use crate::expression::CharSet;
use crate::range::{code_of, Range};
use crate::rangeset::ranges_label;
use crate::text::{append, dec, push_char, write_dec};
use crate::vector::string_views;
use vstd::prelude::*;

verus! {

/// One enumerator per token type.
pub open spec fn enum_lines(names: Seq<Seq<char>>) -> Seq<char>
    decreases names.len(),
{
    if names.len() == 0 {
        seq![]
    } else {
        enum_lines(names.drop_last()) + "    TOKEN_TYP_"@ + names.last() + ",\n"@
    }
}

/// The header: the enum of token types and the lexer's interface.
pub open spec fn header_text(names: Seq<Seq<char>>) -> Seq<char> {
    "#ifndef SCANNER_H\n#define SCANNER_H\n\nenum token_type {\n"@ + enum_lines(names)
        + "    TOKEN_ERROR,\n};\n\ntypedef enum { ADD_NEED_MORE, ADD_DONE } add_result_t;\n\ntypedef struct {\n    int state;\n    int index;\n    int start_index;\n    int tok_start;\n    int tok_end;\n    enum token_type tok_type;\n} lexer_t;\n\nlexer_t* lexer_new(void);\nvoid lexer_init(lexer_t* lex);\nadd_result_t lexer_add(lexer_t* lex, int c);\nvoid lexer_delete(lexer_t* lex);\nconst char* lexer_token_type_name(enum token_type token_type);\n\n#endif\n"@
}

/// The test of a character against a range.
pub open spec fn range_cond(r: Range<char>) -> Seq<char> {
    if r.begin == r.end {
        "c == "@ + dec(r.begin as int as nat)
    } else {
        "("@ + dec(r.begin as int as nat) + " <= c) && (c <= "@ + dec(r.end as int as nat) + ")"@
    }
}

/// One test per range, each moving to `target`.
pub open spec fn range_lines(rs: Seq<Range<char>>, target: nat) -> Seq<char>
    decreases rs.len(),
{
    if rs.len() == 0 {
        seq![]
    } else {
        range_lines(rs.drop_last(), target) + "            if ("@ + range_cond(rs.last())
            + ")\n            {\n                lex->state = "@ + dec(target)
            + ";\n                break;\n            }\n"@
    }
}

/// The tests of all the edges of a state.
pub open spec fn edge_lines(es: Seq<(CharSet, usize)>) -> Seq<char>
    decreases es.len(),
{
    if es.len() == 0 {
        seq![]
    } else {
        edge_lines(es.drop_last()) + range_lines(es.last().0.parts(), es.last().1 as nat)
    }
}

/// One case per state, with the tests of its edges.
pub open spec fn state_cases(ts: Seq<(usize, Vec<(CharSet, usize)>)>) -> Seq<char>
    decreases ts.len(),
{
    if ts.len() == 0 {
        seq![]
    } else {
        state_cases(ts.drop_last()) + "        case "@ + dec(ts.last().0 as nat) + ":\n"@
            + edge_lines(ts.last().1@) + "            break;\n"@
    }
}

/// One case per accepting state, marking its highest-priority token type.
pub open spec fn accept_cases(acc: Seq<(usize, Vec<String>)>) -> Seq<char>
    decreases acc.len(),
{
    if acc.len() == 0 {
        seq![]
    } else {
        accept_cases(acc.drop_last()) + "        case "@ + dec(acc.last().0 as nat)
            + ":\n            lexer_mark_accepting(lex, TOKEN_TYP_"@ + acc.last().1@[0]@
            + ");\n            break;\n"@
    }
}

/// The case of the error state, if there is one: rewind and start over.
pub open spec fn error_case(e: Option<usize>) -> Seq<char> {
    match e {
        Some(s) => "        case "@ + dec(s as nat)
            + ":\n            lex->start_index = lex->index = lex->tok_end;\n            lex->state = 0;\n            return ADD_DONE;\n"@,
        None => seq![],
    }
}

/// One case per token type, giving its name.
pub open spec fn name_cases(names: Seq<Seq<char>>) -> Seq<char>
    decreases names.len(),
{
    if names.len() == 0 {
        seq![]
    } else {
        name_cases(names.drop_last()) + "        case TOKEN_TYP_"@ + names.last() + ": return \""@
            + names.last() + "\";\n"@
    }
}

/// The source: construction, the transition and acceptance switches of
/// `lexer_add`, and the names of the token types.
pub open spec fn source_text(d: &Dfa, basename: Seq<char>) -> Seq<char> {
    "#include <stdlib.h>\n#include \""@ + basename
        + ".h\"\n\nlexer_t* lexer_new(void)\n{\n    lexer_t* lex = malloc(sizeof(lexer_t));\n    lexer_init(lex);\n    return lex;\n}\n\nvoid lexer_init(lexer_t* lex)\n{\n    lex->state = 0;\n    lex->index = 0;\n    lex->start_index = 0;\n    lex->tok_start = 0;\n    lex->tok_end = 0;\n    lex->tok_type = TOKEN_ERROR;\n}\n\nvoid lexer_delete(lexer_t* lex)\n{\n    free(lex);\n}\n\nstatic void lexer_mark_accepting(lexer_t* lex, enum token_type id)\n{\n    lex->tok_type = id;\n    lex->tok_start = lex->start_index;\n    lex->tok_end = lex->index;\n}\n\nadd_result_t lexer_add(lexer_t* lex, int c)\n{\n    lex->index++;\n    switch (lex->state)\n    {\n"@
        + state_cases(d.transitions@) + "    }\n\n    switch (lex->state)\n    {\n"@ + accept_cases(
        d.accepting@,
    ) + error_case(d.error_state)
        + "    }\n    return ADD_NEED_MORE;\n}\n\nconst char* lexer_token_type_name(enum token_type token_type)\n{\n    switch (token_type) {\n"@
        + name_cases(string_views(d.token_types@))
        + "        default: break;\n    }\n    return \"?\";\n}\n"@
}

/// Appends one enumerator per name.
fn write_enum_lines(out: &mut String, names: &Vec<String>)
    ensures
        final(out)@ == old(out)@ + enum_lines(string_views(names@)),
{
    let ghost start = out@;
    let mut i: usize = 0;
    while i < names.len()
        invariant
            0 <= i <= names.len(),
            out@ == start + enum_lines(string_views(names@).take(i as int)),
        decreases names.len() - i,
    {
        let ghost before = out@;
        append(out, "    TOKEN_TYP_");
        append(out, names[i].as_str());
        append(out, ",\n");
        proof {
            let v = string_views(names@);
            assert(v.take(i + 1).drop_last() =~= v.take(i as int));
            assert(out@ =~= start + enum_lines(v.take(i + 1)));
        }
        i += 1;
    }
    proof {
        assert(string_views(names@).take(i as int) =~= string_views(names@));
    }
}

/// The header for the automaton's token types.
pub fn c_header(dfa: &Dfa) -> (r: String)
    ensures
        r@ == header_text(string_views(dfa.token_types@)),
{
    let mut out = String::new();
    append(&mut out, "#ifndef SCANNER_H\n#define SCANNER_H\n\nenum token_type {\n");
    write_enum_lines(&mut out, &dfa.token_types);
    append(&mut out, "    TOKEN_ERROR,\n};\n\ntypedef enum { ADD_NEED_MORE, ADD_DONE } add_result_t;\n\ntypedef struct {\n    int state;\n    int index;\n    int start_index;\n    int tok_start;\n    int tok_end;\n    enum token_type tok_type;\n} lexer_t;\n\nlexer_t* lexer_new(void);\nvoid lexer_init(lexer_t* lex);\nadd_result_t lexer_add(lexer_t* lex, int c);\nvoid lexer_delete(lexer_t* lex);\nconst char* lexer_token_type_name(enum token_type token_type);\n\n#endif\n");
    proof {
        assert(out@ =~= header_text(string_views(dfa.token_types@)));
    }
    out
}

/// Appends the test of `c` against a range.
fn write_range_cond(out: &mut String, r: Range<char>)
    ensures
        final(out)@ == old(out)@ + range_cond(r),
{
    let b = code_of(r.begin);
    let e = code_of(r.end);
    if b == e {
        append(out, "c == ");
        write_dec(out, b as usize);
        proof {
            assert(r.begin == r.end);
        }
    } else {
        append(out, "(");
        write_dec(out, b as usize);
        append(out, " <= c) && (c <= ");
        write_dec(out, e as usize);
        append(out, ")");
        proof {
            assert(r.begin != r.end);
        }
    }
    proof {
        assert(out@ =~= old(out)@ + range_cond(r));
    }
}

/// Appends the tests of ranges that move to `target`.
fn write_range_lines(out: &mut String, rs: &Vec<Range<char>>, target: usize)
    ensures
        final(out)@ == old(out)@ + range_lines(rs@, target as nat),
{
    let ghost start = out@;
    let mut i: usize = 0;
    while i < rs.len()
        invariant
            0 <= i <= rs.len(),
            out@ == start + range_lines(rs@.take(i as int), target as nat),
        decreases rs.len() - i,
    {
        append(out, "            if (");
        write_range_cond(out, rs[i]);
        append(out, ")\n            {\n                lex->state = ");
        write_dec(out, target);
        append(out, ";\n                break;\n            }\n");
        proof {
            assert(rs@.take(i + 1).drop_last() =~= rs@.take(i as int));
            assert(out@ =~= start + range_lines(rs@.take(i + 1), target as nat));
        }
        i += 1;
    }
    proof {
        assert(rs@.take(i as int) =~= rs@);
    }
}

/// Appends the tests of all the edges of a state.
fn write_edge_lines(out: &mut String, es: &Vec<(CharSet, usize)>)
    ensures
        final(out)@ == old(out)@ + edge_lines(es@),
{
    let ghost start = out@;
    let mut i: usize = 0;
    while i < es.len()
        invariant
            0 <= i <= es.len(),
            out@ == start + edge_lines(es@.take(i as int)),
        decreases es.len() - i,
    {
        let (set, target) = &es[i];
        write_range_lines(out, set.ranges(), *target);
        proof {
            assert(es@.take(i + 1).drop_last() =~= es@.take(i as int));
            assert(out@ =~= start + edge_lines(es@.take(i + 1)));
        }
        i += 1;
    }
    proof {
        assert(es@.take(i as int) =~= es@);
    }
}

/// Appends one case per state.
fn write_state_cases(out: &mut String, ts: &Vec<(usize, Vec<(CharSet, usize)>)>)
    ensures
        final(out)@ == old(out)@ + state_cases(ts@),
{
    let ghost start = out@;
    let mut i: usize = 0;
    while i < ts.len()
        invariant
            0 <= i <= ts.len(),
            out@ == start + state_cases(ts@.take(i as int)),
        decreases ts.len() - i,
    {
        let (state, es) = &ts[i];
        append(out, "        case ");
        write_dec(out, *state);
        append(out, ":\n");
        write_edge_lines(out, es);
        append(out, "            break;\n");
        proof {
            assert(ts@.take(i + 1).drop_last() =~= ts@.take(i as int));
            assert(out@ =~= start + state_cases(ts@.take(i + 1)));
        }
        i += 1;
    }
    proof {
        assert(ts@.take(i as int) =~= ts@);
    }
}

/// Appends one case per accepting state.
fn write_accept_cases(out: &mut String, acc: &Vec<(usize, Vec<String>)>)
    requires
        forall|e: int| 0 <= e < acc.len() ==> (#[trigger] acc@[e]).1.len() > 0,
    ensures
        final(out)@ == old(out)@ + accept_cases(acc@),
{
    let ghost start = out@;
    let mut i: usize = 0;
    while i < acc.len()
        invariant
            0 <= i <= acc.len(),
            out@ == start + accept_cases(acc@.take(i as int)),
            forall|e: int| 0 <= e < acc.len() ==> (#[trigger] acc@[e]).1.len() > 0,
        decreases acc.len() - i,
    {
        let (state, names) = &acc[i];
        proof {
            assert(acc@[i as int].1.len() > 0);
        }
        append(out, "        case ");
        write_dec(out, *state);
        append(out, ":\n            lexer_mark_accepting(lex, TOKEN_TYP_");
        append(out, names[0].as_str());
        append(out, ");\n            break;\n");
        proof {
            assert(acc@.take(i + 1).drop_last() =~= acc@.take(i as int));
            assert(out@ =~= start + accept_cases(acc@.take(i + 1)));
        }
        i += 1;
    }
    proof {
        assert(acc@.take(i as int) =~= acc@);
    }
}

/// Appends one case per token type name.
fn write_name_cases(out: &mut String, names: &Vec<String>)
    ensures
        final(out)@ == old(out)@ + name_cases(string_views(names@)),
{
    let ghost start = out@;
    let ghost v = string_views(names@);
    let mut i: usize = 0;
    while i < names.len()
        invariant
            0 <= i <= names.len(),
            v == string_views(names@),
            out@ == start + name_cases(v.take(i as int)),
        decreases names.len() - i,
    {
        append(out, "        case TOKEN_TYP_");
        append(out, names[i].as_str());
        append(out, ": return \"");
        append(out, names[i].as_str());
        append(out, "\";\n");
        proof {
            assert(v.take(i + 1).drop_last() =~= v.take(i as int));
            assert(out@ =~= start + name_cases(v.take(i + 1)));
        }
        i += 1;
    }
    proof {
        assert(v.take(i as int) =~= v);
    }
}

/// The C source of a table-driven lexer for the automaton, which includes
/// `<basename>.h`.
pub fn c_source(dfa: &Dfa, basename: &str) -> (r: String)
    requires
        dfa.wf(),
    ensures
        r@ == source_text(dfa, basename@),
{
    proof {
        assert forall|e: int| 0 <= e < dfa.accepting.len() implies (#[trigger] dfa.accepting@[e]).1.len() > 0 by {
            assert(crate::vector::string_views(dfa.accepting@[e].1@).len() > 0);
        }
    }
    let mut out = String::new();
    append(&mut out, "#include <stdlib.h>\n#include \"");
    append(&mut out, basename);
    append(&mut out, ".h\"\n\nlexer_t* lexer_new(void)\n{\n    lexer_t* lex = malloc(sizeof(lexer_t));\n    lexer_init(lex);\n    return lex;\n}\n\nvoid lexer_init(lexer_t* lex)\n{\n    lex->state = 0;\n    lex->index = 0;\n    lex->start_index = 0;\n    lex->tok_start = 0;\n    lex->tok_end = 0;\n    lex->tok_type = TOKEN_ERROR;\n}\n\nvoid lexer_delete(lexer_t* lex)\n{\n    free(lex);\n}\n\nstatic void lexer_mark_accepting(lexer_t* lex, enum token_type id)\n{\n    lex->tok_type = id;\n    lex->tok_start = lex->start_index;\n    lex->tok_end = lex->index;\n}\n\nadd_result_t lexer_add(lexer_t* lex, int c)\n{\n    lex->index++;\n    switch (lex->state)\n    {\n");
    write_state_cases(&mut out, &dfa.transitions);
    append(&mut out, "    }\n\n    switch (lex->state)\n    {\n");
    write_accept_cases(&mut out, &dfa.accepting);
    match dfa.error_state {
        Some(e) => {
            append(&mut out, "        case ");
            write_dec(&mut out, e);
            append(&mut out, ":\n            lex->start_index = lex->index = lex->tok_end;\n            lex->state = 0;\n            return ADD_DONE;\n");
        },
        None => {},
    }
    append(&mut out, "    }\n    return ADD_NEED_MORE;\n}\n\nconst char* lexer_token_type_name(enum token_type token_type)\n{\n    switch (token_type) {\n");
    write_name_cases(&mut out, &dfa.token_types);
    append(&mut out, "        default: break;\n    }\n    return \"?\";\n}\n");
    proof {
        assert(out@ =~= source_text(dfa, basename@));
    }
    out
}

/// Text with `"` and `\` escaped by a backslash.
pub open spec fn escaped_label(t: Seq<char>) -> Seq<char>
    decreases t.len(),
{
    if t.len() == 0 {
        seq![]
    } else if t.last() == '"' || t.last() == '\\' {
        escaped_label(t.drop_last()) + seq!['\\', t.last()]
    } else {
        escaped_label(t.drop_last()).push(t.last())
    }
}

/// One Graphviz edge per edge of the states, labelled with its characters.
pub open spec fn dot_edges(from: nat, es: Seq<(CharSet, usize)>) -> Seq<char>
    decreases es.len(),
{
    if es.len() == 0 {
        seq![]
    } else {
        dot_edges(from, es.drop_last()) + "  "@ + dec(from) + " -> "@ + dec(es.last().1 as nat)
            + " [label=\""@ + escaped_label(ranges_label(es.last().0.parts())) + "\"];\n"@
    }
}

/// The edges of all states.
pub open spec fn dot_states(ts: Seq<(usize, Vec<(CharSet, usize)>)>) -> Seq<char>
    decreases ts.len(),
{
    if ts.len() == 0 {
        seq![]
    } else {
        dot_states(ts.drop_last()) + dot_edges(ts.last().0 as nat, ts.last().1@)
    }
}

/// The accepting states, drawn with a double border.
pub open spec fn dot_accepting(acc: Seq<(usize, Vec<String>)>) -> Seq<char>
    decreases acc.len(),
{
    if acc.len() == 0 {
        seq![]
    } else {
        dot_accepting(acc.drop_last()) + "  "@ + dec(acc.last().0 as nat) + "[peripheries=2];\n"@
    }
}

/// The automaton as a Graphviz digraph.
pub open spec fn dot_text(d: &Dfa) -> Seq<char> {
    "digraph state_machine {\n"@ + dot_states(d.transitions@) + dot_accepting(d.accepting@)
        + "}\n"@
}

/// Appends `t` with `"` and `\` escaped.
fn write_escaped(out: &mut String, t: &String)
    ensures
        final(out)@ == old(out)@ + escaped_label(t@),
{
    let ghost start = out@;
    let cs = crate::text::chars_of(t.as_str());
    let mut i: usize = 0;
    while i < cs.len()
        invariant
            0 <= i <= cs.len(),
            cs@ == t@,
            out@ == start + escaped_label(cs@.take(i as int)),
        decreases cs.len() - i,
    {
        let c = cs[i];
        if c == '"' || c == '\\' {
            push_char(out, '\\');
        }
        push_char(out, c);
        proof {
            assert(cs@.take(i + 1).drop_last() =~= cs@.take(i as int));
            assert(cs@.take(i + 1).last() == c);
            assert(out@ =~= start + escaped_label(cs@.take(i + 1)));
        }
        i += 1;
    }
    proof {
        assert(cs@.take(i as int) =~= cs@);
    }
}

/// The automaton as a Graphviz digraph.
pub fn dot_source(dfa: &Dfa) -> (r: String)
    ensures
        r@ == dot_text(dfa),
{
    let mut out = String::new();
    append(&mut out, "digraph state_machine {\n");
    let ts = &dfa.transitions;
    let ghost start = out@;
    let mut i: usize = 0;
    while i < ts.len()
        invariant
            0 <= i <= ts.len(),
            out@ == start + dot_states(ts@.take(i as int)),
        decreases ts.len() - i,
    {
        let (from, es) = &ts[i];
        let ghost mid = out@;
        let mut k: usize = 0;
        while k < es.len()
            invariant
                0 <= k <= es.len(),
                out@ == mid + dot_edges(*from as nat, es@.take(k as int)),
            decreases es.len() - k,
        {
            let (set, to) = &es[k];
            append(&mut out, "  ");
            write_dec(&mut out, *from);
            append(&mut out, " -> ");
            write_dec(&mut out, *to);
            append(&mut out, " [label=\"");
            let label = set.label();
            write_escaped(&mut out, &label);
            append(&mut out, "\"];\n");
            proof {
                assert(es@.take(k + 1).drop_last() =~= es@.take(k as int));
                assert(out@ =~= mid + dot_edges(*from as nat, es@.take(k + 1)));
            }
            k += 1;
        }
        proof {
            assert(es@.take(k as int) =~= es@);
            assert(ts@.take(i + 1).drop_last() =~= ts@.take(i as int));
            assert(out@ =~= start + dot_states(ts@.take(i + 1)));
        }
        i += 1;
    }
    proof {
        assert(ts@.take(i as int) =~= ts@);
    }
    let acc = &dfa.accepting;
    let ghost start2 = out@;
    let mut j: usize = 0;
    while j < acc.len()
        invariant
            0 <= j <= acc.len(),
            out@ == start2 + dot_accepting(acc@.take(j as int)),
        decreases acc.len() - j,
    {
        append(&mut out, "  ");
        write_dec(&mut out, acc[j].0);
        append(&mut out, "[peripheries=2];\n");
        proof {
            assert(acc@.take(j + 1).drop_last() =~= acc@.take(j as int));
            assert(out@ =~= start2 + dot_accepting(acc@.take(j + 1)));
        }
        j += 1;
    }
    proof {
        assert(acc@.take(j as int) =~= acc@);
    }
    append(&mut out, "}\n");
    proof {
        assert(out@ =~= dot_text(dfa));
    }
    out
}

} // verus!
