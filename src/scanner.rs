//! A longest-match, priority-resolved scanner that runs an automaton.
use crate::dfa::{edge_sets, edges_ok, lemma_step_is_derivative, lemma_transitions_partition, step, Dfa};
use crate::expression::nullable_m;
use crate::language::{
    deriv_vec_word, in_sigma, lemma_accepting_names_first, lemma_deriv_vec_word, lemma_deriv_word_nullable,
    in_language, no_complement,
};
use crate::partition::{in_some_block, is_partition};
use crate::rangeset::sigma_set;
use crate::text::{chars_of, string_of};
use crate::vector::{accepting_names, string_views};
use vstd::prelude::*;

verus! {

/// A scanned token: the name of its pattern and its text.
#[derive(Debug)]
pub struct Token {
    pub typ: String,
    pub text: String,
}

/// The state that the automaton reaches from the start state on `w`.
pub open spec fn run(d: &Dfa, w: Seq<char>) -> int
    decreases w.len(),
{
    if w.len() == 0 {
        0
    } else {
        step(d, run(d, w.drop_last()), w.last())
    }
}

/// The name of the highest-priority pattern accepted in `state`, if any.
pub open spec fn accepted_name(d: &Dfa, state: int) -> Option<Seq<char>> {
    let names = accepting_names(d.states@[state]@);
    if names.len() > 0 {
        Some(names[0])
    } else {
        None
    }
}

/// A token is nonempty, and its text leads the automaton to a state whose
/// highest-priority accepted name is the token's type.
pub open spec fn token_ok(d: &Dfa, t: Token) -> bool {
    &&& t.text@.len() > 0
    &&& accepted_name(d, run(d, t.text@)) == Some(t.typ@)
}

/// The texts of the tokens, one after the other.
pub open spec fn texts(ts: Seq<Token>) -> Seq<char>
    decreases ts.len(),
{
    if ts.len() == 0 {
        seq![]
    } else {
        texts(ts.drop_last()) + ts.last().text@
    }
}

/// The state reached from `state` by `c`; none when `c` is not in `Σ`.
fn next_state(d: &Dfa, state: usize, c: char) -> (r: Option<usize>)
    requires
        d.wf(),
        state < d.states.len(),
    ensures
        match r {
            Some(t) => sigma_set().contains(c as int) && t == step(d, state as int, c) && t
                < d.states.len(),
            None => !sigma_set().contains(c as int),
        },
{
    proof {
        lemma_transitions_partition(d, state as int);
    }
    let edges = &d.transitions[state].1;
    let ghost es = edges@;
    proof {
        assert(edges_ok(d.states@, es, state as int));
    }
    let mut k: usize = 0;
    while k < edges.len()
        invariant
            0 <= k <= edges.len(),
            es == edges@,
            es == d.transitions@[state as int].1@,
            edges_ok(d.states@, es, state as int),
            is_partition(edge_sets(es)),
            forall|q: int| 0 <= q < k ==> !(#[trigger] es[q]).0@.contains(c as int),
        decreases edges.len() - k,
    {
        if edges[k].0.contains(c) {
            proof {
                let j = choose|j: int| 0 <= j < es.len() && #[trigger] es[j].0@.contains(c as int);
                if j != k {
                    assert(edge_sets(es)[j].disjoint(edge_sets(es)[k as int]));
                }
                assert(edge_sets(es)[k as int].subset_of(sigma_set()));
                assert(step(d, state as int, c) == es[j].1 as int);
            }
            return Some(edges[k].1);
        }
        k += 1;
    }
    proof {
        if sigma_set().contains(c as int) {
            assert(in_some_block(edge_sets(es), c as int));
            let j = choose|j: int| 0 <= j < edge_sets(es).len() && #[trigger] edge_sets(es)[j].contains(c as int);
            assert(es[j].0@.contains(c as int));
        }
    }
    None
}

/// The highest-priority name accepted in `state`, if any.
fn accepted(d: &Dfa, state: usize) -> (r: Option<String>)
    requires
        d.wf(),
        state < d.states.len(),
    ensures
        match r {
            Some(n) => accepted_name(d, state as int) == Some(n@),
            None => accepted_name(d, state as int) is None,
        },
{
    let mut e: usize = 0;
    while e < d.accepting.len()
        invariant
            0 <= e <= d.accepting.len(),
            d.wf(),
            state < d.states.len(),
            forall|q: int| 0 <= q < e ==> (#[trigger] d.accepting@[q]).0 != state,
        decreases d.accepting.len() - e,
    {
        if d.accepting[e].0 == state {
            let names = &d.accepting[e].1;
            proof {
                assert(string_views(names@) == accepting_names(d.states@[state as int]@));
                assert(string_views(names@)[0] == names@[0]@);
            }
            return Some(names[0].clone());
        }
        e += 1;
    }
    None
}

/// The end of the longest prefix of `s[b..i]` whose run the automaton
/// accepts, if there is one.
pub open spec fn last_accept(d: &Dfa, s: Seq<char>, b: int, i: int) -> Option<int>
    decreases i - b,
{
    if i <= b {
        None
    } else if accepted_name(d, run(d, s.subrange(b, i))) is Some {
        Some(i)
    } else {
        last_accept(d, s, b, i - 1)
    }
}

/// The token `s[b..e]`: the highest-priority name accepted after it, and
/// its text.
pub open spec fn token_at(d: &Dfa, s: Seq<char>, b: int, e: int) -> (Seq<char>, Seq<char>) {
    let name = match accepted_name(d, run(d, s.subrange(b, e))) {
        Some(n) => n,
        None => seq![],
    };
    (name, s.subrange(b, e))
}

/// Whether `state` is the error state.
pub open spec fn is_error(d: &Dfa, state: int) -> bool {
    match d.error_state {
        Some(e) => e as int == state,
        None => false,
    }
}

/// The tokens of `s` scanned from a token that begins at `b`, with the
/// characters up to `i` already read: the automaton reads on while it can;
/// on entering the error state the longest accepted prefix becomes a token
/// and scanning resumes after it, or fails when there is none; a character
/// outside `Σ` fails; at the end the longest accepted prefix, if any,
/// becomes the last token.
pub open spec fn scan_from(d: &Dfa, s: Seq<char>, b: int, i: int) -> Option<
    Seq<(Seq<char>, Seq<char>)>,
>
    decreases s.len() - b, s.len() - i,
{
    if b < 0 || i < b || i >= s.len() {
        match last_accept(d, s, b, i) {
            None => Some(seq![]),
            Some(e) => Some(seq![token_at(d, s, b, e)]),
        }
    } else if !sigma_set().contains(s[i] as int) {
        None
    } else if is_error(d, run(d, s.subrange(b, i + 1))) {
        match last_accept(d, s, b, i + 1) {
            None => None,
            Some(e) => if b < e <= s.len() {
                match scan_from(d, s, e, e) {
                    None => None,
                    Some(t) => Some(seq![token_at(d, s, b, e)] + t),
                }
            } else {
                None
            },
        }
    } else {
        scan_from(d, s, b, i + 1)
    }
}

/// The views of tokens: name and text.
pub open spec fn tokens_view(ts: Seq<Token>) -> Seq<(Seq<char>, Seq<char>)> {
    Seq::new(ts.len(), |k: int| (ts[k].typ@, ts[k].text@))
}

proof fn lemma_last_accept_bounds(d: &Dfa, s: Seq<char>, b: int, i: int)
    ensures
        match last_accept(d, s, b, i) {
            Some(e) => b < e <= i && accepted_name(d, run(d, s.subrange(b, e))) is Some,
            None => true,
        },
    decreases i - b,
{
    if i > b {
        lemma_last_accept_bounds(d, s, b, i - 1);
    }
}

/// Scan the given text for tokens, by longest match with ties going to the
/// higher-priority pattern.
pub fn scan(prog: Dfa, text: &str) -> (r: Result<Vec<Token>, String>)
    requires
        prog.wf(),
    ensures
        match r {
            Ok(ts) => scan_from(&prog, text@, 0, 0) == Some(tokens_view(ts@)) && texts(ts@)
                == text@.take(texts(ts@).len() as int) && texts(ts@).len() <= text@.len() && forall|
                k: int,
            |
                0 <= k < ts.len() ==> token_ok(&prog, #[trigger] ts@[k]),
            Err(_) => scan_from(&prog, text@, 0, 0) is None,
        },
{
    let chars = chars_of(text);
    let ghost s = chars@;
    let mut state: usize = 0;
    let mut tokens: Vec<Token> = Vec::new();
    let mut tok_begin: usize = 0;
    let mut cand: Option<(usize, String)> = None;
    let mut index: usize = 0;
    proof {
        assert(chars@.subrange(0, 0) =~= Seq::<char>::empty());
        assert(chars@.take(0) =~= texts(tokens@));
        if let Some(t) = scan_from(&prog, s, 0, 0) {
            assert(tokens_view(tokens@) + t =~= t);
        }
    }
    while index < chars.len()
        invariant
            chars@ == text@,
            s == chars@,
            prog.wf(),
            tok_begin <= index <= chars.len(),
            state < prog.states.len(),
            state == run(&prog, chars@.subrange(tok_begin as int, index as int)),
            match cand {
                Some((e, typ)) => tok_begin < e <= index && accepted_name(
                    &prog,
                    run(&prog, chars@.subrange(tok_begin as int, e as int)),
                ) == Some(typ@) && last_accept(&prog, s, tok_begin as int, index as int) == Some(
                    e as int,
                ),
                None => last_accept(&prog, s, tok_begin as int, index as int) is None,
            },
            scan_from(&prog, s, 0, 0) == (match scan_from(&prog, s, tok_begin as int, index as int) {
                None => None,
                Some(t) => Some(tokens_view(tokens@) + t),
            }),
            texts(tokens@) == chars@.take(tok_begin as int),
            forall|k: int| 0 <= k < tokens.len() ==> token_ok(&prog, #[trigger] tokens@[k]),
        decreases chars.len() - tok_begin, chars.len() - index,
    {
        let c = chars[index];
        let next = next_state(&prog, state, c);
        match next {
            Some(t) => {
                state = t;
            },
            None => {
                return Err("input character outside the alphabet".to_string());
            },
        }
        let ghost b = tok_begin as int;
        let ghost i = index as int;
        proof {
            let w = chars@.subrange(tok_begin as int, index + 1);
            assert(w.drop_last() =~= chars@.subrange(tok_begin as int, index as int));
        }
        index += 1;
        match accepted(&prog, state) {
            Some(typ) => {
                cand = Some((index, typ));
            },
            None => {
            },
        }
        let in_error = match prog.error_state {
            Some(e) => e == state,
            None => false,
        };
        if in_error {
            match cand {
                Some((end, typ)) => {
                    let text = string_of(&chars, tok_begin, end);
                    let tok = Token { typ, text };
                    let ghost before = tokens@;
                    proof {
                        assert(token_ok(&prog, tok));
                        assert(token_at(&prog, s, b, end as int) == (tok.typ@, tok.text@));
                    }
                    tokens.push(tok);
                    proof {
                        assert(tokens@.drop_last() =~= before);
                        assert(chars@.take(end as int) =~= chars@.take(tok_begin as int)
                            + chars@.subrange(tok_begin as int, end as int));
                        assert forall|k: int| 0 <= k < tokens.len() implies token_ok(
                            &prog,
                            #[trigger] tokens@[k],
                        ) by {
                            if k < before.len() {
                                assert(tokens@[k] == before[k]);
                            }
                        }
                        assert(chars@.subrange(end as int, end as int) =~= Seq::<char>::empty());
                        assert(tokens_view(tokens@) =~= tokens_view(before).push(
                            token_at(&prog, s, b, end as int),
                        ));
                        if let Some(t) = scan_from(&prog, s, end as int, end as int) {
                            assert(tokens_view(before) + (seq![token_at(&prog, s, b, end as int)] + t)
                                =~= tokens_view(tokens@) + t);
                        }
                    }
                    tok_begin = end;
                    index = end;
                },
                None => {
                    return Err("no token matches the input".to_string());
                },
            }
            state = 0;
            cand = None;
        }
    }
    proof {
        lemma_last_accept_bounds(&prog, s, tok_begin as int, index as int);
    }
    match cand {
        Some((end, typ)) => {
            let text = string_of(&chars, tok_begin, end);
            let tok = Token { typ, text };
            let ghost before = tokens@;
            let ghost b = tok_begin as int;
            proof {
                assert(token_ok(&prog, tok));
                assert(token_at(&prog, s, b, end as int) == (tok.typ@, tok.text@));
            }
            tokens.push(tok);
            proof {
                assert(tokens@.drop_last() =~= before);
                assert(chars@.take(end as int) =~= chars@.take(tok_begin as int) + chars@.subrange(
                    tok_begin as int,
                    end as int,
                ));
                assert forall|k: int| 0 <= k < tokens.len() implies token_ok(
                    &prog,
                    #[trigger] tokens@[k],
                ) by {
                    if k < before.len() {
                        assert(tokens@[k] == before[k]);
                    }
                }
                assert(tokens_view(tokens@) =~= tokens_view(before) + seq![
                    token_at(&prog, s, b, end as int),
                ]);
            }
        },
        None => {
            proof {
                assert(tokens_view(tokens@) + seq![] =~= tokens_view(tokens@));
            }
        },
    }
    proof {
        assert(texts(tokens@).len() <= text@.len());
        assert(text@.take(texts(tokens@).len() as int) =~= texts(tokens@));
    }
    Ok(tokens)
}

/// Running the automaton on `w` reaches the state of the start vector's
/// derivative by `w`.
pub proof fn lemma_run_is_derivative(d: &Dfa, w: Seq<char>)
    requires
        d.wf(),
        in_sigma(w),
    ensures
        0 <= run(d, w) < d.states.len(),
        d.states@[run(d, w)]@ == deriv_vec_word(d.states@[0]@, w),
    decreases w.len(),
{
    if w.len() > 0 {
        let p = w.drop_last();
        assert forall|k: int| 0 <= k < p.len() implies sigma_set().contains((#[trigger] p[k]) as int) by {
            assert(p[k] == w[k]);
        }
        lemma_run_is_derivative(d, p);
        assert(sigma_set().contains(w[w.len() - 1] as int));
        lemma_step_is_derivative(d, run(d, p), w.last());
    }
}

/// Acceptance: for a string over `Σ`, the state that the automaton reaches
/// accepts exactly when some pattern of the start vector matches the string,
/// and its first accepted name is that of the highest-priority such pattern.
/// Patterns are taken without complement, whose symbol-set form differs
/// from the complement of a language.
pub proof fn lemma_acceptance(d: &Dfa, w: Seq<char>)
    requires
        d.wf(),
        in_sigma(w),
        forall|i: int|
            0 <= i < d.states@[0]@.len() ==> no_complement(#[trigger] d.states@[0]@[i].1),
    ensures
        (accepted_name(d, run(d, w)) is Some) == (exists|i: int|
            0 <= i < d.states@[0]@.len() && in_language(#[trigger] d.states@[0]@[i].1, w)),
        accepted_name(d, run(d, w)) is Some ==> exists|k: int|
            0 <= k < d.states@[0]@.len() && in_language(#[trigger] d.states@[0]@[k].1, w)
                && accepted_name(d, run(d, w)) == Some(d.states@[0]@[k].0) && forall|j: int|
                0 <= j < k ==> !in_language(#[trigger] d.states@[0]@[j].1, w),
{
    let seed = d.states@[0]@;
    lemma_run_is_derivative(d, w);
    let v = deriv_vec_word(seed, w);
    lemma_deriv_vec_word(seed, w);
    assert forall|i: int| 0 <= i < v.len() implies nullable_m(#[trigger] v[i].1) == in_language(seed[i].1, w) by {
        lemma_deriv_word_nullable(seed[i].1, w);
    }
    lemma_accepting_names_first(v);
    if exists|i: int| 0 <= i < seed.len() && in_language(#[trigger] seed[i].1, w) {
        let i = choose|i: int| 0 <= i < seed.len() && in_language(#[trigger] seed[i].1, w);
        assert(nullable_m(v[i].1));
    }
    if exists|i: int| 0 <= i < v.len() && nullable_m(#[trigger] v[i].1) {
        let i = choose|i: int| 0 <= i < v.len() && nullable_m(#[trigger] v[i].1);
        assert(in_language(seed[i].1, w));
        let k = choose|k: int|
            0 <= k < v.len() && nullable_m(#[trigger] v[k].1) && accepting_names(v)[0] == v[k].0
                && forall|j: int| 0 <= j < k ==> !nullable_m(#[trigger] v[j].1);
        assert(in_language(seed[k].1, w));
        assert forall|j: int| 0 <= j < k implies !in_language(#[trigger] seed[j].1, w) by {
            assert(!nullable_m(v[j].1));
        }
    }
}

} // verus!
