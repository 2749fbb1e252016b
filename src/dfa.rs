//! Construction of a deterministic automaton from an expression vector.
use crate::expression::{is_null_m, set_views, CharSet};
use crate::language::{deriv_vec_word, in_sigma};
use crate::partition::{in_some_block, is_partition};
use crate::rangeset::sigma_set;
use crate::vector::{
    accepting_names, all_null, classes_vec, deriv_vec, lemma_classes_vec_sound,
    lemma_same_block_same_derivative, string_views, ExpressionVector, VectorModel,
};
use vstd::prelude::*;

verus! {

/// A deterministic automaton whose states are expression vectors.
#[derive(Debug)]
pub struct Dfa {
    /// The names of the patterns, in priority order.
    pub token_types: Vec<String>,
    /// For each state, in state order: the state and its edges, each a set of
    /// characters and the state it leads to.
    pub transitions: Vec<(usize, Vec<(CharSet, usize)>)>,
    /// The accepting states, in state order, each with the names of the
    /// patterns it accepts, in priority order.
    pub accepting: Vec<(usize, Vec<String>)>,
    /// The state from which no pattern can match any more, if one is reachable.
    pub error_state: Option<usize>,
    /// The expression vector of each state; state 0 is the start.
    pub states: Vec<ExpressionVector>,
}

/// The character sets of a list of edges.
pub open spec fn edge_sets(es: Seq<(CharSet, usize)>) -> Seq<Set<int>> {
    Seq::new(es.len(), |k: int| es[k].0@)
}

/// The edges of state `i` are its vector's joint classes, and each leads to
/// the state of the derivative by any of its characters.
pub open spec fn edges_ok(states: Seq<ExpressionVector>, es: Seq<(CharSet, usize)>, i: int) -> bool {
    &&& edge_sets(es) == classes_vec(states[i]@)
    &&& forall|k: int| 0 <= k < es.len() ==> (#[trigger] es[k]).1 < states.len()
    &&& forall|k: int, c: char|
        #![trigger es[k].0@.contains(c as int)]
        0 <= k < es.len() && es[k].0@.contains(c as int) ==> states[es[k].1 as int]@
            == deriv_vec(states[i]@, c)
}

/// Every state has the names of the start state.
pub open spec fn same_names(a: VectorModel, b: VectorModel) -> bool {
    a.len() == b.len() && forall|q: int| 0 <= q < a.len() ==> (#[trigger] a[q]).0 == b[q].0
}

/// The accepting list holds exactly the states among the first `n` whose
/// vectors accept, each with its accepting names.
pub open spec fn accepting_ok(
    acc: Seq<(usize, Vec<String>)>,
    states: Seq<ExpressionVector>,
    n: int,
) -> bool {
    &&& forall|e: int|
        0 <= e < acc.len() ==> (#[trigger] acc[e]).0 < n && string_views(acc[e].1@) == accepting_names(
            states[acc[e].0 as int]@,
        ) && accepting_names(states[acc[e].0 as int]@).len() > 0
    &&& forall|i: int|
        0 <= i < n && accepting_names(#[trigger] states[i]@).len() > 0 ==> exists|e: int|
            0 <= e < acc.len() && acc[e].0 == i
}

/// The error state is the one state among the first `n` whose vector is
/// all null, if there is one.
pub open spec fn error_ok(err: Option<usize>, states: Seq<ExpressionVector>, n: int) -> bool {
    match err {
        Some(e) => e < n && all_null(states[e as int]@) && forall|i: int|
            0 <= i < n && all_null(#[trigger] states[i]@) ==> i == e,
        None => forall|i: int| 0 <= i < n ==> !all_null(#[trigger] states[i]@),
    }
}

/// Two all-null vectors with the same names are equal.
proof fn lemma_all_null_unique(a: VectorModel, b: VectorModel, seed: VectorModel)
    requires
        all_null(a),
        all_null(b),
        same_names(a, seed),
        same_names(b, seed),
    ensures
        a == b,
{
    assert forall|q: int| 0 <= q < a.len() implies a[q] == b[q] by {
        assert(is_null_m(a[q].1));
        assert(is_null_m(b[q].1));
        assert(a[q].0 == seed[q].0);
    }
    assert(a =~= b);
}

impl Dfa {
    /// The automaton's invariant: one transition entry per state, each
    /// state's edges are its joint classes with the right targets, the
    /// states are distinct, and the accepting list and the error state
    /// agree with the vectors.
    pub open spec fn wf(&self) -> bool {
        let n = self.states.len() as int;
        &&& n > 0
        &&& self.transitions.len() == n
        &&& forall|i: int| 0 <= i < n ==> (#[trigger] self.transitions@[i]).0 == i
        &&& forall|i: int|
            0 <= i < n ==> edges_ok(self.states@, (#[trigger] self.transitions@[i]).1@, i)
        &&& forall|a: int, b: int|
            #![trigger self.states@[a], self.states@[b]]
            0 <= a < n && 0 <= b < n && a != b ==> self.states@[a]@ != self.states@[b]@
        &&& forall|i: int| 0 <= i < n ==> same_names(#[trigger] self.states@[i]@, self.states@[0]@)
        &&& accepting_ok(self.accepting@, self.states@, n)
        &&& error_ok(self.error_state, self.states@, n)
        &&& string_views(self.token_types@) == Seq::new(
            self.states@[0]@.len(),
            |q: int| self.states@[0]@[q].0,
        )
    }
}

/// The index of the state whose vector is `v`, if there is one.
fn find_state(states: &Vec<ExpressionVector>, v: &ExpressionVector) -> (r: Option<usize>)
    ensures
        match r {
            Some(t) => t < states.len() && states@[t as int]@ == v@,
            None => forall|t: int| 0 <= t < states.len() ==> (#[trigger] states@[t])@ != v@,
        },
{
    let mut t: usize = 0;
    while t < states.len()
        invariant
            0 <= t <= states.len(),
            forall|q: int| 0 <= q < t ==> (#[trigger] states@[q])@ != v@,
        decreases states.len() - t,
    {
        if states[t].equals(v) {
            return Some(t);
        }
        t += 1;
    }
    None
}

/// The names of a vector, in order.
pub open spec fn names_of(v: VectorModel) -> Seq<Seq<char>> {
    Seq::new(v.len(), |q: int| v[q].0)
}

/// Compile an expression vector into a deterministic automaton, by a
/// worklist over the derivatives of the start vector.
///
/// State 0 is the start vector; each state's edges are its joint character
/// classes, each leading to the state of the derivative by its first
/// character.
pub fn compile(start_state: ExpressionVector) -> (r: Dfa)
    ensures
        r.wf(),
        r.states@[0]@ == start_state@,
        forall|i: int|
            0 <= i < r.states.len() ==> exists|w: Seq<char>|
                in_sigma(w) && #[trigger] r.states@[i]@ == deriv_vec_word(start_state@, w),
{
    let token_types = start_state.names();
    let ghost seed = start_state@;
    proof {
        assert(string_views(token_types@) =~= names_of(seed));
    }
    let mut states: Vec<ExpressionVector> = Vec::new();
    states.push(start_state);
    proof {
        let w = Seq::<char>::empty();
        assert(in_sigma(w));
        assert(states@[0]@ == deriv_vec_word(seed, w));
    }
    let mut transitions: Vec<(usize, Vec<(CharSet, usize)>)> = Vec::new();
    let mut accepting: Vec<(usize, Vec<String>)> = Vec::new();
    let mut error_state: Option<usize> = None;
    let mut s: usize = 0;
    while s < states.len()
        invariant
            0 <= s <= states.len(),
            states.len() > 0,
            states@[0]@ == seed,
            transitions.len() == s,
            forall|i: int| 0 <= i < s ==> (#[trigger] transitions@[i]).0 == i,
            forall|i: int| 0 <= i < s ==> edges_ok(states@, (#[trigger] transitions@[i]).1@, i),
            forall|a: int, b: int|
                #![trigger states@[a], states@[b]]
                0 <= a < states.len() && 0 <= b < states.len() && a != b ==> states@[a]@
                    != states@[b]@,
            forall|i: int| 0 <= i < states.len() ==> same_names(#[trigger] states@[i]@, seed),
            forall|i: int|
                0 <= i < states.len() ==> exists|w: Seq<char>|
                    in_sigma(w) && #[trigger] states@[i]@ == deriv_vec_word(seed, w),
            accepting_ok(accepting@, states@, s as int),
            error_ok(error_state, states@, s as int),
            string_views(token_types@) == names_of(seed),
        decreases usize::MAX - s,
    {
        let v = states[s].copy();
        let names = v.is_nullable();
        let ghost acc_before = accepting@;
        if names.len() > 0 {
            accepting.push((s, names));
        }
        proof {
            assert forall|i: int|
                0 <= i < s + 1 && accepting_names(#[trigger] states@[i]@).len() > 0 implies exists|e: int|
                0 <= e < accepting.len() && accepting@[e].0 == i by {
                if i < s {
                    let e = choose|e: int| 0 <= e < acc_before.len() && acc_before[e].0 == i;
                    assert(accepting@[e] == acc_before[e]);
                } else {
                    assert(accepting@[accepting.len() - 1].0 == i);
                }
            }
            assert forall|e: int| 0 <= e < accepting.len() implies (#[trigger] accepting@[e]).0 < s + 1
                && string_views(accepting@[e].1@) == accepting_names(states@[accepting@[e].0 as int]@)
                && accepting_names(states@[accepting@[e].0 as int]@).len() > 0 by {
                if e < acc_before.len() {
                    assert(accepting@[e] == acc_before[e]);
                }
            }
        }
        let ghost err_before = error_state;
        if v.is_null() {
            error_state = Some(s);
            proof {
                assert forall|i: int| 0 <= i < s + 1 && all_null(#[trigger] states@[i]@) implies i == s by {
                    if i != s {
                        lemma_all_null_unique(states@[i]@, states@[s as int]@, seed);
                    }
                }
            }
        } else {
            proof {
                match err_before {
                    Some(e) => {
                        assert forall|i: int| 0 <= i < s + 1 && all_null(#[trigger] states@[i]@) implies i == e by {
                        }
                    },
                    None => {},
                }
            }
        }
        let classes = v.character_classes();
        proof {
            lemma_classes_vec_sound(v@);
        }
        let mut edges: Vec<(CharSet, usize)> = Vec::new();
        let mut k: usize = 0;
        while k < classes.len()
            invariant
                0 <= s < states.len(),
                0 <= k <= classes.len(),
                states@[0]@ == seed,
                v@ == states@[s as int]@,
                set_views(classes@) == classes_vec(v@),
                is_partition(classes_vec(v@)),
                transitions.len() == s,
                forall|i: int| 0 <= i < s ==> edges_ok(states@, (#[trigger] transitions@[i]).1@, i),
                forall|a: int, b: int|
                    #![trigger states@[a], states@[b]]
                    0 <= a < states.len() && 0 <= b < states.len() && a != b ==> states@[a]@
                        != states@[b]@,
                forall|i: int| 0 <= i < states.len() ==> same_names(#[trigger] states@[i]@, seed),
                forall|i: int|
                    0 <= i < states.len() ==> exists|w: Seq<char>|
                        in_sigma(w) && #[trigger] states@[i]@ == deriv_vec_word(seed, w),
                accepting_ok(accepting@, states@, s + 1),
                error_ok(error_state, states@, s + 1),
                edges.len() == k,
                forall|q: int| 0 <= q < k ==> (#[trigger] edges@[q]).0@ == classes@[q]@,
                forall|q: int| 0 <= q < k ==> (#[trigger] edges@[q]).1 < states.len(),
                forall|q: int, c: char|
                    #![trigger edges@[q].0@.contains(c as int)]
                    0 <= q < k && edges@[q].0@.contains(c as int) ==> states@[edges@[q].1 as int]@
                        == deriv_vec(v@, c),
            decreases classes.len() - k,
        {
            let block = classes[k].copy();
            proof {
                assert(set_views(classes@)[k as int] == classes@[k as int]@);
            }
            let c = block.first();
            let d = v.derivative(c);
            let ghost old_states = states@;
            let t = match find_state(&states, &d) {
                Some(t) => t,
                None => {
                    states.push(d);
                    proof {
                        let w = choose|w: Seq<char>| in_sigma(w) && #[trigger] old_states[s as int]@ == deriv_vec_word(seed, w);
                        let w2 = w.push(c);
                        assert(w2.drop_last() =~= w);
                        assert(block@.contains(c as int));
                        assert(in_sigma(w2)) by {
                            assert forall|q: int| 0 <= q < w2.len() implies sigma_set().contains((#[trigger] w2[q]) as int) by {
                                if q < w.len() {
                                    assert(w2[q] == w[q]);
                                }
                            }
                        }
                        assert(states@[states.len() - 1]@ == deriv_vec_word(seed, w2));
                        assert forall|i: int| 0 <= i < states.len() implies exists|w: Seq<char>|
                            in_sigma(w) && #[trigger] states@[i]@ == deriv_vec_word(seed, w) by {
                            if i < old_states.len() {
                                assert(states@[i] == old_states[i]);
                            } else {
                                assert(in_sigma(w2) && states@[i]@ == deriv_vec_word(seed, w2));
                            }
                        }
                        assert(same_names(d@, seed)) by {
                            assert(same_names(v@, seed));
                        }
                        assert forall|a: int, b: int|
                            0 <= a < states.len() && 0 <= b < states.len() && a != b implies #[trigger] states@[a]@
                            != #[trigger] states@[b]@ by {
                            if a < old_states.len() && b < old_states.len() {
                                assert(states@[a] == old_states[a] && states@[b] == old_states[b]);
                            } else if a < old_states.len() {
                                assert(states@[a] == old_states[a]);
                            } else {
                                assert(states@[b] == old_states[b]);
                            }
                        }
                        assert forall|i: int| 0 <= i < states.len() implies same_names(
                            #[trigger] states@[i]@,
                            seed,
                        ) by {
                            if i < old_states.len() {
                                assert(states@[i] == old_states[i]);
                            }
                        }
                    }
                    states.len() - 1
                },
            };
            proof {
                assert forall|i: int| 0 <= i < s implies edges_ok(
                    states@,
                    (#[trigger] transitions@[i]).1@,
                    i,
                ) by {
                    let es = transitions@[i].1@;
                    assert(edges_ok(old_states, es, i));
                    assert forall|q: int, c2: char|
                        0 <= q < es.len() && es[q].0@.contains(c2 as int) implies states@[es[q].1 as int]@
                        == deriv_vec(states@[i]@, c2) by {
                        assert(states@[es[q].1 as int] == old_states[es[q].1 as int]);
                        assert(states@[i] == old_states[i]);
                    }
                    assert(states@[i] == old_states[i]);
                }
                assert forall|e: int| 0 <= e < accepting.len() implies states@[accepting@[e].0 as int]
                    == old_states[accepting@[e].0 as int] by {
                    assert(accepting_ok(accepting@, old_states, s + 1));
                    assert((#[trigger] accepting@[e]).0 < s + 1);
                }
                assert forall|i: int| 0 <= i < s + 1 implies states@[i] == old_states[i] by {
                }
                assert(accepting_ok(accepting@, states@, s + 1));
                assert(error_ok(error_state, states@, s + 1)) by {
                    match error_state {
                        Some(e) => {
                            assert(states@[e as int] == old_states[e as int]);
                        },
                        None => {
                        },
                    }
                }
            }
            let ghost before = edges@;
            edges.push((block, t));
            proof {
                assert forall|q: int, c2: char|
                    #![trigger edges@[q].0@.contains(c2 as int)]
                    0 <= q < k + 1 && edges@[q].0@.contains(c2 as int) implies states@[edges@[q].1 as int]@
                    == deriv_vec(v@, c2) by {
                    if q < k {
                        assert(edges@[q] == before[q]);
                        assert(before[q].0@.contains(c2 as int));
                        assert(states@[before[q].1 as int] == old_states[before[q].1 as int]);
                    } else {
                        lemma_same_block_same_derivative(v@, k as int, c, c2);
                    }
                }
            }
            k += 1;
        }
        let ghost es = edges@;
        proof {
            assert(edge_sets(es) =~= classes_vec(v@)) by {
                assert(set_views(classes@) == classes_vec(v@));
                assert forall|q: int| 0 <= q < es.len() implies edge_sets(es)[q] == set_views(classes@)[q] by {
                }
            }
        }
        let ghost tr_before = transitions@;
        transitions.push((s, edges));
        proof {
            assert forall|i: int| 0 <= i < s + 1 implies edges_ok(
                states@,
                (#[trigger] transitions@[i]).1@,
                i,
            ) by {
                if i < s {
                    assert(transitions@[i] == tr_before[i]);
                }
            }
            assert forall|i: int| 0 <= i < s + 1 implies (#[trigger] transitions@[i]).0 == i by {
                if i < s {
                    assert(transitions@[i] == tr_before[i]);
                }
            }
        }
        s += 1;
    }
    Dfa { token_types, transitions, accepting, error_state, states }
}

/// Determinism: in a well-formed automaton the character sets of each
/// state's edges partition `Σ`.
pub proof fn lemma_transitions_partition(d: &Dfa, i: int)
    requires
        d.wf(),
        0 <= i < d.states.len(),
    ensures
        is_partition(edge_sets(d.transitions@[i].1@)),
{
    assert(edges_ok(d.states@, d.transitions@[i].1@, i));
    lemma_classes_vec_sound(d.states@[i]@);
}

/// The state reached from state `i` by the character `c`.
pub open spec fn step(d: &Dfa, i: int, c: char) -> int {
    let es = d.transitions@[i].1@;
    let k = choose|k: int| 0 <= k < es.len() && #[trigger] es[k].0@.contains(c as int);
    es[k].1 as int
}

/// Completeness: every character of `Σ` leaves each state by an edge, and
/// that edge leads to the state of the derivative.
pub proof fn lemma_step_is_derivative(d: &Dfa, i: int, c: char)
    requires
        d.wf(),
        0 <= i < d.states.len(),
        sigma_set().contains(c as int),
    ensures
        0 <= step(d, i, c) < d.states.len(),
        d.states@[step(d, i, c)]@ == deriv_vec(d.states@[i]@, c),
{
    lemma_transitions_partition(d, i);
    let es = d.transitions@[i].1@;
    assert(in_some_block(edge_sets(es), c as int));
    let k = choose|k: int| 0 <= k < edge_sets(es).len() && #[trigger] edge_sets(es)[k].contains(c as int);
    assert(es[k].0@.contains(c as int));
}

} // verus!
