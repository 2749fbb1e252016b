//! What an expression in_language, and the laws that tie nullability and the
//! derivative to it.
use crate::expression::{
    alt_m, and_m, cat_m, deriv_m, is_null_m, null_m, nullable_m, star_m, RegexModel,
};
use crate::rangeset::sigma_set;
use crate::vector::{accepting_names, deriv_vec, VectorModel};
use vstd::prelude::*;

verus! {

/// The nesting depth of an expression.
pub open spec fn height(r: RegexModel) -> nat
    decreases r,
{
    match r {
        RegexModel::Eps => 0,
        RegexModel::Sym(_) => 0,
        RegexModel::Star(x) => height(*x) + 1,
        RegexModel::Not(x) => height(*x) + 1,
        RegexModel::Alt(a, b) => max_nat(height(*a), height(*b)) + 1,
        RegexModel::Cat(a, b) => max_nat(height(*a), height(*b)) + 1,
        RegexModel::And(a, b) => max_nat(height(*a), height(*b)) + 1,
    }
}

pub open spec fn max_nat(a: nat, b: nat) -> nat {
    if a >= b {
        a
    } else {
        b
    }
}

/// Whether `r` matches the string `w`. A complement matches every string
/// that its operand does not.
pub open spec fn in_language(r: RegexModel, w: Seq<char>) -> bool
    decreases 2 * height(r) + 1, w.len(), 2nat, 0int,
{
    match r {
        RegexModel::Eps => w.len() == 0,
        RegexModel::Sym(s) => w.len() == 1 && s.contains(w[0] as int),
        RegexModel::Alt(a, b) => in_language(*a, w) || in_language(*b, w),
        RegexModel::And(a, b) => in_language(*a, w) && in_language(*b, w),
        RegexModel::Not(x) => !in_language(*x, w),
        RegexModel::Cat(a, b) => cat_split(*a, *b, w, 0),
        RegexModel::Star(x) => w.len() == 0 || star_split(*x, w, 1),
    }
}

/// Whether `w` splits at some point from `i` on into a match of `a`
/// followed by a match of `b`.
pub open spec fn cat_split(a: RegexModel, b: RegexModel, w: Seq<char>, i: int) -> bool
    decreases 2 * max_nat(height(a), height(b)) + 2, w.len(), 0nat, w.len() + 1 - i,
{
    if i < 0 || i > w.len() {
        false
    } else {
        (in_language(a, w.take(i)) && in_language(b, w.skip(i))) || cat_split(a, b, w, i + 1)
    }
}

/// Whether `w` splits at some point from `i` on (at least one) into a match
/// of `x` followed by a match of `x*`.
pub open spec fn star_split(x: RegexModel, w: Seq<char>, i: int) -> bool
    decreases 2 * height(x) + 3, w.len(), 1nat, w.len() + 1 - i,
{
    if i < 1 || i > w.len() {
        false
    } else {
        (in_language(x, w.take(i)) && in_language(RegexModel::Star(Box::new(x)), w.skip(i))) || star_split(
            x,
            w,
            i + 1,
        )
    }
}

/// `w` is a match of `a` followed by a match of `b`.
pub open spec fn cat_holds(a: RegexModel, b: RegexModel, w: Seq<char>) -> bool {
    exists|i: int| 0 <= i <= w.len() && #[trigger] in_language(a, w.take(i)) && in_language(b, w.skip(i))
}

/// `w` is a nonempty match of `x` followed by a match of `x*`.
pub open spec fn star_holds(x: RegexModel, w: Seq<char>) -> bool {
    exists|i: int|
        1 <= i <= w.len() && #[trigger] in_language(x, w.take(i)) && in_language(
            RegexModel::Star(Box::new(x)),
            w.skip(i),
        )
}

proof fn lemma_cat_split(a: RegexModel, b: RegexModel, w: Seq<char>, i: int)
    requires
        0 <= i <= w.len() + 1,
    ensures
        cat_split(a, b, w, i) <==> exists|j: int|
            i <= j <= w.len() && #[trigger] in_language(a, w.take(j)) && in_language(b, w.skip(j)),
    decreases w.len() + 1 - i,
{
    if i <= w.len() {
        lemma_cat_split(a, b, w, i + 1);
        if in_language(a, w.take(i)) && in_language(b, w.skip(i)) {
            assert(cat_split(a, b, w, i));
        }
        if exists|j: int| i <= j <= w.len() && #[trigger] in_language(a, w.take(j)) && in_language(b, w.skip(j)) {
            let j = choose|j: int| i <= j <= w.len() && #[trigger] in_language(a, w.take(j)) && in_language(b, w.skip(j));
            if j > i {
                assert(in_language(a, w.take(j)) && in_language(b, w.skip(j)));
            }
        }
    }
}

proof fn lemma_star_split(x: RegexModel, w: Seq<char>, i: int)
    requires
        1 <= i <= w.len() + 1,
    ensures
        star_split(x, w, i) <==> exists|j: int|
            i <= j <= w.len() && #[trigger] in_language(x, w.take(j)) && in_language(
                RegexModel::Star(Box::new(x)),
                w.skip(j),
            ),
    decreases w.len() + 1 - i,
{
    if i <= w.len() {
        lemma_star_split(x, w, i + 1);
        let s = RegexModel::Star(Box::new(x));
        if in_language(x, w.take(i)) && in_language(s, w.skip(i)) {
            assert(star_split(x, w, i));
        }
        if exists|j: int| i <= j <= w.len() && #[trigger] in_language(x, w.take(j)) && in_language(s, w.skip(j)) {
            let j = choose|j: int| i <= j <= w.len() && #[trigger] in_language(x, w.take(j)) && in_language(s, w.skip(j));
            if j > i {
                assert(in_language(x, w.take(j)) && in_language(s, w.skip(j)));
            }
        }
    }
}

/// A concatenation matches exactly the strings that split into matches of
/// its two parts.
pub proof fn lemma_cat_holds(a: RegexModel, b: RegexModel, w: Seq<char>)
    ensures
        in_language(RegexModel::Cat(Box::new(a), Box::new(b)), w) == cat_holds(a, b, w),
{
    lemma_cat_split(a, b, w, 0);
}

/// A closure matches the empty string and the strings that split into a
/// nonempty match of its operand followed by a match of the closure.
pub proof fn lemma_star_holds(x: RegexModel, w: Seq<char>)
    ensures
        in_language(RegexModel::Star(Box::new(x)), w) == (w.len() == 0 || star_holds(x, w)),
{
    lemma_star_split(x, w, 1);
}

/// The expression holds no complement.
pub open spec fn no_complement(r: RegexModel) -> bool
    decreases r,
{
    match r {
        RegexModel::Eps => true,
        RegexModel::Sym(_) => true,
        RegexModel::Star(x) => no_complement(*x),
        RegexModel::Alt(a, b) => no_complement(*a) && no_complement(*b),
        RegexModel::Cat(a, b) => no_complement(*a) && no_complement(*b),
        RegexModel::And(a, b) => no_complement(*a) && no_complement(*b),
        RegexModel::Not(_) => false,
    }
}

/// Nullability: an expression is nullable exactly when it matches the
/// empty string.
pub proof fn lemma_nullable_iff_matches_empty(r: RegexModel)
    ensures
        nullable_m(r) == in_language(r, Seq::<char>::empty()),
    decreases r,
{
    let e = Seq::<char>::empty();
    match r {
        RegexModel::Alt(a, b) => {
            lemma_nullable_iff_matches_empty(*a);
            lemma_nullable_iff_matches_empty(*b);
        },
        RegexModel::And(a, b) => {
            lemma_nullable_iff_matches_empty(*a);
            lemma_nullable_iff_matches_empty(*b);
        },
        RegexModel::Not(x) => {
            lemma_nullable_iff_matches_empty(*x);
        },
        RegexModel::Cat(a, b) => {
            lemma_nullable_iff_matches_empty(*a);
            lemma_nullable_iff_matches_empty(*b);
            lemma_cat_holds(*a, *b, e);
            assert(e.take(0) =~= e);
            assert(e.skip(0) =~= e);
            if nullable_m(r) {
                assert(in_language(*a, e.take(0)) && in_language(*b, e.skip(0)));
            }
            if cat_holds(*a, *b, e) {
                let i = choose|i: int| 0 <= i <= e.len() && #[trigger] in_language(*a, e.take(i)) && in_language(*b, e.skip(i));
                assert(i == 0);
            }
        },
        RegexModel::Eps => {},
        RegexModel::Sym(_) => {},
        RegexModel::Star(_) => {},
    }
}

proof fn lemma_null_matches_nothing(r: RegexModel, w: Seq<char>)
    requires
        is_null_m(r),
    ensures
        !in_language(r, w),
{
}

proof fn lemma_alt_matches(l: RegexModel, r: RegexModel, w: Seq<char>)
    ensures
        in_language(alt_m(l, r), w) == (in_language(l, w) || in_language(r, w)),
{
    if is_null_m(l) {
        lemma_null_matches_nothing(l, w);
    } else if is_null_m(r) {
        lemma_null_matches_nothing(r, w);
    }
}

proof fn lemma_and_matches(l: RegexModel, r: RegexModel, w: Seq<char>)
    ensures
        in_language(and_m(l, r), w) == (in_language(l, w) && in_language(r, w)),
{
    if is_null_m(l) {
        lemma_null_matches_nothing(l, w);
    } else if is_null_m(r) {
        lemma_null_matches_nothing(r, w);
    }
}

proof fn lemma_cat_matches(l: RegexModel, r: RegexModel, w: Seq<char>)
    ensures
        in_language(cat_m(l, r), w) == cat_holds(l, r, w),
{
    lemma_cat_holds(l, r, w);
    if is_null_m(l) {
        if cat_holds(l, r, w) {
            let i = choose|i: int| 0 <= i <= w.len() && #[trigger] in_language(l, w.take(i)) && in_language(r, w.skip(i));
            lemma_null_matches_nothing(l, w.take(i));
        }
        lemma_null_matches_nothing(l, w);
    } else if is_null_m(r) {
        if cat_holds(l, r, w) {
            let i = choose|i: int| 0 <= i <= w.len() && #[trigger] in_language(l, w.take(i)) && in_language(r, w.skip(i));
            lemma_null_matches_nothing(r, w.skip(i));
        }
        lemma_null_matches_nothing(r, w);
    } else if l is Eps {
        assert(w.take(0) =~= Seq::<char>::empty());
        assert(w.skip(0) =~= w);
        if cat_holds(l, r, w) {
            let i = choose|i: int| 0 <= i <= w.len() && #[trigger] in_language(l, w.take(i)) && in_language(r, w.skip(i));
            assert(w.take(i).len() == i);
            assert(i == 0);
        }
        if in_language(r, w) {
            assert(in_language(l, w.take(0)) && in_language(r, w.skip(0)));
        }
    } else if r is Eps {
        assert(w.take(w.len() as int) =~= w);
        assert(w.skip(w.len() as int) =~= Seq::<char>::empty());
        if cat_holds(l, r, w) {
            let i = choose|i: int| 0 <= i <= w.len() && #[trigger] in_language(l, w.take(i)) && in_language(r, w.skip(i));
            assert(w.skip(i).len() == w.len() - i);
            assert(i == w.len());
        }
        if in_language(l, w) {
            assert(in_language(l, w.take(w.len() as int)) && in_language(r, w.skip(w.len() as int)));
        }
    }
}

proof fn lemma_star_matches(x: RegexModel, w: Seq<char>)
    ensures
        in_language(star_m(x), w) == in_language(RegexModel::Star(Box::new(x)), w),
{
    lemma_star_holds(x, w);
    let s = RegexModel::Star(Box::new(x));
    if x is Eps {
        if star_holds(x, w) {
            let i = choose|i: int| 1 <= i <= w.len() && #[trigger] in_language(x, w.take(i)) && in_language(s, w.skip(i));
            assert(w.take(i).len() == i);
        }
    }
}

proof fn lemma_prepend(c: char, w: Seq<char>, i: int)
    requires
        1 <= i <= w.len() + 1,
    ensures
        (seq![c] + w).take(i) == seq![c] + w.take(i - 1),
        (seq![c] + w).skip(i) == w.skip(i - 1),
{
    assert((seq![c] + w).take(i) =~= seq![c] + w.take(i - 1));
    assert((seq![c] + w).skip(i) =~= w.skip(i - 1));
}

/// Derivative correctness: for an expression without complement, the
/// derivative by `c` matches `w` exactly when the expression matches `c`
/// followed by `w`.
pub proof fn lemma_derivative_matches(r: RegexModel, c: char, w: Seq<char>)
    requires
        no_complement(r),
    ensures
        in_language(deriv_m(r, c), w) == in_language(r, seq![c] + w),
    decreases r,
{
    let cw = seq![c] + w;
    match r {
        RegexModel::Eps => {
            lemma_null_matches_nothing(null_m(), w);
        },
        RegexModel::Sym(s) => {
            lemma_null_matches_nothing(null_m(), w);
        },
        RegexModel::Alt(a, b) => {
            lemma_derivative_matches(*a, c, w);
            lemma_derivative_matches(*b, c, w);
            lemma_alt_matches(deriv_m(*a, c), deriv_m(*b, c), w);
        },
        RegexModel::And(a, b) => {
            lemma_derivative_matches(*a, c, w);
            lemma_derivative_matches(*b, c, w);
            lemma_and_matches(deriv_m(*a, c), deriv_m(*b, c), w);
        },
        RegexModel::Not(_) => {},
        RegexModel::Cat(a, b) => {
            let da = deriv_m(*a, c);
            let db = deriv_m(*b, c);
            lemma_cat_matches(da, *b, w);
            lemma_cat_holds(*a, *b, cw);
            lemma_derivative_matches(*b, c, w);
            lemma_nullable_iff_matches_empty(*a);
            assert(cw.take(0) =~= Seq::<char>::empty());
            assert(cw.skip(0) =~= cw);
            // Splits of `c w` after its first character are splits of `w`.
            let later = exists|i: int|
                1 <= i <= cw.len() && #[trigger] in_language(*a, cw.take(i)) && in_language(*b, cw.skip(i));
            assert(cat_holds(da, *b, w) == later) by {
                if cat_holds(da, *b, w) {
                    let j = choose|j: int| 0 <= j <= w.len() && #[trigger] in_language(da, w.take(j)) && in_language(*b, w.skip(j));
                    lemma_derivative_matches(*a, c, w.take(j));
                    lemma_prepend(c, w, j + 1);
                    assert(in_language(*a, cw.take(j + 1)) && in_language(*b, cw.skip(j + 1)));
                }
                if later {
                    let i = choose|i: int| 1 <= i <= cw.len() && #[trigger] in_language(*a, cw.take(i)) && in_language(*b, cw.skip(i));
                    lemma_derivative_matches(*a, c, w.take(i - 1));
                    lemma_prepend(c, w, i);
                    assert(in_language(da, w.take(i - 1)) && in_language(*b, w.skip(i - 1)));
                }
            }
            if cat_holds(*a, *b, cw) {
                let i = choose|i: int| 0 <= i <= cw.len() && #[trigger] in_language(*a, cw.take(i)) && in_language(*b, cw.skip(i));
                if i == 0 {
                    assert(nullable_m(*a));
                    assert(in_language(db, w));
                } else {
                    assert(later);
                }
            }
            if nullable_m(*a) {
                lemma_alt_matches(cat_m(da, *b), db, w);
                if in_language(db, w) {
                    assert(in_language(*a, cw.take(0)) && in_language(*b, cw.skip(0)));
                }
            }
        },
        RegexModel::Star(x) => {
            let dx = deriv_m(*x, c);
            let sx = star_m(*x);
            lemma_cat_matches(dx, sx, w);
            lemma_star_holds(*x, cw);
            if star_holds(*x, cw) {
                let i = choose|i: int| 1 <= i <= cw.len() && #[trigger] in_language(*x, cw.take(i)) && in_language(r, cw.skip(i));
                lemma_prepend(c, w, i);
                lemma_derivative_matches(*x, c, w.take(i - 1));
                lemma_star_matches(*x, w.skip(i - 1));
                assert(in_language(dx, w.take(i - 1)) && in_language(sx, w.skip(i - 1)));
            }
            if cat_holds(dx, sx, w) {
                let j = choose|j: int| 0 <= j <= w.len() && #[trigger] in_language(dx, w.take(j)) && in_language(sx, w.skip(j));
                lemma_prepend(c, w, j + 1);
                lemma_derivative_matches(*x, c, w.take(j));
                lemma_star_matches(*x, w.skip(j));
                assert(in_language(*x, cw.take(j + 1)) && in_language(r, cw.skip(j + 1)));
            }
        },
    }
}

/// The derivative by each character of `w` in turn.
pub open spec fn deriv_word(r: RegexModel, w: Seq<char>) -> RegexModel
    decreases w.len(),
{
    if w.len() == 0 {
        r
    } else {
        deriv_m(deriv_word(r, w.drop_last()), w.last())
    }
}

/// The derivative of a vector by each character of `w` in turn.
pub open spec fn deriv_vec_word(v: VectorModel, w: Seq<char>) -> VectorModel
    decreases w.len(),
{
    if w.len() == 0 {
        v
    } else {
        deriv_vec(deriv_vec_word(v, w.drop_last()), w.last())
    }
}

proof fn lemma_smart_no_complement(l: RegexModel, r: RegexModel)
    requires
        no_complement(l),
        no_complement(r),
    ensures
        no_complement(alt_m(l, r)),
        no_complement(and_m(l, r)),
        no_complement(cat_m(l, r)),
        no_complement(star_m(l)),
{
}

proof fn lemma_deriv_no_complement(r: RegexModel, c: char)
    requires
        no_complement(r),
    ensures
        no_complement(deriv_m(r, c)),
    decreases r,
{
    match r {
        RegexModel::Star(x) => {
            lemma_deriv_no_complement(*x, c);
            lemma_smart_no_complement(deriv_m(*x, c), *x);
            lemma_smart_no_complement(deriv_m(*x, c), star_m(*x));
        },
        RegexModel::Alt(a, b) => {
            lemma_deriv_no_complement(*a, c);
            lemma_deriv_no_complement(*b, c);
            lemma_smart_no_complement(deriv_m(*a, c), deriv_m(*b, c));
        },
        RegexModel::And(a, b) => {
            lemma_deriv_no_complement(*a, c);
            lemma_deriv_no_complement(*b, c);
            lemma_smart_no_complement(deriv_m(*a, c), deriv_m(*b, c));
        },
        RegexModel::Cat(a, b) => {
            lemma_deriv_no_complement(*a, c);
            lemma_deriv_no_complement(*b, c);
            lemma_smart_no_complement(deriv_m(*a, c), *b);
            lemma_smart_no_complement(cat_m(deriv_m(*a, c), *b), deriv_m(*b, c));
        },
        _ => {},
    }
}

/// The derivative by a word matches `u` exactly when the expression matches
/// the word followed by `u`.
pub proof fn lemma_deriv_word_matches(r: RegexModel, w: Seq<char>, u: Seq<char>)
    requires
        no_complement(r),
    ensures
        no_complement(deriv_word(r, w)),
        in_language(deriv_word(r, w), u) == in_language(r, w + u),
    decreases w.len(),
{
    if w.len() == 0 {
        assert(w + u =~= u);
    } else {
        let p = w.drop_last();
        let c = w.last();
        lemma_deriv_word_matches(r, p, seq![c] + u);
        lemma_deriv_no_complement(deriv_word(r, p), c);
        lemma_derivative_matches(deriv_word(r, p), c, u);
        assert(p + (seq![c] + u) =~= w + u);
    }
}

/// The derivative by a word is nullable exactly when the expression matches
/// the word.
pub proof fn lemma_deriv_word_nullable(r: RegexModel, w: Seq<char>)
    requires
        no_complement(r),
    ensures
        nullable_m(deriv_word(r, w)) == in_language(r, w),
{
    lemma_deriv_word_matches(r, w, Seq::<char>::empty());
    lemma_nullable_iff_matches_empty(deriv_word(r, w));
    assert(w + Seq::<char>::empty() =~= w);
}

/// Each component of a vector's derivative by a word is the component's
/// derivative by the word.
pub proof fn lemma_deriv_vec_word(v: VectorModel, w: Seq<char>)
    ensures
        deriv_vec_word(v, w).len() == v.len(),
        forall|i: int|
            0 <= i < v.len() ==> #[trigger] deriv_vec_word(v, w)[i] == (v[i].0, deriv_word(v[i].1, w)),
    decreases w.len(),
{
    if w.len() > 0 {
        lemma_deriv_vec_word(v, w.drop_last());
    }
}

/// The accepting names are the names of the nullable components, in
/// order: there is one exactly when some component is nullable, and the
/// first is the name of the first nullable component.
pub proof fn lemma_accepting_names_first(v: VectorModel)
    ensures
        (accepting_names(v).len() > 0) == (exists|i: int| 0 <= i < v.len() && nullable_m(#[trigger] v[i].1)),
        accepting_names(v).len() > 0 ==> exists|k: int|
            0 <= k < v.len() && nullable_m(#[trigger] v[k].1) && accepting_names(v)[0] == v[k].0
                && forall|j: int| 0 <= j < k ==> !nullable_m(#[trigger] v[j].1),
    decreases v.len(),
{
    if v.len() > 0 {
        let d = v.drop_last();
        lemma_accepting_names_first(d);
        if exists|i: int| 0 <= i < d.len() && nullable_m(#[trigger] d[i].1) {
            let i = choose|i: int| 0 <= i < d.len() && nullable_m(#[trigger] d[i].1);
            assert(v[i] == d[i]);
            let k = choose|k: int|
                0 <= k < d.len() && nullable_m(#[trigger] d[k].1) && accepting_names(d)[0] == d[k].0
                    && forall|j: int| 0 <= j < k ==> !nullable_m(#[trigger] d[j].1);
            assert(v[k] == d[k]);
            assert forall|j: int| 0 <= j < k implies !nullable_m(#[trigger] v[j].1) by {
                assert(v[j] == d[j]);
            }
        } else {
            assert forall|j: int| 0 <= j < v.len() - 1 implies !nullable_m(#[trigger] v[j].1) by {
                assert(v[j] == d[j]);
            }
            if exists|i: int| 0 <= i < v.len() && nullable_m(#[trigger] v[i].1) {
                let i = choose|i: int| 0 <= i < v.len() && nullable_m(#[trigger] v[i].1);
                assert(i == v.len() - 1);
            }
        }
    }
}

/// Every character of `w` is in `Σ`.
pub open spec fn in_sigma(w: Seq<char>) -> bool {
    forall|k: int| 0 <= k < w.len() ==> sigma_set().contains((#[trigger] w[k]) as int)
}

} // verus!
