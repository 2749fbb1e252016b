//! Prioritised lists of named expressions, treated pointwise.
use crate::expression::{
    lemma_respects_refined, lemma_sigma_partition,
    classes_m, deriv_m, is_null_m, lemma_classes_sound, nullable_m, prod_m, product_intersections,
    respects, set_views, CharSet, Regex, RegexModel,
};
use crate::partition::{is_partition, lemma_product_partition};
use crate::rangeset::sigma_set;
use vstd::prelude::*;

verus! {

/// The value of an expression vector: names with their expressions.
pub type VectorModel = Seq<(Seq<char>, RegexModel)>;

/// The views of a sequence of strings.
pub open spec fn string_views(v: Seq<String>) -> Seq<Seq<char>> {
    Seq::new(v.len(), |i: int| v[i]@)
}

/// The derivative of every component with respect to `c`.
pub open spec fn deriv_vec(v: VectorModel, c: char) -> VectorModel {
    Seq::new(v.len(), |i: int| (v[i].0, deriv_m(v[i].1, c)))
}

/// The names whose expressions match the empty string, in declaration order.
pub open spec fn accepting_names(v: VectorModel) -> Seq<Seq<char>>
    decreases v.len(),
{
    if v.len() == 0 {
        seq![]
    } else if nullable_m(v.last().1) {
        accepting_names(v.drop_last()).push(v.last().0)
    } else {
        accepting_names(v.drop_last())
    }
}

/// Every component matches nothing.
pub open spec fn all_null(v: VectorModel) -> bool {
    forall|i: int| 0 <= i < v.len() ==> is_null_m(#[trigger] v[i].1)
}

/// The joint partition: the product of the classes of every component,
/// starting from `{Σ}`.
pub open spec fn classes_vec(v: VectorModel) -> Seq<Set<int>>
    decreases v.len(),
{
    if v.len() == 0 {
        seq![sigma_set()]
    } else {
        prod_m(classes_vec(v.drop_last()), classes_m(v.last().1))
    }
}

/// A vector of named regular expressions; the order is the priority.
#[derive(Debug)]
pub struct ExpressionVector {
    expressions: Vec<(String, Regex)>,
}

/// The view of a list of named expressions.
pub open spec fn pairs_view(v: Seq<(String, Regex)>) -> VectorModel {
    Seq::new(v.len(), |i: int| (v[i].0@, v[i].1@))
}

impl View for ExpressionVector {
    type V = VectorModel;

    closed spec fn view(&self) -> VectorModel {
        pairs_view(self.expressions@)
    }
}

impl ExpressionVector {
    pub fn new(expressions: Vec<(String, Regex)>) -> (r: Self)
        ensures
            r@ == pairs_view(expressions@),
    {
        ExpressionVector { expressions }
    }

    /// The names of the expressions, in order.
    pub fn names(&self) -> (r: Vec<String>)
        ensures
            r.len() == self@.len(),
            forall|i: int| 0 <= i < r.len() ==> (#[trigger] r@[i])@ == self@[i].0,
    {
        let mut out: Vec<String> = Vec::new();
        let mut i: usize = 0;
        while i < self.expressions.len()
            invariant
                0 <= i <= self.expressions.len(),
                out.len() == i,
                forall|k: int| 0 <= k < i ==> (#[trigger] out@[k])@ == self@[k].0,
            decreases self.expressions.len() - i,
        {
            out.push(self.expressions[i].0.clone());
            i += 1;
        }
        out
    }

    /// A copy of the vector.
    pub fn copy(&self) -> (r: Self)
        ensures
            r@ == self@,
    {
        let mut out: Vec<(String, Regex)> = Vec::new();
        let mut i: usize = 0;
        while i < self.expressions.len()
            invariant
                0 <= i <= self.expressions.len(),
                pairs_view(out@) =~= self@.take(i as int),
            decreases self.expressions.len() - i,
        {
            let (n, e) = &self.expressions[i];
            let ghost before = out@;
            out.push((n.clone(), e.copy()));
            proof {
                assert(pairs_view(out@) =~= pairs_view(before).push(self@[i as int]));
                assert(self@.take(i as int + 1) =~= self@.take(i as int).push(self@[i as int]));
            }
            i += 1;
        }
        proof {
            assert(self@.take(i as int) =~= self@);
        }
        ExpressionVector { expressions: out }
    }

    /// The derivative of every expression with respect to `c`.
    pub fn derivative(&self, c: char) -> (r: ExpressionVector)
        ensures
            r@ == deriv_vec(self@, c),
    {
        let mut out: Vec<(String, Regex)> = Vec::new();
        let mut i: usize = 0;
        while i < self.expressions.len()
            invariant
                0 <= i <= self.expressions.len(),
                pairs_view(out@) =~= deriv_vec(self@, c).take(i as int),
            decreases self.expressions.len() - i,
        {
            let (n, e) = &self.expressions[i];
            let ghost before = out@;
            out.push((n.clone(), e.derivative(c)));
            proof {
                let d = deriv_vec(self@, c);
                assert(pairs_view(out@) =~= pairs_view(before).push(d[i as int]));
                assert(d.take(i as int + 1) =~= d.take(i as int).push(d[i as int]));
            }
            i += 1;
        }
        proof {
            assert(deriv_vec(self@, c).take(i as int) =~= deriv_vec(self@, c));
        }
        ExpressionVector { expressions: out }
    }

    /// The names of the patterns that this vector accepts, in priority order.
    pub fn is_nullable(&self) -> (r: Vec<String>)
        ensures
            string_views(r@) == accepting_names(self@),
    {
        let mut out: Vec<String> = Vec::new();
        let mut i: usize = 0;
        while i < self.expressions.len()
            invariant
                0 <= i <= self.expressions.len(),
                string_views(out@) == accepting_names(self@.take(i as int)),
            decreases self.expressions.len() - i,
        {
            proof {
                assert(self@.take(i as int + 1).drop_last() =~= self@.take(i as int));
            }
            if self.expressions[i].1.is_nullable() {
                let ghost before = out@;
                out.push(self.expressions[i].0.clone());
                proof {
                    assert(string_views(out@) =~= string_views(before).push(self@[i as int].0));
                }
            }
            i += 1;
        }
        proof {
            assert(self@.take(i as int) =~= self@);
        }
        out
    }

    /// Whether every pattern is null.
    pub fn is_null(&self) -> (r: bool)
        ensures
            r == all_null(self@),
    {
        let mut i: usize = 0;
        while i < self.expressions.len()
            invariant
                0 <= i <= self.expressions.len(),
                forall|k: int| 0 <= k < i ==> is_null_m(#[trigger] self@[k].1),
            decreases self.expressions.len() - i,
        {
            if !self.expressions[i].1.is_null() {
                proof {
                    assert(!is_null_m(self@[i as int].1));
                }
                return false;
            }
            i += 1;
        }
        true
    }

    /// The joint character classes of all the expressions.
    pub fn character_classes(&self) -> (r: Vec<CharSet>)
        ensures
            set_views(r@) == classes_vec(self@),
    {
        let mut acc: Vec<CharSet> = vec![crate::expression::sigma()];
        proof {
            assert(set_views(acc@) =~= seq![sigma_set()]);
            assert(self@.take(0) =~= Seq::<(Seq<char>, RegexModel)>::empty());
        }
        let mut i: usize = 0;
        while i < self.expressions.len()
            invariant
                0 <= i <= self.expressions.len(),
                set_views(acc@) == classes_vec(self@.take(i as int)),
            decreases self.expressions.len() - i,
        {
            proof {
                assert(self@.take(i as int + 1).drop_last() =~= self@.take(i as int));
            }
            let classes = self.expressions[i].1.character_classes();
            acc = product_intersections(acc, classes);
            i += 1;
        }
        proof {
            assert(self@.take(i as int) =~= self@);
        }
        acc
    }

    /// Whether both vectors have the same names and expressions.
    pub fn equals(&self, other: &ExpressionVector) -> (r: bool)
        ensures
            r == (self@ == other@),
    {
        if self.expressions.len() != other.expressions.len() {
            proof {
                assert(self@.len() != other@.len());
            }
            return false;
        }
        let mut i: usize = 0;
        while i < self.expressions.len()
            invariant
                0 <= i <= self.expressions.len(),
                self.expressions.len() == other.expressions.len(),
                forall|k: int| 0 <= k < i ==> self@[k] == other@[k],
            decreases self.expressions.len() - i,
        {
            let (n1, e1) = &self.expressions[i];
            let (n2, e2) = &other.expressions[i];
            if !(*n1 == *n2) || !e1.equals(e2) {
                proof {
                    assert(self@[i as int] != other@[i as int]);
                }
                return false;
            }
            i += 1;
        }
        proof {
            assert(self@ =~= other@);
        }
        true
    }
}

/// The joint classes partition `Σ`, and each component's derivative is the
/// same for any two characters of one block.
pub proof fn lemma_classes_vec_sound(v: VectorModel)
    ensures
        is_partition(classes_vec(v)),
        forall|i: int| 0 <= i < v.len() ==> respects(classes_vec(v), #[trigger] v[i].1),
    decreases v.len(),
{
    if v.len() == 0 {
        lemma_sigma_partition();
    } else {
        let d = v.drop_last();
        lemma_classes_vec_sound(d);
        lemma_classes_sound(v.last().1);
        lemma_product_partition(classes_vec(d), classes_m(v.last().1));
        assert forall|i: int| 0 <= i < v.len() implies respects(classes_vec(v), #[trigger] v[i].1) by {
            if i < d.len() {
                assert(d[i] == v[i]);
                lemma_respects_refined(classes_vec(v), classes_vec(d), d[i].1);
            } else {
                lemma_respects_refined(classes_vec(v), classes_m(v.last().1), v.last().1);
            }
        }
    }
}

/// Two characters of one joint class give the same derivative of the vector.
pub proof fn lemma_same_block_same_derivative(v: VectorModel, k: int, c1: char, c2: char)
    requires
        0 <= k < classes_vec(v).len(),
        classes_vec(v)[k].contains(c1 as int),
        classes_vec(v)[k].contains(c2 as int),
    ensures
        deriv_vec(v, c1) == deriv_vec(v, c2),
{
    lemma_classes_vec_sound(v);
    assert forall|i: int| 0 <= i < v.len() implies deriv_m(v[i].1, c1) == deriv_m(v[i].1, c2) by {
        assert(respects(classes_vec(v), v[i].1));
    }
    assert(deriv_vec(v, c1) =~= deriv_vec(v, c2));
}

} // verus!
