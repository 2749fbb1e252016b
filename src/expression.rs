//! Regular expressions over character sets, with the smart constructors that
//! keep them in normal form, nullability, derivatives and character classes.
use crate::partition::{is_partition, lemma_product_partition, refines, within_some, in_some_block};
use crate::range::{is_scalar, Range};
use crate::rangeset::{ranges_label, sigma_set, RangeSet};
use crate::text::{append, push_char};
use vstd::prelude::*;

verus! {

/// A set of characters.
pub type CharSet = RangeSet;

/// The mathematical value of a regular expression: its symbol sets are sets
/// of character codes.
pub enum RegexModel {
    Eps,
    Sym(Set<int>),
    Star(Box<RegexModel>),
    Alt(Box<RegexModel>, Box<RegexModel>),
    Cat(Box<RegexModel>, Box<RegexModel>),
    And(Box<RegexModel>, Box<RegexModel>),
    Not(Box<RegexModel>),
}

/// The expression that matches nothing.
pub open spec fn null_m() -> RegexModel {
    RegexModel::Sym(Set::empty())
}

pub open spec fn is_null_m(r: RegexModel) -> bool {
    match r {
        RegexModel::Sym(s) => s == Set::<int>::empty(),
        _ => false,
    }
}

/// Union, normalised: `null | r = r | null = r`, and two symbol sets merge.
pub open spec fn alt_m(l: RegexModel, r: RegexModel) -> RegexModel {
    if is_null_m(l) {
        r
    } else if is_null_m(r) {
        l
    } else {
        match (l, r) {
            (RegexModel::Sym(a), RegexModel::Sym(b)) => RegexModel::Sym(a.union(b)),
            _ => RegexModel::Alt(Box::new(l), Box::new(r)),
        }
    }
}

/// Intersection, normalised: `null & r = r & null = null`.
pub open spec fn and_m(l: RegexModel, r: RegexModel) -> RegexModel {
    if is_null_m(l) {
        l
    } else if is_null_m(r) {
        r
    } else {
        RegexModel::And(Box::new(l), Box::new(r))
    }
}

/// Concatenation, normalised: null absorbs, the empty string is a unit.
pub open spec fn cat_m(l: RegexModel, r: RegexModel) -> RegexModel {
    if is_null_m(l) {
        l
    } else if is_null_m(r) {
        r
    } else if l is Eps {
        r
    } else if r is Eps {
        l
    } else {
        RegexModel::Cat(Box::new(l), Box::new(r))
    }
}

/// Kleene closure, normalised: the closure of the empty string is itself.
pub open spec fn star_m(r: RegexModel) -> RegexModel {
    if r is Eps {
        r
    } else {
        RegexModel::Star(Box::new(r))
    }
}

/// Complement, normalised: double complement cancels, and a symbol set is
/// complemented within `Σ`.
pub open spec fn not_m(r: RegexModel) -> RegexModel {
    match r {
        RegexModel::Not(x) => *x,
        RegexModel::Sym(s) => RegexModel::Sym(sigma_set().difference(s)),
        _ => RegexModel::Not(Box::new(r)),
    }
}

/// Whether the expression matches the empty string, by its structure.
pub open spec fn nullable_m(r: RegexModel) -> bool
    decreases r,
{
    match r {
        RegexModel::Eps => true,
        RegexModel::Sym(_) => false,
        RegexModel::Star(_) => true,
        RegexModel::Alt(l, r) => nullable_m(*l) || nullable_m(*r),
        RegexModel::Cat(l, r) => nullable_m(*l) && nullable_m(*r),
        RegexModel::And(l, r) => nullable_m(*l) && nullable_m(*r),
        RegexModel::Not(x) => !nullable_m(*x),
    }
}

/// The Brzozowski derivative with respect to `c`, built with the smart
/// constructors.
pub open spec fn deriv_m(r: RegexModel, c: char) -> RegexModel
    decreases r,
{
    match r {
        RegexModel::Eps => null_m(),
        RegexModel::Sym(s) => if s.contains(c as int) {
            RegexModel::Eps
        } else {
            null_m()
        },
        RegexModel::Star(x) => cat_m(deriv_m(*x, c), star_m(*x)),
        RegexModel::Alt(l, r) => alt_m(deriv_m(*l, c), deriv_m(*r, c)),
        RegexModel::And(l, r) => and_m(deriv_m(*l, c), deriv_m(*r, c)),
        RegexModel::Not(x) => not_m(deriv_m(*x, c)),
        RegexModel::Cat(l, r) => if nullable_m(*l) {
            alt_m(cat_m(deriv_m(*l, c), *r), deriv_m(*r, c))
        } else {
            cat_m(deriv_m(*l, c), *r)
        },
    }
}

/// The nonempty intersections of `p` with the sets of `q`, in order.
pub open spec fn row_m(p: Set<int>, q: Seq<Set<int>>) -> Seq<Set<int>>
    decreases q.len(),
{
    if q.len() == 0 {
        seq![]
    } else {
        let x = p.intersect(q.last());
        if x == Set::<int>::empty() {
            row_m(p, q.drop_last())
        } else {
            row_m(p, q.drop_last()).push(x)
        }
    }
}

/// The nonempty intersections of each set of `p` with each set of `q`, row by row.
pub open spec fn prod_m(p: Seq<Set<int>>, q: Seq<Set<int>>) -> Seq<Set<int>>
    decreases p.len(),
{
    if p.len() == 0 {
        seq![]
    } else {
        prod_m(p.drop_last(), q) + row_m(p.last(), q)
    }
}

/// The blocks `s ∩ Σ` and `Σ ∖ s` that are not empty.
pub open spec fn sym_classes_m(s: Set<int>) -> Seq<Set<int>> {
    let inside = s.intersect(sigma_set());
    let outside = sigma_set().difference(s);
    let a: Seq<Set<int>> = if inside == Set::<int>::empty() {
        seq![]
    } else {
        seq![inside]
    };
    if outside == Set::<int>::empty() {
        a
    } else {
        a.push(outside)
    }
}

/// The character classes of an expression: blocks of `Σ` on which the
/// derivative does not change.
pub open spec fn classes_m(r: RegexModel) -> Seq<Set<int>>
    decreases r,
{
    match r {
        RegexModel::Eps => seq![sigma_set()],
        RegexModel::Sym(s) => if s == Set::<int>::empty() {
            seq![sigma_set()]
        } else {
            sym_classes_m(s)
        },
        RegexModel::Star(x) => classes_m(*x),
        RegexModel::Not(x) => classes_m(*x),
        RegexModel::Alt(l, r) => prod_m(classes_m(*l), classes_m(*r)),
        RegexModel::And(l, r) => prod_m(classes_m(*l), classes_m(*r)),
        RegexModel::Cat(l, r) => if nullable_m(*l) {
            prod_m(classes_m(*l), classes_m(*r))
        } else {
            classes_m(*l)
        },
    }
}

/// The views of a sequence of character sets.
pub open spec fn set_views(v: Seq<CharSet>) -> Seq<Set<int>> {
    Seq::new(v.len(), |i: int| v[i]@)
}

/// A regular expression.
#[derive(Debug)]
pub enum Regex {
    /// The empty string.
    Epsilon,
    /// One character of a set; the empty set matches nothing.
    SymbolSet(CharSet),
    /// The Kleene closure.
    Kleene(Box<Regex>),
    /// Either arm.
    Alternation { left: Box<Regex>, right: Box<Regex> },
    /// Left followed by right.
    Concatenation { left: Box<Regex>, right: Box<Regex> },
    /// Both arms.
    LogicalAnd { left: Box<Regex>, right: Box<Regex> },
    /// The complement.
    LogicalNot(Box<Regex>),
}

impl View for Regex {
    type V = RegexModel;

    open spec fn view(&self) -> RegexModel
        decreases self,
    {
        match self {
            Regex::Epsilon => RegexModel::Eps,
            Regex::SymbolSet(s) => RegexModel::Sym(s@),
            Regex::Kleene(x) => RegexModel::Star(Box::new((**x)@)),
            Regex::Alternation { left, right } => RegexModel::Alt(
                Box::new((**left)@),
                Box::new((**right)@),
            ),
            Regex::Concatenation { left, right } => RegexModel::Cat(
                Box::new((**left)@),
                Box::new((**right)@),
            ),
            Regex::LogicalAnd { left, right } => RegexModel::And(
                Box::new((**left)@),
                Box::new((**right)@),
            ),
            Regex::LogicalNot(x) => RegexModel::Not(Box::new((**x)@)),
        }
    }
}

/// The alphabet `Σ`: printable ASCII and newline.
pub(crate) fn sigma() -> (r: CharSet)
    ensures
        r@ == sigma_set(),
{
    let r = CharSet::new2(' ', '~').union(CharSet::new('\n'));
    proof {
        assert(r@ =~= sigma_set());
    }
    r
}


impl Regex {
    /// A copy of the expression.
    pub fn copy(&self) -> (r: Regex)
        ensures
            r@ == self@,
        decreases self,
    {
        match self {
            Regex::Epsilon => Regex::Epsilon,
            Regex::SymbolSet(s) => Regex::SymbolSet(s.copy()),
            Regex::Kleene(x) => Regex::Kleene(Box::new(x.copy())),
            Regex::Alternation { left, right } => Regex::Alternation {
                left: Box::new(left.copy()),
                right: Box::new(right.copy()),
            },
            Regex::Concatenation { left, right } => Regex::Concatenation {
                left: Box::new(left.copy()),
                right: Box::new(right.copy()),
            },
            Regex::LogicalAnd { left, right } => Regex::LogicalAnd {
                left: Box::new(left.copy()),
                right: Box::new(right.copy()),
            },
            Regex::LogicalNot(x) => Regex::LogicalNot(Box::new(x.copy())),
        }
    }

    /// Apply the Kleene closure operator to this regex.
    pub fn kleene(self) -> (r: Self)
        ensures
            r@ == star_m(self@),
    {
        if self.is_epsilon() {
            self
        } else {
            Regex::Kleene(Box::new(self))
        }
    }

    /// Apply the `+` operator to this regex: `r r*`.
    pub fn one_or_more(self) -> (r: Self)
        ensures
            r@ == cat_m(self@, star_m(self@)),
    {
        let first = self.copy();
        concatenate(first, self.kleene())
    }

    /// Invert the regex.
    pub fn logical_not(self) -> (r: Self)
        ensures
            r@ == not_m(self@),
    {
        match self {
            Regex::LogicalNot(x) => *x,
            Regex::SymbolSet(s) => Regex::SymbolSet(sigma().difference(&s)),
            other => Regex::LogicalNot(Box::new(other)),
        }
    }

    /// The empty string.
    pub fn epsilon() -> (r: Self)
        ensures
            r@ == RegexModel::Eps,
    {
        Regex::Epsilon
    }

    /// An expression matching the given char.
    pub fn symbol(c: char) -> (r: Self)
        ensures
            r@ == RegexModel::Sym(Set::<int>::empty().insert(c as int)),
    {
        Regex::SymbolSet(CharSet::new(c))
    }

    /// An expression matching one char from `begin` to `end`.
    pub fn symbol_range(begin: char, end: char) -> (r: Self)
        requires
            begin as int <= end as int,
        ensures
            r@ == RegexModel::Sym(Set::new(|i: int| begin as int <= i <= end as int && is_scalar(i))),
    {
        Regex::SymbolSet(CharSet::new2(begin, end))
    }

    /// An expression matching one char from any of the ranges.
    pub fn symbol_ranges(ranges: Vec<(char, char)>) -> (r: Self)
        requires
            forall|k: int| 0 <= k < ranges.len() ==> (#[trigger] ranges@[k]).0 as int <= ranges@[k].1 as int,
        ensures
            r@ == RegexModel::Sym(
                Set::new(
                    |i: int|
                        exists|k: int|
                            0 <= k < ranges.len() && #[trigger] in_pair(ranges@[k], i),
                ),
            ),
    {
        let mut rs: Vec<Range<char>> = Vec::new();
        let mut k: usize = 0;
        while k < ranges.len()
            invariant
                0 <= k <= ranges.len(),
                rs.len() == k,
                forall|q: int| 0 <= q < ranges.len() ==> (#[trigger] ranges@[q]).0 as int <= ranges@[q].1 as int,
                forall|q: int|
                    0 <= q < k ==> (#[trigger] rs@[q]).begin == ranges@[q].0 && rs@[q].end
                        == ranges@[q].1,
            decreases ranges.len() - k,
        {
            let (a, b) = ranges[k];
            rs.push(Range::new(a, b));
            k += 1;
        }
        let set = CharSet::from_ranges(rs);
        proof {
            let target = Set::new(
                |i: int| exists|k: int| 0 <= k < ranges.len() && #[trigger] in_pair(ranges@[k], i),
            );
            assert forall|i: int| set@.contains(i) <==> target.contains(i) by {
                if set@.contains(i) {
                    let q = choose|q: int| 0 <= q < rs.len() && #[trigger] crate::rangeset::in_range(rs@[q], i);
                    assert(in_pair(ranges@[q], i));
                }
                if target.contains(i) {
                    let q = choose|q: int| 0 <= q < ranges.len() && #[trigger] in_pair(ranges@[q], i);
                    assert(crate::rangeset::in_range(rs@[q], i));
                }
            }
            assert(set@ =~= target);
        }
        Regex::SymbolSet(set)
    }

    /// The expression that matches nothing.
    pub fn null() -> (r: Self)
        ensures
            r@ == null_m(),
    {
        Regex::SymbolSet(CharSet::empty())
    }

    /// Any char of the alphabet.
    pub fn sigma() -> (r: Self)
        ensures
            r@ == RegexModel::Sym(sigma_set()),
    {
        Regex::SymbolSet(sigma())
    }

    /// Whether this regex is the empty string.
    pub fn is_epsilon(&self) -> (r: bool)
        ensures
            r == (self@ is Eps),
    {
        matches!(self, Regex::Epsilon)
    }

    /// Whether this regex is the null set.
    pub fn is_null(&self) -> (r: bool)
        ensures
            r == is_null_m(self@),
    {
        match self {
            Regex::SymbolSet(s) => s.is_empty(),
            _ => false,
        }
    }

    /// Whether this regex matches the empty string.
    pub fn is_nullable(&self) -> (r: bool)
        ensures
            r == nullable_m(self@),
        decreases self,
    {
        match self {
            Regex::Epsilon => true,
            Regex::Alternation { left, right } => left.is_nullable() || right.is_nullable(),
            Regex::LogicalAnd { left, right } => left.is_nullable() && right.is_nullable(),
            Regex::Concatenation { left, right } => left.is_nullable() && right.is_nullable(),
            Regex::Kleene(_) => true,
            Regex::SymbolSet(_) => false,
            Regex::LogicalNot(x) => !x.is_nullable(),
        }
    }

    /// The derivative of this regex with respect to `c`.
    pub fn derivative(&self, c: char) -> (r: Regex)
        ensures
            r@ == deriv_m(self@, c),
        decreases self,
    {
        match self {
            Regex::SymbolSet(s) => {
                if s.contains(c) {
                    Regex::epsilon()
                } else {
                    Regex::null()
                }
            },
            Regex::Epsilon => Regex::null(),
            Regex::Kleene(x) => concatenate(x.derivative(c), x.copy().kleene()),
            Regex::Alternation { left, right } => alternation(
                left.derivative(c),
                right.derivative(c),
            ),
            Regex::LogicalAnd { left, right } => logical_and(
                left.derivative(c),
                right.derivative(c),
            ),
            Regex::Concatenation { left, right } => {
                if left.is_nullable() {
                    alternation(
                        concatenate(left.derivative(c), right.copy()),
                        right.derivative(c),
                    )
                } else {
                    concatenate(left.derivative(c), right.copy())
                }
            },
            Regex::LogicalNot(x) => x.derivative(c).logical_not(),
        }
    }

    /// Whether two expressions are the same.
    pub fn equals(&self, other: &Regex) -> (r: bool)
        ensures
            r == (self@ == other@),
        decreases self,
    {
        match (self, other) {
            (Regex::Epsilon, Regex::Epsilon) => true,
            (Regex::SymbolSet(a), Regex::SymbolSet(b)) => a.equals(b),
            (Regex::Kleene(a), Regex::Kleene(b)) => a.equals(b),
            (Regex::LogicalNot(a), Regex::LogicalNot(b)) => a.equals(b),
            (
                Regex::Alternation { left: l1, right: r1 },
                Regex::Alternation { left: l2, right: r2 },
            ) => l1.equals(l2) && r1.equals(r2),
            (
                Regex::Concatenation { left: l1, right: r1 },
                Regex::Concatenation { left: l2, right: r2 },
            ) => l1.equals(l2) && r1.equals(r2),
            (
                Regex::LogicalAnd { left: l1, right: r1 },
                Regex::LogicalAnd { left: l2, right: r2 },
            ) => l1.equals(l2) && r1.equals(r2),
            _ => false,
        }
    }
}

/// Whether code `i` is a character of the pair's range.
pub open spec fn in_pair(p: (char, char), i: int) -> bool {
    p.0 as int <= i <= p.1 as int && is_scalar(i)
}

/// Alternation, the logical or.
pub fn alternation(left: Regex, right: Regex) -> (r: Regex)
    ensures
        r@ == alt_m(left@, right@),
{
    if left.is_null() {
        right
    } else if right.is_null() {
        left
    } else {
        match (left, right) {
            (Regex::SymbolSet(a), Regex::SymbolSet(b)) => Regex::SymbolSet(a.union(b)),
            (l, r) => Regex::Alternation { left: Box::new(l), right: Box::new(r) },
        }
    }
}

/// Intersection, the logical and.
pub fn logical_and(left: Regex, right: Regex) -> (r: Regex)
    ensures
        r@ == and_m(left@, right@),
{
    if left.is_null() {
        left
    } else if right.is_null() {
        right
    } else {
        Regex::LogicalAnd { left: Box::new(left), right: Box::new(right) }
    }
}

/// Concatenation.
pub fn concatenate(left: Regex, right: Regex) -> (r: Regex)
    ensures
        r@ == cat_m(left@, right@),
{
    if left.is_null() {
        left
    } else if right.is_null() {
        right
    } else if left.is_epsilon() {
        right
    } else if right.is_epsilon() {
        left
    } else {
        Regex::Concatenation { left: Box::new(left), right: Box::new(right) }
    }
}


proof fn lemma_set_views_push(v: Seq<CharSet>, x: CharSet)
    ensures
        set_views(v.push(x)) == set_views(v).push(x@),
{
    assert(set_views(v.push(x)) =~= set_views(v).push(x@));
}

/// The nonempty intersections of each set of `class1` with each set of
/// `class2`, row by row.
pub fn product_intersections(class1: Vec<CharSet>, class2: Vec<CharSet>) -> (r: Vec<CharSet>)
    ensures
        set_views(r@) == prod_m(set_views(class1@), set_views(class2@)),
{
    let ghost p = set_views(class1@);
    let ghost q = set_views(class2@);
    let mut out: Vec<CharSet> = Vec::new();
    let mut i: usize = 0;
    while i < class1.len()
        invariant
            0 <= i <= class1.len(),
            p == set_views(class1@),
            q == set_views(class2@),
            set_views(out@) == prod_m(p.take(i as int), q),
        decreases class1.len() - i,
    {
        let a = &class1[i];
        let mut j: usize = 0;
        while j < class2.len()
            invariant
                0 <= i < class1.len(),
                0 <= j <= class2.len(),
                p == set_views(class1@),
                q == set_views(class2@),
                *a == class1@[i as int],
                set_views(out@) == prod_m(p.take(i as int), q) + row_m(a@, q.take(j as int)),
            decreases class2.len() - j,
        {
            let x = a.intersection(&class2[j]);
            proof {
                let qt = q.take(j as int + 1);
                assert(qt.drop_last() =~= q.take(j as int));
                assert(qt.last() == class2@[j as int]@);
                lemma_set_views_push(out@, x);
            }
            if !x.is_empty() {
                out.push(x);
            }
            proof {
                let qt = q.take(j as int + 1);
                assert(row_m(a@, qt) == (if x@ == Set::<int>::empty() {
                    row_m(a@, q.take(j as int))
                } else {
                    row_m(a@, q.take(j as int)).push(x@)
                }));
                assert(set_views(out@) =~= prod_m(p.take(i as int), q) + row_m(a@, qt));
            }
            j += 1;
        }
        proof {
            let pt = p.take(i as int + 1);
            assert(pt.drop_last() =~= p.take(i as int));
            assert(pt.last() == a@);
            assert(q.take(j as int) =~= q);
        }
        i += 1;
    }
    proof {
        assert(p.take(i as int) =~= p);
    }
    out
}

impl Regex {
    /// The character classes of this regex: a partition of `Σ` into blocks
    /// on which the derivative does not change.
    pub fn character_classes(&self) -> (r: Vec<CharSet>)
        ensures
            set_views(r@) == classes_m(self@),
        decreases self,
    {
        match self {
            Regex::SymbolSet(s) => {
                if s.is_empty() {
                    let r = vec![sigma()];
                    proof {
                        assert(set_views(r@) =~= seq![sigma_set()]);
                    }
                    r
                } else {
                    let inside = s.intersection(&sigma());
                    let outside = sigma().difference(s);
                    let mut r: Vec<CharSet> = Vec::new();
                    proof {
                        assert(set_views(r@) =~= Seq::<Set<int>>::empty());
                    }
                    if !inside.is_empty() {
                        proof {
                            lemma_set_views_push(r@, inside);
                        }
                        r.push(inside);
                    }
                    if !outside.is_empty() {
                        proof {
                            lemma_set_views_push(r@, outside);
                        }
                        r.push(outside);
                    }
                    proof {
                        assert(set_views(r@) =~= sym_classes_m(s@));
                    }
                    r
                }
            },
            Regex::Kleene(x) => x.character_classes(),
            Regex::Epsilon => {
                let r = vec![sigma()];
                proof {
                    assert(set_views(r@) =~= seq![sigma_set()]);
                }
                r
            },
            Regex::LogicalAnd { left, right } => product_intersections(
                left.character_classes(),
                right.character_classes(),
            ),
            Regex::Alternation { left, right } => product_intersections(
                left.character_classes(),
                right.character_classes(),
            ),
            Regex::Concatenation { left, right } => {
                if left.is_nullable() {
                    product_intersections(left.character_classes(), right.character_classes())
                } else {
                    left.character_classes()
                }
            },
            Regex::LogicalNot(x) => x.character_classes(),
        }
    }
}

impl Clone for Regex {
    fn clone(&self) -> (r: Self)
        ensures
            r@ == self@,
    {
        self.copy()
    }
}

impl PartialEq for Regex {
    fn eq(&self, other: &Self) -> (r: bool) {
        self.equals(other)
    }
}

impl vstd::std_specs::cmp::PartialEqSpecImpl for Regex {
    open spec fn obeys_eq_spec() -> bool {
        true
    }

    open spec fn eq_spec(&self, other: &Regex) -> bool {
        self@ == other@
    }
}

impl Eq for Regex {}

/// The operator makes no promise of its own: call the named constructor
/// for a result with a contract.
impl vstd::std_specs::ops::BitOrSpecImpl for Regex {
    open spec fn obeys_bitor_spec() -> bool {
        false
    }

    open spec fn bitor_req(self, rhs: Regex) -> bool {
        true
    }

    open spec fn bitor_spec(self, rhs: Regex) -> Regex {
        rhs
    }
}

impl std::ops::BitOr for Regex {
    type Output = Self;

    fn bitor(self, rhs: Self) -> Self {
        alternation(self, rhs)
    }
}

/// The operator makes no promise of its own: call the named constructor
/// for a result with a contract.
impl vstd::std_specs::ops::AddSpecImpl for Regex {
    open spec fn obeys_add_spec() -> bool {
        false
    }

    open spec fn add_req(self, rhs: Regex) -> bool {
        true
    }

    open spec fn add_spec(self, rhs: Regex) -> Regex {
        rhs
    }
}

impl std::ops::Add for Regex {
    type Output = Self;

    fn add(self, rhs: Self) -> Self {
        concatenate(self, rhs)
    }
}

/// The operator makes no promise of its own: call the named constructor
/// for a result with a contract.
impl vstd::std_specs::ops::BitAndSpecImpl for Regex {
    open spec fn obeys_bitand_spec() -> bool {
        false
    }

    open spec fn bitand_req(self, rhs: Regex) -> bool {
        true
    }

    open spec fn bitand_spec(self, rhs: Regex) -> Regex {
        rhs
    }
}

impl std::ops::BitAnd for Regex {
    type Output = Self;

    fn bitand(self, rhs: Self) -> Self {
        logical_and(self, rhs)
    }
}


/// Any two characters of one block of `p` give `r` the same derivative.
pub open spec fn respects(p: Seq<Set<int>>, r: RegexModel) -> bool {
    forall|k: int, c1: char, c2: char|
        #![trigger p[k].contains(c1 as int), p[k].contains(c2 as int)]
        0 <= k < p.len() && p[k].contains(c1 as int) && p[k].contains(c2 as int) ==> deriv_m(r, c1)
            == deriv_m(r, c2)
}

pub proof fn lemma_respects_refined(w: Seq<Set<int>>, p: Seq<Set<int>>, r: RegexModel)
    requires
        respects(p, r),
        refines(w, p),
    ensures
        respects(w, r),
{
    assert forall|k: int, c1: char, c2: char|
        0 <= k < w.len() && w[k].contains(c1 as int) && w[k].contains(c2 as int) implies deriv_m(r, c1)
        == deriv_m(r, c2) by {
        assert(within_some(w[k], p));
        let i = choose|i: int| 0 <= i < p.len() && #[trigger] w[k].subset_of(p[i]);
        assert(p[i].contains(c1 as int) && p[i].contains(c2 as int));
    }
}

pub proof fn lemma_sigma_partition()
    ensures
        is_partition(seq![sigma_set()]),
{
    let p = seq![sigma_set()];
    assert(sigma_set().contains(0x20));
    assert forall|x: int| sigma_set().contains(x) implies in_some_block(p, x) by {
        assert(p[0].contains(x));
    }
}

/// Soundness of the character classes: they partition `Σ`, and two
/// characters of one block give the same derivative, structurally.
pub proof fn lemma_classes_sound(r: RegexModel)
    ensures
        is_partition(classes_m(r)),
        respects(classes_m(r), r),
    decreases r,
{
    match r {
        RegexModel::Eps => {
            lemma_sigma_partition();
        },
        RegexModel::Sym(s) => {
            if s == Set::<int>::empty() {
                lemma_sigma_partition();
            } else {
                let p = sym_classes_m(s);
                let inside = s.intersect(sigma_set());
                let outside = sigma_set().difference(s);
                assert forall|x: int| sigma_set().contains(x) implies in_some_block(p, x) by {
                    if s.contains(x) {
                        assert(inside.contains(x));
                        assert(p[0] == inside);
                    } else {
                        assert(outside.contains(x));
                        assert(p[p.len() - 1] == outside);
                    }
                }
                assert forall|a: int, b: int|
                    0 <= a < p.len() && 0 <= b < p.len() && a != b implies p[a].disjoint(p[b]) by {
                    assert(inside.disjoint(outside));
                }
            }
        },
        RegexModel::Star(x) => {
            lemma_classes_sound(*x);
        },
        RegexModel::Not(x) => {
            lemma_classes_sound(*x);
        },
        RegexModel::Alt(a, b) => {
            lemma_classes_sound(*a);
            lemma_classes_sound(*b);
            lemma_product_partition(classes_m(*a), classes_m(*b));
            lemma_respects_refined(classes_m(r), classes_m(*a), *a);
            lemma_respects_refined(classes_m(r), classes_m(*b), *b);
        },
        RegexModel::And(a, b) => {
            lemma_classes_sound(*a);
            lemma_classes_sound(*b);
            lemma_product_partition(classes_m(*a), classes_m(*b));
            lemma_respects_refined(classes_m(r), classes_m(*a), *a);
            lemma_respects_refined(classes_m(r), classes_m(*b), *b);
        },
        RegexModel::Cat(a, b) => {
            lemma_classes_sound(*a);
            lemma_classes_sound(*b);
            if nullable_m(*a) {
                lemma_product_partition(classes_m(*a), classes_m(*b));
                lemma_respects_refined(classes_m(r), classes_m(*a), *a);
                lemma_respects_refined(classes_m(r), classes_m(*b), *b);
            }
        },
    }
}

/// The complement of `r` is in normal form: no complement directly under a
/// complement or over a symbol set, and symbol sets within `Σ`.
pub open spec fn complement_normal(r: RegexModel) -> bool {
    match r {
        RegexModel::Not(x) => !(*x is Not) && !(*x is Sym),
        RegexModel::Sym(s) => s.subset_of(sigma_set()),
        _ => true,
    }
}

/// Laws of the smart constructors: the closure of the empty string is the
/// empty string, null absorbs concatenation on both sides, and double
/// complement cancels on expressions in normal form.
pub proof fn lemma_smart_constructor_laws(r: RegexModel)
    ensures
        star_m(RegexModel::Eps) == RegexModel::Eps,
        cat_m(null_m(), r) == null_m(),
        cat_m(r, null_m()) == null_m(),
        complement_normal(r) ==> not_m(not_m(r)) == r,
{
    if is_null_m(r) {
        assert(r == null_m());
    }
    if complement_normal(r) {
        match r {
            RegexModel::Sym(s) => {
                assert(sigma_set().difference(sigma_set().difference(s)) =~= s);
            },
            _ => {},
        }
    }
}

/// The printed form of an expression: `eps`, `[set]`, `(l|r)`, `(l.r)`,
/// `(l&r)`, `r*` and `!(r)`.
pub open spec fn regex_text(r: &Regex) -> Seq<char>
    decreases r,
{
    match r {
        Regex::Epsilon => seq!['e', 'p', 's'],
        Regex::SymbolSet(s) => seq!['['] + ranges_label(s.parts()) + seq![']'],
        Regex::Alternation { left, right } => seq!['('] + regex_text(&**left) + seq!['|']
            + regex_text(&**right) + seq![')'],
        Regex::Concatenation { left, right } => seq!['('] + regex_text(&**left) + seq!['.']
            + regex_text(&**right) + seq![')'],
        Regex::LogicalAnd { left, right } => seq!['('] + regex_text(&**left) + seq!['&']
            + regex_text(&**right) + seq![')'],
        Regex::Kleene(x) => regex_text(&**x) + seq!['*'],
        Regex::LogicalNot(x) => seq!['!', '('] + regex_text(&**x) + seq![')'],
    }
}

impl Regex {
    /// Appends the printed form of the expression to `out`.
    fn write_text(&self, out: &mut String)
        ensures
            final(out)@ == old(out)@ + regex_text(self),
        decreases self,
    {
        match self {
            Regex::Epsilon => {
                append(out, "eps");
                proof {
                    reveal_strlit("eps");
                    assert(seq!['e', 'p', 's'] =~= "eps"@);
                }
            },
            Regex::SymbolSet(s) => {
                push_char(out, '[');
                let l = s.label();
                append(out, l.as_str());
                push_char(out, ']');
            },
            Regex::Alternation { left, right } => {
                push_char(out, '(');
                left.write_text(out);
                push_char(out, '|');
                right.write_text(out);
                push_char(out, ')');
            },
            Regex::Concatenation { left, right } => {
                push_char(out, '(');
                left.write_text(out);
                push_char(out, '.');
                right.write_text(out);
                push_char(out, ')');
            },
            Regex::LogicalAnd { left, right } => {
                push_char(out, '(');
                left.write_text(out);
                push_char(out, '&');
                right.write_text(out);
                push_char(out, ')');
            },
            Regex::Kleene(x) => {
                x.write_text(out);
                push_char(out, '*');
            },
            Regex::LogicalNot(x) => {
                push_char(out, '!');
                push_char(out, '(');
                x.write_text(out);
                push_char(out, ')');
            },
        }
    }

    /// The printed form of the expression.
    pub fn label(&self) -> (r: String)
        ensures
            r@ == regex_text(self),
    {
        let mut out = String::new();
        self.write_text(&mut out);
        proof {
            assert(out@ =~= regex_text(self));
        }
        out
    }
}

} // verus!
