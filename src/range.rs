//! Closed ranges of values that sit on the integer line.
use vstd::prelude::*;

verus! {

/// The integers that are Unicode scalar values, that is the codes of `char`s.
pub open spec fn is_scalar(i: int) -> bool {
    (0 <= i < 0xD800) || (0xE000 <= i <= 0x10FFFF)
}

pub proof fn lemma_char_is_scalar(c: char)
    ensures
        is_scalar(c as int),
{
}

/// The code of a character.
pub fn code_of(c: char) -> (r: u32)
    ensures
        r as int == c as int,
        is_scalar(r as int),
{
    c as u32
}

/// Relies on `char::from_u32`: it returns the character of a code exactly
/// when the code is a Unicode scalar value.
#[verifier::external_body]
pub(crate) fn char_from_code(code: u32) -> (r: Option<char>)
    ensures
        r.is_some() <==> is_scalar(code as int),
        r.is_some() ==> r.unwrap() as int == code as int,
{
    char::from_u32(code)
}


/// A value that has a position on the integer line, so that the values
/// between two of them can be counted and stepped through.
pub trait ItemsBetween: Sized {
    /// The position of this value.
    spec fn index_of(&self) -> int;

    /// Whether some value stands at position `i`.
    spec fn has_index(i: int) -> bool;

    /// Compares two values by position.
    fn at_most(&self, other: &Self) -> (r: bool)
        ensures
            r == (self.index_of() <= other.index_of()),
    ;

    /// Number of positions from `self` up to `other`, both included.
    fn items_between(&self, other: &Self) -> (r: usize)
        requires
            self.index_of() <= other.index_of(),
            other.index_of() - self.index_of() < usize::MAX,
        ensures
            r == other.index_of() - self.index_of() + 1,
    ;

    /// The value `index` positions above this one.
    fn add_index(&self, index: usize) -> (r: Self)
        requires
            Self::has_index(self.index_of() + index),
        ensures
            r.index_of() == self.index_of() + index,
    ;

    /// The value `index` positions below this one.
    fn sub_index(&self, index: usize) -> (r: Self)
        requires
            Self::has_index(self.index_of() - index),
        ensures
            r.index_of() == self.index_of() - index,
    ;
}

impl ItemsBetween for char {
    open spec fn index_of(&self) -> int {
        *self as int
    }

    open spec fn has_index(i: int) -> bool {
        is_scalar(i)
    }

    fn at_most(&self, other: &Self) -> (r: bool) {
        code_of(*self) <= code_of(*other)
    }

    fn items_between(&self, other: &Self) -> (r: usize) {
        let a = code_of(*self);
        let b = code_of(*other);
        (b + 1 - a) as usize
    }

    fn add_index(&self, index: usize) -> (r: Self) {
        let code = code_of(*self) + (index as u32);
        match char_from_code(code) {
            Some(c) => c,
            None => *self,
        }
    }

    fn sub_index(&self, index: usize) -> (r: Self) {
        let code = code_of(*self) - (index as u32);
        match char_from_code(code) {
            Some(c) => c,
            None => *self,
        }
    }
}

impl ItemsBetween for i32 {
    open spec fn index_of(&self) -> int {
        *self as int
    }

    open spec fn has_index(i: int) -> bool {
        i32::MIN <= i <= i32::MAX
    }

    fn at_most(&self, other: &Self) -> (r: bool) {
        *self <= *other
    }

    fn items_between(&self, other: &Self) -> (r: usize) {
        let d = (*other as i64) - (*self as i64) + 1;
        d as usize
    }

    fn add_index(&self, index: usize) -> (r: Self) {
        ((*self as i64) + (index as i64)) as i32
    }

    fn sub_index(&self, index: usize) -> (r: Self) {
        ((*self as i64) - (index as i64)) as i32
    }
}

/// The closed interval `[begin, end]`.
#[derive(Clone, Copy, Debug, PartialEq, Eq, Hash)]
pub struct Range<T> {
    pub begin: T,
    pub end: T,
}

impl<T: ItemsBetween> Range<T> {
    /// A range is well formed when it is not empty.
    pub open spec fn wf(&self) -> bool {
        self.begin.index_of() <= self.end.index_of()
    }

    /// Whether position `i` lies in the range.
    pub open spec fn has(&self, i: int) -> bool {
        self.begin.index_of() <= i <= self.end.index_of()
    }

    pub fn new(begin: T, end: T) -> (r: Self)
        requires
            begin.index_of() <= end.index_of(),
        ensures
            r.begin == begin,
            r.end == end,
            r.wf(),
    {
        Range { begin, end }
    }

    pub fn contains(&self, c: T) -> (r: bool)
        ensures
            r == self.has(c.index_of()),
    {
        self.begin.at_most(&c) && c.at_most(&self.end)
    }

    pub fn cardinality(&self) -> (r: usize)
        requires
            self.wf(),
            self.end.index_of() - self.begin.index_of() < usize::MAX,
        ensures
            r == self.end.index_of() - self.begin.index_of() + 1,
    {
        self.begin.items_between(&self.end)
    }

    /// Whether the two ranges share a position.
    pub fn overlaps(&self, other: &Self) -> (r: bool)
        ensures
            r == (self.begin.index_of() <= other.end.index_of() && other.begin.index_of()
                <= self.end.index_of()),
    {
        self.begin.at_most(&other.end) && other.begin.at_most(&self.end)
    }
}

} // verus!
