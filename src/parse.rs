//! The concrete syntax of regular expressions.
//!
//! Characters stand for themselves except the metacharacters: `.` is any
//! character of `Σ`; `X*` and `X+` repeat; `(E)` groups; `[...]` is a class
//! of characters and ranges `c-d`, complemented within `Σ` after a leading
//! `^`; `\c` escapes (`\n` is a newline); `!E` complements. The braces of a
//! counted repetition `X{m,n}` are reserved and reported as an error.
use crate::expression::{
    cat_m, concatenate, in_pair, not_m, star_m, Regex, RegexModel,
};
use crate::range::code_of;
use crate::rangeset::sigma_set;
use crate::text::chars_of;
use vstd::prelude::*;

verus! {

/// The character that the escape `\c` stands for.
pub open spec fn escaped(c: char) -> char {
    if c == 'n' {
        '\n'
    } else {
        c
    }
}

/// The symbol set of one character.
pub open spec fn single(c: char) -> Set<int> {
    Set::<int>::empty().insert(c as int)
}

/// The characters of a list of ranges.
pub open spec fn pairs_set(pairs: Seq<(char, char)>) -> Set<int> {
    Set::new(|i: int| exists|k: int| 0 <= k < pairs.len() && #[trigger] in_pair(pairs[k], i))
}

/// A character of a class at `i`, maybe escaped, and the position after it.
pub open spec fn class_char(s: Seq<char>, i: int) -> Option<(char, int)> {
    if i < 0 || i >= s.len() {
        None
    } else if s[i] == '\\' {
        if i + 1 < s.len() {
            Some((escaped(s[i + 1]), i + 2))
        } else {
            None
        }
    } else {
        Some((s[i], i + 1))
    }
}

/// One item of a class at `i`, `c` or `c-d`, and the position after it; a
/// range that ends before it begins is refused.
pub open spec fn class_item(s: Seq<char>, i: int) -> Option<((char, char), int)> {
    match class_char(s, i) {
        None => None,
        Some((c, j)) => if j < s.len() && s[j] == '-' {
            match class_char(s, j + 1) {
                None => None,
                Some((e, k)) => if (e as int) < (c as int) {
                    None
                } else {
                    Some(((c, e), k))
                },
            }
        } else {
            Some(((c, c), j))
        },
    }
}

/// The items of a class from `i` on, after `acc`, up to the closing `]`,
/// whose position comes with them.
pub open spec fn class_items(s: Seq<char>, i: int, acc: Seq<(char, char)>) -> Option<
    (Seq<(char, char)>, int),
>
    decreases s.len() - i,
{
    match class_item(s, i) {
        None => None,
        Some((p, k)) => if k < s.len() && s[k] == ']' {
            Some((acc.push(p), k))
        } else if i < k <= s.len() {
            class_items(s, k, acc.push(p))
        } else {
            None
        },
    }
}

/// The element at `i` and the position after it.
pub open spec fn element_at(s: Seq<char>, i: int) -> Option<(RegexModel, int)>
    decreases s.len() - i, 0int,
{
    if i < 0 || i >= s.len() {
        None
    } else if s[i] == '[' {
        let inv = i + 1 < s.len() && s[i + 1] == '^';
        let j = if inv {
            i + 2
        } else {
            i + 1
        };
        match class_items(s, j, seq![]) {
            None => None,
            Some((pairs, k)) => {
                let r = RegexModel::Sym(pairs_set(pairs));
                Some(
                    (
                        if inv {
                            not_m(r)
                        } else {
                            r
                        },
                        k + 1,
                    ),
                )
            },
        }
    } else if s[i] == '(' {
        match one_at(s, i + 1) {
            None => None,
            Some((x, j)) => if i + 1 < j <= s.len() {
                group_rest(s, j, x)
            } else {
                None
            },
        }
    } else if s[i] == '!' {
        match element_at(s, i + 1) {
            None => None,
            Some((x, j)) => Some((not_m(x), j)),
        }
    } else if s[i] == '.' {
        Some((RegexModel::Sym(sigma_set()), i + 1))
    } else if s[i] == '\\' {
        if i + 1 < s.len() {
            Some((RegexModel::Sym(single(escaped(s[i + 1]))), i + 2))
        } else {
            None
        }
    } else {
        Some((RegexModel::Sym(single(s[i])), i + 1))
    }
}

/// The element at `i` with its optional suffix `*`, `+`, and the position
/// after them; a `{` there is refused.
pub open spec fn one_at(s: Seq<char>, i: int) -> Option<(RegexModel, int)>
    decreases s.len() - i, 1int,
{
    if i < 0 || i >= s.len() {
        None
    } else {
        match element_at(s, i) {
            None => None,
            Some((x, j)) => if j < s.len() && s[j] == '*' {
                Some((star_m(x), j + 1))
            } else if j < s.len() && s[j] == '+' {
                Some((cat_m(x, star_m(x)), j + 1))
            } else if j < s.len() && s[j] == '{' {
                None
            } else {
                Some((x, j))
            },
        }
    }
}

/// The rest of a group from `i`, after the elements read into `acc`, up to
/// and past the closing `)`.
pub open spec fn group_rest(s: Seq<char>, i: int, acc: RegexModel) -> Option<(RegexModel, int)>
    decreases s.len() - i, 2int,
{
    if i < 0 || i >= s.len() {
        None
    } else if s[i] == ')' {
        Some((acc, i + 1))
    } else {
        match one_at(s, i) {
            None => None,
            Some((x, j)) => if i < j <= s.len() {
                group_rest(s, j, cat_m(acc, x))
            } else {
                None
            },
        }
    }
}

/// The rest of the input from `i`, after the elements read into `acc`.
pub open spec fn rest_at(s: Seq<char>, i: int, acc: RegexModel) -> Option<RegexModel>
    decreases s.len() - i,
{
    if i < 0 || i >= s.len() {
        Some(acc)
    } else {
        match one_at(s, i) {
            None => None,
            Some((x, j)) => if i < j <= s.len() {
                rest_at(s, j, cat_m(acc, x))
            } else {
                None
            },
        }
    }
}

/// The expression that the text denotes, if it is well formed: one or more
/// elements, concatenated.
pub open spec fn regex_of(s: Seq<char>) -> Option<RegexModel> {
    match one_at(s, 0) {
        None => None,
        Some((x, j)) => if 0 < j <= s.len() {
            rest_at(s, j, x)
        } else {
            None
        },
    }
}

/// Parse a regular expression.
pub fn parse_regex(txt: &str) -> (r: Result<Regex, ParseError>)
    ensures
        match r {
            Ok(x) => regex_of(txt@) == Some(x@),
            Err(e) => regex_of(txt@) is None && e.index <= txt@.len(),
        },
{
    let mut p = Parser::new(txt);
    p.parse()
}

/// Where and why parsing failed.
#[derive(Debug)]
pub struct ParseError {
    pub message: String,
    pub index: usize,
}

/// A regex parser that takes one character at a time.
struct Parser {
    index: usize,
    iter: Vec<char>,
}

impl Parser {
    spec fn wf(&self) -> bool {
        self.index <= self.iter.len()
    }

    fn new(txt: &str) -> (r: Self)
        ensures
            r.iter@ == txt@,
            r.index == 0,
    {
        Parser { index: 0, iter: chars_of(txt) }
    }

    /// Parse the whole input: a sequence of elements, each with an optional
    /// repetition suffix.
    fn parse(&mut self) -> (r: Result<Regex, ParseError>)
        requires
            old(self).wf(),
            old(self).index == 0,
        ensures
            final(self).iter@ == old(self).iter@,
            match r {
                Ok(x) => regex_of(old(self).iter@) == Some(x@),
                Err(e) => regex_of(old(self).iter@) is None && e.index <= old(self).iter.len(),
            },
    {
        let ghost s = self.iter@;
        let mut expr = match self.parse_one() {
            Ok(e) => e,
            Err(e) => {
                return Err(e);
            },
        };
        while self.peek().is_some()
            invariant
                self.wf(),
                self.iter@ == s,
                s == old(self).iter@,
                self.index > 0,
                regex_of(s) == rest_at(s, self.index as int, expr@),
            decreases self.iter.len() - self.index,
        {
            let ghost i = self.index as int;
            match self.parse_one() {
                Ok(e) => {
                    expr = concatenate(expr, e);
                },
                Err(e) => {
                    return Err(e);
                },
            }
        }
        Ok(expr)
    }

    /// Parse an element and its optional repetition suffix.
    fn parse_one(&mut self) -> (r: Result<Regex, ParseError>)
        requires
            old(self).wf(),
        ensures
            final(self).wf(),
            final(self).iter@ == old(self).iter@,
            match r {
                Ok(x) => one_at(old(self).iter@, old(self).index as int) == Some(
                    (x@, final(self).index as int),
                ) && final(self).index > old(self).index,
                Err(e) => one_at(old(self).iter@, old(self).index as int) is None && e.index
                    <= old(self).iter.len(),
            },
        decreases old(self).iter.len() - old(self).index, 1int,
    {
        let expr = match self.parse_element() {
            Ok(e) => e,
            Err(e) => {
                return Err(e);
            },
        };
        self.postfix(expr)
    }

    /// Parse one element: a character class, a group, a complement, the
    /// wildcard, an escape or a literal.
    fn parse_element(&mut self) -> (r: Result<Regex, ParseError>)
        requires
            old(self).wf(),
        ensures
            final(self).wf(),
            final(self).iter@ == old(self).iter@,
            match r {
                Ok(x) => element_at(old(self).iter@, old(self).index as int) == Some(
                    (x@, final(self).index as int),
                ) && final(self).index > old(self).index,
                Err(e) => element_at(old(self).iter@, old(self).index as int) is None && e.index
                    <= old(self).iter.len(),
            },
        decreases old(self).iter.len() - old(self).index, 0int,
    {
        let ghost s = self.iter@;
        let ghost i0 = self.index as int;
        let c = match self.get_char() {
            Ok(c) => c,
            Err(e) => {
                return Err(e);
            },
        };
        if c == '[' {
            let inverted: bool = self.has_taken('^');
            let ghost j0 = self.index as int;
            let mut ranges: Vec<(char, char)> = Vec::new();
            loop
                invariant_except_break
                    class_items(s, j0, seq![]) == class_items(s, self.index as int, ranges@),
                invariant
                    self.wf(),
                    self.iter@ == s,
                    s == old(self).iter@,
                    self.index >= j0,
                    j0 > i0,
                    i0 == old(self).index,
                    0 <= i0 < s.len(),
                    s[i0] == '[',
                    j0 == (if i0 + 1 < s.len() && s[i0 + 1] == '^' {
                        i0 + 2
                    } else {
                        i0 + 1
                    }),
                    forall|k: int| 0 <= k < ranges.len() ==> (#[trigger] ranges@[k]).0 as int <= ranges@[k].1 as int,
                ensures
                    self.wf(),
                    self.iter@ == s,
                    s == old(self).iter@,
                    forall|k: int| 0 <= k < ranges.len() ==> (#[trigger] ranges@[k]).0 as int <= ranges@[k].1 as int,
                    class_items(s, j0, seq![]) == Some((ranges@, self.index as int)),
                    self.index < s.len() && s[self.index as int] == ']',
                decreases self.iter.len() - self.index,
            {
                let ghost i = self.index as int;
                let start = match self.get_escaped_char() {
                    Ok(c) => c,
                    Err(e) => {
                        proof {
                            assert(class_item(s, i) is None);
                            assert(class_items(s, i, ranges@) is None);
                        }
                        return Err(e);
                    },
                };
                let range: (char, char) = if self.peek() == Some('-') {
                    let _ = self.get_char();
                    let end = match self.get_escaped_char() {
                        Ok(c) => c,
                        Err(e) => {
                            proof {
                                assert(class_item(s, i) is None);
                                assert(class_items(s, i, ranges@) is None);
                            }
                            return Err(e);
                        },
                    };
                    if code_of(end) < code_of(start) {
                        proof {
                            assert(class_item(s, i) is None);
                            assert(class_items(s, i, ranges@) is None);
                        }
                        return Err(self.error("Range ends before it begins".to_string()));
                    }
                    (start, end)
                } else {
                    (start, start)
                };
                proof {
                    assert(class_item(s, i) == Some((range, self.index as int)));
                }
                ranges.push(range);
                if self.peek() == Some(']') {
                    break;
                }
            }
            match self.take(']') {
                Ok(()) => {},
                Err(e) => {
                    return Err(e);
                },
            }
            let regex = Regex::symbol_ranges(ranges);
            proof {
                assert(regex@ == RegexModel::Sym(pairs_set(ranges@)));
            }
            if inverted {
                Ok(regex.logical_not())
            } else {
                Ok(regex)
            }
        } else if c == '(' {
            let mut inner = match self.parse_one() {
                Ok(e) => e,
                Err(e) => {
                    return Err(e);
                },
            };
            while self.peek() != Some(')')
                invariant
                    self.wf(),
                    self.iter@ == s,
                    s == old(self).iter@,
                    self.index > i0 + 1,
                    i0 == old(self).index,
                    element_at(s, i0) == group_rest(s, self.index as int, inner@),
                decreases self.iter.len() - self.index,
            {
                match self.parse_one() {
                    Ok(e) => {
                        inner = concatenate(inner, e);
                    },
                    Err(e) => {
                        return Err(e);
                    },
                }
            }
            match self.take(')') {
                Ok(()) => {},
                Err(e) => {
                    return Err(e);
                },
            }
            Ok(inner)
        } else if c == '!' {
            match self.parse_element() {
                Ok(inner) => Ok(inner.logical_not()),
                Err(e) => Err(e),
            }
        } else if c == '.' {
            Ok(Regex::sigma())
        } else if c == '\\' {
            match self.get_char() {
                Ok(c) => Ok(Regex::symbol(Self::escape_it(c))),
                Err(e) => Err(e),
            }
        } else {
            Ok(Regex::symbol(c))
        }
    }

    /// Apply an optional repetition suffix to `expr`.
    fn postfix(&mut self, expr: Regex) -> (r: Result<Regex, ParseError>)
        requires
            old(self).wf(),
        ensures
            final(self).wf(),
            final(self).iter@ == old(self).iter@,
            match r {
                Ok(x) => {
                    let s = old(self).iter@;
                    let j = old(self).index as int;
                    &&& final(self).index >= old(self).index
                    &&& if j < s.len() && s[j] == '*' {
                        x@ == star_m(expr@) && final(self).index == j + 1
                    } else if j < s.len() && s[j] == '+' {
                        x@ == cat_m(expr@, star_m(expr@)) && final(self).index == j + 1
                    } else {
                        !(j < s.len() && s[j] == '{') && x@ == expr@ && final(self).index == j
                    }
                },
                Err(e) => {
                    let s = old(self).iter@;
                    let j = old(self).index as int;
                    j < s.len() && s[j] == '{' && e.index <= s.len()
                },
            },
    {
        match self.peek() {
            Some('*') => {
                let _ = self.get_char();
                Ok(expr.kleene())
            },
            Some('+') => {
                let _ = self.get_char();
                Ok(expr.one_or_more())
            },
            Some('{') => Err(self.error("Repetition with braces is not supported".to_string())),
            _ => Ok(expr),
        }
    }

    /// The character that an escape stands for.
    fn escape_it(c: char) -> (r: char)
        ensures
            r == escaped(c),
    {
        if c == 'n' {
            '\n'
        } else {
            c
        }
    }

    /// Take one character, resolving an escape.
    fn get_escaped_char(&mut self) -> (r: Result<char, ParseError>)
        requires
            old(self).wf(),
        ensures
            final(self).wf(),
            final(self).iter@ == old(self).iter@,
            match r {
                Ok(c) => class_char(old(self).iter@, old(self).index as int) == Some(
                    (c, final(self).index as int),
                ),
                Err(e) => class_char(old(self).iter@, old(self).index as int) is None && e.index
                    <= old(self).iter.len(),
            },
    {
        let c = match self.get_char() {
            Ok(c) => c,
            Err(e) => {
                return Err(e);
            },
        };
        if c == '\\' {
            match self.get_char() {
                Ok(c) => Ok(Self::escape_it(c)),
                Err(e) => Err(e),
            }
        } else {
            Ok(c)
        }
    }

    /// The next character, if any, without taking it.
    fn peek(&self) -> (r: Option<char>)
        requires
            self.wf(),
        ensures
            r == (if self.index < self.iter.len() {
                Some(self.iter@[self.index as int])
            } else {
                None::<char>
            }),
    {
        if self.index < self.iter.len() {
            Some(self.iter[self.index])
        } else {
            None
        }
    }

    /// Take the next character if it is `c`.
    fn has_taken(&mut self, c: char) -> (r: bool)
        requires
            old(self).wf(),
        ensures
            final(self).wf(),
            final(self).iter@ == old(self).iter@,
            r == (old(self).index < old(self).iter.len() && old(self).iter@[old(self).index as int]
                == c),
            final(self).index == old(self).index + (if r {
                1int
            } else {
                0int
            }),
    {
        if self.peek() == Some(c) {
            self.index += 1;
            true
        } else {
            false
        }
    }

    /// Take the next character.
    fn get_char(&mut self) -> (r: Result<char, ParseError>)
        requires
            old(self).wf(),
        ensures
            final(self).wf(),
            final(self).iter@ == old(self).iter@,
            match r {
                Ok(c) => old(self).index < old(self).iter.len() && c == old(self).iter@[old(
                    self,
                ).index as int] && final(self).index == old(self).index + 1,
                Err(e) => old(self).index == old(self).iter.len() && e.index == old(self).index
                    && final(self).index == old(self).index,
            },
    {
        if self.index < self.iter.len() {
            let c = self.iter[self.index];
            self.index += 1;
            Ok(c)
        } else {
            Err(self.error("Expected character".to_string()))
        }
    }

    /// Take the next character, which must be `expected_c`.
    fn take(&mut self, expected_c: char) -> (r: Result<(), ParseError>)
        requires
            old(self).wf(),
        ensures
            final(self).wf(),
            final(self).iter@ == old(self).iter@,
            match r {
                Ok(()) => old(self).index < old(self).iter.len() && old(self).iter@[old(
                    self,
                ).index as int] == expected_c && final(self).index == old(self).index + 1,
                Err(e) => !(old(self).index < old(self).iter.len() && old(self).iter@[old(
                    self,
                ).index as int] == expected_c) && e.index <= old(self).iter.len(),
            },
    {
        let c = match self.get_char() {
            Ok(c) => c,
            Err(e) => {
                return Err(e);
            },
        };
        if c == expected_c {
            Ok(())
        } else {
            Err(self.error("Unexpected character".to_string()))
        }
    }

    /// An error at the current position.
    fn error(&self, message: String) -> (r: ParseError)
        requires
            self.wf(),
        ensures
            r.index == self.index,
            r.message@ == message@,
    {
        ParseError { message, index: self.index }
    }
}

} // verus!
