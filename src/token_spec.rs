//! The token specification format: one `NAME : PATTERN` per line.
use crate::expression::{Regex, RegexModel};
use crate::parse::{parse_regex, regex_of};
use crate::vector::{pairs_view, ExpressionVector};
use crate::text::{append, chars_of, decimal, push_char, string_of};
use vstd::prelude::*;

verus! {

/// Why a token specification could not be read.
#[derive(Debug)]
pub enum SpecParseError {
    /// The specification could not be read; the text says why.
    Io(String),
    /// A line is malformed or its pattern does not parse.
    Other(String),
}

/// A named pattern.
#[derive(Debug)]
pub struct TokenSpec {
    pub name: String,
    pub pattern: Regex,
}

/// The characters with the Unicode `White_Space` property.
pub open spec fn is_white(c: char) -> bool {
    let i = c as int;
    (0x09 <= i <= 0x0D) || i == 0x20 || i == 0x85 || i == 0xA0 || i == 0x1680 || (0x2000 <= i
        <= 0x200A) || i == 0x2028 || i == 0x2029 || i == 0x202F || i == 0x205F || i == 0x3000
}

/// The first position from `i` below `to` that holds `c`, or `to`.
pub open spec fn first_from(s: Seq<char>, i: int, to: int, c: char) -> int
    decreases to - i,
{
    if i >= to {
        to
    } else if s[i] == c {
        i
    } else {
        first_from(s, i + 1, to, c)
    }
}

/// The first position from `i` below `to` that is not white space, or `to`.
pub open spec fn skip_white(s: Seq<char>, i: int, to: int) -> int
    decreases to - i,
{
    if i >= to {
        to
    } else if is_white(s[i]) {
        skip_white(s, i + 1, to)
    } else {
        i
    }
}

/// The end of `s[from..j]` without its trailing white space.
pub open spec fn back_white(s: Seq<char>, from: int, j: int) -> int
    decreases j - from,
{
    if j <= from {
        from
    } else if is_white(s[j - 1]) {
        back_white(s, from, j - 1)
    } else {
        j
    }
}

/// The named patterns that the lines of `s` from `start` on declare, or
/// none when a line is malformed or its pattern does not parse.
pub open spec fn entries_from(s: Seq<char>, start: int) -> Option<Seq<(Seq<char>, RegexModel)>>
    decreases s.len() - start,
{
    if start < 0 || start >= s.len() {
        Some(seq![])
    } else {
        let end = first_from(s, start, s.len() as int, '\n');
        let ls = skip_white(s, start, end);
        let le = back_white(s, ls, end);
        let rest = if start <= end < s.len() {
            entries_from(s, end + 1)
        } else {
            Some(seq![])
        };
        if ls == le || s[ls] == '#' {
            rest
        } else {
            let colon = first_from(s, ls, le, ':');
            if colon == le {
                None
            } else {
                let ns = skip_white(s, ls, colon);
                let ne = back_white(s, ns, colon);
                let ps = skip_white(s, colon + 1, le);
                let pe = back_white(s, ps, le);
                match regex_of(s.subrange(ps, pe)) {
                    None => None,
                    Some(p) => match rest {
                        None => None,
                        Some(t) => Some(seq![(s.subrange(ns, ne), p)] + t),
                    },
                }
            }
        }
    }
}

/// The views of token specifications.
pub open spec fn specs_view(v: Seq<TokenSpec>) -> Seq<(Seq<char>, RegexModel)> {
    Seq::new(v.len(), |i: int| (v[i].name@, v[i].pattern@))
}

/// Whether `c` is white space.
pub fn is_whitespace(c: char) -> (r: bool)
    ensures
        r == is_white(c),
{
    let i = crate::range::code_of(c);
    (0x09 <= i && i <= 0x0D) || i == 0x20 || i == 0x85 || i == 0xA0 || i == 0x1680 || (0x2000 <= i
        && i <= 0x200A) || i == 0x2028 || i == 0x2029 || i == 0x202F || i == 0x205F || i == 0x3000
}

/// The bounds of `chars[from..to]` without white space at either end.
pub fn trim_bounds(chars: &Vec<char>, from: usize, to: usize) -> (r: (usize, usize))
    requires
        from <= to <= chars.len(),
    ensures
        r.0 == skip_white(chars@, from as int, to as int),
        r.1 == back_white(chars@, r.0 as int, to as int),
        from <= r.0 <= r.1 <= to,
{
    let mut a = from;
    while a < to && is_whitespace(chars[a])
        invariant
            from <= a <= to,
            to <= chars.len(),
            skip_white(chars@, from as int, to as int) == skip_white(chars@, a as int, to as int),
        decreases to - a,
    {
        a += 1;
    }
    let mut b = to;
    while b > a && is_whitespace(chars[b - 1])
        invariant
            a <= b <= to,
            to <= chars.len(),
            back_white(chars@, a as int, to as int) == back_white(chars@, a as int, b as int),
        decreases b - a,
    {
        b -= 1;
    }
    (a, b)
}

/// Where the first character equal to `c` stands in `chars[from..to]`, if
/// there is one.
pub fn find_char(chars: &Vec<char>, from: usize, to: usize, c: char) -> (r: Option<usize>)
    requires
        from <= to <= chars.len(),
    ensures
        match r {
            Some(k) => k == first_from(chars@, from as int, to as int, c) && from <= k < to,
            None => first_from(chars@, from as int, to as int, c) == to,
        },
{
    let mut k = from;
    while k < to
        invariant
            from <= k <= to,
            to <= chars.len(),
            first_from(chars@, from as int, to as int, c) == first_from(chars@, k as int, to as int, c),
        decreases to - k,
    {
        if chars[k] == c {
            return Some(k);
        }
        k += 1;
    }
    None
}

/// Read a token specification from its text.
///
/// Each line is trimmed; empty lines and lines that start with `#` are
/// skipped; any other line must read `NAME : PATTERN`, split at the first
/// `:`, with both sides trimmed. The order of the lines is the priority.
pub fn parse_spec(text: &str) -> (r: Result<Vec<TokenSpec>, SpecParseError>)
    ensures
        match r {
            Ok(v) => entries_from(text@, 0) == Some(specs_view(v@)),
            Err(e) => e is Other && entries_from(text@, 0) is None,
        },
{
    let chars = chars_of(text);
    let ghost s = chars@;
    let mut specs: Vec<TokenSpec> = Vec::new();
    let mut start: usize = 0;
    let mut row: usize = 0;
    proof {
        assert(specs_view(specs@) + seq![] =~= seq![]);
        if let Some(t) = entries_from(s, 0) {
            assert(specs_view(specs@) + t =~= t);
        }
    }
    while start < chars.len()
        invariant
            s == chars@,
            s == text@,
            start <= chars.len(),
            row <= start,
            entries_from(s, 0) == (match entries_from(s, start as int) {
                None => None,
                Some(t) => Some(specs_view(specs@) + t),
            }),
        decreases chars.len() - start,
    {
        let end = match find_char(&chars, start, chars.len(), '\n') {
            Some(e) => e,
            None => chars.len(),
        };
        let (ls, le) = trim_bounds(&chars, start, end);
        let next = if end < chars.len() {
            end + 1
        } else {
            chars.len()
        };
        proof {
            assert((if start <= end < s.len() {
                entries_from(s, end + 1)
            } else {
                Some(seq![])
            }) == entries_from(s, next as int));
        }
        if ls < le && chars[ls] != '#' {
            match find_char(&chars, ls, le, ':') {
                Some(colon) => {
                    let (ns, ne) = trim_bounds(&chars, ls, colon);
                    let (ps, pe) = trim_bounds(&chars, colon + 1, le);
                    let name = string_of(&chars, ns, ne);
                    let pattern_text = string_of(&chars, ps, pe);
                    match parse_regex(pattern_text.as_str()) {
                        Ok(pattern) => {
                            let ghost before = specs@;
                            let ghost entry = (name@, pattern@);
                            specs.push(TokenSpec { name, pattern });
                            proof {
                                assert(specs_view(specs@) =~= specs_view(before).push(entry));
                                if let Some(t) = entries_from(s, next as int) {
                                    assert(specs_view(before) + (seq![entry] + t) =~= specs_view(
                                        specs@,
                                    ) + t);
                                }
                            }
                        },
                        Err(e) => {
                            let mut msg = decimal(row + 1);
                            push_char(&mut msg, ',');
                            let idx = decimal(e.index);
                            append(&mut msg, idx.as_str());
                            append(&mut msg, ": ");
                            append(&mut msg, e.message.as_str());
                            return Err(SpecParseError::Other(msg));
                        },
                    }
                },
                None => {
                    let mut msg = decimal(row + 1);
                    append(&mut msg, ": expected NAME : PATTERN");
                    return Err(SpecParseError::Other(msg));
                },
            }
        }
        start = next;
        row += 1;
    }
    proof {
        assert(specs_view(specs@) + seq![] =~= specs_view(specs@));
    }
    Ok(specs)
}

/// The expression vector of a specification: its names and patterns, in order.
pub fn spec_to_expression_vector(specs: Vec<TokenSpec>) -> (r: ExpressionVector)
    ensures
        r@.len() == specs.len(),
        forall|k: int|
            0 <= k < specs.len() ==> (#[trigger] r@[k]) == (specs@[k].name@, specs@[k].pattern@),
{
    let mut ev: Vec<(String, Regex)> = Vec::new();
    let mut i: usize = 0;
    let ghost orig = specs@;
    let mut rest = specs;
    proof {
        assert(rest@ =~= orig.skip(0));
        assert(orig.len() == rest.len());
    }
    while rest.len() > 0
        invariant
            i == ev.len(),
            i + rest.len() == orig.len(),
            rest@ == orig.skip(i as int),
            orig.len() <= usize::MAX,
            forall|k: int|
                0 <= k < i ==> (#[trigger] pairs_view(ev@)[k]) == (orig[k].name@, orig[k].pattern@),
        decreases rest.len(),
    {
        let ghost before = ev@;
        let spec = rest.remove(0);
        proof {
            assert(spec == orig[i as int]);
            assert(rest@ =~= orig.skip(i + 1));
        }
        ev.push((spec.name, spec.pattern));
        proof {
            assert forall|k: int| 0 <= k < i + 1 implies (#[trigger] pairs_view(ev@)[k]) == (
            orig[k].name@, orig[k].pattern@) by {
                if k < i {
                    assert(ev@[k] == before[k]);
                    assert(pairs_view(before)[k] == (orig[k].name@, orig[k].pattern@));
                } else {
                    assert(ev@[k].0@ == orig[k].name@);
                    assert(ev@[k].1@ == orig[k].pattern@);
                }
            }
        }
        i += 1;
    }
    ExpressionVector::new(ev)
}

} // verus!
