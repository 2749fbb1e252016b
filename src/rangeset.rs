//! Sets of characters, held as sorted, separated ranges of codes.
use crate::text::push_char;
use crate::range::{char_from_code, code_of, is_scalar, lemma_char_is_scalar, Range};
use vstd::prelude::*;
use vstd::set_lib::{lemma_int_range, lemma_set_disjoint_lens, set_int_range};

verus! {

/// The scalar value that follows code `i`.
pub open spec fn next_scalar(i: int) -> int {
    if i == 0xD7FF {
        0xE000
    } else {
        i + 1
    }
}

/// Whether code `i` is a character of the range.
pub open spec fn in_range(r: Range<char>, i: int) -> bool {
    r.begin as int <= i <= r.end as int && is_scalar(i)
}

/// Whether code `i` is a character of one of the ranges.
pub open spec fn covers(rs: Seq<Range<char>>, i: int) -> bool {
    exists|k: int| 0 <= k < rs.len() && #[trigger] in_range(rs[k], i)
}

/// The characters, by code, that the ranges hold.
pub open spec fn ranges_set(rs: Seq<Range<char>>) -> Set<int> {
    Set::new(|i: int| covers(rs, i))
}

/// Every range has its begin at or below its end.
pub open spec fn all_ordered(rs: Seq<Range<char>>) -> bool {
    forall|k: int| 0 <= k < rs.len() ==> (#[trigger] rs[k]).begin as int <= rs[k].end as int
}

/// Sorted by begin, which is all that gluing asks of its input.
pub open spec fn sorted_by_begin(rs: Seq<Range<char>>) -> bool {
    forall|a: int, b: int|
        #![trigger rs[a], rs[b]]
        0 <= a < b < rs.len() ==> rs[a].begin as int <= rs[b].begin as int
}

/// The canonical form: ordered ranges, each one separated from the next
/// by at least one character that neither holds.
pub open spec fn canonical(rs: Seq<Range<char>>) -> bool {
    &&& all_ordered(rs)
    &&& forall|a: int, b: int|
        #![trigger rs[a], rs[b]]
        0 <= a < b < rs.len() ==> next_scalar(rs[a].end as int) < rs[b].begin as int
}

/// Number of characters in a range.
pub open spec fn range_size(r: Range<char>) -> int {
    if r.begin as int <= 0xD7FF && r.end as int >= 0xE000 {
        r.end as int - r.begin as int + 1 - 0x800
    } else {
        r.end as int - r.begin as int + 1
    }
}

/// Sum of the sizes of the ranges.
pub open spec fn total_size(rs: Seq<Range<char>>) -> int
    decreases rs.len(),
{
    if rs.len() == 0 {
        0
    } else {
        total_size(rs.drop_last()) + range_size(rs.last())
    }
}

/// The printed form of ranges: `X` for a single character, `X-Y` for a
/// longer range, one after the other.
pub open spec fn ranges_label(rs: Seq<Range<char>>) -> Seq<char>
    decreases rs.len(),
{
    if rs.len() == 0 {
        seq![]
    } else {
        let r = rs.last();
        ranges_label(rs.drop_last()) + if r.begin == r.end {
            seq![r.begin]
        } else {
            seq![r.begin, '-', r.end]
        }
    }
}

/// Whether some entry of `out` has code `x`.
pub open spec fn listed(out: Seq<char>, x: int) -> bool {
    exists|k: int| 0 <= k < out.len() && #[trigger] out[k] as int == x
}

/// The characters of `Σ`: printable ASCII and newline.
pub open spec fn sigma_set() -> Set<int> {
    Set::new(|i: int| (0x20 <= i <= 0x7E) || i == 0x0A)
}

/// A set of characters, held as canonical ranges.
#[derive(Debug)]
pub struct RangeSet {
    ranges: Vec<Range<char>>,
}

impl View for RangeSet {
    type V = Set<int>;

    closed spec fn view(&self) -> Set<int> {
        ranges_set(self.ranges@)
    }
}

proof fn lemma_merge(a: Range<char>, b: Range<char>, e: char)
    requires
        a.begin as int <= a.end as int,
        b.begin as int <= b.end as int,
        a.begin as int <= b.begin as int <= next_scalar(a.end as int),
        e as int == if a.end as int >= b.end as int {
            a.end as int
        } else {
            b.end as int
        },
    ensures
        forall|i: int|
            in_range(Range { begin: a.begin, end: e }, i) <==> (in_range(a, i) || in_range(b, i)),
{
}

/// Whether `x` is among the first `n` entries of `s`.
pub open spec fn in_prefix(s: Seq<Range<char>>, n: int, x: Range<char>) -> bool {
    exists|j: int| 0 <= j < n && s[j] == x
}

proof fn lemma_sorted_insert(old_out: Seq<Range<char>>, k: int, x: Range<char>, v: Seq<Range<char>>, i: int)
    requires
        0 <= k <= old_out.len(),
        0 <= i < v.len(),
        v[i] == x,
        sorted_by_begin(old_out),
        forall|j: int| 0 <= j < k ==> (#[trigger] old_out[j]).begin as int <= x.begin as int,
        k < old_out.len() ==> old_out[k].begin as int > x.begin as int,
        forall|q: int| 0 <= q < old_out.len() ==> #[trigger] in_prefix(v, i, old_out[q]),
        forall|j: int| 0 <= j < i ==> old_out.contains(#[trigger] v[j]),
    ensures
        sorted_by_begin(old_out.insert(k, x)),
        forall|q: int|
            0 <= q < old_out.len() + 1 ==> #[trigger] in_prefix(v, i + 1, old_out.insert(k, x)[q]),
        forall|j: int| 0 <= j < i + 1 ==> old_out.insert(k, x).contains(#[trigger] v[j]),
{
    let out = old_out.insert(k, x);
    old_out.insert_ensures(k, x);
    assert forall|a: int, b: int| 0 <= a < b < out.len() implies out[a].begin as int
        <= out[b].begin as int by {
        if b < k {
        } else if b == k {
        } else if a < k {
            assert(out[b] == old_out[b - 1]);
        } else if a == k {
            assert(out[b] == old_out[b - 1]);
            assert(old_out[k].begin as int <= old_out[b - 1].begin as int);
        } else {
            assert(out[a] == old_out[a - 1]);
            assert(out[b] == old_out[b - 1]);
        }
    }
    assert forall|q: int| 0 <= q < out.len() implies #[trigger] in_prefix(v, i + 1, out[q]) by {
        if q < k {
            assert(in_prefix(v, i, old_out[q]));
        } else if q == k {
            assert(v[i] == out[q]);
        } else {
            assert(in_prefix(v, i, old_out[q - 1]));
        }
    }
    assert forall|j: int| 0 <= j < i + 1 implies out.contains(#[trigger] v[j]) by {
        if j == i {
            assert(out[k] == v[j]);
        } else {
            assert(old_out.contains(v[j]));
            let q = choose|q: int| 0 <= q < old_out.len() && old_out[q] == v[j];
            if q < k {
                assert(out[q] == v[j]);
            } else {
                assert(out[q + 1] == v[j]);
            }
        }
    }
}

/// Sorts ranges by their begin (insertion sort).
fn sort_by_begin(v: Vec<Range<char>>) -> (r: Vec<Range<char>>)
    ensures
        r.len() == v.len(),
        sorted_by_begin(r@),
        forall|k: int| 0 <= k < r.len() ==> #[trigger] in_prefix(v@, v.len() as int, r@[k]),
        forall|j: int| 0 <= j < v.len() ==> r@.contains(#[trigger] v@[j]),
{
    let mut out: Vec<Range<char>> = Vec::new();
    let mut i: usize = 0;
    while i < v.len()
        invariant
            0 <= i <= v.len(),
            out.len() == i,
            sorted_by_begin(out@),
            forall|k: int| 0 <= k < out.len() ==> #[trigger] in_prefix(v@, i as int, out@[k]),
            forall|j: int| 0 <= j < i ==> out@.contains(#[trigger] v@[j]),
        decreases v.len() - i,
    {
        let x = v[i];
        let mut k: usize = 0;
        while k < out.len() && code_of(out[k].begin) <= code_of(x.begin)
            invariant
                0 <= k <= out.len(),
                forall|j: int| 0 <= j < k ==> (#[trigger] out@[j]).begin as int <= x.begin as int,
            decreases out.len() - k,
        {
            k += 1;
        }
        proof {
            lemma_sorted_insert(out@, k as int, x, v@, i as int);
        }
        out.insert(k, x);
        i += 1;
    }
    out
}

/// Whether code `c` is a character of one of the first `n` ranges.
pub open spec fn covers_upto(rs: Seq<Range<char>>, n: int, c: int) -> bool {
    exists|k: int| 0 <= k < n && #[trigger] in_range(rs[k], c)
}

proof fn lemma_covers_push(s: Seq<Range<char>>, x: Range<char>)
    ensures
        forall|c: int| #[trigger] covers(s.push(x), c) <==> (covers(s, c) || in_range(x, c)),
{
    assert forall|c: int| #[trigger] covers(s.push(x), c) <==> (covers(s, c) || in_range(x, c)) by {
        if covers(s.push(x), c) {
            let k = choose|k: int| 0 <= k < s.len() + 1 && #[trigger] in_range(s.push(x)[k], c);
            if k < s.len() {
                assert(in_range(s[k], c));
            }
        }
        if covers(s, c) {
            let k = choose|k: int| 0 <= k < s.len() && #[trigger] in_range(s[k], c);
            assert(in_range(s.push(x)[k], c));
        }
        if in_range(x, c) {
            assert(in_range(s.push(x)[s.len() as int], c));
        }
    }
}

proof fn lemma_covers_upto_step(s: Seq<Range<char>>, n: int)
    requires
        0 <= n < s.len(),
    ensures
        forall|c: int|
            #[trigger] covers_upto(s, n + 1, c) <==> (covers_upto(s, n, c) || in_range(s[n], c)),
{
    assert forall|c: int| #[trigger]
        covers_upto(s, n + 1, c) <==> (covers_upto(s, n, c) || in_range(s[n], c)) by {
        if covers_upto(s, n + 1, c) {
            let k = choose|k: int| 0 <= k < n + 1 && #[trigger] in_range(s[k], c);
        }
    }
}

/// Glues sorted ranges that overlap or touch into canonical form.
fn glue_overlapping(rs: Vec<Range<char>>) -> (r: Vec<Range<char>>)
    requires
        all_ordered(rs@),
        sorted_by_begin(rs@),
    ensures
        canonical(r@),
        forall|c: int| #[trigger] covers(r@, c) <==> covers(rs@, c),
{
    if rs.len() == 0 {
        return rs;
    }
    let mut out: Vec<Range<char>> = Vec::new();
    let mut cur = rs[0];
    let mut i: usize = 1;
    proof {
        assert forall|c: int| #[trigger] covers_upto(rs@, 1, c) <==> in_range(cur, c) by {
            if in_range(cur, c) {
                assert(in_range(rs@[0], c));
            }
        }
    }
    while i < rs.len()
        invariant
            1 <= i <= rs.len(),
            canonical(out@),
            cur.begin as int <= cur.end as int,
            forall|k: int| 0 <= k < out.len() ==> next_scalar((#[trigger] out@[k]).end as int) < cur.begin as int,
            forall|j: int| i <= j < rs.len() ==> cur.begin as int <= (#[trigger] rs@[j]).begin as int,
            forall|c: int| #[trigger] covers_upto(rs@, i as int, c) <==> (covers(out@, c) || in_range(cur, c)),
            all_ordered(rs@),
            sorted_by_begin(rs@),
        decreases rs.len() - i,
    {
        let r2 = rs[i];
        let e = code_of(cur.end);
        let next: u32 = if e == 0xD7FF {
            0xE000
        } else {
            e + 1
        };
        proof {
            lemma_covers_upto_step(rs@, i as int);
            lemma_covers_push(out@, cur);
        }
        if code_of(r2.begin) > next {
            out.push(cur);
            cur = r2;
        } else {
            let new_end = if code_of(r2.end) > e {
                r2.end
            } else {
                cur.end
            };
            proof {
                lemma_merge(cur, r2, new_end);
            }
            cur = Range { begin: cur.begin, end: new_end };
        }
        i += 1;
    }
    proof {
        lemma_covers_push(out@, cur);
    }
    out.push(cur);
    proof {
        assert forall|c: int| #[trigger] covers(out@, c) <==> covers(rs@, c) by {
            assert(covers_upto(rs@, rs.len() as int, c) <==> covers(rs@, c));
        }
    }
    out
}

proof fn lemma_canonical_first_is_least(rs: Seq<Range<char>>, c: int)
    requires
        canonical(rs),
        covers(rs, c),
    ensures
        rs[0].begin as int <= c,
{
    let k = choose|k: int| 0 <= k < rs.len() && #[trigger] in_range(rs[k], c);
    if k > 0 {
        assert(next_scalar(rs[0].end as int) < rs[k].begin as int);
    }
}

proof fn lemma_total_size_bound(rs: Seq<Range<char>>)
    requires
        canonical(rs),
        rs.len() > 0,
    ensures
        0 <= total_size(rs) <= rs.last().end as int + 1,
    decreases rs.len(),
{
    let d = rs.drop_last();
    assert(total_size(rs) == total_size(d) + range_size(rs.last()));
    assert(rs[rs.len() - 1].begin as int <= rs[rs.len() - 1].end as int);
    lemma_char_is_scalar(rs.last().begin);
    lemma_char_is_scalar(rs.last().end);
    assert(0 <= range_size(rs.last()) <= rs.last().end as int - rs.last().begin as int + 1);
    if d.len() > 0 {
        assert forall|a: int, b: int| 0 <= a < b < d.len() implies next_scalar(d[a].end as int)
            < d[b].begin as int by {
            assert(d[a] == rs[a] && d[b] == rs[b]);
        }
        assert forall|k: int| 0 <= k < d.len() implies (#[trigger] d[k]).begin as int
            <= d[k].end as int by {
            assert(d[k] == rs[k]);
        }
        lemma_total_size_bound(d);
        assert(d.last() == rs[d.len() - 1]);
        assert(next_scalar(rs[d.len() - 1].end as int) < rs[d.len() as int].begin as int);
    } else {
        assert(total_size(d) == 0);
    }
}

proof fn lemma_canonical_unique(s1: Seq<Range<char>>, s2: Seq<Range<char>>)
    requires
        canonical(s1),
        canonical(s2),
        forall|c: int| covers(s1, c) <==> covers(s2, c),
    ensures
        s1 == s2,
    decreases s1.len() + s2.len(),
{
    if s1.len() == 0 || s2.len() == 0 {
        if s2.len() > 0 {
            lemma_char_is_scalar(s2[0].begin);
            assert(in_range(s2[0], s2[0].begin as int));
            assert(covers(s2, s2[0].begin as int));
        }
        if s1.len() > 0 {
            lemma_char_is_scalar(s1[0].begin);
            assert(in_range(s1[0], s1[0].begin as int));
            assert(covers(s1, s1[0].begin as int));
        }
        assert(s1 =~= s2);
    } else {
        let r1 = s1[0];
        let r2 = s2[0];
        lemma_char_is_scalar(r1.begin);
        lemma_char_is_scalar(r2.begin);
        lemma_char_is_scalar(r1.end);
        lemma_char_is_scalar(r2.end);
        assert(in_range(r1, r1.begin as int));
        assert(in_range(r2, r2.begin as int));
        lemma_canonical_first_is_least(s2, r1.begin as int);
        lemma_canonical_first_is_least(s1, r2.begin as int);
        if (r1.end as int) < (r2.end as int) {
            let n = next_scalar(r1.end as int);
            assert(in_range(r2, n));
            assert(covers(s2, n));
            let k = choose|k: int| 0 <= k < s1.len() && #[trigger] in_range(s1[k], n);
            if k > 0 {
                assert(next_scalar(s1[0].end as int) < s1[k].begin as int);
            }
        }
        if (r2.end as int) < (r1.end as int) {
            let n = next_scalar(r2.end as int);
            assert(in_range(r1, n));
            assert(covers(s1, n));
            let k = choose|k: int| 0 <= k < s2.len() && #[trigger] in_range(s2[k], n);
            if k > 0 {
                assert(next_scalar(s2[0].end as int) < s2[k].begin as int);
            }
        }
        assert(r1.begin as int == r2.begin as int);
        assert(r1.end as int == r2.end as int);
        assert(r1.begin == r2.begin);
        assert(r1.end == r2.end);
        let t1 = s1.drop_first();
        let t2 = s2.drop_first();
        assert forall|a: int, b: int| 0 <= a < b < t1.len() implies next_scalar(t1[a].end as int)
            < t1[b].begin as int by {
            assert(t1[a] == s1[a + 1] && t1[b] == s1[b + 1]);
        }
        assert forall|a: int, b: int| 0 <= a < b < t2.len() implies next_scalar(t2[a].end as int)
            < t2[b].begin as int by {
            assert(t2[a] == s2[a + 1] && t2[b] == s2[b + 1]);
        }
        assert forall|k: int| 0 <= k < t1.len() implies (#[trigger] t1[k]).begin as int
            <= t1[k].end as int by {
            assert(t1[k] == s1[k + 1]);
        }
        assert forall|k: int| 0 <= k < t2.len() implies (#[trigger] t2[k]).begin as int
            <= t2[k].end as int by {
            assert(t2[k] == s2[k + 1]);
        }
        assert forall|c: int| covers(t1, c) <==> covers(t2, c) by {
            if covers(t1, c) {
                let k = choose|k: int| 0 <= k < t1.len() && #[trigger] in_range(t1[k], c);
                assert(in_range(s1[k + 1], c));
                assert(next_scalar(s1[0].end as int) < s1[k + 1].begin as int);
                assert(covers(s1, c));
                assert(covers(s2, c));
                let q = choose|q: int| 0 <= q < s2.len() && #[trigger] in_range(s2[q], c);
                assert(q != 0);
                assert(in_range(t2[q - 1], c));
            }
            if covers(t2, c) {
                let k = choose|k: int| 0 <= k < t2.len() && #[trigger] in_range(t2[k], c);
                assert(in_range(s2[k + 1], c));
                assert(next_scalar(s2[0].end as int) < s2[k + 1].begin as int);
                assert(covers(s2, c));
                assert(covers(s1, c));
                let q = choose|q: int| 0 <= q < s1.len() && #[trigger] in_range(s1[q], c);
                assert(q != 0);
                assert(in_range(t1[q - 1], c));
            }
        }
        lemma_canonical_unique(t1, t2);
        assert(s1 =~= s2) by {
            assert forall|k: int| 0 <= k < s1.len() implies s1[k] == s2[k] by {
                if k > 0 {
                    assert(s1[k] == t1[k - 1]);
                    assert(s2[k] == t2[k - 1]);
                }
            }
        }
    }
}

impl PartialEq for RangeSet {
    fn eq(&self, other: &Self) -> (r: bool) {
        self.same_ranges(other)
    }
}

impl vstd::std_specs::cmp::PartialEqSpecImpl for RangeSet {
    open spec fn obeys_eq_spec() -> bool {
        true
    }

    open spec fn eq_spec(&self, other: &RangeSet) -> bool {
        self.parts() == other.parts()
    }
}

impl Clone for RangeSet {
    fn clone(&self) -> (r: Self)
        ensures
            r.parts() == self.parts(),
    {
        self.copy()
    }
}

impl Eq for RangeSet {}

/// The characters of one range.
pub open spec fn range_chars(r: Range<char>) -> Set<int> {
    Set::new(|i: int| in_range(r, i))
}

proof fn lemma_range_len(r: Range<char>)
    requires
        r.begin as int <= r.end as int,
    ensures
        range_chars(r).finite(),
        range_chars(r).len() == range_size(r),
{
    lemma_char_is_scalar(r.begin);
    lemma_char_is_scalar(r.end);
    let b = r.begin as int;
    let e = r.end as int;
    if b <= 0xD7FF && e >= 0xE000 {
        let lo = set_int_range(b, 0xD800);
        let hi = set_int_range(0xE000, e + 1);
        lemma_int_range(b, 0xD800);
        lemma_int_range(0xE000, e + 1);
        assert(range_chars(r) =~= lo + hi);
        assert(lo.disjoint(hi));
        lemma_set_disjoint_lens(lo, hi);
    } else {
        lemma_int_range(b, e + 1);
        assert(range_chars(r) =~= set_int_range(b, e + 1));
    }
}

/// The characters of canonical ranges are finitely many: as many as the
/// sum of the ranges' sizes.
proof fn lemma_ranges_len(rs: Seq<Range<char>>)
    requires
        canonical(rs),
    ensures
        ranges_set(rs).finite(),
        ranges_set(rs).len() == total_size(rs),
    decreases rs.len(),
{
    if rs.len() == 0 {
        assert(ranges_set(rs) =~= Set::<int>::empty());
    } else {
        let d = rs.drop_last();
        let last = rs.last();
        assert forall|a: int, b: int| 0 <= a < b < d.len() implies next_scalar(d[a].end as int)
            < d[b].begin as int by {
            assert(d[a] == rs[a] && d[b] == rs[b]);
        }
        assert forall|k: int| 0 <= k < d.len() implies (#[trigger] d[k]).begin as int
            <= d[k].end as int by {
            assert(d[k] == rs[k]);
        }
        lemma_ranges_len(d);
        assert(rs[rs.len() - 1].begin as int <= rs[rs.len() - 1].end as int);
        lemma_range_len(last);
        assert forall|i: int| ranges_set(rs).contains(i) <==> (ranges_set(d) + range_chars(last)).contains(i) by {
            if covers(rs, i) {
                let k = choose|k: int| 0 <= k < rs.len() && #[trigger] in_range(rs[k], i);
                if k < d.len() {
                    assert(in_range(d[k], i));
                }
            }
            if covers(d, i) {
                let k = choose|k: int| 0 <= k < d.len() && #[trigger] in_range(d[k], i);
                assert(in_range(rs[k], i));
            }
            if in_range(last, i) {
                assert(in_range(rs[rs.len() - 1], i));
            }
        }
        assert(ranges_set(rs) =~= ranges_set(d) + range_chars(last));
        assert forall|i: int| ranges_set(d).contains(i) implies !range_chars(last).contains(i) by {
            let k = choose|k: int| 0 <= k < d.len() && #[trigger] in_range(d[k], i);
            assert(next_scalar(rs[k].end as int) < rs[rs.len() - 1].begin as int);
            assert(d[k] == rs[k]);
        }
        assert(ranges_set(d).disjoint(range_chars(last)));
        lemma_set_disjoint_lens(ranges_set(d), range_chars(last));
    }
}

impl RangeSet {
    /// The set is in canonical form.
    #[verifier::type_invariant]
    pub closed spec fn wf(&self) -> bool {
        canonical(self.ranges@)
    }

    /// The sum of the sizes of the set's ranges.
    pub closed spec fn size(&self) -> int {
        total_size(self.ranges@)
    }

    /// The ranges that hold the set.
    pub closed spec fn parts(&self) -> Seq<Range<char>> {
        self.ranges@
    }

    /// The ranges of the set, sorted and separated.
    pub fn ranges(&self) -> (r: &Vec<Range<char>>)
        ensures
            r@ == self.parts(),
    {
        &self.ranges
    }

    /// Two canonical sets have the same ranges exactly when they hold the
    /// same characters.
    pub proof fn lemma_same_parts_iff_same_set(a: &Self, b: &Self)
        requires
            a.wf(),
            b.wf(),
        ensures
            (a.parts() == b.parts()) <==> (a@ == b@),
    {
        if a@ == b@ {
            assert forall|c: int| covers(a.ranges@, c) <==> covers(b.ranges@, c) by {
                assert(a@.contains(c) <==> b@.contains(c));
            }
            lemma_canonical_unique(a.ranges@, b.ranges@);
        }
    }

    /// The printed form of the set.
    pub fn label(&self) -> (r: String)
        ensures
            r@ == ranges_label(self.parts()),
    {
        let mut s = String::new();
        let mut i: usize = 0;
        while i < self.ranges.len()
            invariant
                0 <= i <= self.ranges.len(),
                s@ == ranges_label(self.ranges@.take(i as int)),
            decreases self.ranges.len() - i,
        {
            let r = self.ranges[i];
            proof {
                assert(self.ranges@.take(i + 1).drop_last() =~= self.ranges@.take(i as int));
            }
            push_char(&mut s, r.begin);
            if r.begin != r.end {
                push_char(&mut s, '-');
                push_char(&mut s, r.end);
            }
            proof {
                let t = self.ranges@.take(i as int);
                if r.begin == r.end {
                    assert(s@ =~= ranges_label(t) + seq![r.begin]);
                } else {
                    assert(s@ =~= ranges_label(t) + seq![r.begin, '-', r.end]);
                }
            }
            i += 1;
        }
        proof {
            assert(self.ranges@.take(i as int) =~= self.ranges@);
        }
        s
    }

    /// A set with the same ranges.
    pub fn copy(&self) -> (r: Self)
        ensures
            r.parts() == self.parts(),
            r@ == self@,
    {
        proof {
            use_type_invariant(self);
        }
        let mut out: Vec<Range<char>> = Vec::new();
        let mut i: usize = 0;
        while i < self.ranges.len()
            invariant
                0 <= i <= self.ranges.len(),
                out@ =~= self.ranges@.take(i as int),
            decreases self.ranges.len() - i,
        {
            out.push(self.ranges[i]);
            i += 1;
        }
        proof {
            assert(out@ =~= self.ranges@);
        }
        RangeSet { ranges: out }
    }

    /// Whether both sets have the same ranges.
    fn same_ranges(&self, other: &Self) -> (r: bool)
        ensures
            r == (self.parts() == other.parts()),
    {
        if self.ranges.len() != other.ranges.len() {
            return false;
        }
        let mut i: usize = 0;
        while i < self.ranges.len()
            invariant
                0 <= i <= self.ranges.len(),
                self.ranges.len() == other.ranges.len(),
                forall|k: int| 0 <= k < i ==> self.ranges@[k] == other.ranges@[k],
            decreases self.ranges.len() - i,
        {
            let x = self.ranges[i];
            let y = other.ranges[i];
            if code_of(x.begin) != code_of(y.begin) || code_of(x.end) != code_of(y.end) {
                return false;
            }
            i += 1;
        }
        assert(self.ranges@ =~= other.ranges@);
        true
    }

    /// Whether the two sets hold the same characters.
    pub fn equals(&self, other: &Self) -> (r: bool)
        ensures
            r == (self@ == other@),
    {
        proof {
            use_type_invariant(self);
            use_type_invariant(other);
        }
        proof {
            Self::lemma_same_parts_iff_same_set(self, other);
        }
        self.same_ranges(other)
    }

    /// Create a new set containing a single element.
    pub fn new(c: char) -> (r: Self)
        ensures
            r@ == Set::<int>::empty().insert(c as int),
    {
        let r = Self::from_ranges(vec![Range::new(c, c)]);
        proof {
            lemma_char_is_scalar(c);
            assert forall|i: int| r@.contains(i) <==> i == c as int by {
                if i == c as int {
                    assert(in_range(Range { begin: c, end: c }, i));
                    assert(seq![Range { begin: c, end: c }][0] == Range { begin: c, end: c });
                    assert(covers(seq![Range { begin: c, end: c }], i));
                }
            }
            assert(r@ =~= Set::<int>::empty().insert(c as int));
        }
        r
    }

    /// Create a new set containing the characters from `from` to `to`.
    pub fn new2(from: char, to: char) -> (r: Self)
        requires
            from as int <= to as int,
        ensures
            r@ == Set::new(|i: int| from as int <= i <= to as int && is_scalar(i)),
    {
        let r = Self::from_ranges(vec![Range::new(from, to)]);
        proof {
            let x = Range { begin: from, end: to };
            assert forall|i: int| r@.contains(i) <==> (from as int <= i <= to as int && is_scalar(i)) by {
                if from as int <= i <= to as int && is_scalar(i) {
                    assert(in_range(x, i));
                    assert(seq![x][0] == x);
                    assert(covers(seq![x], i));
                }
            }
            assert(r@ =~= Set::new(|i: int| from as int <= i <= to as int && is_scalar(i)));
        }
        r
    }

    /// Create a set from the given ranges: they are sorted and glued together.
    pub fn from_ranges(ranges: Vec<Range<char>>) -> (r: Self)
        requires
            all_ordered(ranges@),
        ensures
            r.wf(),
            r@ == ranges_set(ranges@),
    {
        let sorted = sort_by_begin(ranges);
        proof {
            assert forall|k: int| 0 <= k < sorted.len() implies (#[trigger] sorted@[k]).begin as int
                <= sorted@[k].end as int by {
                assert(in_prefix(ranges@, ranges.len() as int, sorted@[k]));
            }
            assert forall|c: int| #[trigger] covers(sorted@, c) <==> covers(ranges@, c) by {
                if covers(sorted@, c) {
                    let k = choose|k: int| 0 <= k < sorted.len() && #[trigger] in_range(sorted@[k], c);
                    assert(in_prefix(ranges@, ranges.len() as int, sorted@[k]));
                    let j = choose|j: int| 0 <= j < ranges.len() && ranges@[j] == sorted@[k];
                    assert(in_range(ranges@[j], c));
                }
                if covers(ranges@, c) {
                    let j = choose|j: int| 0 <= j < ranges.len() && #[trigger] in_range(ranges@[j], c);
                    assert(sorted@.contains(ranges@[j]));
                    let k = choose|k: int| 0 <= k < sorted.len() && sorted@[k] == ranges@[j];
                    assert(in_range(sorted@[k], c));
                }
            }
        }
        let glued = glue_overlapping(sorted);
        let r = RangeSet { ranges: glued };
        proof {
            use_type_invariant(&r);
            assert(r@ =~= ranges_set(ranges@));
        }
        r
    }

    /// Create the empty set.
    pub fn empty() -> (r: Self)
        ensures
            r@ == Set::<int>::empty(),
    {
        let r = RangeSet { ranges: Vec::new() };
        proof {
            assert(r@ =~= Set::<int>::empty());
        }
        r
    }

    /// Check if this set is empty.
    pub fn is_empty(&self) -> (r: bool)
        ensures
            r == (self@ == Set::<int>::empty()),
    {
        proof {
            use_type_invariant(self);
        }
        proof {
            if self.ranges.len() > 0 {
                let b = self.ranges@[0].begin;
                lemma_char_is_scalar(b);
                assert(in_range(self.ranges@[0], b as int));
                assert(self@.contains(b as int));
            } else {
                assert(self@ =~= Set::<int>::empty());
            }
        }
        self.ranges.len() == 0
    }

    /// Number of characters in the set: the sum of its ranges' sizes.
    pub fn cardinality(&self) -> (r: usize)
        ensures
            r == self.size(),
            self@.finite(),
            r == self@.len(),
    {
        proof {
            use_type_invariant(self);
            lemma_ranges_len(self.ranges@);
        }
        let mut s: usize = 0;
        let mut i: usize = 0;
        while i < self.ranges.len()
            invariant
                0 <= i <= self.ranges.len(),
                canonical(self.ranges@),
                s == total_size(self.ranges@.take(i as int)),
            decreases self.ranges.len() - i,
        {
            let r = self.ranges[i];
            let a = code_of(r.begin);
            let b = code_of(r.end);
            proof {
                let t = self.ranges@.take(i as int + 1);
                assert(t.drop_last() =~= self.ranges@.take(i as int));
                assert(canonical(t));
                lemma_total_size_bound(t);
            }
            let n = if a <= 0xD7FF && b >= 0xE000 {
                b - a + 1 - 0x800
            } else {
                b - a + 1
            };
            s = s + n as usize;
            i += 1;
        }
        proof {
            assert(self.ranges@.take(i as int) =~= self.ranges@);
        }
        s
    }

    /// The least character of the set.
    pub fn first(&self) -> (r: char)
        requires
            self@ != Set::<int>::empty(),
        ensures
            self@.contains(r as int),
            forall|i: int| self@.contains(i) ==> r as int <= i,
    {
        proof {
            use_type_invariant(self);
        }
        proof {
            if self.ranges.len() == 0 {
                assert(self@ =~= Set::<int>::empty());
            }
            lemma_char_is_scalar(self.ranges@[0].begin);
            assert(in_range(self.ranges@[0], self.ranges@[0].begin as int));
            assert forall|i: int| self@.contains(i) implies self.ranges@[0].begin as int <= i by {
                lemma_canonical_first_is_least(self.ranges@, i);
            }
        }
        self.ranges[0].begin
    }

    /// Whether the set holds `c`.
    pub fn contains(&self, c: char) -> (r: bool)
        ensures
            r == self@.contains(c as int),
    {
        let mut i: usize = 0;
        while i < self.ranges.len()
            invariant
                0 <= i <= self.ranges.len(),
                !covers_upto(self.ranges@, i as int, c as int),
            decreases self.ranges.len() - i,
        {
            proof {
                lemma_covers_upto_step(self.ranges@, i as int);
            }
            if self.ranges[i].contains(c) {
                assert(in_range(self.ranges@[i as int], c as int));
                return true;
            }
            i += 1;
        }
        false
    }

    /// Union of this set with another set.
    pub fn union(&self, other: Self) -> (r: Self)
        ensures
            r.wf(),
            r@ == self@.union(other@),
    {
        proof {
            use_type_invariant(self);
            use_type_invariant(&other);
        }
        let mut all: Vec<Range<char>> = Vec::new();
        let mut i: usize = 0;
        while i < self.ranges.len()
            invariant
                0 <= i <= self.ranges.len(),
                all@ =~= self.ranges@.take(i as int),
            decreases self.ranges.len() - i,
        {
            all.push(self.ranges[i]);
            i += 1;
        }
        let ghost mine = all@;
        proof {
            assert(mine =~= self.ranges@);
        }
        let mut q: usize = 0;
        while q < other.ranges.len()
            invariant
                0 <= q <= other.ranges.len(),
                all@ =~= mine + other.ranges@.take(q as int),
            decreases other.ranges.len() - q,
        {
            all.push(other.ranges[q]);
            q += 1;
        }
        proof {
            assert(other.ranges@.take(q as int) =~= other.ranges@);
        }
        proof {
            assert forall|k: int| 0 <= k < all.len() implies (#[trigger] all@[k]).begin as int
                <= all@[k].end as int by {
                if k >= mine.len() {
                    assert(all@[k] == other.ranges@[k - mine.len()]);
                }
            }
            assert forall|c: int| #[trigger] covers(all@, c) <==> (covers(self.ranges@, c) || covers(other.ranges@, c)) by {
                if covers(all@, c) {
                    let k = choose|k: int| 0 <= k < all.len() && #[trigger] in_range(all@[k], c);
                    if k >= mine.len() {
                        assert(in_range(other.ranges@[k - mine.len()], c));
                    } else {
                        assert(in_range(self.ranges@[k], c));
                    }
                }
                if covers(self.ranges@, c) {
                    let k = choose|k: int| 0 <= k < mine.len() && #[trigger] in_range(self.ranges@[k], c);
                    assert(in_range(all@[k], c));
                }
                if covers(other.ranges@, c) {
                    let k = choose|k: int| 0 <= k < other.ranges.len() && #[trigger] in_range(other.ranges@[k], c);
                    assert(in_range(all@[k + mine.len()], c));
                }
            }
        }
        let r = Self::from_ranges(all);
        proof {
            assert(r@ =~= self@.union(other@));
        }
        r
    }

    /// Characters that are in both sets (a two-pointer merge).
    pub fn intersection(&self, other: &Self) -> (r: Self)
        ensures
            r.wf(),
            r@ == self@.intersect(other@),
    {
        proof {
            use_type_invariant(self);
            use_type_invariant(other);
        }
        let a = &self.ranges;
        let b = &other.ranges;
        let mut out: Vec<Range<char>> = Vec::new();
        let mut i: usize = 0;
        let mut j: usize = 0;
        while i < a.len() && j < b.len()
            invariant
                0 <= i <= a.len(),
                0 <= j <= b.len(),
                canonical(a@),
                canonical(b@),
                all_ordered(out@),
                forall|c: int| #[trigger]
                    covers(out@, c) <==> (covers(a@, c) && covers(b@, c) && (covers_upto(
                        a@,
                        i as int,
                        c,
                    ) || covers_upto(b@, j as int, c))),
            decreases a.len() - i + b.len() - j,
        {
            let x = a[i];
            let y = b[j];
            let begin = if code_of(x.begin) >= code_of(y.begin) {
                x.begin
            } else {
                y.begin
            };
            let end = if code_of(x.end) <= code_of(y.end) {
                x.end
            } else {
                y.end
            };
            let piece = Range { begin, end };
            let ghost old_out = out@;
            let pushed = code_of(begin) <= code_of(end);
            if pushed {
                out.push(piece);
            }
            let adv_i = code_of(x.end) <= code_of(end);
            let adv_j = code_of(y.end) <= code_of(end);
            proof {
                lemma_covers_push(old_out, piece);
                lemma_covers_upto_step(a@, i as int);
                lemma_covers_upto_step(b@, j as int);
                let i2 = if adv_i { i + 1 } else { i as int };
                let j2 = if adv_j { j + 1 } else { j as int };
                assert forall|c: int| #[trigger]
                    covers(out@, c) <==> (covers(a@, c) && covers(b@, c) && (covers_upto(a@, i2, c)
                        || covers_upto(b@, j2, c))) by {
                    if in_range(x, c) && in_range(y, c) {
                        assert(in_range(piece, c));
                        assert(covers(a@, c));
                        assert(covers(b@, c));
                    }
                    if covers(a@, c) && covers(b@, c) && !covers_upto(a@, i as int, c)
                        && !covers_upto(b@, j as int, c) {
                        let ka = choose|k: int| 0 <= k < a.len() && #[trigger] in_range(a@[k], c);
                        let kb = choose|k: int| 0 <= k < b.len() && #[trigger] in_range(b@[k], c);
                        if ka > i {
                            assert(next_scalar(a@[i as int].end as int) < a@[ka].begin as int);
                        }
                        if kb > j {
                            assert(next_scalar(b@[j as int].end as int) < b@[kb].begin as int);
                        }
                        if adv_i && !adv_j {
                            if covers_upto(a@, i2, c) {
                                assert(ka == i);
                            }
                        }
                        if adv_j && !adv_i {
                            if covers_upto(b@, j2, c) {
                                assert(kb == j);
                            }
                        }
                    }
                    if in_range(piece, c) && pushed {
                        assert(in_range(x, c));
                        assert(in_range(y, c));
                    }
                }
                assert forall|k: int| 0 <= k < out.len() implies (#[trigger] out@[k]).begin as int
                    <= out@[k].end as int by {
                    if k < old_out.len() {
                        assert(out@[k] == old_out[k]);
                    }
                }
            }
            if adv_i {
                i += 1;
            }
            if adv_j {
                j += 1;
            }
        }
        proof {
            assert forall|c: int| #[trigger] covers(out@, c) <==> (covers(a@, c) && covers(b@, c)) by {
                assert(covers_upto(a@, a.len() as int, c) <==> covers(a@, c));
                assert(covers_upto(b@, b.len() as int, c) <==> covers(b@, c));
            }
        }
        let r = Self::from_ranges(out);
        proof {
            assert(r@ =~= self@.intersect(other@));
        }
        r
    }

    /// Characters of this set that are not in the other set.
    pub fn difference(&self, other: &Self) -> (r: Self)
        ensures
            r.wf(),
            r@ == self@.difference(other@),
    {
        proof {
            use_type_invariant(self);
            use_type_invariant(other);
        }
        let a = &self.ranges;
        let b = &other.ranges;
        let mut out: Vec<Range<char>> = Vec::new();
        let mut i: usize = 0;
        let mut j: usize = 0;
        let mut cb: char = if a.len() > 0 {
            a[0].begin
        } else {
            ' '
        };
        let ghost mut lim: int = if a.len() > 0 {
            cb as int
        } else {
            0x110000
        };
        while i < a.len()
            invariant
                0 <= i <= a.len(),
                0 <= j <= b.len(),
                canonical(a@),
                canonical(b@),
                all_ordered(out@),
                i < a.len() ==> a@[i as int].begin as int <= cb as int <= a@[i as int].end as int,
                lim == (if i < a.len() {
                    cb as int
                } else {
                    0x110000
                }),
                forall|k: int| 0 <= k < j ==> lim > (#[trigger] b@[k]).end as int,
                forall|c: int| #[trigger]
                    covers(out@, c) <==> (covers(a@, c) && !covers(b@, c) && c < lim),
            decreases a.len() - i + b.len() - j,
        {
            let x = a[i];
            let ghost old_out = out@;
            proof {
                lemma_char_is_scalar(cb);
                lemma_char_is_scalar(x.end);
            }
            if j < b.len() && code_of(b[j].end) < code_of(cb) {
                j += 1;
            } else if j >= b.len() || code_of(x.end) < code_of(b[j].begin) {
                let piece = Range { begin: cb, end: x.end };
                out.push(piece);
                i += 1;
                if i < a.len() {
                    cb = a[i].begin;
                }
                proof {
                    lemma_covers_push(old_out, piece);
                    let old_lim = lim;
                    lim = if i < a.len() {
                        cb as int
                    } else {
                        0x110000
                    };
                    if i < a.len() {
                        assert(next_scalar(x.end as int) < a@[i as int].begin as int);
                    }
                    assert forall|c: int| #[trigger]
                        covers(out@, c) <==> (covers(a@, c) && !covers(b@, c) && c < lim) by {
                        if in_range(piece, c) {
                            assert(in_range(a@[i - 1], c));
                            if covers(b@, c) {
                                let k = choose|k: int| 0 <= k < b.len() && #[trigger] in_range(b@[k], c);
                                if k > j {
                                    assert(next_scalar(b@[j as int].end as int) < b@[k].begin as int);
                                }
                            }
                        }
                        if covers(a@, c) && !covers(b@, c) && c < lim && c >= old_lim {
                            let k = choose|k: int| 0 <= k < a.len() && #[trigger] in_range(a@[k], c);
                            if k > i - 1 {
                                assert(next_scalar(a@[i - 1].end as int) < a@[k].begin as int);
                            }
                            if k < i - 1 {
                                assert(next_scalar(a@[k].end as int) < a@[i - 1].begin as int);
                            }
                            assert(in_range(piece, c));
                        }
                    }
                    assert forall|k: int| 0 <= k < j implies lim > (#[trigger] b@[k]).end as int by {
                    }
                }
            } else {
                let y = b[j];
                proof {
                    lemma_char_is_scalar(y.begin);
                    lemma_char_is_scalar(y.end);
                }
                let before = code_of(cb) < code_of(y.begin);
                let yb = code_of(y.begin);
                let pred_code: u32 = if yb == 0xE000 {
                    0xD7FF
                } else if yb > 0 {
                    yb - 1
                } else {
                    0
                };
                let pred = match char_from_code(pred_code) {
                    Some(c) => c,
                    None => cb,
                };
                let left_piece = Range { begin: cb, end: pred };
                if before {
                    out.push(left_piece);
                }
                let ghost mid_out = out@;
                let ghost old_lim = lim;
                proof {
                    if before {
                        lemma_covers_push(old_out, left_piece);
                    }
                    assert forall|c: int| #[trigger] covers(mid_out, c) <==> (covers(old_out, c)
                        || (before && in_range(left_piece, c))) by {
                        if before {
                        } else {
                            assert(mid_out == old_out);
                        }
                    }
                    assert forall|c: int|
                        in_range(left_piece, c) && before ==> covers(a@, c) && !covers(b@, c) && c
                            < y.begin as int by {
                        if in_range(left_piece, c) && before {
                            assert(in_range(a@[i as int], c));
                            if covers(b@, c) {
                                let k = choose|k: int| 0 <= k < b.len() && #[trigger] in_range(b@[k], c);
                                if k > j {
                                    assert(next_scalar(b@[j as int].end as int) < b@[k].begin as int);
                                }
                            }
                        }
                    }
                    assert forall|c: int|
                        covers(a@, c) && !covers(b@, c) && cb as int <= c < y.begin as int && before
                            ==> in_range(left_piece, c) by {
                    }
                    assert forall|c: int|
                        covers(a@, c) && !covers(b@, c) && cb as int <= c ==> c < y.begin as int
                            || c > y.end as int by {
                        if covers(a@, c) && !covers(b@, c) && cb as int <= c && y.begin as int <= c
                            <= y.end as int {
                            assert(in_range(b@[j as int], c));
                        }
                    }
                }
                if code_of(x.end) > code_of(y.end) {
                    let ye = code_of(y.end);
                    let succ_code: u32 = if ye == 0xD7FF {
                        0xE000
                    } else {
                        ye + 1
                    };
                    cb = match char_from_code(succ_code) {
                        Some(c) => c,
                        None => cb,
                    };
                    j += 1;
                    proof {
                        lim = cb as int;
                        assert forall|c: int| #[trigger]
                            covers(out@, c) <==> (covers(a@, c) && !covers(b@, c) && c < lim) by {
                            if covers(a@, c) && !covers(b@, c) && c < lim && c >= old_lim {
                                assert(is_scalar(c));
                            }
                        }
                        assert forall|k: int| 0 <= k < j implies lim > (#[trigger] b@[k]).end as int by {
                        }
                    }
                } else {
                    i += 1;
                    if i < a.len() {
                        cb = a[i].begin;
                    }
                    proof {
                        lim = if i < a.len() {
                            cb as int
                        } else {
                            0x110000
                        };
                        if i < a.len() {
                            assert(next_scalar(x.end as int) < a@[i as int].begin as int);
                        }
                        assert forall|c: int| #[trigger]
                            covers(out@, c) <==> (covers(a@, c) && !covers(b@, c) && c < lim) by {
                            if covers(a@, c) && !covers(b@, c) && c < lim && c >= old_lim {
                                let k = choose|k: int| 0 <= k < a.len() && #[trigger] in_range(a@[k], c);
                                if k > i - 1 {
                                    assert(next_scalar(a@[i - 1].end as int) < a@[k].begin as int);
                                }
                                if k < i - 1 {
                                    assert(next_scalar(a@[k].end as int) < a@[i - 1].begin as int);
                                }
                            }
                        }
                        assert forall|k: int| 0 <= k < j implies lim > (#[trigger] b@[k]).end as int by {
                        }
                    }
                }
                proof {
                    assert forall|k: int| 0 <= k < out.len() implies (#[trigger] out@[k]).begin as int
                        <= out@[k].end as int by {
                        if k < old_out.len() {
                            assert(out@[k] == old_out[k]);
                        }
                    }
                }
            }
        }
        proof {
            assert forall|c: int| #[trigger] covers(out@, c) <==> (covers(a@, c) && !covers(b@, c)) by {
                if covers(a@, c) {
                    let k = choose|k: int| 0 <= k < a.len() && #[trigger] in_range(a@[k], c);
                }
            }
        }
        let r = Self::from_ranges(out);
        proof {
            assert(r@ =~= self@.difference(other@));
        }
        r
    }

    /// Characters that are in exactly one of the two sets.
    pub fn symmetric_difference(&self, other: &Self) -> (r: Self)
        ensures
            r.wf(),
            r@ == self@.difference(other@).union(other@.difference(self@)),
    {
        self.difference(other).union(other.difference(self))
    }

    /// Every character of the set, in ascending order.
    pub fn items(&self) -> (r: Vec<char>)
        ensures
            r.len() == self.size(),
            r.len() == self@.len(),
            forall|k: int| 0 <= k < r.len() ==> self@.contains((#[trigger] r@[k]) as int),
            forall|a: int, b: int|
                #![trigger r@[a], r@[b]]
                0 <= a < b < r.len() ==> (r@[a] as int) < (r@[b] as int),
            forall|x: int| self@.contains(x) ==> listed(r@, x),
    {
        proof {
            use_type_invariant(self);
            lemma_ranges_len(self.ranges@);
        }
        let rs = &self.ranges;
        let mut out: Vec<char> = Vec::new();
        let mut i: usize = 0;
        while i < rs.len()
            invariant
                0 <= i <= rs.len(),
                canonical(rs@),
                out.len() == total_size(rs@.take(i as int)),
                forall|k: int| 0 <= k < out.len() ==> covers(rs@, (#[trigger] out@[k]) as int),
                forall|a: int, b: int|
                    #![trigger out@[a], out@[b]]
                    0 <= a < b < out.len() ==> (out@[a] as int) < (out@[b] as int),
                i < rs.len() ==> forall|k: int| 0 <= k < out.len() ==> ((#[trigger] out@[k]) as int) < rs@[i as int].begin as int,
                forall|x: int| covers_upto(rs@, i as int, x) ==> listed(out@, x),
            decreases rs.len() - i,
        {
            let r = rs[i];
            let ghost base = out.len() as int;
            proof {
                let t = rs@.take(i as int + 1);
                assert(t.drop_last() =~= rs@.take(i as int));
                assert(canonical(t));
                lemma_total_size_bound(t);
                lemma_char_is_scalar(r.begin);
                lemma_char_is_scalar(r.end);
            }
            let mut c = r.begin;
            loop
                invariant_except_break
                    out.len() == base + range_size(Range { begin: r.begin, end: c }) - 1,
                    forall|k: int| 0 <= k < out.len() ==> ((#[trigger] out@[k]) as int) < c as int,
                invariant
                    0 <= i < rs.len(),
                    r == rs@[i as int],
                    canonical(rs@),
                    base == total_size(rs@.take(i as int)),
                    base + range_size(r) <= 0x110000,
                    r.begin as int <= c as int <= r.end as int,
                    forall|k: int| 0 <= k < out.len() ==> covers(rs@, (#[trigger] out@[k]) as int),
                    forall|a: int, b: int|
                        #![trigger out@[a], out@[b]]
                        0 <= a < b < out.len() ==> (out@[a] as int) < (out@[b] as int),
                    forall|x: int| covers_upto(rs@, i as int, x) ==> listed(out@, x),
                    forall|x: int| r.begin as int <= x < c as int && is_scalar(x) ==> listed(out@, x),
                ensures
                    out.len() == base + range_size(r),
                    forall|k: int| 0 <= k < out.len() ==> covers(rs@, (#[trigger] out@[k]) as int),
                    forall|a: int, b: int|
                        #![trigger out@[a], out@[b]]
                        0 <= a < b < out.len() ==> (out@[a] as int) < (out@[b] as int),
                    forall|k: int| 0 <= k < out.len() ==> ((#[trigger] out@[k]) as int) <= r.end as int,
                    forall|x: int| covers_upto(rs@, i as int, x) ==> listed(out@, x),
                    forall|x: int| in_range(r, x) ==> listed(out@, x),
                decreases r.end as int - c as int,
            {
                let ghost before = out@;
                proof {
                    lemma_char_is_scalar(c);
                    assert(in_range(rs@[i as int], c as int));
                }
                out.push(c);
                proof {
                    assert(out@[out.len() - 1] == c);
                    assert forall|k: int| 0 <= k < out.len() implies covers(rs@, (#[trigger] out@[k]) as int) by {
                        if k < before.len() {
                            assert(out@[k] == before[k]);
                        }
                    }
                    assert forall|x: int| covers_upto(rs@, i as int, x) implies listed(out@, x) by {
                        assert(listed(before, x));
                        let k = choose|k: int| 0 <= k < before.len() && #[trigger] before[k] as int == x;
                        assert(out@[k] == before[k]);
                    }
                    assert forall|x: int| r.begin as int <= x <= c as int && is_scalar(x) implies listed(out@, x) by {
                        if x < c as int {
                            let k = choose|k: int| 0 <= k < before.len() && #[trigger] before[k] as int == x;
                            assert(out@[k] == before[k]);
                        } else {
                            assert(out@[out.len() - 1] as int == x);
                        }
                    }
                }
                if code_of(c) == code_of(r.end) {
                    proof {
                        assert(c == r.end);
                    }
                    break;
                }
                let code = code_of(c);
                let next_code: u32 = if code == 0xD7FF {
                    0xE000
                } else {
                    code + 1
                };
                let ghost old_c = c;
                c = match char_from_code(next_code) {
                    Some(n) => n,
                    None => c,
                };
                proof {
                    assert(c as int == next_scalar(old_c as int));
                    assert forall|x: int| r.begin as int <= x < c as int && is_scalar(x) implies listed(out@, x) by {
                        assert(x <= old_c as int);
                    }
                }
            }
            proof {
                let t = rs@.take(i as int + 1);
                assert(t.drop_last() =~= rs@.take(i as int));
                assert(total_size(t) == total_size(rs@.take(i as int)) + range_size(r));
                assert forall|x: int| covers_upto(rs@, i + 1, x) implies listed(out@, x) by {
                    lemma_covers_upto_step(rs@, i as int);
                }
                if i + 1 < rs.len() {
                    assert(next_scalar(rs@[i as int].end as int) < rs@[i + 1].begin as int);
                }
            }
            i += 1;
        }
        proof {
            assert(rs@.take(i as int) =~= rs@);
            assert forall|x: int| self@.contains(x) implies listed(out@, x) by {
                assert(covers_upto(rs@, rs.len() as int, x));
            }
        }
        out
    }
}

} // verus!
