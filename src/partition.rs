//! Partitions of the alphabet into blocks, and their products.
use crate::expression::{prod_m, row_m};
use crate::rangeset::sigma_set;
use vstd::prelude::*;

verus! {

/// No two blocks share a character.
pub open spec fn pairwise_disjoint(p: Seq<Set<int>>) -> bool {
    forall|a: int, b: int|
        #![trigger p[a], p[b]]
        0 <= a < p.len() && 0 <= b < p.len() && a != b ==> p[a].disjoint(p[b])
}

/// Whether some block holds `x`.
pub open spec fn in_some_block(p: Seq<Set<int>>, x: int) -> bool {
    exists|k: int| 0 <= k < p.len() && #[trigger] p[k].contains(x)
}

/// Whether `s` lies within some block of `p`.
pub open spec fn within_some(s: Set<int>, p: Seq<Set<int>>) -> bool {
    exists|i: int| 0 <= i < p.len() && #[trigger] s.subset_of(p[i])
}

/// Whether every block of `r` lies within some block of `p`.
pub open spec fn refines(r: Seq<Set<int>>, p: Seq<Set<int>>) -> bool {
    forall|k: int| 0 <= k < r.len() ==> within_some(#[trigger] r[k], p)
}

/// A partition of `Σ`: nonempty blocks within `Σ`, pairwise disjoint, that
/// together hold all of `Σ`.
pub open spec fn is_partition(p: Seq<Set<int>>) -> bool {
    &&& forall|k: int|
        0 <= k < p.len() ==> #[trigger] p[k] != Set::<int>::empty() && p[k].subset_of(sigma_set())
    &&& pairwise_disjoint(p)
    &&& forall|x: int| sigma_set().contains(x) ==> in_some_block(p, x)
}

proof fn lemma_row(p: Set<int>, q: Seq<Set<int>>)
    requires
        pairwise_disjoint(q),
    ensures
        forall|k: int|
            0 <= k < row_m(p, q).len() ==> #[trigger] row_m(p, q)[k] != Set::<int>::empty()
                && row_m(p, q)[k].subset_of(p),
        refines(row_m(p, q), q),
        pairwise_disjoint(row_m(p, q)),
        forall|x: int| p.contains(x) && in_some_block(q, x) ==> in_some_block(row_m(p, q), x),
    decreases q.len(),
{
    if q.len() > 0 {
        let d = q.drop_last();
        assert forall|a: int, b: int| 0 <= a < d.len() && 0 <= b < d.len() && a != b implies d[a].disjoint(d[b]) by {
            assert(d[a] == q[a] && d[b] == q[b]);
        }
        lemma_row(p, d);
        let w0 = row_m(p, d);
        let w = row_m(p, q);
        let x = p.intersect(q.last());
        assert forall|k: int| 0 <= k < w.len() implies within_some(w[k], q) by {
            if k < w0.len() {
                assert(w[k] == w0[k]);
                let i = choose|i: int| 0 <= i < d.len() && #[trigger] w0[k].subset_of(d[i]);
                assert(d[i] == q[i]);
                assert(w[k].subset_of(q[i]));
            } else {
                assert(w[k] == x);
                assert(w[k].subset_of(q[q.len() - 1]));
            }
        }
        assert forall|a: int, b: int| 0 <= a < w.len() && 0 <= b < w.len() && a != b implies #[trigger] w[a].disjoint(
            w[b],
        ) by {
            if a < w0.len() && b < w0.len() {
                assert(w[a] == w0[a] && w[b] == w0[b]);
            } else if a < w0.len() {
                assert(w[a] == w0[a]);
                let i = choose|i: int| 0 <= i < d.len() && #[trigger] w0[a].subset_of(d[i]);
                assert(d[i] == q[i]);
                assert(q[i].disjoint(q[q.len() - 1]));
            } else {
                assert(w[b] == w0[b]);
                let i = choose|i: int| 0 <= i < d.len() && #[trigger] w0[b].subset_of(d[i]);
                assert(d[i] == q[i]);
                assert(q[i].disjoint(q[q.len() - 1]));
            }
        }
        assert forall|k: int| 0 <= k < w.len() implies #[trigger] w[k] != Set::<int>::empty()
            && w[k].subset_of(p) by {
            if k < w0.len() {
                assert(w[k] == w0[k]);
            }
        }
        assert forall|y: int| p.contains(y) && in_some_block(q, y) implies in_some_block(w, y) by {
            let j = choose|j: int| 0 <= j < q.len() && #[trigger] q[j].contains(y);
            if j < d.len() {
                assert(d[j] == q[j]);
                assert(in_some_block(d, y));
                let k = choose|k: int| 0 <= k < w0.len() && #[trigger] w0[k].contains(y);
                assert(w[k] == w0[k]);
            } else {
                assert(x.contains(y));
                assert(w[w.len() - 1] == x);
            }
        }
    }
}

proof fn lemma_prod(p: Seq<Set<int>>, q: Seq<Set<int>>)
    requires
        pairwise_disjoint(p),
        pairwise_disjoint(q),
    ensures
        forall|k: int| 0 <= k < prod_m(p, q).len() ==> #[trigger] prod_m(p, q)[k] != Set::<int>::empty(),
        refines(prod_m(p, q), p),
        refines(prod_m(p, q), q),
        pairwise_disjoint(prod_m(p, q)),
        forall|x: int| in_some_block(p, x) && in_some_block(q, x) ==> in_some_block(prod_m(p, q), x),
    decreases p.len(),
{
    if p.len() > 0 {
        let d = p.drop_last();
        assert forall|a: int, b: int| 0 <= a < d.len() && 0 <= b < d.len() && a != b implies d[a].disjoint(d[b]) by {
            assert(d[a] == p[a] && d[b] == p[b]);
        }
        lemma_prod(d, q);
        lemma_row(p.last(), q);
        let w0 = prod_m(d, q);
        let rw = row_m(p.last(), q);
        let w = prod_m(p, q);
        assert(w == w0 + rw);
        assert forall|k: int| 0 <= k < w.len() implies #[trigger] w[k] != Set::<int>::empty() by {
            if k < w0.len() {
                assert(w[k] == w0[k]);
            } else {
                assert(w[k] == rw[k - w0.len()]);
            }
        }
        assert forall|k: int| 0 <= k < w.len() implies within_some(w[k], p) by {
            if k < w0.len() {
                assert(w[k] == w0[k]);
                let i = choose|i: int| 0 <= i < d.len() && #[trigger] w0[k].subset_of(d[i]);
                assert(d[i] == p[i]);
                assert(w[k].subset_of(p[i]));
            } else {
                assert(w[k] == rw[k - w0.len()]);
                assert(w[k].subset_of(p[p.len() - 1]));
            }
        }
        assert forall|k: int| 0 <= k < w.len() implies within_some(w[k], q) by {
            if k < w0.len() {
                assert(w[k] == w0[k]);
                let i = choose|i: int| 0 <= i < q.len() && #[trigger] w0[k].subset_of(q[i]);
                assert(w[k].subset_of(q[i]));
            } else {
                assert(w[k] == rw[k - w0.len()]);
                let i = choose|i: int| 0 <= i < q.len() && #[trigger] rw[k - w0.len()].subset_of(q[i]);
                assert(w[k].subset_of(q[i]));
            }
        }
        assert forall|a: int, b: int| 0 <= a < w.len() && 0 <= b < w.len() && a != b implies #[trigger] w[a].disjoint(
            w[b],
        ) by {
            if a < w0.len() && b < w0.len() {
                assert(w[a] == w0[a] && w[b] == w0[b]);
            } else if a >= w0.len() && b >= w0.len() {
                assert(w[a] == rw[a - w0.len()] && w[b] == rw[b - w0.len()]);
            } else if a < w0.len() {
                assert(w[a] == w0[a]);
                assert(w[b] == rw[b - w0.len()]);
                let i = choose|i: int| 0 <= i < d.len() && #[trigger] w0[a].subset_of(d[i]);
                assert(d[i] == p[i]);
                assert(p[i].disjoint(p[p.len() - 1]));
            } else {
                assert(w[b] == w0[b]);
                assert(w[a] == rw[a - w0.len()]);
                let i = choose|i: int| 0 <= i < d.len() && #[trigger] w0[b].subset_of(d[i]);
                assert(d[i] == p[i]);
                assert(p[i].disjoint(p[p.len() - 1]));
            }
        }
        assert forall|y: int| in_some_block(p, y) && in_some_block(q, y) implies in_some_block(w, y) by {
            let i = choose|i: int| 0 <= i < p.len() && #[trigger] p[i].contains(y);
            if i < d.len() {
                assert(d[i] == p[i]);
                assert(in_some_block(d, y));
                let k = choose|k: int| 0 <= k < w0.len() && #[trigger] w0[k].contains(y);
                assert(w[k] == w0[k]);
            } else {
                assert(in_some_block(rw, y));
                let k = choose|k: int| 0 <= k < rw.len() && #[trigger] rw[k].contains(y);
                assert(w[k + w0.len()] == rw[k]);
            }
        }
    }
}

/// The product of two partitions of `Σ` is a partition of `Σ` whose blocks
/// each lie within a block of either factor.
pub proof fn lemma_product_partition(p: Seq<Set<int>>, q: Seq<Set<int>>)
    requires
        is_partition(p),
        is_partition(q),
    ensures
        is_partition(prod_m(p, q)),
        refines(prod_m(p, q), p),
        refines(prod_m(p, q), q),
{
    lemma_prod(p, q);
    let w = prod_m(p, q);
    assert forall|k: int| 0 <= k < w.len() implies #[trigger] w[k] != Set::<int>::empty()
        && w[k].subset_of(sigma_set()) by {
        assert(within_some(w[k], p));
        let i = choose|i: int| 0 <= i < p.len() && #[trigger] w[k].subset_of(p[i]);
    }
    assert forall|x: int| sigma_set().contains(x) implies in_some_block(w, x) by {
        assert(in_some_block(p, x));
        assert(in_some_block(q, x));
    }
}

} // verus!
