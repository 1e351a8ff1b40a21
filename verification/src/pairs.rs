//! Candidate-pair enumeration: the cartesian product of two candidate lists
//! and its restriction to the pairs the constraint predicate allows.

use vstd::prelude::*;
use vstd::arithmetic::div_mod::{
    lemma_fundamental_div_mod, lemma_fundamental_div_mod_converse, lemma_mod_pos_bound,
};
use itertools::Itertools;
use crate::model::{cell_idx, dom_seq, valid_cell, valid_domain, wf_store, ConstraintPredicate, Csp};

verus! {

/// Every pair of a product sequence in row-major layout is an element pair,
/// and every element pair occurs in it.
pub proof fn lemma_pairs_membership(x: Seq<i32>, y: Seq<i32>, r: Seq<(i32, i32)>)
    requires
        r.len() == x.len() * y.len(),
        forall|k: int|
            0 <= k < r.len() ==> (#[trigger] r[k]) == (
                x[k / (y.len() as int)],
                y[k % (y.len() as int)],
            ),
    ensures
        forall|p: (i32, i32)| #[trigger] r.contains(p) <==> x.contains(p.0) && y.contains(p.1),
{
    let xl = x.len() as int;
    let yl = y.len() as int;
    assert forall|p: (i32, i32)| #[trigger] r.contains(p) implies x.contains(p.0) && y.contains(
        p.1,
    ) by {
        let k = choose|k: int| 0 <= k < r.len() && r[k] == p;
        assert(yl > 0) by {
            if yl <= 0 {
                assert(r.len() == 0) by (nonlinear_arith)
                    requires
                        r.len() == x.len() * y.len(),
                        y.len() == 0,
                ;
            }
        }
        lemma_fundamental_div_mod(k, yl);
        lemma_mod_pos_bound(k, yl);
        let i = k / yl;
        let j = k % yl;
        assert(0 <= i && i < xl) by (nonlinear_arith)
            requires
                k == yl * i + j,
                0 <= j < yl,
                0 <= k < xl * yl,
        ;
        assert(x[i] == p.0 && y[j] == p.1);
    }
    assert forall|p: (i32, i32)| x.contains(p.0) && y.contains(p.1) implies #[trigger] r.contains(
        p,
    ) by {
        let i = choose|i: int| 0 <= i < x.len() && x[i] == p.0;
        let j = choose|j: int| 0 <= j < y.len() && y[j] == p.1;
        let k = i * yl + j;
        assert(0 <= k && k < xl * yl) by (nonlinear_arith)
            requires
                0 <= i < xl,
                0 <= j < yl,
                k == i * yl + j,
        ;
        lemma_fundamental_div_mod_converse(k, yl, i, j);
        assert(r[k] == (x[i], y[j]));
        assert(r[k] == p);
    }
}

/// The product of two duplicate-free lists holds no pair twice.
pub proof fn lemma_pairs_nodup(x: Seq<i32>, y: Seq<i32>, r: Seq<(i32, i32)>)
    requires
        x.no_duplicates(),
        y.no_duplicates(),
        r.len() == x.len() * y.len(),
        forall|k: int|
            0 <= k < r.len() ==> (#[trigger] r[k]) == (
                x[k / (y.len() as int)],
                y[k % (y.len() as int)],
            ),
    ensures
        r.no_duplicates(),
{
    let xl = x.len() as int;
    let yl = y.len() as int;
    assert forall|k1: int, k2: int|
        0 <= k1 < r.len() && 0 <= k2 < r.len() && k1 != k2 implies r[k1] != r[k2] by {
        assert(yl > 0) by {
            if yl <= 0 {
                assert(r.len() == 0) by (nonlinear_arith)
                    requires
                        r.len() == x.len() * y.len(),
                        y.len() == 0,
                ;
            }
        }
        lemma_fundamental_div_mod(k1, yl);
        lemma_mod_pos_bound(k1, yl);
        lemma_fundamental_div_mod(k2, yl);
        lemma_mod_pos_bound(k2, yl);
        let i1 = k1 / yl;
        let i2 = k2 / yl;
        assert(0 <= i1 < xl && 0 <= i2 < xl) by (nonlinear_arith)
            requires
                k1 == yl * i1 + k1 % yl,
                k2 == yl * i2 + k2 % yl,
                0 <= k1 % yl < yl,
                0 <= k2 % yl < yl,
                0 <= k1 < xl * yl,
                0 <= k2 < xl * yl,
        ;
        if r[k1] == r[k2] {
            assert(x[i1] == x[i2]);
            assert(y[k1 % yl] == y[k2 % yl]);
            assert(i1 == i2);
            assert(k1 % yl == k2 % yl);
            assert(k1 == k2);
            assert(false);
        }
    }
}

impl<P: ConstraintPredicate> Csp<P> {
    /// Relies on itertools' cartesian_product: one pair for every combination
    /// of an element of `x` with an element of `y`, the first component
    /// varying outermost.
    #[verifier::external_body]
    pub fn get_all_possible_pairs(x: &Vec<i32>, y: &Vec<i32>) -> (r: Vec<(i32, i32)>)
        ensures
            r@.len() == x@.len() * y@.len(),
            forall|k: int|
                0 <= k < r@.len() ==> (#[trigger] r@[k]) == (
                    x@[k / (y@.len() as int)],
                    y@[k % (y@.len() as int)],
                ),
    {
        x.iter().cartesian_product(y.iter()).map(|(a, b)| (*a, *b)).collect()
    }

    /// All compatible candidate pairs across the arc from `start` to `end`:
    /// every pair of current candidates that the predicate allows, drawn
    /// from this problem's own domain store, each pair exactly once.
    pub fn get_all_constraints_one_way(&self, start: (usize, usize), end: (usize, usize)) -> (r:
        Vec<(i32, i32)>)
        requires
            valid_cell(start),
            valid_cell(end),
            wf_store(dom_seq(self.domains)),
        ensures
            r@.no_duplicates(),
            forall|p: (i32, i32)|
                #[trigger] r@.contains(p) <==> dom_seq(self.domains)[cell_idx(start)].contains(p.0)
                    && dom_seq(self.domains)[cell_idx(end)].contains(p.1) && P::allows(p.0, p.1),
    {
        let si = start.0 * 9 + start.1;
        let ei = end.0 * 9 + end.1;
        let pairs = Self::get_all_possible_pairs(&self.domains[si], &self.domains[ei]);
        proof {
            assert(valid_domain(dom_seq(self.domains)[si as int]));
            assert(valid_domain(dom_seq(self.domains)[ei as int]));
            assert(dom_seq(self.domains)[si as int] == self.domains@[si as int]@);
            assert(dom_seq(self.domains)[ei as int] == self.domains@[ei as int]@);
            lemma_pairs_membership(self.domains@[si as int]@, self.domains@[ei as int]@, pairs@);
            lemma_pairs_nodup(self.domains@[si as int]@, self.domains@[ei as int]@, pairs@);
        }
        let mut out: Vec<(i32, i32)> = Vec::new();
        let mut k: usize = 0;
        while k < pairs.len()
            invariant
                k <= pairs@.len(),
                pairs@.no_duplicates(),
                out@.no_duplicates(),
                forall|q: (i32, i32)|
                    #[trigger] out@.contains(q) ==> pairs@.take(k as int).contains(q),
                forall|p: (i32, i32)|
                    #[trigger] out@.contains(p) ==> pairs@.contains(p) && P::allows(p.0, p.1),
                forall|m: int|
                    0 <= m < k && P::allows((#[trigger] pairs@[m]).0, pairs@[m].1) ==> out@.contains(
                        pairs@[m],
                    ),
            decreases pairs@.len() - k,
        {
            let p = pairs[k];
            let ghost prev = out@;
            if self.constraint_filter.check(p.0, p.1) {
                proof {
                    // the pair about to be appended cannot be present yet:
                    // everything collected so far came from the strict prefix
                    // of a duplicate-free product
                    if prev.contains(p) {
                        assert(pairs@.take(k as int).contains(p));
                        let m = choose|m: int|
                            0 <= m < k && #[trigger] pairs@.take(k as int)[m] == p;
                        assert(pairs@[m] == pairs@[k as int]);
                        assert(false);
                    }
                }
                out.push(p);
                proof {
                    assert(out@ == prev.push(p));
                    assert(out@.no_duplicates());
                    assert(pairs@.contains(pairs@[k as int]));
                    assert(out@[out@.len() - 1] == pairs@[k as int]);
                    assert(out@.contains(pairs@[k as int]));
                    assert forall|q: (i32, i32)| #[trigger] out@.contains(q) implies pairs@.contains(
                        q,
                    ) && P::allows(q.0, q.1) by {
                        let n = choose|n: int| 0 <= n < out@.len() && out@[n] == q;
                        if n < prev.len() {
                            assert(prev.contains(q));
                        } else {
                            assert(q == p);
                        }
                    }
                    assert forall|q: (i32, i32)| prev.contains(q) implies out@.contains(q) by {
                        let n = choose|n: int| 0 <= n < prev.len() && prev[n] == q;
                        assert(out@[n] == q);
                    }
                }
            }
            proof {
                assert forall|q: (i32, i32)| #[trigger] out@.contains(q) implies pairs@.take(
                    k as int + 1,
                ).contains(q) by {
                    let n = choose|n: int| 0 <= n < out@.len() && out@[n] == q;
                    if n < prev.len() {
                        assert(prev.contains(q));
                        assert(pairs@.take(k as int).contains(q));
                        let m = choose|m: int|
                            0 <= m < k && #[trigger] pairs@.take(k as int)[m] == q;
                        assert(pairs@.take(k as int + 1)[m] == q);
                    } else {
                        assert(q == pairs@[k as int]);
                        assert(pairs@.take(k as int + 1)[k as int] == q);
                    }
                }
            }
            k += 1;
        }
        assert forall|p: (i32, i32)| pairs@.contains(p) && P::allows(p.0, p.1) implies out@.contains(
            p,
        ) by {
            let m = choose|m: int| 0 <= m < pairs@.len() && pairs@[m] == p;
            assert(out@.contains(pairs@[m]));
        }
        out
    }
}

} // verus!
