//! The constraint solver: construction of a fresh problem, single-arc
//! revision, AC-3 style propagation over a worklist of arcs, and the
//! backtracking search with the minimum-remaining-values heuristic.

use vstd::prelude::*;
use vstd::arithmetic::div_mod::{
    lemma_fundamental_div_mod, lemma_fundamental_div_mod_converse, lemma_mod_pos_bound,
};
use crate::model::{
    all_assigned, arc_consistent, assignment_in, cell_idx, consistent_assignment, dom_seq,
    fully_consistent, init_domain, is_neighbor, keep_supported, lemma_cell_idx_bounds,
    lemma_cell_idx_injective, lemma_keep_supported_all, lemma_keep_supported_len,
    lemma_keep_supported_membership, lemma_keep_supported_nodup, lemma_singleton_stays,
    lemma_num_unassigned_lt, lemma_total_size_lt,
    num_unassigned, store_subset, supported, total_size, valid_cell, valid_domain, wf_store,
    ConstraintPredicate, Csp,
};

verus! {

/// Copies a candidate list.
fn clone_domain(d: &Vec<i32>) -> (r: Vec<i32>)
    ensures
        r@ == d@,
{
    let mut r: Vec<i32> = Vec::new();
    let mut i: usize = 0;
    while i < d.len()
        invariant
            i <= d@.len(),
            r@ == d@.take(i as int),
        decreases d@.len() - i,
    {
        r.push(d[i]);
        proof {
            assert(d@.take(i as int + 1) =~= d@.take(i as int).push(d@[i as int]));
        }
        i += 1;
    }
    proof {
        assert(d@.take(d@.len() as int) =~= d@);
    }
    r
}

/// Deep-copies a domain store; each search branch owns its own copy.
pub(crate) fn clone_store(s: &Vec<Vec<i32>>) -> (r: Vec<Vec<i32>>)
    ensures
        dom_seq(r) == dom_seq(*s),
{
    let mut r: Vec<Vec<i32>> = Vec::new();
    let mut i: usize = 0;
    while i < s.len()
        invariant
            i <= s@.len(),
            r@.len() == i,
            forall|k: int| 0 <= k < i ==> (#[trigger] r@[k])@ == s@[k]@,
        decreases s@.len() - i,
    {
        let d = clone_domain(&s[i]);
        r.push(d);
        i += 1;
    }
    proof {
        assert(dom_seq(r) =~= dom_seq(*s));
    }
    r
}

/// Copies the arc worklist.
fn clone_arcs(s: &Vec<((usize, usize), (usize, usize))>) -> (r: Vec<
    ((usize, usize), (usize, usize)),
>)
    ensures
        r@ == s@,
{
    let mut r: Vec<((usize, usize), (usize, usize))> = Vec::new();
    let mut i: usize = 0;
    while i < s.len()
        invariant
            i <= s@.len(),
            r@ == s@.take(i as int),
        decreases s@.len() - i,
    {
        r.push(s[i]);
        proof {
            assert(s@.take(i as int + 1) =~= s@.take(i as int).push(s@[i as int]));
        }
        i += 1;
    }
    proof {
        assert(s@.take(s@.len() as int) =~= s@);
    }
    r
}

/// A failed search branch rules its trial value out: when no consistent
/// total assignment survives in the propagated branch store, no consistent
/// assignment inside the parent store picks the trial value for the chosen
/// variable.
proof fn lemma_branch_excludes_value<P: ConstraintPredicate>(
    parent: Seq<Seq<i32>>,
    assigned: Seq<Seq<i32>>,
    post: Seq<Seq<i32>>,
    pi: int,
    value: i32,
    candidates: Seq<i32>,
    vi: int,
)
    requires
        parent.len() == 81,
        0 <= pi < 81,
        0 <= vi < candidates.len(),
        candidates == parent[pi],
        candidates[vi] == value,
        assigned == parent.update(pi, seq![value]),
        forall|a: Seq<i32>|
            consistent_assignment::<P>(a) && #[trigger] assignment_in(parent, a)
                ==> !candidates.take(vi).contains(a[pi]),
        forall|a: Seq<i32>|
            consistent_assignment::<P>(a) && #[trigger] assignment_in(assigned, a)
                ==> assignment_in(post, a),
        forall|a: Seq<i32>|
            !(consistent_assignment::<P>(a) && #[trigger] assignment_in(post, a)),
    ensures
        forall|a: Seq<i32>|
            consistent_assignment::<P>(a) && #[trigger] assignment_in(parent, a)
                ==> !candidates.take(vi + 1).contains(a[pi]),
{
    assert forall|a: Seq<i32>|
        consistent_assignment::<P>(a) && #[trigger] assignment_in(parent, a) implies !candidates
        .take(vi + 1).contains(a[pi]) by {
        if candidates.take(vi + 1).contains(a[pi]) {
            let t = choose|t: int|
                0 <= t < vi + 1 && #[trigger] candidates.take(vi + 1)[t] == a[pi];
            if t < vi {
                assert(candidates.take(vi)[t] == a[pi]);
                assert(candidates.take(vi).contains(a[pi]));
            } else {
                assert(a[pi] == value);
                assert forall|k: int| 0 <= k < 81 implies (#[trigger] assigned[k]).contains(
                    a[k],
                ) by {
                    if k == pi {
                        assert(assigned[k] == seq![value]);
                        assert(assigned[k][0] == a[k]);
                    } else {
                        assert(assigned[k] == parent[k]);
                    }
                }
                assert(assignment_in(assigned, a));
                assert(assignment_in(post, a));
            }
            assert(false);
        }
    }
}

impl<P: ConstraintPredicate> Csp<P> {
    /// A fresh 9x9 problem: 81 variables in row-major order, every domain
    /// `{1, ..., 9}`, the given predicate and the full arc list.
    pub fn new(constraint_filter: P) -> (r: Csp<P>)
        ensures
            r.wf(),
            forall|i: int| 0 <= i < 81 ==> #[trigger] dom_seq(r.domains)[i] == init_domain(),
            r.constraint_filter == constraint_filter,
    {
        let mut idxs: Vec<i32> = Vec::new();
        let mut n: usize = 0;
        while n < 9
            invariant
                n <= 9,
                idxs@.len() == n,
                forall|i: int| 0 <= i < n ==> #[trigger] idxs@[i] == i as i32,
            decreases 9 - n,
        {
            idxs.push(n as i32);
            n += 1;
        }
        let pairs = Self::get_all_possible_pairs(&idxs, &idxs);
        let mut variables: Vec<(usize, usize)> = Vec::new();
        let mut k: usize = 0;
        while k < 81
            invariant
                k <= 81,
                pairs@.len() == 81,
                idxs@.len() == 9,
                forall|i: int| 0 <= i < 9 ==> #[trigger] idxs@[i] == i as i32,
                forall|m: int|
                    0 <= m < 81 ==> (#[trigger] pairs@[m]) == (idxs@[m / 9], idxs@[m % 9]),
                variables@.len() == k,
                forall|m: int|
                    0 <= m < k ==> #[trigger] variables@[m] == (((m / 9) as usize), (
                    (m % 9) as usize)),
            decreases 81 - k,
        {
            proof {
                lemma_fundamental_div_mod(k as int, 9);
                lemma_mod_pos_bound(k as int, 9);
            }
            let p = pairs[k];
            variables.push((p.0 as usize, p.1 as usize));
            k += 1;
        }
        let mut digits: Vec<i32> = Vec::new();
        let mut v: i32 = 1;
        while v <= 9
            invariant
                1 <= v <= 10,
                digits@.len() == v - 1,
                forall|i: int| 0 <= i < v - 1 ==> #[trigger] digits@[i] == i + 1,
            decreases 10 - v,
        {
            digits.push(v);
            v += 1;
        }
        proof {
            assert(digits@ =~= init_domain());
            assert(valid_domain(init_domain()));
        }
        let mut domains: Vec<Vec<i32>> = Vec::new();
        let mut j: usize = 0;
        while j < 81
            invariant
                j <= 81,
                digits@ == init_domain(),
                domains@.len() == j,
                forall|i: int| 0 <= i < j ==> (#[trigger] domains@[i])@ == init_domain(),
            decreases 81 - j,
        {
            let d = clone_domain(&digits);
            domains.push(d);
            j += 1;
        }
        let mut problem = Csp {
            variables,
            domains,
            constraint_filter,
            constraining_arcs: Vec::new(),
        };
        let arcs = problem.generate_all_constraining_arcs();
        problem.constraining_arcs = arcs;
        proof {
            assert(wf_store(dom_seq(problem.domains)));
        }
        problem
    }

    /// Whether candidate `v` has a compatible partner among the candidates
    /// of `end_dom`.
    fn has_support(&self, v: i32, end_dom: &Vec<i32>) -> (r: bool)
        ensures
            r == supported::<P>(v, end_dom@),
    {
        let mut j: usize = 0;
        while j < end_dom.len()
            invariant
                j <= end_dom@.len(),
                forall|k: int| 0 <= k < j ==> !P::allows(v, #[trigger] end_dom@[k]),
            decreases end_dom@.len() - j,
        {
            if self.constraint_filter.check(v, end_dom[j]) {
                return true;
            }
            j += 1;
        }
        false
    }

    /// One revision of the arc from `arc_start` to `arc_end`: drops every
    /// candidate of the start domain that no candidate of the end domain is
    /// compatible with, and reports whether anything was dropped.  Only the
    /// start domain is touched, and it is left unchanged exactly when the
    /// arc was already consistent.
    pub fn revise(
        &self,
        domain: &mut Vec<Vec<i32>>,
        arc_start: (usize, usize),
        arc_end: (usize, usize),
    ) -> (revised: bool)
        requires
            valid_cell(arc_start),
            valid_cell(arc_end),
            wf_store(dom_seq(*old(domain))),
        ensures
            wf_store(dom_seq(*final(domain))),
            dom_seq(*final(domain)) == dom_seq(*old(domain)).update(
                cell_idx(arc_start),
                keep_supported::<P>(
                    dom_seq(*old(domain))[cell_idx(arc_start)],
                    dom_seq(*old(domain))[cell_idx(arc_end)],
                ),
            ),
            revised == !arc_consistent::<P>(dom_seq(*old(domain)), arc_start, arc_end),
            !revised ==> dom_seq(*final(domain)) == dom_seq(*old(domain)),
    {
        proof {
            lemma_cell_idx_bounds(arc_start);
            lemma_cell_idx_bounds(arc_end);
        }
        let si = arc_start.0 * 9 + arc_start.1;
        let ei = arc_end.0 * 9 + arc_end.1;
        let ghost start0 = dom_seq(*domain)[si as int];
        let ghost end0 = dom_seq(*domain)[ei as int];
        let mut kept: Vec<i32> = Vec::new();
        let n = domain[si].len();
        let mut i: usize = 0;
        while i < n
            invariant
                i <= n,
                si < 81,
                ei < 81,
                dom_seq(*domain) == dom_seq(*old(domain)),
                dom_seq(*domain).len() == 81,
                start0 == dom_seq(*domain)[si as int],
                end0 == dom_seq(*domain)[ei as int],
                n == start0.len(),
                kept@ == keep_supported::<P>(start0.take(i as int), end0),
            decreases n - i,
        {
            let v = domain[si][i];
            let sup = self.has_support(v, &domain[ei]);
            proof {
                assert(start0.take(i as int + 1).drop_last() =~= start0.take(i as int));
                assert(start0.take(i as int + 1).last() == start0[i as int]);
            }
            if sup {
                kept.push(v);
            }
            i += 1;
        }
        proof {
            assert(start0.take(n as int) =~= start0);
        }
        let revised = kept.len() != domain[si].len();
        proof {
            lemma_keep_supported_membership::<P>(start0, end0);
            lemma_keep_supported_nodup::<P>(start0, end0);
            if arc_consistent::<P>(dom_seq(*domain), arc_start, arc_end) {
                lemma_keep_supported_all::<P>(start0, end0);
            } else {
                lemma_keep_supported_len::<P>(start0, end0);
                assert(kept@.len() < start0.len());
            }
        }
        domain.set(si, kept);
        proof {
            let upd = dom_seq(*old(domain)).update(
                cell_idx(arc_start),
                keep_supported::<P>(start0, end0),
            );
            assert(dom_seq(*domain) =~= upd);
            assert forall|i2: int| 0 <= i2 < 81 implies valid_domain(
                #[trigger] dom_seq(*domain)[i2],
            ) by {
                if i2 != si as int {
                    assert(dom_seq(*domain)[i2] == dom_seq(*old(domain))[i2]);
                } else {
                    assert(valid_domain(start0));
                    assert(dom_seq(*domain)[i2] == kept@);
                    assert forall|ii: int| 0 <= ii < kept@.len() implies 1 <= #[trigger] kept@[ii]
                        <= 9 by {
                        assert(kept@.contains(kept@[ii]));
                        assert(start0.contains(kept@[ii]));
                        let m = choose|m: int| 0 <= m < start0.len() && start0[m] == kept@[ii];
                        assert(1 <= start0[m] <= 9);
                    }
                }
            }
            if !revised {
                assert(arc_consistent::<P>(dom_seq(*old(domain)), arc_start, arc_end));
                assert(dom_seq(*domain) =~= dom_seq(*old(domain)));
            }
        }
        revised
    }

    /// AC-3 propagation: repeatedly pops an arc from the FIFO worklist and
    /// revises it; when a revision prunes something, every arc pointing at
    /// the pruned variable is re-enqueued.  Fails (returning `false`) as
    /// soon as a domain empties; succeeds once the worklist is exhausted,
    /// at which point — if the worklist held every constraint arc — the
    /// store is arc-consistent.  Domains only ever shrink, and no total
    /// assignment that is consistent and inside the store is ever lost.
    #[verifier::rlimit(60)]
    pub fn inference(
        &self,
        domain: &mut Vec<Vec<i32>>,
        arcs: Vec<((usize, usize), (usize, usize))>,
    ) -> (success: bool)
        requires
            wf_store(dom_seq(*old(domain))),
            forall|m: int|
                0 <= m < arcs@.len() ==> is_neighbor((#[trigger] arcs@[m]).0, arcs@[m].1),
        ensures
            wf_store(dom_seq(*final(domain))),
            store_subset(dom_seq(*final(domain)), dom_seq(*old(domain))),
            forall|a: Seq<i32>|
                #![trigger assignment_in(dom_seq(*old(domain)), a)]
                consistent_assignment::<P>(a) && assignment_in(dom_seq(*old(domain)), a)
                    ==> assignment_in(dom_seq(*final(domain)), a),
            !success ==> exists|i: int|
                0 <= i < 81 && (#[trigger] dom_seq(*final(domain))[i]).len() == 0,
            success && (forall|i: int|
                0 <= i < 81 ==> (#[trigger] dom_seq(*old(domain))[i]).len() > 0) ==> forall|i: int|
                0 <= i < 81 ==> (#[trigger] dom_seq(*final(domain))[i]).len() > 0,
            success && (forall|c1: (usize, usize), c2: (usize, usize)|
                #[trigger] is_neighbor(c1, c2) ==> arcs@.contains((c1, c2)))
                ==> fully_consistent::<P>(dom_seq(*final(domain))),
    {
        let ghost full: bool = forall|c1: (usize, usize), c2: (usize, usize)|
            #[trigger] is_neighbor(c1, c2) ==> arcs@.contains((c1, c2));
        let mut work = arcs;
        while work.len() != 0
            invariant
                wf_store(dom_seq(*domain)),
                store_subset(dom_seq(*domain), dom_seq(*old(domain))),
                forall|a: Seq<i32>|
                    #![trigger assignment_in(dom_seq(*old(domain)), a)]
                    consistent_assignment::<P>(a) && assignment_in(dom_seq(*old(domain)), a) ==> assignment_in(
                        dom_seq(*domain),
                        a,
                    ),
                forall|m: int|
                    0 <= m < work@.len() ==> is_neighbor((#[trigger] work@[m]).0, work@[m].1),
                (forall|i: int| 0 <= i < 81 ==> (#[trigger] dom_seq(*old(domain))[i]).len() > 0) ==> (forall|i: int|
                    0 <= i < 81 ==> (#[trigger] dom_seq(*domain)[i]).len() > 0),
                full ==> forall|c1: (usize, usize), c2: (usize, usize)|
                    #[trigger] is_neighbor(c1, c2) ==> work@.contains((c1, c2)) || arc_consistent::<
                        P,
                    >(dom_seq(*domain), c1, c2),
            decreases total_size(dom_seq(*domain), 81), work@.len(),
        {
            let ghost pre = dom_seq(*domain);
            let ghost work_pre = work@;
            let arc = work.remove(0);
            let arc_start = arc.0;
            let arc_end = arc.1;
            proof {
                assert(work_pre[0] == arc);
                assert(is_neighbor(arc_start, arc_end));
                assert(work@ =~= work_pre.subrange(1, work_pre.len() as int));
                lemma_cell_idx_bounds(arc_start);
                lemma_cell_idx_bounds(arc_end);
                if cell_idx(arc_start) == cell_idx(arc_end) {
                    lemma_cell_idx_injective(arc_start, arc_end);
                }
            }
            let ghost si = cell_idx(arc_start);
            let ghost ei = cell_idx(arc_end);
            let revised = self.revise(domain, arc_start, arc_end);
            let ghost post = dom_seq(*domain);
            proof {
                lemma_keep_supported_membership::<P>(pre[si], pre[ei]);
                // domains only shrink, so containment in `orig` is kept
                assert forall|i: int, v: i32|
                    0 <= i < 81 && #[trigger] post[i].contains(v) implies dom_seq(*old(domain))[i].contains(v) by {
                    if i == si {
                        assert(pre[i].contains(v));
                    }
                }
                // no consistent total assignment inside the store is lost
                assert forall|a: Seq<i32>|
                    #![trigger assignment_in(dom_seq(*old(domain)), a)]
                    consistent_assignment::<P>(a) && assignment_in(dom_seq(*old(domain)), a) implies assignment_in(
                    post,
                    a,
                ) by {
                    assert(assignment_in(pre, a));
                    assert(pre[ei].contains(a[ei]));
                    let m = choose|m: int| 0 <= m < pre[ei].len() && pre[ei][m] == a[ei];
                    assert(P::allows(a[si], pre[ei][m]));
                    assert(supported::<P>(a[si], pre[ei]));
                    assert(post[si].contains(a[si]));
                    assert forall|i: int| 0 <= i < 81 implies (#[trigger] post[i]).contains(
                        a[i],
                    ) by {
                        if i != si {
                            assert(pre[i].contains(a[i]));
                        }
                    }
                }
            }
            if revised {
                let start_i = arc_start.0 * 9 + arc_start.1;
                if domain[start_i].len() == 0 {
                    proof {
                        assert(post[si].len() == 0);
                    }
                    return false;
                }
                let nb = self.get_neighboring_arcs(&arc_start);
                let ghost work_mid = work@;
                let mut j: usize = 0;
                while j < nb.len()
                    invariant
                        j <= nb@.len(),
                        nb@.len() == 20,
                        forall|c: (usize, usize)| #[trigger]
                            nb@.contains(c) <==> is_neighbor(arc_start, c),
                        work@.len() == work_mid.len() + j,
                        forall|m: int| 0 <= m < work_mid.len() ==> #[trigger] work@[m]
                            == work_mid[m],
                        forall|m: int|
                            work_mid.len() <= m < work@.len() ==> #[trigger] work@[m] == (
                                nb@[m - work_mid.len()],
                                arc_start,
                            ),
                    decreases nb@.len() - j,
                {
                    work.push((nb[j], arc_start));
                    j += 1;
                }
                proof {
                    // every queued arc still joins a pair of neighbors
                    assert forall|m: int| 0 <= m < work@.len() implies is_neighbor(
                        (#[trigger] work@[m]).0,
                        work@[m].1,
                    ) by {
                        if m >= work_mid.len() {
                            let c = nb@[m - work_mid.len()];
                            assert(nb@.contains(c));
                            assert(is_neighbor(arc_start, c));
                        } else {
                            assert(work_mid[m] == work_pre[m + 1]);
                        }
                    }
                    // the fixed-point invariant: an arc not in the worklist is consistent
                    if full {
                        assert forall|c1: (usize, usize), c2: (usize, usize)|
                            #[trigger] is_neighbor(c1, c2) implies work@.contains((c1, c2))
                            || arc_consistent::<P>(post, c1, c2) by {
                            if cell_idx(c1) == cell_idx(arc_start) && c1 != arc_start {
                                lemma_cell_idx_injective(c1, arc_start);
                            }
                            if cell_idx(c2) == cell_idx(arc_start) && c2 != arc_start {
                                lemma_cell_idx_injective(c2, arc_start);
                            }
                            if c2 == arc_start {
                                // its support pool shrank: it was re-enqueued
                                assert(nb@.contains(c1));
                                let m = choose|m: int| 0 <= m < nb@.len() && nb@[m] == c1;
                                assert(work@[work_mid.len() + m] == ((c1, c2)));
                                assert(work@.contains((c1, c2)));
                            } else if work_pre.contains((c1, c2)) {
                                let m = choose|m: int|
                                    0 <= m < work_pre.len() && work_pre[m] == (c1, c2);
                                if m == 0 {
                                    // the arc just revised is now consistent
                                    assert((c1, c2) == (arc_start, arc_end));
                                    assert forall|i: int|
                                        0 <= i < post[si].len() implies supported::<P>(
                                        #[trigger] post[si][i],
                                        post[ei],
                                    ) by {
                                        assert(post[si].contains(post[si][i]));
                                        assert(post[ei] == pre[ei]);
                                    }
                                    assert(arc_consistent::<P>(post, c1, c2));
                                } else {
                                    assert(work@[m - 1] == work_pre[m]);
                                    assert(work@.contains((c1, c2)));
                                }
                            } else {
                                // it was consistent before; only the start cell changed,
                                // and shrinking an arc's own start keeps it consistent
                                assert(arc_consistent::<P>(pre, c1, c2));
                                let i1 = cell_idx(c1);
                                let i2 = cell_idx(c2);
                                assert(i2 != si);
                                assert forall|i: int|
                                    0 <= i < post[i1].len() implies supported::<P>(
                                    #[trigger] post[i1][i],
                                    post[i2],
                                ) by {
                                    if i1 == si {
                                        assert(post[si].contains(post[si][i]));
                                        assert(pre[si].contains(post[si][i]));
                                        let m = choose|m: int|
                                            0 <= m < pre[si].len() && pre[si][m] == post[si][i];
                                        assert(supported::<P>(pre[si][m], pre[i2]));
                                    } else {
                                        assert(post[i1] == pre[i1]);
                                        assert(supported::<P>(pre[i1][i], pre[i2]));
                                    }
                                }
                                assert(arc_consistent::<P>(post, c1, c2));
                            }
                        }
                    }
                    // the total candidate count strictly drops on a revision
                    assert(!arc_consistent::<P>(pre, arc_start, arc_end));
                    lemma_keep_supported_len::<P>(pre[si], pre[ei]);
                    assert(exists|i: int|
                        0 <= i < pre[si].len() && !supported::<P>(#[trigger] pre[si][i], pre[ei]));
                    assert(post[si].len() < pre[si].len());
                    assert forall|i: int| 0 <= i < 81 implies (#[trigger] post[i]).len()
                        <= pre[i].len() by {
                        if i != si {
                            assert(post[i] == pre[i]);
                        }
                    }
                    lemma_total_size_lt(post, pre, 81, si);
                }
            } else {
                proof {
                    assert(post == pre);
                    if full {
                        assert forall|c1: (usize, usize), c2: (usize, usize)|
                            #[trigger] is_neighbor(c1, c2) implies work@.contains((c1, c2))
                            || arc_consistent::<P>(post, c1, c2) by {
                            if work_pre.contains((c1, c2)) {
                                let m = choose|m: int|
                                    0 <= m < work_pre.len() && work_pre[m] == (c1, c2);
                                if m == 0 {
                                    assert((c1, c2) == (arc_start, arc_end));
                                    assert(arc_consistent::<P>(pre, c1, c2));
                                } else {
                                    assert(work@[m - 1] == work_pre[m]);
                                    assert(work@.contains((c1, c2)));
                                }
                            }
                        }
                    }
                }
            }
        }
        proof {
            if full {
                assert forall|c1: (usize, usize), c2: (usize, usize)|
                    #[trigger] is_neighbor(c1, c2) implies arc_consistent::<P>(
                    dom_seq(*domain),
                    c1,
                    c2,
                ) by {
                    assert(!work@.contains((c1, c2)));
                }
            }
        }
        true
    }

    /// Backtracking search: picks the unresolved variable with the fewest
    /// candidates, tries each of its candidates on a private copy of the
    /// store, propagates, and recurses; the first fully assigned branch
    /// wins.  A returned store pins every variable, is contained in the
    /// input store and — unless the input was already fully assigned — is
    /// consistent on every constraint arc.
    pub fn backtrack(&self, domain: Vec<Vec<i32>>) -> (r: Option<Vec<Vec<i32>>>)
        requires
            self.wf(),
            wf_store(dom_seq(domain)),
        ensures
            match r {
                Option::Some(sol) => {
                    &&& wf_store(dom_seq(sol))
                    &&& all_assigned(dom_seq(sol))
                    &&& store_subset(dom_seq(sol), dom_seq(domain))
                    &&& all_assigned(dom_seq(domain)) ==> dom_seq(sol) == dom_seq(domain)
                    &&& !all_assigned(dom_seq(domain)) ==> fully_consistent::<P>(dom_seq(sol))
                },
                Option::None => forall|a: Seq<i32>|
                    !(consistent_assignment::<P>(a) && #[trigger] assignment_in(
                        dom_seq(domain),
                        a,
                    )),
            },
        decreases num_unassigned(dom_seq(domain), 81),
    {
        let mut all_one = true;
        let mut i: usize = 0;
        while i < 81
            invariant
                i <= 81,
                dom_seq(domain).len() == 81,
                all_one ==> forall|k: int| 0 <= k < i ==> (#[trigger] dom_seq(domain)[k]).len()
                    == 1,
                !all_one ==> exists|k: int|
                    0 <= k < 81 && (#[trigger] dom_seq(domain)[k]).len() != 1,
            decreases 81 - i,
        {
            if domain[i].len() != 1 {
                proof {
                    assert((dom_seq(domain)[i as int]).len() != 1);
                }
                all_one = false;
            }
            i += 1;
        }
        if all_one {
            proof {
                assert(all_assigned(dom_seq(domain)));
            }
            return Option::Some(domain);
        }
        proof {
            assert(!all_assigned(dom_seq(domain)));
        }
        let priority = self.minimum_remaining_values(&domain);
        proof {
            lemma_cell_idx_bounds(priority);
        }
        let pi = priority.0 * 9 + priority.1;
        let candidates = clone_domain(&domain[pi]);
        let mut vi: usize = 0;
        while vi < candidates.len()
            invariant
                self.wf(),
                wf_store(dom_seq(domain)),
                !all_assigned(dom_seq(domain)),
                valid_cell(priority),
                pi == cell_idx(priority),
                candidates@ == dom_seq(domain)[pi as int],
                dom_seq(domain)[pi as int].len() != 1,
                forall|k: int|
                    0 <= k < 81 && (#[trigger] dom_seq(domain)[k]).len() != 1 ==> dom_seq(
                        domain,
                    )[pi as int].len() <= dom_seq(domain)[k].len(),
                vi <= candidates@.len(),
                forall|a: Seq<i32>|
                    consistent_assignment::<P>(a) && #[trigger] assignment_in(dom_seq(domain), a)
                        ==> !candidates@.take(vi as int).contains(a[pi as int]),
            decreases candidates@.len() - vi,
        {
            let value = candidates[vi];
            proof {
                assert(dom_seq(domain)[pi as int].contains(candidates@[vi as int]));
            }
            let mut domain_copy = clone_store(&domain);
            let mut single: Vec<i32> = Vec::new();
            single.push(value);
            domain_copy.set(pi, single);
            let ghost assigned = dom_seq(domain_copy);
            proof {
                assert(assigned =~= dom_seq(domain).update(pi as int, seq![value]));
                assert(assigned[pi as int].no_duplicates());
                assert(1 <= value <= 9);
                assert forall|k: int| 0 <= k < 81 implies valid_domain(
                    #[trigger] assigned[k],
                ) by {
                    if k != pi as int {
                        assert(assigned[k] == dom_seq(domain)[k]);
                    }
                }
                // every domain of the assigned store is non-empty: the chosen
                // variable now holds one value, and any other unresolved
                // variable has at least as many candidates as the chosen one
                assert forall|k: int| 0 <= k < 81 implies (#[trigger] assigned[k]).len() > 0 by {
                    if k != pi as int {
                        assert(assigned[k] == dom_seq(domain)[k]);
                        if dom_seq(domain)[k].len() != 1 {
                            assert(dom_seq(domain)[pi as int].len() <= dom_seq(domain)[k].len());
                        }
                    }
                }
            }
            let arcs = clone_arcs(&self.constraining_arcs);
            proof {
                assert forall|m: int| 0 <= m < arcs@.len() implies is_neighbor(
                    (#[trigger] arcs@[m]).0,
                    arcs@[m].1,
                ) by {
                    assert(self.constraining_arcs@.contains(arcs@[m]));
                }
            }
            let success = self.inference(&mut domain_copy, arcs);
            let ghost post = dom_seq(domain_copy);
            if success {
                proof {
                    // the recursion measure drops: every resolved variable
                    // stays resolved and the chosen one becomes resolved
                    assert forall|k: int|
                        0 <= k < 81 && (#[trigger] dom_seq(domain)[k]).len() == 1 implies
                        post[k].len() == 1 by {
                        assert(assigned[k].len() == 1);
                        assert(post[k].len() > 0);
                        lemma_singleton_stays(post, assigned, k);
                    }
                    assert(post[pi as int].len() == 1) by {
                        assert(assigned[pi as int].len() == 1);
                        assert(post[pi as int].len() > 0);
                        lemma_singleton_stays(post, assigned, pi as int);
                    }
                    lemma_num_unassigned_lt(post, dom_seq(domain), 81, pi as int);
                }
                let result = self.backtrack(domain_copy);
                if result.is_some() {
                    proof {
                        let sol = result.unwrap();
                        // containment chains back to the caller's store
                        assert forall|k: int, v: i32|
                            0 <= k < 81 && #[trigger] dom_seq(sol)[k].contains(v) implies dom_seq(
                            domain,
                        )[k].contains(v) by {
                            assert(post[k].contains(v));
                            assert(assigned[k].contains(v));
                            if k == pi as int {
                                assert(v == value);
                            }
                        }
                        // the branch store was propagated over the full arc
                        // list, so the solution is consistent on every arc
                        assert(fully_consistent::<P>(post));
                        if all_assigned(post) {
                            assert(dom_seq(sol) == post);
                        }
                    }
                    return result;
                }
                proof {
                    // this candidate failed: no consistent assignment inside
                    // the propagated branch store, so none inside the input
                    // store picks this value for the chosen variable
                    lemma_branch_excludes_value::<P>(
                        dom_seq(domain),
                        assigned,
                        post,
                        pi as int,
                        value,
                        candidates@,
                        vi as int,
                    );
                }
            } else {
                proof {
                    // propagation emptied a domain, so no consistent total
                    // assignment survives in the branch store
                    assert forall|a: Seq<i32>|
                        !(consistent_assignment::<P>(a) && #[trigger] assignment_in(
                            post,
                            a,
                        )) by {
                        if assignment_in(post, a) {
                            let i = choose|i: int|
                                0 <= i < 81 && (#[trigger] post[i]).len() == 0;
                            assert(post[i].contains(a[i]));
                        }
                    }
                    lemma_branch_excludes_value::<P>(
                        dom_seq(domain),
                        assigned,
                        post,
                        pi as int,
                        value,
                        candidates@,
                        vi as int,
                    );
                }
            }
            vi += 1;
        }
        proof {
            assert forall|a: Seq<i32>|
                !(consistent_assignment::<P>(a) && #[trigger] assignment_in(
                    dom_seq(domain),
                    a,
                )) by {
                if consistent_assignment::<P>(a) && assignment_in(dom_seq(domain), a) {
                    assert(dom_seq(domain)[pi as int].contains(a[pi as int]));
                    assert(candidates@.take(vi as int) =~= candidates@);
                    assert(!candidates@.contains(a[pi as int]));
                }
            }
        }
        Option::None
    }

    /// The minimum-remaining-values choice: the unresolved variable (domain
    /// size != 1) with the smallest domain, ties broken by the smallest
    /// row-major position; `(0, 0)` when every variable is resolved.
    pub fn minimum_remaining_values(&self, domain: &Vec<Vec<i32>>) -> (r: (usize, usize))
        requires
            wf_store(dom_seq(*domain)),
        ensures
            valid_cell(r),
            all_assigned(dom_seq(*domain)) ==> r == (0usize, 0usize),
            !all_assigned(dom_seq(*domain)) ==> {
                &&& dom_seq(*domain)[cell_idx(r)].len() != 1
                &&& forall|i: int|
                    0 <= i < 81 && (#[trigger] dom_seq(*domain)[i]).len() != 1 ==> dom_seq(
                        *domain,
                    )[cell_idx(r)].len() <= dom_seq(*domain)[i].len()
                &&& forall|i: int|
                    0 <= i < cell_idx(r) && (#[trigger] dom_seq(*domain)[i]).len() != 1 ==> dom_seq(
                        *domain,
                    )[cell_idx(r)].len() < dom_seq(*domain)[i].len()
            },
    {
        let mut best: usize = 0;
        let mut found = false;
        let mut k: usize = 0;
        while k < 81
            invariant
                k <= 81,
                dom_seq(*domain).len() == 81,
                !found ==> best == 0,
                !found ==> forall|i: int| 0 <= i < k ==> (#[trigger] dom_seq(*domain)[i]).len()
                    == 1,
                found ==> best < k && dom_seq(*domain)[best as int].len() != 1,
                found ==> forall|i: int|
                    0 <= i < k && (#[trigger] dom_seq(*domain)[i]).len() != 1 ==> dom_seq(
                        *domain,
                    )[best as int].len() <= dom_seq(*domain)[i].len(),
                found ==> forall|i: int|
                    0 <= i < best && (#[trigger] dom_seq(*domain)[i]).len() != 1 ==> dom_seq(
                        *domain,
                    )[best as int].len() < dom_seq(*domain)[i].len(),
            decreases 81 - k,
        {
            let len_k = domain[k].len();
            if len_k != 1 && (!found || len_k < domain[best].len()) {
                best = k;
                found = true;
            }
            k += 1;
        }
        proof {
            lemma_fundamental_div_mod(best as int, 9);
            lemma_mod_pos_bound(best as int, 9);
            let r = (((best / 9) as usize), ((best % 9) as usize));
            assert(cell_idx(r) == best as int);
            if !found {
                assert(all_assigned(dom_seq(*domain)));
                lemma_fundamental_div_mod_converse(0, 9, 0, 0);
            }
            if all_assigned(dom_seq(*domain)) && found {
                assert(dom_seq(*domain)[best as int].len() == 1);
                assert(false);
            }
        }
        (best / 9, best % 9)
    }
}

} // verus!
