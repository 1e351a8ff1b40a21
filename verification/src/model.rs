//! The data model of the solver: grid cells, domains, domain stores and the
//! compatibility predicate, together with the spec-level functions and lemmas
//! that the component contracts are stated over.

use vstd::prelude::*;
use vstd::seq_lib::*;

verus! {

/// A grid coordinate `(row, col)`, both in `[0, 9)`.
pub open spec fn valid_cell(c: (usize, usize)) -> bool {
    c.0 < 9 && c.1 < 9
}

/// The index of a cell in a row-major store of all 81 cells.
pub open spec fn cell_idx(c: (usize, usize)) -> int {
    c.0 * 9 + c.1
}

/// Two valid cells share the same 3x3 box.
pub open spec fn same_box(a: (usize, usize), b: (usize, usize)) -> bool {
    a.0 / 3 == b.0 / 3 && a.1 / 3 == b.1 / 3
}

/// `b` is constrained by `a`: a distinct valid cell sharing a row, a column
/// or a box with `a`.
pub open spec fn is_neighbor(a: (usize, usize), b: (usize, usize)) -> bool {
    valid_cell(a) && valid_cell(b) && a != b && (a.0 == b.0 || a.1 == b.1 || same_box(a, b))
}

pub proof fn lemma_cell_idx_injective(a: (usize, usize), b: (usize, usize))
    requires
        valid_cell(a),
        valid_cell(b),
        cell_idx(a) == cell_idx(b),
    ensures
        a == b,
{
    assert(a.0 == b.0 && a.1 == b.1) by (nonlinear_arith)
        requires
            a.0 < 9 && a.1 < 9 && b.0 < 9 && b.1 < 9,
            a.0 * 9 + a.1 == b.0 * 9 + b.1,
    ;
}

pub proof fn lemma_cell_idx_bounds(c: (usize, usize))
    requires
        valid_cell(c),
    ensures
        0 <= cell_idx(c) < 81,
{
}

/// The candidate values a variable starts with: 1 through 9.
pub open spec fn init_domain() -> Seq<i32> {
    seq![1i32, 2i32, 3i32, 4i32, 5i32, 6i32, 7i32, 8i32, 9i32]
}

/// A well-formed domain: candidate values are unique and lie in 1..=9.
pub open spec fn valid_domain(d: Seq<i32>) -> bool {
    d.no_duplicates() && forall|i: int| 0 <= i < d.len() ==> 1 <= #[trigger] d[i] <= 9
}

/// The mathematical view of a domain store: one candidate sequence per cell.
pub open spec fn dom_seq(s: Vec<Vec<i32>>) -> Seq<Seq<i32>> {
    s@.map_values(|d: Vec<i32>| d@)
}

/// A well-formed store: one well-formed domain for each of the 81 cells.
pub open spec fn wf_store(s: Seq<Seq<i32>>) -> bool {
    s.len() == 81 && forall|i: int| 0 <= i < 81 ==> valid_domain(#[trigger] s[i])
}

/// Every domain has been narrowed to a single candidate.
pub open spec fn all_assigned(s: Seq<Seq<i32>>) -> bool {
    forall|i: int| 0 <= i < 81 ==> (#[trigger] s[i]).len() == 1
}

/// Every domain of `a` is contained (as a set of values) in the matching
/// domain of `b`.
pub open spec fn store_subset(a: Seq<Seq<i32>>, b: Seq<Seq<i32>>) -> bool {
    forall|i: int, v: i32| 0 <= i < 81 && #[trigger] a[i].contains(v) ==> b[i].contains(v)
}

/// The binary compatibility predicate of the constraint model.  An arc
/// `(start, end)` is satisfied when the pair of values assigned to its two
/// ends is allowed.  `check` is the executable form of the spec-level
/// `allows`.
pub trait ConstraintPredicate: Sized {
    spec fn allows(v1: i32, v2: i32) -> bool;

    fn check(&self, v1: i32, v2: i32) -> (r: bool)
        ensures
            r == Self::allows(v1, v2),
    ;
}

/// The standard Sudoku rule: two constrained cells may not hold equal values.
pub struct NotEqual;

impl ConstraintPredicate for NotEqual {
    open spec fn allows(v1: i32, v2: i32) -> bool {
        v1 != v2
    }

    fn check(&self, v1: i32, v2: i32) -> (r: bool) {
        v1 != v2
    }
}

/// Value `v` at the start of an arc has support: some candidate at the end
/// is compatible with it.
pub open spec fn supported<P: ConstraintPredicate>(v: i32, end_dom: Seq<i32>) -> bool {
    exists|j: int| 0 <= j < end_dom.len() && P::allows(v, #[trigger] end_dom[j])
}

/// The arc from `a` to `b` is consistent: every candidate of `a` has support
/// in the domain of `b`.
pub open spec fn arc_consistent<P: ConstraintPredicate>(
    s: Seq<Seq<i32>>,
    a: (usize, usize),
    b: (usize, usize),
) -> bool {
    forall|i: int|
        0 <= i < s[cell_idx(a)].len() ==> supported::<P>(
            #[trigger] s[cell_idx(a)][i],
            s[cell_idx(b)],
        )
}

/// Every arc between neighboring cells is consistent.
pub open spec fn fully_consistent<P: ConstraintPredicate>(s: Seq<Seq<i32>>) -> bool {
    forall|a: (usize, usize), b: (usize, usize)|
        #[trigger] is_neighbor(a, b) ==> arc_consistent::<P>(s, a, b)
}

/// A total assignment (one value per cell) that satisfies the predicate on
/// every pair of neighboring cells.
pub open spec fn consistent_assignment<P: ConstraintPredicate>(a: Seq<i32>) -> bool {
    a.len() == 81 && forall|c1: (usize, usize), c2: (usize, usize)|
        #[trigger] is_neighbor(c1, c2) ==> P::allows(a[cell_idx(c1)], a[cell_idx(c2)])
}

/// The assignment picks, for every cell, a value still present in the store.
pub open spec fn assignment_in(s: Seq<Seq<i32>>, a: Seq<i32>) -> bool {
    forall|i: int| 0 <= i < 81 ==> (#[trigger] s[i]).contains(a[i])
}

/// What one revision of an arc leaves behind: the candidates of the start
/// domain that have support in the end domain, in their original order.
pub open spec fn keep_supported<P: ConstraintPredicate>(d: Seq<i32>, end_dom: Seq<i32>) -> Seq<
    i32,
>
    decreases d.len(),
{
    if d.len() == 0 {
        Seq::empty()
    } else {
        let rest = keep_supported::<P>(d.drop_last(), end_dom);
        if supported::<P>(d.last(), end_dom) {
            rest.push(d.last())
        } else {
            rest
        }
    }
}

pub proof fn lemma_keep_supported_membership<P: ConstraintPredicate>(d: Seq<i32>, end_dom: Seq<i32>)
    ensures
        forall|v: i32|
            #[trigger] keep_supported::<P>(d, end_dom).contains(v) <==> d.contains(v)
                && supported::<P>(v, end_dom),
    decreases d.len(),
{
    if d.len() == 0 {
    } else {
        lemma_keep_supported_membership::<P>(d.drop_last(), end_dom);
        assert forall|v: i32| d.contains(v) && supported::<P>(v, end_dom) implies #[trigger]
            keep_supported::<P>(d, end_dom).contains(v) by {
            if v == d.last() {
                let k = keep_supported::<P>(d, end_dom);
                assert(k[k.len() - 1] == v);
            } else {
                let i = choose|i: int| 0 <= i < d.len() && d[i] == v;
                assert(d.drop_last()[i] == v);
                assert(d.drop_last().contains(v));
                let rest = keep_supported::<P>(d.drop_last(), end_dom);
                assert(rest.contains(v));
                let j = choose|j: int| 0 <= j < rest.len() && rest[j] == v;
                assert(keep_supported::<P>(d, end_dom)[j] == v);
            }
        }
        assert forall|v: i32| #[trigger] keep_supported::<P>(d, end_dom).contains(v) implies d
            .contains(v) && supported::<P>(v, end_dom) by {
            let k = keep_supported::<P>(d, end_dom);
            let j = choose|j: int| 0 <= j < k.len() && k[j] == v;
            let rest = keep_supported::<P>(d.drop_last(), end_dom);
            if j < rest.len() {
                assert(rest.contains(v));
                assert(d.drop_last().contains(v));
                let i = choose|i: int| 0 <= i < d.drop_last().len() && d.drop_last()[i] == v;
                assert(d[i] == v);
            } else {
                assert(v == d.last());
                assert(d[d.len() - 1] == v);
            }
        }
    }
}

pub proof fn lemma_keep_supported_nodup<P: ConstraintPredicate>(d: Seq<i32>, end_dom: Seq<i32>)
    requires
        d.no_duplicates(),
    ensures
        keep_supported::<P>(d, end_dom).no_duplicates(),
    decreases d.len(),
{
    if d.len() == 0 {
    } else {
        assert(d.drop_last().no_duplicates());
        lemma_keep_supported_nodup::<P>(d.drop_last(), end_dom);
        lemma_keep_supported_membership::<P>(d.drop_last(), end_dom);
        let rest = keep_supported::<P>(d.drop_last(), end_dom);
        if supported::<P>(d.last(), end_dom) {
            assert(!d.drop_last().contains(d.last())) by {
                if d.drop_last().contains(d.last()) {
                    let i = choose|i: int|
                        0 <= i < d.drop_last().len() && d.drop_last()[i] == d.last();
                    assert(d[i] == d[d.len() - 1]);
                }
            }
            assert(!rest.contains(d.last()));
            assert(rest.push(d.last()).no_duplicates());
        }
    }
}

/// An already-consistent arc is left unchanged by a revision.
pub proof fn lemma_keep_supported_all<P: ConstraintPredicate>(d: Seq<i32>, end_dom: Seq<i32>)
    requires
        forall|i: int| 0 <= i < d.len() ==> supported::<P>(#[trigger] d[i], end_dom),
    ensures
        keep_supported::<P>(d, end_dom) == d,
    decreases d.len(),
{
    if d.len() == 0 {
        assert(keep_supported::<P>(d, end_dom) =~= d);
    } else {
        assert(forall|i: int|
            0 <= i < d.drop_last().len() ==> supported::<P>(#[trigger] d.drop_last()[i], end_dom));
        lemma_keep_supported_all::<P>(d.drop_last(), end_dom);
        assert(supported::<P>(d.last(), end_dom)) by {
            assert(d[d.len() - 1] == d.last());
        }
        assert(keep_supported::<P>(d, end_dom) =~= d);
    }
}

pub proof fn lemma_keep_supported_len<P: ConstraintPredicate>(d: Seq<i32>, end_dom: Seq<i32>)
    ensures
        keep_supported::<P>(d, end_dom).len() <= d.len(),
        (exists|i: int| 0 <= i < d.len() && !supported::<P>(#[trigger] d[i], end_dom))
            ==> keep_supported::<P>(d, end_dom).len() < d.len(),
    decreases d.len(),
{
    if d.len() == 0 {
    } else {
        lemma_keep_supported_len::<P>(d.drop_last(), end_dom);
        if exists|i: int| 0 <= i < d.len() && !supported::<P>(#[trigger] d[i], end_dom) {
            let i = choose|i: int| 0 <= i < d.len() && !supported::<P>(#[trigger] d[i], end_dom);
            if i < d.len() - 1 {
                assert(d.drop_last()[i] == d[i]);
                assert(exists|j: int|
                    0 <= j < d.drop_last().len() && !supported::<P>(
                        #[trigger] d.drop_last()[j],
                        end_dom,
                    ));
            } else {
                assert(!supported::<P>(d.last(), end_dom));
            }
        }
    }
}

/// A duplicate-free sequence contained in another duplicate-free sequence is
/// no longer than it; strictly shorter when some element is missing.
pub proof fn lemma_nodup_subset_len(a: Seq<i32>, b: Seq<i32>)
    requires
        a.no_duplicates(),
        b.no_duplicates(),
        forall|v: i32| #[trigger] a.contains(v) ==> b.contains(v),
    ensures
        a.len() <= b.len(),
        (exists|v: i32| #[trigger] b.contains(v) && !a.contains(v)) ==> a.len() < b.len(),
{
    a.unique_seq_to_set();
    b.unique_seq_to_set();
    assert(a.to_set().subset_of(b.to_set()));
    vstd::set_lib::lemma_len_subset(a.to_set(), b.to_set());
    if exists|v: i32| #[trigger] b.contains(v) && !a.contains(v) {
        let v = choose|v: i32| #[trigger] b.contains(v) && !a.contains(v);
        a.to_set().lemma_subset_not_in_lt(b.to_set(), v);
    }
}

/// A non-empty well-formed domain contained in a resolved (one-candidate)
/// domain is itself resolved.
pub proof fn lemma_singleton_stays(a: Seq<Seq<i32>>, b: Seq<Seq<i32>>, k: int)
    requires
        0 <= k < 81,
        wf_store(a),
        wf_store(b),
        store_subset(a, b),
        a[k].len() > 0,
        b[k].len() == 1,
    ensures
        a[k].len() == 1,
{
    assert(forall|v: i32| #[trigger] a[k].contains(v) ==> b[k].contains(v));
    lemma_nodup_subset_len(a[k], b[k]);
}

/// The total number of candidates across the first `n` cells of a store.
pub open spec fn total_size(s: Seq<Seq<i32>>, n: int) -> nat
    decreases n,
{
    if n <= 0 {
        0
    } else {
        total_size(s, n - 1) + s[n - 1].len()
    }
}

pub proof fn lemma_total_size_le(a: Seq<Seq<i32>>, b: Seq<Seq<i32>>, n: int)
    requires
        forall|i: int| 0 <= i < n ==> (#[trigger] a[i]).len() <= b[i].len(),
    ensures
        total_size(a, n) <= total_size(b, n),
    decreases n,
{
    if n > 0 {
        lemma_total_size_le(a, b, n - 1);
    }
}

pub proof fn lemma_total_size_lt(a: Seq<Seq<i32>>, b: Seq<Seq<i32>>, n: int, j: int)
    requires
        forall|i: int| 0 <= i < n ==> (#[trigger] a[i]).len() <= b[i].len(),
        0 <= j < n,
        a[j].len() < b[j].len(),
    ensures
        total_size(a, n) < total_size(b, n),
    decreases n,
{
    if j == n - 1 {
        lemma_total_size_le(a, b, n - 1);
    } else {
        lemma_total_size_lt(a, b, n - 1, j);
    }
}

/// How many of the first `n` cells are still unassigned (domain size != 1).
pub open spec fn num_unassigned(s: Seq<Seq<i32>>, n: int) -> nat
    decreases n,
{
    if n <= 0 {
        0
    } else {
        num_unassigned(s, n - 1) + if s[n - 1].len() != 1 {
            1nat
        } else {
            0nat
        }
    }
}

pub proof fn lemma_num_unassigned_le(a: Seq<Seq<i32>>, b: Seq<Seq<i32>>, n: int)
    requires
        forall|i: int| 0 <= i < n && (#[trigger] b[i]).len() == 1 ==> a[i].len() == 1,
    ensures
        num_unassigned(a, n) <= num_unassigned(b, n),
    decreases n,
{
    if n > 0 {
        lemma_num_unassigned_le(a, b, n - 1);
    }
}

pub proof fn lemma_num_unassigned_lt(a: Seq<Seq<i32>>, b: Seq<Seq<i32>>, n: int, j: int)
    requires
        forall|i: int| 0 <= i < n && (#[trigger] b[i]).len() == 1 ==> a[i].len() == 1,
        0 <= j < n,
        a[j].len() == 1,
        b[j].len() != 1,
    ensures
        num_unassigned(a, n) < num_unassigned(b, n),
    decreases n,
{
    if j == n - 1 {
        lemma_num_unassigned_le(a, b, n - 1);
    } else {
        lemma_num_unassigned_lt(a, b, n - 1, j);
    }
}

/// The constraint-satisfaction problem: the 81 grid variables, the current
/// domain of each, the compatibility predicate and the full list of
/// directed constraint arcs.
pub struct Csp<P: ConstraintPredicate> {
    pub variables: Vec<(usize, usize)>,
    pub domains: Vec<Vec<i32>>,
    pub constraint_filter: P,
    pub constraining_arcs: Vec<((usize, usize), (usize, usize))>,
}

impl<P: ConstraintPredicate> Csp<P> {
    /// The structural invariant established by construction: well-formed
    /// domains, the variables laid out in row-major order, and the arc list
    /// holding exactly the neighbor pairs — all 1620 of them.
    pub open spec fn wf(self) -> bool {
        &&& wf_store(dom_seq(self.domains))
        &&& self.variables@.len() == 81
        &&& forall|k: int|
            0 <= k < 81 ==> #[trigger] self.variables@[k] == (((k / 9) as usize), (
            (k % 9) as usize))
        &&& self.constraining_arcs@.len() == 1620
        &&& forall|x: ((usize, usize), (usize, usize))|
            #[trigger] self.constraining_arcs@.contains(x) ==> is_neighbor(x.0, x.1)
        &&& forall|a: (usize, usize), b: (usize, usize)|
            #[trigger] is_neighbor(a, b) ==> self.constraining_arcs@.contains((a, b))
    }
}

} // verus!
