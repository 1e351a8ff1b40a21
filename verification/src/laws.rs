//! Global laws of the solver, stated and proved over the spec-level model.

use vstd::prelude::*;
use vstd::seq_lib::seq_to_set_is_finite;
use vstd::set_lib::{lemma_int_range, lemma_subset_equality, set_int_range};
use vstd::arithmetic::div_mod::{
    lemma_fundamental_div_mod, lemma_fundamental_div_mod_converse, lemma_mod_pos_bound,
};
use crate::model::{
    all_assigned, arc_consistent, cell_idx, fully_consistent, is_neighbor, keep_supported,
    lemma_cell_idx_bounds, lemma_keep_supported_all, supported, valid_cell, wf_store,
    ConstraintPredicate,
};

verus! {

/// The values a fully assigned store gives to a sequence of cells.
pub open spec fn values_at(s: Seq<Seq<i32>>, cells: Seq<(usize, usize)>) -> Seq<int> {
    cells.map_values(|c: (usize, usize)| s[cell_idx(c)][0] as int)
}

/// The nine cells of row `r`.
pub open spec fn row_cells(r: int) -> Seq<(usize, usize)> {
    Seq::new(9, |c: int| ((r as usize), (c as usize)))
}

/// The nine cells of column `c`.
pub open spec fn col_cells(c: int) -> Seq<(usize, usize)> {
    Seq::new(9, |r: int| ((r as usize), (c as usize)))
}

/// The nine cells of box `b`, boxes numbered row-major.
pub open spec fn box_cells(b: int) -> Seq<(usize, usize)> {
    Seq::new(9, |t: int| (((3 * (b / 3) + t / 3) as usize), ((3 * (b % 3) + t % 3) as usize)))
}

/// Nine pairwise-constrained cells of a fully assigned, arc-consistent
/// store carry nine values that cover 1 through 9 exactly, provided the
/// predicate never allows a value beside itself.
pub proof fn lemma_group_covers_all_values<P: ConstraintPredicate>(
    s: Seq<Seq<i32>>,
    cells: Seq<(usize, usize)>,
)
    requires
        wf_store(s),
        all_assigned(s),
        fully_consistent::<P>(s),
        forall|v: i32, w: i32| #[trigger] P::allows(v, w) ==> v != w,
        cells.len() == 9,
        forall|k: int| 0 <= k < 9 ==> valid_cell(#[trigger] cells[k]),
        forall|k1: int, k2: int|
            0 <= k1 < 9 && 0 <= k2 < 9 && k1 != k2 ==> is_neighbor(cells[k1], cells[k2]),
    ensures
        values_at(s, cells).to_set() == set_int_range(1, 10),
{
    let vals = values_at(s, cells);
    assert(vals.len() == 9);
    assert forall|k1: int, k2: int|
        0 <= k1 < 9 && 0 <= k2 < 9 && k1 != k2 implies vals[k1] != vals[k2] by {
        let c1 = cells[k1];
        let c2 = cells[k2];
        assert(is_neighbor(c1, c2));
        assert(arc_consistent::<P>(s, c1, c2));
        let i1 = cell_idx(c1);
        let i2 = cell_idx(c2);
        lemma_cell_idx_bounds(c1);
        lemma_cell_idx_bounds(c2);
        assert(s[i1].len() == 1);
        assert(s[i2].len() == 1);
        assert(supported::<P>(s[i1][0], s[i2]));
        let j = choose|j: int| 0 <= j < s[i2].len() && P::allows(s[i1][0], s[i2][j]);
        assert(j == 0);
        assert(s[i1][0] != s[i2][0]);
    }
    assert(vals.no_duplicates());
    vals.unique_seq_to_set();
    seq_to_set_is_finite(vals);
    lemma_int_range(1, 10);
    assert forall|v: int| vals.to_set().contains(v) implies set_int_range(1, 10).contains(v) by {
        assert(vals.contains(v));
        let k = choose|k: int| 0 <= k < vals.len() && vals[k] == v;
        lemma_cell_idx_bounds(cells[k]);
        assert(1 <= s[cell_idx(cells[k])][0] <= 9);
    }
    assert(vals.to_set().subset_of(set_int_range(1, 10)));
    lemma_subset_equality(vals.to_set(), set_int_range(1, 10));
    assert(vals.to_set() =~= set_int_range(1, 10));
}

/// Every row of a solution carries each value 1 through 9 exactly once.
pub proof fn lemma_solution_rows<P: ConstraintPredicate>(s: Seq<Seq<i32>>, r: int)
    requires
        wf_store(s),
        all_assigned(s),
        fully_consistent::<P>(s),
        forall|v: i32, w: i32| #[trigger] P::allows(v, w) ==> v != w,
        0 <= r < 9,
    ensures
        values_at(s, row_cells(r)).to_set() == set_int_range(1, 10),
{
    let cells = row_cells(r);
    assert forall|k1: int, k2: int|
        0 <= k1 < 9 && 0 <= k2 < 9 && k1 != k2 implies is_neighbor(cells[k1], cells[k2]) by {
        assert(cells[k1] == ((r as usize), (k1 as usize)));
        assert(cells[k2] == ((r as usize), (k2 as usize)));
    }
    lemma_group_covers_all_values::<P>(s, cells);
}

/// Every column of a solution carries each value 1 through 9 exactly once.
pub proof fn lemma_solution_cols<P: ConstraintPredicate>(s: Seq<Seq<i32>>, c: int)
    requires
        wf_store(s),
        all_assigned(s),
        fully_consistent::<P>(s),
        forall|v: i32, w: i32| #[trigger] P::allows(v, w) ==> v != w,
        0 <= c < 9,
    ensures
        values_at(s, col_cells(c)).to_set() == set_int_range(1, 10),
{
    let cells = col_cells(c);
    assert forall|k1: int, k2: int|
        0 <= k1 < 9 && 0 <= k2 < 9 && k1 != k2 implies is_neighbor(cells[k1], cells[k2]) by {
        assert(cells[k1] == ((k1 as usize), (c as usize)));
        assert(cells[k2] == ((k2 as usize), (c as usize)));
    }
    lemma_group_covers_all_values::<P>(s, cells);
}

/// Every 3x3 box of a solution carries each value 1 through 9 exactly once.
pub proof fn lemma_solution_boxes<P: ConstraintPredicate>(s: Seq<Seq<i32>>, b: int)
    requires
        wf_store(s),
        all_assigned(s),
        fully_consistent::<P>(s),
        forall|v: i32, w: i32| #[trigger] P::allows(v, w) ==> v != w,
        0 <= b < 9,
    ensures
        values_at(s, box_cells(b)).to_set() == set_int_range(1, 10),
{
    let cells = box_cells(b);
    lemma_fundamental_div_mod(b, 3);
    lemma_mod_pos_bound(b, 3);
    assert forall|k: int| 0 <= k < 9 implies valid_cell(#[trigger] cells[k]) by {
        lemma_fundamental_div_mod(k, 3);
        lemma_mod_pos_bound(k, 3);
    }
    assert forall|k1: int, k2: int|
        0 <= k1 < 9 && 0 <= k2 < 9 && k1 != k2 implies is_neighbor(cells[k1], cells[k2]) by {
        lemma_fundamental_div_mod(k1, 3);
        lemma_mod_pos_bound(k1, 3);
        lemma_fundamental_div_mod(k2, 3);
        lemma_mod_pos_bound(k2, 3);
        let r1 = 3 * (b / 3) + k1 / 3;
        let c1 = 3 * (b % 3) + k1 % 3;
        let r2 = 3 * (b / 3) + k2 / 3;
        let c2 = 3 * (b % 3) + k2 % 3;
        lemma_fundamental_div_mod_converse(r1, 3, b / 3, k1 / 3);
        lemma_fundamental_div_mod_converse(c1, 3, b % 3, k1 % 3);
        lemma_fundamental_div_mod_converse(r2, 3, b / 3, k2 / 3);
        lemma_fundamental_div_mod_converse(c2, 3, b % 3, k2 % 3);
        assert(r1 / 3 == r2 / 3 && c1 / 3 == c2 / 3);
        if cells[k1] == cells[k2] {
            assert(k1 / 3 == k2 / 3 && k1 % 3 == k2 % 3);
            assert(k1 == k2);
            assert(false);
        }
    }
    lemma_group_covers_all_values::<P>(s, cells);
}

/// Revising an arc that is already consistent removes nothing, so a second
/// revision of the same arc removes nothing either: on a consistent arc
/// the revision reports no change both times and the store is untouched.
pub proof fn lemma_revise_idempotent<P: ConstraintPredicate>(
    s: Seq<Seq<i32>>,
    a: (usize, usize),
    b: (usize, usize),
)
    requires
        wf_store(s),
        valid_cell(a),
        valid_cell(b),
        arc_consistent::<P>(s, a, b),
    ensures
        keep_supported::<P>(s[cell_idx(a)], s[cell_idx(b)]) == s[cell_idx(a)],
        s.update(cell_idx(a), keep_supported::<P>(s[cell_idx(a)], s[cell_idx(b)])) == s,
{
    lemma_cell_idx_bounds(a);
    lemma_cell_idx_bounds(b);
    lemma_keep_supported_all::<P>(s[cell_idx(a)], s[cell_idx(b)]);
    assert(s.update(cell_idx(a), keep_supported::<P>(s[cell_idx(a)], s[cell_idx(b)])) =~= s);
}

} // verus!
