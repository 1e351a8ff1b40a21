//! The Sudoku adjacency topology: the neighbor set of a cell (its box, row
//! and column) and the global list of directed constraint arcs.

use vstd::prelude::*;
use vstd::arithmetic::div_mod::{
    lemma_fundamental_div_mod, lemma_fundamental_div_mod_converse, lemma_mod_pos_bound,
};
use crate::model::{
    cell_idx, is_neighbor, lemma_cell_idx_bounds, lemma_cell_idx_injective, same_box, valid_cell,
    ConstraintPredicate, Csp,
};

verus! {

proof fn lemma_base3(q: int, k: int)
    requires
        0 <= k < 3,
    ensures
        (3 * q + k) / 3 == q,
        (3 * q + k) % 3 == k,
{
    lemma_fundamental_div_mod_converse(3 * q + k, 3, q, k);
}

proof fn lemma_split3(v: int)
    requires
        0 <= v < 9,
    ensures
        v == 3 * (v / 3) + v % 3,
        0 <= v % 3 < 3,
        0 <= v / 3 <= 2,
{
    lemma_fundamental_div_mod(v, 3);
    lemma_mod_pos_bound(v, 3);
}

/// The `u`-th cell (row-major, `0 <= u < 9`) of the box whose corner is
/// `(bx, by)`.
spec fn box_cell(bx: int, by: int, u: int) -> (usize, usize) {
    (((bx + u / 3) as usize), ((by + u % 3) as usize))
}

/// Enumerates 0..9 leaving out `s`.
spec fn skip_at(s: int, t: int) -> int {
    if t < s {
        t
    } else {
        t + 1
    }
}

/// Enumerates the six indices of 0..9 outside the block `[b, b + 3)`.
spec fn out_of_block(b: int, d: int) -> int {
    if d < b {
        d
    } else {
        d + 3
    }
}

impl<P: ConstraintPredicate> Csp<P> {
    /// The neighbor set of a cell: the 8 other cells of its box, the 6
    /// remaining cells of its row and the 6 remaining cells of its column —
    /// 20 distinct cells, never the cell itself, and nothing else.
    #[verifier::rlimit(60)]
    pub fn get_neighboring_arcs(&self, variable: &(usize, usize)) -> (r: Vec<(usize, usize)>)
        requires
            valid_cell(*variable),
        ensures
            r@.len() == 20,
            r@.no_duplicates(),
            forall|c: (usize, usize)| #[trigger] r@.contains(c) <==> is_neighbor(*variable, c),
    {
        let x = variable.0;
        let y = variable.1;
        proof {
            lemma_split3(x as int);
            lemma_split3(y as int);
        }
        let bx = x / 3 * 3;
        let by = y / 3 * 3;
        let s = (x - bx) * 3 + (y - by);
        let mut r: Vec<(usize, usize)> = Vec::new();
        let mut t: usize = 0;
        while t < 8
            invariant
                valid_cell(*variable),
                x == variable.0,
                y == variable.1,
                bx == 3 * ((x as int) / 3),
                by == 3 * ((y as int) / 3),
                s as int == 3 * ((x as int) % 3) + (y as int) % 3,
                t <= 8,
                r@.len() == t,
                forall|i: int|
                    0 <= i < t ==> #[trigger] r@[i] == box_cell(
                        bx as int,
                        by as int,
                        skip_at(s as int, i),
                    ),
            decreases 8 - t,
        {
            let u = if t < s {
                t
            } else {
                t + 1
            };
            proof {
                lemma_split3(u as int);
            }
            r.push((bx + u / 3, by + u % 3));
            t += 1;
        }
        let mut d: usize = 0;
        while d < 6
            invariant
                valid_cell(*variable),
                x == variable.0,
                y == variable.1,
                bx == 3 * ((x as int) / 3),
                by == 3 * ((y as int) / 3),
                s as int == 3 * ((x as int) % 3) + (y as int) % 3,
                d <= 6,
                r@.len() == 8 + d,
                forall|i: int|
                    0 <= i < 8 ==> #[trigger] r@[i] == box_cell(
                        bx as int,
                        by as int,
                        skip_at(s as int, i),
                    ),
                forall|i: int|
                    8 <= i < 8 + d ==> #[trigger] r@[i] == (
                        x,
                        (out_of_block(by as int, i - 8) as usize),
                    ),
            decreases 6 - d,
        {
            let c = if d < by {
                d
            } else {
                d + 3
            };
            r.push((x, c));
            d += 1;
        }
        let mut e: usize = 0;
        while e < 6
            invariant
                valid_cell(*variable),
                x == variable.0,
                y == variable.1,
                bx == 3 * ((x as int) / 3),
                by == 3 * ((y as int) / 3),
                s as int == 3 * ((x as int) % 3) + (y as int) % 3,
                e <= 6,
                r@.len() == 14 + e,
                forall|i: int|
                    0 <= i < 8 ==> #[trigger] r@[i] == box_cell(
                        bx as int,
                        by as int,
                        skip_at(s as int, i),
                    ),
                forall|i: int|
                    8 <= i < 14 ==> #[trigger] r@[i] == (
                        x,
                        (out_of_block(by as int, i - 8) as usize),
                    ),
                forall|i: int|
                    14 <= i < 14 + e ==> #[trigger] r@[i] == (
                        (out_of_block(bx as int, i - 14) as usize),
                        y,
                    ),
            decreases 6 - e,
        {
            let c = if e < bx {
                e
            } else {
                e + 3
            };
            r.push((c, y));
            e += 1;
        }
        proof {
            let xi = x as int;
            let yi = y as int;
            let bxi = bx as int;
            let byi = by as int;
            let si = s as int;
            // every listed cell is a neighbor
            assert forall|i: int| 0 <= i < 20 implies is_neighbor(*variable, #[trigger] r@[i]) by {
                if i < 8 {
                    let u = skip_at(si, i);
                    lemma_split3(u);
                    lemma_base3(xi / 3, u / 3);
                    lemma_base3(yi / 3, u % 3);
                    let c = r@[i];
                    assert(c.0 as int == bxi + u / 3 && c.1 as int == byi + u % 3);
                    assert(valid_cell(c));
                    assert((c.0 as int) / 3 == xi / 3 && (c.1 as int) / 3 == yi / 3);
                    if c == *variable {
                        assert(u / 3 == xi % 3 && u % 3 == yi % 3);
                        assert(u == si);
                        assert(false);
                    }
                    assert(same_box(*variable, c));
                } else if i < 14 {
                    let c = r@[i];
                    let col = out_of_block(byi, i - 8);
                    assert(c == (x, col as usize));
                    assert(0 <= col < 9);
                    assert(col < byi || col >= byi + 3);
                    assert(byi <= yi < byi + 3);
                    assert(c != *variable);
                } else {
                    let c = r@[i];
                    let row = out_of_block(bxi, i - 14);
                    assert(c == ((row as usize), y));
                    assert(0 <= row < 9);
                    assert(row < bxi || row >= bxi + 3);
                    assert(bxi <= xi < bxi + 3);
                    assert(c != *variable);
                }
            }
            // pairwise distinct
            assert forall|i: int, j: int| 0 <= i < j < 20 implies r@[i] != r@[j] by {
                if j < 8 {
                    let ui = skip_at(si, i);
                    let uj = skip_at(si, j);
                    lemma_split3(ui);
                    lemma_split3(uj);
                    assert(ui < uj);
                    if r@[i] == r@[j] {
                        assert(ui / 3 == uj / 3 && ui % 3 == uj % 3);
                        assert(ui == uj);
                        assert(false);
                    }
                } else if i < 8 && j < 14 {
                    let ui = skip_at(si, i);
                    lemma_split3(ui);
                    let col = out_of_block(byi, j - 8);
                    assert(byi <= (r@[i].1 as int) < byi + 3);
                    assert(col < byi || col >= byi + 3);
                } else if i < 8 {
                    let ui = skip_at(si, i);
                    lemma_split3(ui);
                    let row = out_of_block(bxi, j - 14);
                    assert(bxi <= (r@[i].0 as int) < bxi + 3);
                    assert(row < bxi || row >= bxi + 3);
                } else if i < 14 && j < 14 {
                    assert(out_of_block(byi, i - 8) < out_of_block(byi, j - 8));
                } else if i < 14 {
                    // a row neighbor and a column neighbor: the rows differ
                    let row = out_of_block(bxi, j - 14);
                    assert(bxi <= xi < bxi + 3);
                    assert(row < bxi || row >= bxi + 3);
                } else {
                    assert(out_of_block(bxi, i - 14) < out_of_block(bxi, j - 14));
                }
            }
            // every neighbor is listed
            assert forall|c: (usize, usize)| is_neighbor(*variable, c) implies r@.contains(c) by {
                let ci = c.0 as int;
                let cj = c.1 as int;
                lemma_split3(ci);
                lemma_split3(cj);
                if same_box(*variable, c) {
                    assert(ci == 3 * (xi / 3) + ci % 3);
                    assert(cj == 3 * (yi / 3) + cj % 3);
                    let u = (ci % 3) * 3 + cj % 3;
                    lemma_base3(ci % 3, cj % 3);
                    assert(u / 3 == ci % 3 && u % 3 == cj % 3);
                    lemma_base3(xi % 3, yi % 3);
                    if u == si {
                        assert(ci % 3 == xi % 3 && cj % 3 == yi % 3);
                        assert(c == *variable);
                        assert(false);
                    }
                    let i = if u < si {
                        u
                    } else {
                        u - 1
                    };
                    assert(0 <= i < 8);
                    assert(skip_at(si, i) == u);
                    assert(r@[i] == box_cell(bxi, byi, u));
                    assert(r@[i] == c);
                    assert(r@.contains(c));
                } else if c.0 == variable.0 {
                    // same row, outside the box
                    if byi <= cj < byi + 3 {
                        lemma_base3(yi / 3, cj - byi);
                        assert(cj / 3 == yi / 3);
                        assert(same_box(*variable, c));
                        assert(false);
                    }
                    let dd = if cj < byi {
                        cj
                    } else {
                        cj - 3
                    };
                    assert(0 <= dd < 6);
                    assert(out_of_block(byi, dd) == cj);
                    assert(r@[8 + dd] == c);
                    assert(r@.contains(c));
                } else {
                    // same column, outside the box
                    assert(c.1 == variable.1);
                    if bxi <= ci < bxi + 3 {
                        lemma_base3(xi / 3, ci - bxi);
                        assert(ci / 3 == xi / 3);
                        assert(same_box(*variable, c));
                        assert(false);
                    }
                    let dd = if ci < bxi {
                        ci
                    } else {
                        ci - 3
                    };
                    assert(0 <= dd < 6);
                    assert(out_of_block(bxi, dd) == ci);
                    assert(r@[14 + dd] == c);
                    assert(r@.contains(c));
                }
            }
            assert forall|c: (usize, usize)| #[trigger] r@.contains(c) implies is_neighbor(
                *variable,
                c,
            ) by {
                let i = choose|i: int| 0 <= i < r@.len() && r@[i] == c;
                assert(is_neighbor(*variable, r@[i]));
            }
            assert forall|i: int, j: int|
                0 <= i < r@.len() && 0 <= j < r@.len() && i != j implies r@[i] != r@[j] by {
                if i < j {
                    assert(r@[i] != r@[j]);
                } else {
                    assert(r@[j] != r@[i]);
                }
            }
            assert(r@.no_duplicates());
        }
        r
    }

    /// The global worklist: one directed arc from every cell to each of its
    /// 20 neighbors, 1620 arcs in all.
    pub fn generate_all_constraining_arcs(&self) -> (r: Vec<((usize, usize), (usize, usize))>)
        ensures
            r@.len() == 1620,
            forall|a: ((usize, usize), (usize, usize))|
                #[trigger] r@.contains(a) ==> is_neighbor(a.0, a.1),
            forall|c1: (usize, usize), c2: (usize, usize)|
                #[trigger] is_neighbor(c1, c2) ==> r@.contains((c1, c2)),
    {
        let mut idxs: Vec<i32> = Vec::new();
        let mut n: usize = 0;
        while n < 9
            invariant
                n <= 9,
                idxs@.len() == n,
                forall|i: int| 0 <= i < n ==> #[trigger] idxs@[i] == i as i32,
            decreases 9 - n,
        {
            idxs.push(n as i32);
            n += 1;
        }
        let cells = Self::get_all_possible_pairs(&idxs, &idxs);
        let mut r: Vec<((usize, usize), (usize, usize))> = Vec::new();
        let mut k: usize = 0;
        while k < 81
            invariant
                k <= 81,
                cells@.len() == 81,
                idxs@.len() == 9,
                forall|i: int| 0 <= i < 9 ==> #[trigger] idxs@[i] == i as i32,
                forall|m: int|
                    0 <= m < 81 ==> (#[trigger] cells@[m]) == (idxs@[m / 9], idxs@[m % 9]),
                r@.len() == 20 * k,
                forall|m: int|
                    0 <= m < r@.len() ==> is_neighbor((#[trigger] r@[m]).0, r@[m].1),
                forall|c1: (usize, usize), c2: (usize, usize)|
                    #[trigger] is_neighbor(c1, c2) && cell_idx(c1) < k ==> r@.contains((c1, c2)),
            decreases 81 - k,
        {
            proof {
                lemma_fundamental_div_mod(k as int, 9);
                lemma_mod_pos_bound(k as int, 9);
            }
            let p = cells[k];
            let cell = (p.0 as usize, p.1 as usize);
            proof {
                assert(cell.0 as int == (k as int) / 9 && cell.1 as int == (k as int) % 9);
                assert(valid_cell(cell));
                assert(cell_idx(cell) == k as int);
            }
            let nb = self.get_neighboring_arcs(&cell);
            let ghost prev = r@;
            let mut j: usize = 0;
            while j < nb.len()
                invariant
                    j <= nb@.len(),
                    nb@.len() == 20,
                    r@.len() == prev.len() + j,
                    forall|m: int| 0 <= m < prev.len() ==> #[trigger] r@[m] == prev[m],
                    forall|m: int|
                        prev.len() <= m < r@.len() ==> #[trigger] r@[m] == (
                            cell,
                            nb@[m - prev.len()],
                        ),
                decreases nb@.len() - j,
            {
                r.push((cell, nb[j]));
                j += 1;
            }
            proof {
                assert forall|m: int| 0 <= m < r@.len() implies is_neighbor(
                    (#[trigger] r@[m]).0,
                    r@[m].1,
                ) by {
                    if m >= prev.len() {
                        assert(nb@.contains(nb@[m - prev.len()]));
                    }
                }
                assert forall|c1: (usize, usize), c2: (usize, usize)|
                    #[trigger] is_neighbor(c1, c2) && cell_idx(c1) < k + 1 implies r@.contains(
                    (c1, c2),
                ) by {
                    if cell_idx(c1) < k {
                        let m = choose|m: int| 0 <= m < prev.len() && prev[m] == (c1, c2);
                        assert(r@[m] == (c1, c2));
                        assert(r@.contains((c1, c2)));
                    } else {
                        lemma_cell_idx_injective(c1, cell);
                        assert(c1 == cell);
                        assert(nb@.contains(c2));
                        let jj = choose|jj: int| 0 <= jj < nb@.len() && nb@[jj] == c2;
                        assert(r@[prev.len() + jj] == (c1, c2));
                        assert(r@.contains((c1, c2)));
                    }
                }
            }
            k += 1;
        }
        proof {
            assert forall|c1: (usize, usize), c2: (usize, usize)|
                #[trigger] is_neighbor(c1, c2) implies r@.contains((c1, c2)) by {
                lemma_cell_idx_bounds(c1);
            }
            assert forall|a: ((usize, usize), (usize, usize))| #[trigger] r@.contains(a) implies
                is_neighbor(a.0, a.1) by {
                let m = choose|m: int| 0 <= m < r@.len() && r@[m] == a;
                assert(is_neighbor(r@[m].0, r@[m].1));
            }
        }
        r
    }
}

} // verus!
