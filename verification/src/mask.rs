//! Puzzle derivation: solve the problem, then independently blank each
//! solved cell with a caller-chosen probability, leaving a grid of digits
//! 1..=9 and blank sentinels 0.

use vstd::prelude::*;
use crate::model::{
    all_assigned, assignment_in, consistent_assignment, dom_seq, fully_consistent, store_subset,
    wf_store, ConstraintPredicate, Csp,
};

verus! {

/// Relies on rand's random_ratio: a draw that is true with probability
/// `num / den`; its documentation guarantees the draw is never true when
/// `num` is 0 and always true when `num` equals `den`.
#[verifier::external_body]
fn random_chance(num: u32, den: u32) -> (r: bool)
    requires
        0 < den,
        num <= den,
    ensures
        num == 0 ==> !r,
        num == den ==> r,
{
    let mut rng = rand::rng();
    rand::RngExt::random_ratio(&mut rng, num, den)
}

impl<P: ConstraintPredicate> Csp<P> {
    /// Solves the problem, then masks the solved grid: each of the 81 cells
    /// is independently blanked (set to 0) with probability
    /// `threshold_num / threshold_den`, and otherwise keeps its solved
    /// value.  A zero threshold returns the solved grid untouched; a
    /// threshold of one blanks every cell.  `None` when the search finds no
    /// solution.
    pub fn create_sudoku(&self, threshold_num: u32, threshold_den: u32) -> (r: Option<Vec<i32>>)
        requires
            self.wf(),
            0 < threshold_den,
            threshold_num <= threshold_den,
        ensures
            match r {
                Option::Some(g) => {
                    &&& g@.len() == 81
                    &&& exists|sol: Seq<Seq<i32>>|
                        #![auto]
                        {
                            &&& wf_store(sol)
                            &&& all_assigned(sol)
                            &&& store_subset(sol, dom_seq(self.domains))
                            &&& !all_assigned(dom_seq(self.domains)) ==> fully_consistent::<P>(sol)
                            &&& forall|i: int|
                                0 <= i < 81 ==> #[trigger] g@[i] == 0 || g@[i] == sol[i][0]
                            &&& threshold_num == 0 ==> forall|i: int|
                                0 <= i < 81 ==> #[trigger] g@[i] == sol[i][0]
                        }
                    &&& forall|i: int| 0 <= i < 81 ==> 0 <= #[trigger] g@[i] <= 9
                    &&& threshold_num == 0 ==> forall|i: int| 0 <= i < 81 ==> 1 <= #[trigger] g@[i]
                        <= 9
                    &&& threshold_num == threshold_den ==> forall|i: int|
                        0 <= i < 81 ==> #[trigger] g@[i] == 0
                },
                Option::None => forall|a: Seq<i32>|
                    !(consistent_assignment::<P>(a) && #[trigger] assignment_in(
                        dom_seq(self.domains),
                        a,
                    )),
            },
    {
        let cloned = crate::solver::clone_store(&self.domains);
        let ghost base = dom_seq(cloned);
        let solved = self.backtrack(cloned);
        let solution = match solved {
            Option::Some(s) => s,
            Option::None => {
                proof {
                    assert forall|a: Seq<i32>|
                        !(consistent_assignment::<P>(a) && #[trigger] assignment_in(
                            dom_seq(self.domains),
                            a,
                        )) by {
                        if consistent_assignment::<P>(a) && assignment_in(dom_seq(self.domains), a) {
                            assert(assignment_in(base, a));
                        }
                    }
                }
                return Option::None;
            },
        };
        let ghost sol = dom_seq(solution);
        let mut g: Vec<i32> = Vec::new();
        let mut i: usize = 0;
        while i < 81
            invariant
                i <= 81,
                g@.len() == i,
                0 < threshold_den,
                threshold_num <= threshold_den,
                wf_store(sol),
                all_assigned(sol),
                dom_seq(solution) == sol,
                solution@.len() == 81,
                forall|k: int| 0 <= k < i ==> #[trigger] g@[k] == 0 || g@[k] == sol[k][0],
                threshold_num == 0 ==> forall|k: int| 0 <= k < i ==> #[trigger] g@[k] == sol[k][0],
                threshold_num == threshold_den ==> forall|k: int|
                    0 <= k < i ==> #[trigger] g@[k] == 0,
                forall|k: int| 0 <= k < i ==> 0 <= #[trigger] g@[k] <= 9,
            decreases 81 - i,
        {
            let masked = random_chance(threshold_num, threshold_den);
            if masked {
                g.push(0);
            } else {
                let row = &solution[i];
                proof {
                    assert(sol[i as int].len() == 1);
                    assert(1 <= sol[i as int][0] <= 9);
                }
                g.push(row[0]);
            }
            i += 1;
        }
        proof {
            assert(store_subset(sol, dom_seq(self.domains)));
        }
        Option::Some(g)
    }
}

} // verus!
