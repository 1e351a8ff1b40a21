use sudoku_csp::model::{Csp, NotEqual};

#[test]
fn inference_fails_fast_on_contradictory_singletons() {
    // two mutually constrained cells pinned to the same value cannot both
    // stand under the inequality rule: propagation must fail and leave an
    // emptied (never negative-sized) domain behind
    let problem = Csp::new(NotEqual);
    let mut domain = problem.domains.clone();
    domain[0] = vec![1]; // cell (0, 0)
    domain[1] = vec![1]; // cell (0, 1)
    let arcs = vec![((0, 0), (0, 1)), ((0, 1), (0, 0))];
    let ok = problem.inference(&mut domain, arcs);
    assert_eq!(ok, false);
    assert!(domain[0].is_empty() || domain[1].is_empty());
    assert!(domain.iter().all(|d| d.len() <= 9));
}

#[test]
fn inference_succeeds_on_a_fresh_store() {
    let problem = Csp::new(NotEqual);
    let mut domain = problem.domains.clone();
    let arcs = problem.constraining_arcs.clone();
    let ok = problem.inference(&mut domain, arcs);
    assert_eq!(ok, true);
    assert!(domain.iter().all(|d| d.len() == 9));
}

#[test]
fn revise_is_idempotent_on_a_consistent_arc() {
    let problem = Csp::new(NotEqual);
    let mut domain = problem.domains.clone();
    let first = problem.revise(&mut domain, (0, 0), (1, 1));
    let second = problem.revise(&mut domain, (0, 0), (1, 1));
    assert_eq!(first, false);
    assert_eq!(second, false);
}

#[test]
fn revise_prunes_a_value_without_support() {
    // the end cell holds only 3, so a start domain of just [3] loses its
    // one candidate under the inequality rule
    let problem = Csp::new(NotEqual);
    let mut domain = problem.domains.clone();
    domain[0] = vec![3]; // cell (0, 0)
    domain[4] = vec![3]; // cell (0, 4)
    let revised = problem.revise(&mut domain, (0, 0), (0, 4));
    assert_eq!(revised, true);
    assert!(domain[0].is_empty());
}

#[test]
fn minimum_remaining_values_picks_smallest_unresolved() {
    let problem = Csp::new(NotEqual);
    let mut domain = problem.domains.clone();
    domain[40] = vec![4, 5, 6]; // cell (4, 4)
    domain[10] = vec![1, 2]; // cell (1, 1)
    domain[0] = vec![9]; // resolved: must be skipped
    let cell = problem.minimum_remaining_values(&domain);
    assert_eq!(cell, (1, 1));
}
