use eda_tester::aggregate::{PlayerResults, RunOutcome, TestResults};
use eda_tester::launch::completed_runs;

fn points(r: &TestResults) -> Vec<u32> {
    r.player_results.iter().map(|p| p.total_points).collect()
}

fn wins(r: &TestResults) -> Vec<u32> {
    r.player_results.iter().map(|p| p.total_wins).collect()
}

#[test]
fn success_tie_gives_both_a_win() {
    let r = TestResults::from_outcome(&RunOutcome::Success { points: [10, 20, 20, 5] });
    assert_eq!(points(&r), vec![10, 20, 20, 5]);
    assert_eq!(wins(&r), vec![0, 1, 1, 0]);
    assert!(r.failed_seeds.is_empty());
}

#[test]
fn all_equal_scores_all_win() {
    let r = TestResults::from_outcome(&RunOutcome::Success { points: [0, 0, 0, 0] });
    assert_eq!(wins(&r), vec![1, 1, 1, 1]);
}

#[test]
fn crash_contributes_only_its_seed() {
    let r = TestResults::from_outcome(&RunOutcome::Crash { seed: 42 });
    assert_eq!(points(&r), vec![0, 0, 0, 0]);
    assert_eq!(wins(&r), vec![0, 0, 0, 0]);
    assert_eq!(r.failed_seeds, vec![42]);
}

#[test]
fn four_runs_and_a_crash() {
    let outcomes = [
        RunOutcome::Success { points: [1, 0, 0, 0] },
        RunOutcome::Success { points: [0, 1, 0, 0] },
        RunOutcome::Success { points: [2, 0, 0, 0] },
        RunOutcome::Crash { seed: 9 },
    ];
    let r = TestResults::aggregate(&outcomes).unwrap();
    assert_eq!(points(&r), vec![3, 1, 0, 0]);
    assert_eq!(wins(&r), vec![2, 1, 0, 0]);
    assert_eq!(r.failed_seeds, vec![9]);
    let ok = completed_runs(4, &r);
    assert_eq!(ok, 3);
    assert_eq!(f64::from(r.player_results[0].total_points) / f64::from(ok), 1.0);
}

#[test]
fn grouping_and_order_do_not_matter() {
    let a = TestResults::from_outcome(&RunOutcome::Success { points: [3, 1, 4, 1] });
    let b = TestResults::from_outcome(&RunOutcome::Crash { seed: 5 });
    let c = TestResults::from_outcome(&RunOutcome::Success { points: [2, 7, 1, 8] });
    let d = TestResults::from_outcome(&RunOutcome::Crash { seed: 6 });
    let left = a.clone().combine(b.clone()).combine(c.clone().combine(d.clone()));
    let right = d.combine(c).combine(b).combine(a);
    assert_eq!(points(&left), points(&right));
    assert_eq!(wins(&left), wins(&right));
    assert_eq!(points(&left), vec![5, 8, 5, 9]);
    assert_eq!(wins(&left), vec![0, 0, 1, 1]);
    assert_eq!(left.failed_seeds, vec![5, 6]);
    let mut seeds = right.failed_seeds.clone();
    seeds.sort();
    assert_eq!(seeds, vec![5, 6]);
}

#[test]
fn empty_results_are_identity() {
    let a = TestResults::from_outcome(&RunOutcome::Success { points: [1, 2, 3, 4] });
    let r = TestResults::empty().combine(a.clone()).combine(TestResults::default());
    assert_eq!(points(&r), points(&a));
    assert_eq!(wins(&r), vec![0, 0, 0, 1]);
    assert!(TestResults::aggregate(&[]).unwrap().failed_seeds.is_empty());
}

#[test]
fn totals_that_overflow_are_refused() {
    let outcomes = [
        RunOutcome::Success { points: [u32::MAX, 0, 0, 0] },
        RunOutcome::Success { points: [1, 0, 0, 0] },
    ];
    assert!(TestResults::aggregate(&outcomes).is_none());
    let a = TestResults::from_outcome(&outcomes[0]);
    let b = TestResults::from_outcome(&outcomes[1]);
    assert!(!a.can_combine(&b));
    assert!(a.can_combine(&TestResults::empty()));
}

#[test]
fn default_outcome_is_a_zero_success() {
    match RunOutcome::default() {
        RunOutcome::Success { points } => assert_eq!(points, [0, 0, 0, 0]),
        RunOutcome::Crash { .. } => panic!("expected a success"),
    }
    let p = PlayerResults { total_points: 1, total_wins: 2 };
    assert_eq!(p, PlayerResults { total_points: 1, total_wins: 2 });
}
