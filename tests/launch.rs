use eda_tester::aggregate::RunOutcome;
use eda_tester::errors::AppError;
use eda_tester::launch::{run_outcome, TestConfig};
use eda_tester::player::PlayerName;

fn config(seed: u32, instances: u32) -> TestConfig {
    TestConfig {
        seed,
        instances,
        players: [
            PlayerName::try_from("Ann").unwrap(),
            PlayerName::try_from("Bo").unwrap(),
            PlayerName::try_from("Cy").unwrap(),
            PlayerName::try_from("Dee").unwrap(),
        ],
        settings: String::from("board 10\n"),
    }
}

#[test]
fn arguments_list_names_then_seed() {
    let c = config(0, 3);
    assert_eq!(c.arguments(4021), vec!["Ann", "Bo", "Cy", "Dee", "-s", "4021"]);
    assert_eq!(c.arguments(0)[5], "0");
    assert_eq!(c.arguments(u32::MAX)[5], "4294967295");
}

#[test]
fn config_seed_range() {
    let r = config(5, 3).seed_range().unwrap();
    assert_eq!((r.min, r.max), (5, 7));
    assert_eq!(config(u32::MAX, 2).seed_range().err(), Some(AppError::SeedRangeOutOfBounds));
}

#[test]
fn abnormal_exit_is_a_crash() {
    let text: Vec<char> = "player A got score 5".chars().collect();
    match run_outcome(17, false, &text) {
        Some(RunOutcome::Crash { seed }) => assert_eq!(seed, 17),
        _ => panic!("expected a crash"),
    }
}

#[test]
fn normal_exit_reports_scores() {
    let text: Vec<char> = "player A got score 5\nplayer B got score 9\n".chars().collect();
    match run_outcome(17, true, &text) {
        Some(RunOutcome::Success { points }) => assert_eq!(points, [5, 9, 0, 0]),
        _ => panic!("expected a success"),
    }
    let bad: Vec<char> = "player A got score \n".chars().collect();
    assert!(run_outcome(17, true, &bad).is_none());
}
