use office_escape::navigation::{Navigator, Path, WallHuggingNavigator};
use office_escape::office::{Density, Office};
use office_escape::stats::{stats_for_p, stats_from_outcomes, SimulationParams, Stats};

struct FakeNavigator {
    pub result_sequence: Vec<Result<(), ()>>,
    call_count: usize,
}

impl FakeNavigator {
    fn new(result_sequence: Vec<Result<(), ()>>) -> FakeNavigator {
        FakeNavigator {
            result_sequence,
            call_count: 0,
        }
    }
}

impl Navigator for FakeNavigator {
    fn try_to_escape(&mut self, _: &Office, _: usize) -> Result<Path, Path> {
        let result_index = self.call_count % self.result_sequence.len();
        let result = self.result_sequence.get(result_index).unwrap();
        self.call_count += 1;
        if result.is_ok() {
            Ok(Vec::new())
        } else {
            Err(Vec::new())
        }
    }
}

fn floats_close(f1: f32, f2: f32) -> bool {
    (f1 - f2).abs() < 0.01
}

fn safe_percentage(stats: &Stats) -> f32 {
    stats.safe_percentage_hundredths() as f32 / 100.0
}

#[test]
fn it_gives_zero_if_the_navigator_always_fails() {
    let params = SimulationParams {
        sample_count: 100,
        office_width: 10,
        office_height: 10,
        print_path: false,
    };
    let mut always_succeed_nav = FakeNavigator::new(vec![Err(())]);
    // p is irrelevant here, it's the navigator stub that matters
    let stats = stats_for_p(
        Density { num: 1, den: 1 },
        &params,
        &mut always_succeed_nav,
        &mut rand::thread_rng(),
    );
    assert!(floats_close(safe_percentage(&stats), 0.0));
}

#[test]
fn it_gives_the_sample_count_if_the_navigator_always_fails() {
    let params = SimulationParams {
        sample_count: 100,
        office_width: 10,
        office_height: 10,
        print_path: false,
    };
    let mut always_fail_nav = FakeNavigator::new(vec![Ok(())]);
    // p is irrelevant here, it's the navigator stub that matters
    let stats = stats_for_p(
        Density { num: 0, den: 1 },
        &params,
        &mut always_fail_nav,
        &mut rand::thread_rng(),
    );
    assert!(floats_close(safe_percentage(&stats), 100.0));
}

#[test]
fn it_gives_a_portion_of_the_sample_count_if_the_navigator_gives_mixed_results() {
    let params = SimulationParams {
        sample_count: 99,
        office_width: 10,
        office_height: 10,
        print_path: false,
    };
    // p is irrelevant here, it's the navigator stub that matters
    let mut mostly_succeed_nav = FakeNavigator::new(vec![Ok(()), Err(()), Ok(())]);
    let stats = stats_for_p(
        Density { num: 0, den: 1 },
        &params,
        &mut mostly_succeed_nav,
        &mut rand::thread_rng(),
    );
    assert!(floats_close(safe_percentage(&stats), 66.66));
}

#[test]
fn the_safe_percentage_stays_between_zero_and_one_hundred() {
    let params = SimulationParams {
        sample_count: 50,
        office_width: 6,
        office_height: 6,
        print_path: false,
    };
    let mut nav = WallHuggingNavigator {};
    for tenths in [0u32, 3, 5, 8, 10] {
        let stats = stats_for_p(
            Density {
                num: tenths,
                den: 10,
            },
            &params,
            &mut nav,
            &mut rand::thread_rng(),
        );
        assert!(stats.safe_percentage_hundredths() <= 10000);
    }
}

#[test]
fn printing_paths_does_not_change_the_numbers() {
    let quiet_params = SimulationParams {
        sample_count: 10,
        office_width: 3,
        office_height: 3,
        print_path: false,
    };
    let loud_params = SimulationParams {
        sample_count: 10,
        office_width: 3,
        office_height: 3,
        print_path: true,
    };
    let p = Density { num: 1, den: 2 };
    let mut quiet_nav = FakeNavigator::new(vec![Ok(()), Err(())]);
    let mut loud_nav = FakeNavigator::new(vec![Ok(()), Err(())]);
    let quiet = stats_for_p(p, &quiet_params, &mut quiet_nav, &mut rand::thread_rng());
    let loud = stats_for_p(p, &loud_params, &mut loud_nav, &mut rand::thread_rng());
    assert_eq!(
        quiet.safe_percentage_hundredths(),
        loud.safe_percentage_hundredths()
    );
    assert_eq!(quiet.successes, loud.successes);
}

#[test]
fn the_average_path_length_is_undefined_without_successes() {
    let params = SimulationParams {
        sample_count: 10,
        office_width: 4,
        office_height: 4,
        print_path: false,
    };
    let mut nav = WallHuggingNavigator {};
    let trapped = stats_for_p(
        Density { num: 1, den: 1 },
        &params,
        &mut nav,
        &mut rand::thread_rng(),
    );
    assert_eq!(trapped.successes, 0);
    assert!(trapped.average_path_length().is_none());

    let open = stats_for_p(
        Density { num: 0, den: 1 },
        &params,
        &mut nav,
        &mut rand::thread_rng(),
    );
    assert_eq!(open.successes, 10);
    // on an unobstructed office every escape path has at least one step
    assert!(open.average_path_length().unwrap() >= 1);
}

#[test]
fn aggregating_an_all_failure_outcome_list_gives_zero_percent() {
    let outcomes: Vec<(bool, usize)> = vec![(false, 3); 100];
    let stats = stats_from_outcomes(100, &outcomes);
    assert_eq!(stats.successes, 0);
    assert_eq!(stats.total_successful_path_length, 0);
    assert_eq!(stats.safe_percentage_hundredths(), 0);
    assert!(stats.average_path_length().is_none());
}

#[test]
fn aggregating_an_all_success_outcome_list_gives_one_hundred_percent() {
    let outcomes: Vec<(bool, usize)> = vec![(true, 2); 100];
    let stats = stats_from_outcomes(100, &outcomes);
    assert_eq!(stats.successes, 100);
    assert_eq!(stats.total_successful_path_length, 200);
    assert_eq!(stats.safe_percentage_hundredths(), 10000);
    assert_eq!(stats.average_path_length(), Some(2));
}

#[test]
fn aggregating_a_mixed_outcome_list_matches_the_exact_formula() {
    // the cycle success, failure, success over 99 trials: 66 successes
    let mut outcomes: Vec<(bool, usize)> = Vec::new();
    for i in 0..99 {
        outcomes.push((i % 3 != 1, 4));
    }
    let stats = stats_from_outcomes(99, &outcomes);
    assert_eq!(stats.successes, 66);
    assert_eq!(stats.total_successful_path_length, 66 * 4);
    // floor(10000 * 66 / 99) hundredths of a percent, within 0.01 of 66.66
    assert_eq!(stats.safe_percentage_hundredths(), 6666);
    assert_eq!(stats.average_path_length(), Some(4));
}
