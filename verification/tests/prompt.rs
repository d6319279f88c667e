use zvuk::modules::crossover_check::{first_sparse_band, single_burst, truncate, CrossoverCheck, PassError};
use zvuk::modules::left_right_balance::{check_burst_count, BurstCountError, LeftRightBalance};
use zvuk::dsp::segment::Burst;
use zvuk::prompt::{label_from_argument, name_or_default, select_answer, select_start, SelectStart};
use zvuk::registry::find_module;

#[test]
fn selecting_from_a_list() {
    assert_eq!(select_start(0), SelectStart::NothingToChoose);
    assert_eq!(select_start(1), SelectStart::OnlyOption);
    assert_eq!(select_start(4), SelectStart::Ask);
    assert_eq!(select_answer("", 4, Some(2)), Some(2));
    assert_eq!(select_answer("", 4, None), None);
    assert_eq!(select_answer("3", 4, None), Some(3));
    assert_eq!(select_answer("4", 4, Some(0)), None);
    assert_eq!(select_answer("x", 4, Some(0)), None);
}

#[test]
fn names_and_labels() {
    assert_eq!(name_or_default("", "doors"), "doors");
    assert_eq!(name_or_default("tweeters", "doors"), "tweeters");
    assert_eq!(label_from_argument("  after door damping "), Some("after door damping".to_string()));
    assert_eq!(label_from_argument("   "), None);
}

#[test]
fn modules_are_found_by_name_ignoring_case() {
    let names = vec![LeftRightBalance.name(), CrossoverCheck.name()];
    assert_eq!(find_module(&names, " Left-Right-Balance "), Some(0));
    assert_eq!(find_module(&names, "crossover-check"), Some(1));
    assert_eq!(find_module(&names, "arrival-time"), None);
    assert_eq!(LeftRightBalance.name(), "left-right-balance");
    assert!(CrossoverCheck.description().starts_with("Bandwidth"));
}

#[test]
fn a_pass_holds_exactly_one_burst() {
    let b = Burst { start: 10, end: 20 };
    assert_eq!(single_burst(&vec![b]), Ok(b));
    assert_eq!(single_burst(&vec![]), Err(PassError::NoBurst));
    assert_eq!(single_burst(&vec![b, b]), Err(PassError::TooManyBursts { count: 2 }));
}

#[test]
fn the_left_right_run_wants_two_or_three_bursts() {
    assert_eq!(check_burst_count(3), Ok(true));
    assert_eq!(check_burst_count(2), Ok(false));
    assert_eq!(check_burst_count(1), Err(BurstCountError::TooFew { found: 1 }));
    assert_eq!(check_burst_count(0), Err(BurstCountError::TooFew { found: 0 }));
    assert_eq!(check_burst_count(4), Err(BurstCountError::TooMany { found: 4 }));
}

#[test]
fn sparse_bands_and_column_text() {
    assert_eq!(first_sparse_band(&vec![5, 4, 2, 1], 3), Some(2));
    assert_eq!(first_sparse_band(&vec![5, 4], 3), None);
    assert_eq!(truncate("subwoofer-left", 10), "subwoofer-");
    assert_eq!(truncate("sub", 10), "sub");
}
