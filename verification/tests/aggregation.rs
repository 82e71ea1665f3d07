use rl_hours_tracker::calculate_past_two::calculate_past_two;
use rl_hours_tracker::calculate_past_two::closest_date;
use rl_hours_tracker::calculate_past_two::date_binary_search;
use rl_hours_tracker::calculate_past_two::load_log;
use rl_hours_tracker::calculate_past_two::sum_total_seconds;
use rl_hours_tracker::calculate_past_two::CalcError;
use rl_hours_tracker::dates::Date;

fn lines(v: &[&str]) -> Vec<String> {
    v.iter().map(|s| s.to_string()).collect()
}

#[test]
fn t_load_sorts_lines() {
    let loaded = load_log("2024-09-16 100s\n2024-09-15 58s\n");
    assert_eq!(loaded, lines(&["2024-09-15 58s", "2024-09-16 100s"]));
}

#[test]
fn t_load_drops_only_trailing_empty_line() {
    assert_eq!(load_log("a\nb\n"), lines(&["a", "b"]));
    assert_eq!(load_log("a\nb"), lines(&["a", "b"]));
    assert_eq!(load_log(""), lines(&[]));
}

#[test]
fn t_binary_search_finds_each_date() {
    let log = lines(&[
        "2024-09-10 5s",
        "2024-09-12 6s",
        "2024-09-12 7s",
        "2024-09-15 8s",
    ]);
    assert_eq!(date_binary_search(&log, &"2024-09-10".to_string()), Some(0));
    assert_eq!(date_binary_search(&log, &"2024-09-12".to_string()), Some(1));
    assert_eq!(date_binary_search(&log, &"2024-09-15".to_string()), Some(3));
    assert_eq!(date_binary_search(&log, &"2024-09-11".to_string()), None);
    assert_eq!(date_binary_search(&log, &"2024-09-09".to_string()), None);
    assert_eq!(date_binary_search(&log, &"2024-09-16".to_string()), None);
}

#[test]
fn t_duplicate_rewind() {
    let log = lines(&["2024-09-15 58s", "2024-09-15 890s", "2024-09-16 100s"]);
    assert_eq!(date_binary_search(&log, &"2024-09-15".to_string()), Some(0));
}

#[test]
fn t_rewind_across_whole_log() {
    let log = lines(&["2024-09-15 1s", "2024-09-15 2s", "2024-09-15 3s"]);
    assert_eq!(date_binary_search(&log, &"2024-09-15".to_string()), Some(0));
}

#[test]
fn t_empty_log_locate() {
    let log: Vec<String> = Vec::new();
    assert_eq!(date_binary_search(&log, &"2024-09-15".to_string()), None);
    let today = Date { year: 2024, month: 9, day: 15 };
    assert_eq!(closest_date(&log, today), None);
}

#[test]
fn t_closest_date_fallback() {
    let log = lines(&["2024-01-05 500s", "2024-01-20 700s"]);
    let today = Date { year: 2024, month: 1, day: 20 };
    // the window starts at 2024-01-06, so the first present date is 2024-01-20
    assert_eq!(closest_date(&log, today), Some(1));
    let total = calculate_past_two("2024-01-05 500s\n2024-01-20 700s\n", today);
    assert_eq!(total, Ok(700));
}

#[test]
fn t_window_sum_literal() {
    let today = Date { year: 2024, month: 1, day: 15 };
    let total = calculate_past_two("2024-01-01 3600s\n2024-01-10 1800s\n2024-01-15 900s\n", today);
    assert_eq!(total, Ok(6300));
}

#[test]
fn t_window_sum_idempotent() {
    let contents = "2024-01-01 3600s\n2024-01-10 1800s\n2024-01-15 900s\n";
    let today = Date { year: 2024, month: 1, day: 15 };
    let first = calculate_past_two(contents, today);
    let second = calculate_past_two(contents, today);
    assert_eq!(first, second);
}

#[test]
fn t_corrupt_duration() {
    let today = Date { year: 2024, month: 1, day: 1 };
    let total = calculate_past_two("2024-01-01 abcs\n", today);
    assert_eq!(total, Err(CalcError::DataCorruption));
    // a duration with stray characters among its digits is corrupt too,
    // never thinned down to the digits
    let mixed_token = calculate_past_two("2024-01-01 1a2s\n", today);
    assert_eq!(mixed_token, Err(CalcError::DataCorruption));
    // a corrupt record outside the window does not disturb the sum
    let later = Date { year: 2024, month: 3, day: 20 };
    let mixed = calculate_past_two("2024-01-01 abcs\n2024-03-20 40s\n", later);
    assert_eq!(mixed, Ok(40));
}

#[test]
fn t_no_data_in_range() {
    let today = Date { year: 2024, month: 1, day: 15 };
    let total = calculate_past_two("2023-01-01 100s\n2023-02-01 200s\n", today);
    assert_eq!(total, Err(CalcError::WindowStartNotFound));
}

#[test]
fn t_empty_log_sums_to_zero() {
    let today = Date { year: 2024, month: 1, day: 15 };
    assert_eq!(calculate_past_two("", today), Ok(0));
}

#[test]
fn t_window_boundaries() {
    let today = Date { year: 2024, month: 1, day: 15 };
    // 2024-01-01 is the window start and counts; 2023-12-31 lies before it
    let total = calculate_past_two("2023-12-31 100s\n2024-01-01 5s\n2024-01-02 7s\n", today);
    assert_eq!(total, Ok(12));
    // a session dated after today is ignored by the day-by-day sum
    let with_future = calculate_past_two("2024-01-02 7s\n2024-01-16 50s\n", today);
    assert_eq!(with_future, Ok(7));
}

#[test]
fn t_same_day_window() {
    let today = Date { year: 2024, month: 1, day: 15 };
    assert_eq!(calculate_past_two("2024-01-15 10s\n", today), Ok(10));
}

#[test]
fn t_overflowing_total_is_corruption() {
    let today = Date { year: 2024, month: 1, day: 15 };
    let contents = "2024-01-14 18446744073709551615s\n2024-01-15 1s\n";
    assert_eq!(calculate_past_two(contents, today), Err(CalcError::DataCorruption));
    // a duration that itself leaves u64 does not parse
    let too_big = calculate_past_two("2024-01-15 18446744073709551616s\n", today);
    assert_eq!(too_big, Err(CalcError::DataCorruption));
}

#[test]
fn t_sum_total_seconds_slice() {
    let log = lines(&["2023-12-01 9s", "2024-01-10 3s", "2024-01-12 4s"]);
    let start = Date { year: 2024, month: 1, day: 1 };
    let today = Date { year: 2024, month: 1, day: 15 };
    assert_eq!(sum_total_seconds(&log, 1, start, today), Ok(7));
    // scanning from the front works too: the first line is outside the window
    assert_eq!(sum_total_seconds(&log, 0, start, today), Ok(7));
}

#[test]
fn t_multiple_sessions_one_day() {
    let today = Date { year: 2024, month: 9, day: 16 };
    let total = calculate_past_two("2024-09-15 58s\n2024-09-15 890s\n2024-09-16 100s\n", today);
    assert_eq!(total, Ok(1048));
}
