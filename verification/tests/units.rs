use rl_hours_tracker::confirms;
use rl_hours_tracker::date_line;
use rl_hours_tracker::end_program_choice;
use rl_hours_tracker::RunChoice;
use rl_hours_tracker::dates::date_from_triple;
use rl_hours_tracker::dates::date_string;
use rl_hours_tracker::dates::pred;
use rl_hours_tracker::dates::succ;
use rl_hours_tracker::dates::today;
use rl_hours_tracker::dates::two_weeks_before;
use rl_hours_tracker::dates::Date;
use rl_hours_tracker::name_is_running;
use rl_hours_tracker::retrieve_hours_token;
use rl_hours_tracker::retrieve_total_seconds;
use rl_hours_tracker::stopwatch_tick;
use rl_hours_tracker::text::date_token;
use rl_hours_tracker::text::duration_token_of;
use rl_hours_tracker::text::parse_seconds_token;
use rl_hours_tracker::text::u64_to_string;
use rl_hours_tracker::update::extract_version;
use rl_hours_tracker::PastTwoError;

#[test]
fn t_two_weeks_before_same_month() {
    let d = two_weeks_before(Date { year: 2024, month: 1, day: 15 });
    assert_eq!(d, Date { year: 2024, month: 1, day: 1 });
}

#[test]
fn t_two_weeks_before_leap_february() {
    let leap = two_weeks_before(Date { year: 2024, month: 3, day: 10 });
    assert_eq!(leap, Date { year: 2024, month: 2, day: 25 });
    let common = two_weeks_before(Date { year: 2023, month: 3, day: 10 });
    assert_eq!(common, Date { year: 2023, month: 2, day: 24 });
}

#[test]
fn t_two_weeks_before_year_boundary() {
    let d = two_weeks_before(Date { year: 2024, month: 1, day: 5 });
    assert_eq!(d, Date { year: 2023, month: 12, day: 22 });
}

#[test]
fn t_succ_and_pred() {
    let end_of_feb = Date { year: 2024, month: 2, day: 29 };
    assert_eq!(succ(end_of_feb), Date { year: 2024, month: 3, day: 1 });
    assert_eq!(pred(Date { year: 2024, month: 3, day: 1 }), end_of_feb);
    assert_eq!(
        succ(Date { year: 2023, month: 12, day: 31 }),
        Date { year: 2024, month: 1, day: 1 }
    );
    // the first modelled date is its own yesterday
    let first = Date { year: 1, month: 1, day: 1 };
    assert_eq!(pred(first), first);
}

#[test]
fn t_date_string_zero_padded() {
    assert_eq!(date_string(Date { year: 987, month: 6, day: 5 }), "0987-06-05".to_string());
    assert_eq!(date_string(Date { year: 2024, month: 12, day: 31 }), "2024-12-31".to_string());
}

#[test]
fn t_today_is_a_valid_date() {
    let d = today().unwrap();
    assert!(1 <= d.month && d.month <= 12);
    assert!(1 <= d.day && d.day <= 31);
    assert!(2000 < d.year && d.year < 9999);
}

#[test]
fn t_date_line_serialization() {
    let d = Date { year: 2024, month: 9, day: 15 };
    assert_eq!(date_line(d, 58), "2024-09-15 58s\n".to_string());
    assert_eq!(date_line(d, 0), "2024-09-15 0s\n".to_string());
}

#[test]
fn t_u64_rendering() {
    assert_eq!(u64_to_string(0), "0".to_string());
    assert_eq!(u64_to_string(18446744073709551615), "18446744073709551615".to_string());
    assert_eq!(u64_to_string(3600), "3600".to_string());
}

#[test]
fn t_parse_duration_tokens() {
    assert_eq!(parse_seconds_token("890s"), Some(890));
    assert_eq!(parse_seconds_token("0s"), Some(0));
    assert_eq!(parse_seconds_token("890"), Some(890));
    assert_eq!(parse_seconds_token("abcs"), None);
    assert_eq!(parse_seconds_token(""), None);
    assert_eq!(parse_seconds_token("s"), None);
    // a token with anything beside its digit run is corrupt, not thinned
    assert_eq!(parse_seconds_token("1a2s"), None);
    assert_eq!(parse_seconds_token("12s3"), None);
    assert_eq!(parse_seconds_token("890ss"), None);
    assert_eq!(parse_seconds_token(" 890s"), None);
    assert_eq!(parse_seconds_token("18446744073709551615s"), Some(u64::MAX));
    assert_eq!(parse_seconds_token("18446744073709551616s"), None);
}

#[test]
fn t_tokens_of_a_record_line() {
    assert_eq!(date_token("2024-09-15 890s"), "2024-09-15");
    assert_eq!(duration_token_of("2024-09-15 890s"), "890s");
    assert_eq!(date_token("2024-09-15"), "2024-09-15");
    assert_eq!(duration_token_of("2024-09-15"), "");
}

#[test]
fn t_date_from_triple() {
    assert_eq!(
        date_from_triple(2024, 2, 29),
        Some(Date { year: 2024, month: 2, day: 29 })
    );
    assert_eq!(date_from_triple(2023, 2, 29), None);
    assert_eq!(date_from_triple(0, 1, 1), None);
    assert_eq!(date_from_triple(10000, 1, 1), None);
}

#[test]
fn t_retrieve_hours_token() {
    let contents = "Rocket League Hours\nTotal Seconds: 3600s\nTotal Hours: 1.0hrs\n";
    assert_eq!(retrieve_hours_token(contents), Some("1.0hrs".to_string()));
    assert_eq!(retrieve_hours_token("Rocket League Hours\n"), None);
}

#[test]
fn t_name_is_running() {
    let names = vec!["steam.exe".to_string(), "RocketLeague.exe".to_string()];
    assert!(name_is_running(&names, "RocketLeague.exe"));
    assert!(!name_is_running(&names, "RocketLeague"));
    assert!(!name_is_running(&Vec::new(), "RocketLeague.exe"));
}

#[test]
fn t_retrieve_total_seconds() {
    let contents = "Rocket League Hours\nTotal Seconds: 3600s\nTotal Hours: 1.0hrs\n";
    assert_eq!(retrieve_total_seconds(contents), Some(3600));
    assert_eq!(retrieve_total_seconds("Rocket League Hours"), None);
    assert_eq!(retrieve_total_seconds("x\nTotal Seconds: brokens\n"), None);
}

#[test]
fn t_stopwatch_tick() {
    assert_eq!(stopwatch_tick(2, 3, 4), (2, 3, 5));
    assert_eq!(stopwatch_tick(0, 0, 59), (0, 1, 0));
    assert_eq!(stopwatch_tick(0, 59, 59), (1, 0, 0));
}

#[test]
fn t_extract_version() {
    let url = "https://github.com/OneilNvM/rl-hours-tracker/releases/tag/v1.2.3";
    assert_eq!(extract_version(url), "1.2.3".to_string());
    assert_eq!(extract_version("v2.0.0"), "2.0.0".to_string());
}

#[test]
fn t_past_two_error_message() {
    let e = PastTwoError;
    assert_eq!(
        e.message(),
        "next closest date to the date two weeks ago could not be found.".to_string()
    );
}

#[test]
fn t_end_program_choice() {
    assert!(matches!(end_program_choice("y\n"), RunChoice::End));
    assert!(matches!(end_program_choice(" Y \r\n"), RunChoice::End));
    assert!(matches!(end_program_choice("n\n"), RunChoice::Continue));
    assert!(matches!(end_program_choice("N"), RunChoice::Continue));
    assert!(matches!(end_program_choice("maybe\n"), RunChoice::Invalid));
    assert!(matches!(end_program_choice(""), RunChoice::Invalid));
}

#[test]
fn t_confirms() {
    assert!(confirms("y\n"));
    assert!(confirms("  Y  "));
    assert!(!confirms("n\n"));
    assert!(!confirms("yes\n"));
}
