use rl_hours_tracker::website_files::generate_page;
use rl_hours_tracker::website_files::page_fragments;
use rl_hours_tracker::website_files::Github;

#[test]
fn t_builds_raw_url() {
    let mut instance = Github::new(
        "OneilNvM",
        "rl-hours-tracker",
        "master",
        "website/js",
        "animations.js",
    );

    instance.build_url();

    assert_eq!(instance.get_url(), String::from("https://raw.githubusercontent.com/OneilNvM/rl-hours-tracker/refs/heads/master/website/js/animations.js"));
}

#[test]
fn t_builds_image_url() {
    let mut instance = Github::new(
        "OneilNvM",
        "rl-hours-tracker",
        "master",
        "website/images",
        "rl-icon-black.png",
    );

    instance.build_image_url();

    assert_eq!(instance.get_url(), String::from("https://github.com/OneilNvM/rl-hours-tracker/blob/master/website/images/rl-icon-black.png"));
}

#[test]
fn t_new_github_has_empty_url() {
    let instance = Github::new("a", "b", "c", "d", "e");
    assert_eq!(instance.get_url(), String::new());
}

#[test]
fn t_page_fragments_heading_and_dates() {
    let hours = "Rocket League Hours\nTotal Seconds: 3600s\nTotal Hours: 1.0hrs\n";
    let dates = "2024-01-01 10s\n2024-01-02 20s\n2024-01-03 30s\n2024-01-04 40s\n\
                 2024-01-05 50s\n2024-01-06 60s\n2024-01-07 70s\n2024-01-08 80s\n";
    let frags = page_fragments(hours, dates).unwrap();
    assert_eq!(frags.heading, "Rocket League<br>Hours Tracker".to_string());
    assert_eq!(
        frags.hours_lines,
        vec!["Total Seconds: 3600s".to_string(), "Total Hours: 1.0hrs".to_string()]
    );
    // the most recent seven sessions, newest first
    assert_eq!(
        frags.dates_shown,
        vec![
            "2024-01-08 80s".to_string(),
            "2024-01-07 70s".to_string(),
            "2024-01-06 60s".to_string(),
            "2024-01-05 50s".to_string(),
            "2024-01-04 40s".to_string(),
            "2024-01-03 30s".to_string(),
            "2024-01-02 20s".to_string(),
        ]
    );
}

#[test]
fn t_page_fragments_few_dates() {
    let hours = "Rocket League Hours\nTotal Seconds: 60s\n";
    let frags = page_fragments(hours, "2024-01-01 10s\n2024-01-02 20s\n").unwrap();
    assert_eq!(
        frags.dates_shown,
        vec!["2024-01-02 20s".to_string(), "2024-01-01 10s".to_string()]
    );
}

#[test]
fn t_page_fragments_rejects_short_hours_file() {
    assert!(page_fragments("", "2024-01-01 10s\n").is_none());
    assert!(page_fragments("Rocket League\n", "2024-01-01 10s\n").is_none());
}

#[test]
fn t_generate_page_html() {
    let hours =
        "Rocket League Hours\nTotal Seconds: 3600s\nTotal Hours: 1.0hrs\nHours Past Two Weeks: 1.0hrs\n";
    let page = generate_page(hours, "2024-01-01 3600s\n").unwrap();
    assert!(page.contains("<body class=\"body adaptive\">"));
    assert!(!page.contains("<body>"));
    assert!(page.contains("Rocket League<br>Hours Tracker"));
    assert!(page.contains("2024-01-01 3600s"));
    assert!(page.contains("Total Seconds: 3600s"));
    assert!(page.contains("<title>Rocket League Hours Tracker</title>"));
}

#[test]
fn t_generate_page_rejects_empty_hours() {
    assert!(generate_page("", "2024-01-01 3600s\n").is_none());
}
