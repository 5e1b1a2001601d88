use adblock2hosts::{
    aggregate, check_status, render_hosts, rule_lines, Banner, FetchError, RunOutcome, RunResult,
    SourceReport, Timestamp,
};

fn ok(source: &str, body: &str) -> SourceReport {
    SourceReport { source: source.to_string(), lines: Ok(rule_lines(body)) }
}

fn failed(source: &str, e: FetchError) -> SourceReport {
    SourceReport { source: source.to_string(), lines: Err(e) }
}

fn completed(outcome: RunOutcome) -> RunResult {
    match outcome {
        RunOutcome::Completed(r) => r,
        RunOutcome::NoData(_) => panic!("the run had no data"),
    }
}

fn banner() -> Banner {
    Banner {
        title: "Blocklist".to_string(),
        homepage: "https://example.org".to_string(),
        license: "MIT".to_string(),
    }
}

fn noon() -> Timestamp {
    Timestamp { year: 2024, month: 3, day: 7, hour: 12, minute: 5, second: 9 }
}

#[test]
fn test_hosts_file_generation() {
    let rules = vec![
        "||example.com^",
        "||test.com^",
        "||invalid_domain^",
        "# just a comment",
        "||example.com^ # comment",
    ];
    let reports = vec![ok("local", &rules.join("\n"))];
    let result = completed(aggregate(&reports));
    let content = render_hosts(&banner(), &noon(), &result);
    assert!(content.contains("0.0.0.0 example.com"));
    assert!(content.contains("0.0.0.0 test.com"));
    assert!(!content.contains("invalid_domain"));
    assert!(!content.contains("# just a comment"));
}

#[test]
fn test_fetch_rules_success() {
    assert_eq!(check_status(200), Ok(()));
    let rules = rule_lines("||example.com^\n||test.com^\n");
    assert_eq!(rules.len(), 2);
    assert!(rules.contains(&"||example.com^".to_string()));
    assert!(rules.contains(&"||test.com^".to_string()));
}

#[test]
fn test_fetch_rules_http_error() {
    let result = check_status(500);
    assert!(result.is_err());
    assert_eq!(result, Err(FetchError::BadStatus { code: 500 }));
}

#[test]
fn test_run_with_partial_failure() {
    let reports = vec![
        ok("first", "||example.com^\n"),
        failed("second", FetchError::BadStatus { code: 500 }),
    ];
    let result = completed(aggregate(&reports));
    assert_eq!(result.entries, vec!["0.0.0.0 example.com".to_string()]);
    assert_eq!(result.stats.len(), 2);
    assert_eq!(result.stats[0].fetched, 1);
    assert_eq!(result.stats[0].failure, None);
    assert_eq!(result.stats[1].fetched, 0);
    assert_eq!(result.stats[1].failure, Some(FetchError::BadStatus { code: 500 }));
}

#[test]
fn lib_test_run_no_rules_no_file_written() {
    let reports: Vec<SourceReport> = vec![];
    match aggregate(&reports) {
        RunOutcome::NoData(stats) => assert!(stats.is_empty()),
        RunOutcome::Completed(_) => panic!("an empty run must have no data"),
    }
}

#[test]
fn main_test_run_no_rules_no_file_written() {
    let reports = vec![failed("down", FetchError::Transport), ok("empty", "\n  \n\r\n")];
    match aggregate(&reports) {
        RunOutcome::NoData(stats) => {
            assert_eq!(stats.len(), 2);
            assert_eq!(stats[0].failure, Some(FetchError::Transport));
            assert_eq!(stats[1].fetched, 0);
        }
        RunOutcome::Completed(_) => panic!("no source gave a line"),
    }
}

#[test]
fn status_range_is_two_hundreds() {
    assert_eq!(check_status(199), Err(FetchError::BadStatus { code: 199 }));
    assert_eq!(check_status(204), Ok(()));
    assert_eq!(check_status(299), Ok(()));
    assert_eq!(check_status(301), Err(FetchError::BadStatus { code: 301 }));
    assert_eq!(check_status(404), Err(FetchError::BadStatus { code: 404 }));
}

#[test]
fn body_lines_are_trimmed_and_blank_ones_dropped() {
    let lines = rule_lines("  ||a.com^  \r\n\r\n\t\n||b.com^\r\nlast");
    assert_eq!(
        lines,
        vec!["||a.com^".to_string(), "||b.com^".to_string(), "last".to_string()]
    );
    assert!(rule_lines("").is_empty());
    assert!(rule_lines("\n\n").is_empty());
    assert_eq!(rule_lines("héllo wörld"), vec!["héllo wörld".to_string()]);
}

#[test]
fn same_rule_in_two_sources_gives_one_entry() {
    let reports = vec![ok("one", "||example.com^\n"), ok("two", "||example.com^\n")];
    let result = completed(aggregate(&reports));
    assert_eq!(result.entries, vec!["0.0.0.0 example.com".to_string()]);
    assert_eq!(result.unique_raw, 1);
    assert_eq!(result.stats[0].fetched, 1);
    assert_eq!(result.stats[1].fetched, 1);
    let text = render_hosts(&banner(), &noon(), &result);
    assert_eq!(text.matches("0.0.0.0 example.com\n").count(), 1);
}

#[test]
fn different_lines_for_one_domain_give_one_entry_in_first_order() {
    let reports = vec![
        ok("one", "||b.com^ # first\n||a.com^\n"),
        ok("two", "||b.com^$third-party\n||c.com^\n||a.com^\n"),
    ];
    let result = completed(aggregate(&reports));
    assert_eq!(
        result.entries,
        vec![
            "0.0.0.0 b.com".to_string(),
            "0.0.0.0 a.com".to_string(),
            "0.0.0.0 c.com".to_string()
        ]
    );
    assert_eq!(result.unique_raw, 4);
}

#[test]
fn lines_that_do_not_convert_give_no_data() {
    let reports = vec![
        ok("comments", "# just a comment\n! another\n||bad_domain^\n"),
        failed("down", FetchError::Transport),
    ];
    match aggregate(&reports) {
        RunOutcome::NoData(stats) => {
            assert_eq!(stats.len(), 2);
            assert_eq!(stats[0].fetched, 3);
            assert_eq!(stats[1].fetched, 0);
        }
        RunOutcome::Completed(_) => panic!("no line converts, so the run has no data"),
    }
}

#[test]
fn partial_failure_keeps_every_entry_of_the_good_source() {
    let reports = vec![
        failed("down", FetchError::Transport),
        ok("good", "||a.com^\n# note\n||b.org^\n"),
        failed("missing", FetchError::BadStatus { code: 404 }),
    ];
    let result = completed(aggregate(&reports));
    assert_eq!(result.entries, vec!["0.0.0.0 a.com".to_string(), "0.0.0.0 b.org".to_string()]);
    assert_eq!(result.unique_raw, 3);
    let text = render_hosts(&banner(), &noon(), &result);
    assert!(text.contains("# Source: down\n# Successfully fetched 0 domains\n"));
    assert!(text.contains("# Source: missing\n# Successfully fetched 0 domains\n"));
}

#[test]
fn byte_order_mark_is_dropped() {
    assert_eq!(
        rule_lines("\u{feff}||a.com^\n||b.com^"),
        vec!["||a.com^".to_string(), "||b.com^".to_string()]
    );
    assert_eq!(rule_lines("x\n\u{feff}y"), vec!["x".to_string(), "\u{feff}y".to_string()]);
}

#[test]
fn rendered_file_is_exact() {
    let reports = vec![
        ok("https://one.example/list.txt", "||example.com^\n||bad_domain^\n"),
        failed("https://two.example/list.txt", FetchError::BadStatus { code: 503 }),
        failed("https://three.example/list.txt", FetchError::Transport),
    ];
    let result = completed(aggregate(&reports));
    let text = render_hosts(&banner(), &noon(), &result);
    let expected = "# Title: Blocklist\n\
#\n\
# Homepage: https://example.org\n\
# License: MIT\n\
#\n\
# Last modified: 2024-03-07 12:05:09 UTC\n\
#\n\
# Convert to format: 0.0.0.0 domain.tld\n\
#\n\
# Source: https://one.example/list.txt\n\
# Successfully fetched 2 domains\n\
#\n\
# Source: https://two.example/list.txt\n\
# Successfully fetched 0 domains\n\
# Fetch failed: HTTP status 503\n\
#\n\
# Source: https://three.example/list.txt\n\
# Successfully fetched 0 domains\n\
# Fetch failed: transport error\n\
#\n\
# Total unique raw rules: 2\n\
# Total unique converted rules: 1\n\
#\n\
0.0.0.0 example.com\n";
    assert_eq!(text, expected);
}

#[test]
fn timestamps_are_zero_padded_and_signed() {
    let result = RunResult { stats: vec![], unique_raw: 0, entries: vec![] };
    let at = |year: i32| Timestamp { year, month: 12, day: 31, hour: 23, minute: 59, second: 0 };
    let line = |year: i32| {
        let text = render_hosts(&banner(), &at(year), &result);
        text.lines().find(|l| l.starts_with("# Last modified: ")).unwrap().to_string()
    };
    assert_eq!(line(2026), "# Last modified: 2026-12-31 23:59:00 UTC");
    assert_eq!(line(7), "# Last modified: 0007-12-31 23:59:00 UTC");
    assert_eq!(line(12345), "# Last modified: +12345-12-31 23:59:00 UTC");
    assert_eq!(line(-44), "# Last modified: -0044-12-31 23:59:00 UTC");
}

#[test]
fn large_counts_are_written_in_full() {
    let result = RunResult { stats: vec![], unique_raw: 1234567890, entries: vec![] };
    let text = render_hosts(&banner(), &noon(), &result);
    assert!(text.contains("# Total unique raw rules: 1234567890\n"));
    assert!(text.ends_with("# Total unique converted rules: 0\n#\n"));
}

#[test]
fn clock_fields_are_in_range() {
    let now = adblock2hosts::utc_now();
    assert!(now.year >= 1970);
    assert!((1..=12).contains(&now.month));
    assert!((1..=31).contains(&now.day));
    assert!(now.hour < 24 && now.minute < 60 && now.second < 60);
}

