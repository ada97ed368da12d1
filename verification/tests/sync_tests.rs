use wptfyi::result::{LegacyStatus, Run, SearchData, SearchResult};
use wptfyi::sync::{count_failures, get_runs, missing_runs, FailureCount, RunData, RunsData};

fn run(id: i64, browser: &str, rev: &str, created_at: i64) -> Run {
    Run {
        id,
        browser_name: browser.to_owned(),
        browser_version: "1".to_owned(),
        os_name: "linux".to_owned(),
        os_version: "1".to_owned(),
        revision: rev.chars().take(10).collect(),
        full_revision_hash: rev.to_owned(),
        results_url: String::new(),
        created_at,
        time_start: created_at,
        time_end: created_at + 1,
        raw_results_url: String::new(),
        labels: vec!["master".to_owned()],
    }
}

fn roster() -> Vec<String> {
    vec!["firefox".to_owned(), "chrome".to_owned(), "safari".to_owned()]
}

fn entry(rev: &str) -> RunData {
    RunData {
        revision: rev.to_owned(),
        run_ids: vec![1, 2, 3],
        date: 100,
        all_failures: FailureCount { tests: 0, subtests: 0 },
        untriaged_failures: FailureCount { tests: 0, subtests: 0 },
    }
}

#[test]
fn aligner_groups_complete_revisions() {
    let runs = vec![
        run(1, "firefox", "aaa", 10),
        run(2, "chrome", "aaa", 12),
        run(3, "safari", "aaa", 8),
        run(4, "firefox", "bbb", 20),
    ];
    let aligned = get_runs(&runs);
    assert_eq!(aligned.len(), 1);
    assert_eq!(aligned[0].revision, "aaa");
    assert_eq!(aligned[0].run_ids, vec![1, 2, 3]);
    assert_eq!(aligned[0].date, 8);
}

#[test]
fn aligner_rejects_group_of_four() {
    // Two firefox runs plus one chrome and one safari run for one revision:
    // the group has size four, not the roster size, so it is not complete.
    let runs = vec![
        run(1, "firefox", "rost", 10),
        run(2, "firefox", "rost", 11),
        run(3, "chrome", "rost", 12),
        run(4, "safari", "rost", 13),
    ];
    let aligned = get_runs(&runs);
    assert!(aligned.is_empty());
}

#[test]
fn aligner_emits_each_revision_once() {
    let runs = vec![
        run(1, "firefox", "aaa", 1),
        run(2, "chrome", "aaa", 2),
        run(3, "safari", "aaa", 3),
        run(4, "firefox", "bbb", 4),
        run(5, "chrome", "bbb", 5),
        run(6, "safari", "bbb", 6),
    ];
    let aligned = get_runs(&runs);
    assert_eq!(aligned.len(), 2);
    assert_ne!(aligned[0].revision, aligned[1].revision);
    assert_eq!(aligned[0].revision, "aaa");
    assert_eq!(aligned[1].revision, "bbb");
}

#[test]
fn missing_skips_recorded_revisions() {
    let mut ledger = RunsData::new();
    ledger.append(entry("abc123"));
    let runs = vec![
        run(1, "firefox", "abc123", 1),
        run(2, "chrome", "abc123", 2),
        run(3, "safari", "abc123", 3),
        run(4, "firefox", "def456", 4),
        run(5, "chrome", "def456", 5),
        run(6, "safari", "def456", 6),
    ];
    let candidates = get_runs(&runs);
    assert_eq!(candidates.len(), 2);
    let missing = missing_runs(&ledger, candidates);
    assert_eq!(missing.len(), 1);
    assert_eq!(missing[0].revision, "def456");
}

#[test]
fn sync_is_idempotent_over_same_candidates() {
    let runs = vec![
        run(1, "firefox", "aaa", 1),
        run(2, "chrome", "aaa", 2),
        run(3, "safari", "aaa", 3),
    ];
    let mut ledger = RunsData::new();
    let first = missing_runs(&ledger, get_runs(&runs));
    assert_eq!(first.len(), 1);
    for m in first {
        ledger.append(RunData {
            revision: m.revision,
            run_ids: m.run_ids,
            date: m.date,
            all_failures: FailureCount { tests: 1, subtests: 2 },
            untriaged_failures: FailureCount { tests: 0, subtests: 0 },
        });
    }
    let len_after_first = ledger.runs.len();
    // A second pass over the same remote state finds nothing missing.
    let second = missing_runs(&ledger, get_runs(&runs));
    assert!(second.is_empty());
    assert_eq!(ledger.runs.len(), len_after_first);
}

fn response(rows: Vec<SearchResult>, browsers: &[&str]) -> SearchData {
    SearchData {
        runs: browsers
            .iter()
            .enumerate()
            .map(|(i, b)| run(i as i64, b, "aaa", i as i64))
            .collect(),
        results: rows,
    }
}

fn row(test: &str, counts: &[(i64, i64)]) -> SearchResult {
    SearchResult {
        test: test.to_owned(),
        legacy_status: counts.iter().map(|&(passes, total)| LegacyStatus { passes, total }).collect(),
    }
}

#[test]
fn reducer_counts_tests_and_subtests() {
    // Three rows, the reference browser reporting total=5, passes=0 in each:
    // 3 failing tests and 15 failing subtests.
    let data = response(
        vec![
            row("/a", &[(0, 5), (3, 3), (2, 2)]),
            row("/b", &[(0, 5), (1, 1), (2, 2)]),
            row("/c", &[(0, 5), (2, 2), (1, 1)]),
        ],
        &["firefox", "chrome", "safari"],
    );
    let counts = count_failures(&data, "firefox", &roster()).unwrap();
    assert_eq!(counts.tests, 3);
    assert_eq!(counts.subtests, 15);
}

#[test]
fn reducer_matches_reference_by_name_not_position() {
    let data = response(
        vec![row("/a", &[(3, 3), (0, 7), (2, 2)])],
        &["chrome", "firefox", "safari"],
    );
    let counts = count_failures(&data, "firefox", &roster()).unwrap();
    assert_eq!(counts.tests, 1);
    assert_eq!(counts.subtests, 7);
}

#[test]
fn reducer_counts_zero_for_short_rows() {
    let data = response(
        vec![row("/a", &[(0, 5)]), row("/b", &[])],
        &["chrome", "firefox", "safari"],
    );
    let counts = count_failures(&data, "firefox", &roster()).unwrap();
    assert_eq!(counts.tests, 2);
    assert_eq!(counts.subtests, 0);
}

#[test]
fn reducer_rejects_incomplete_roster() {
    // The response's run list is missing safari while the roster requires
    // firefox, chrome and safari.
    let data = response(vec![row("/a", &[(0, 5), (1, 1)])], &["firefox", "chrome"]);
    let err = count_failures(&data, "firefox", &roster()).unwrap_err();
    assert!(matches!(err, wptfyi::error::Error::IncompleteResponse));
}
