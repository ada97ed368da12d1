use wptfyi::interop::{Categories, Category, FocusArea};
use wptfyi::metadata::MetadataEntry;
use wptfyi::result::{LegacyStatus, Run, SearchData, SearchResult};
use wptfyi::scores::{
    browser_score_total, focus_area_rows, fx_failures_query, interop_columns, latest_runs,
    parse_u64,
};
use wptfyi::search::{search_body_json, Query, SearchBody};

fn run(id: i64, browser: &str, rev: &str, created_at: i64) -> Run {
    Run {
        id,
        browser_name: browser.to_owned(),
        browser_version: "1".to_owned(),
        os_name: "linux".to_owned(),
        os_version: "1".to_owned(),
        revision: rev.chars().take(10).collect(),
        full_revision_hash: rev.to_owned(),
        results_url: String::new(),
        created_at,
        time_start: created_at,
        time_end: created_at + 1,
        raw_results_url: String::new(),
        labels: vec!["master".to_owned()],
    }
}

#[test]
fn latest_runs_picks_newest_complete_group() {
    let runs = vec![
        run(1, "firefox", "old", 10),
        run(2, "chrome", "old", 11),
        run(3, "safari", "old", 12),
        run(4, "firefox", "new", 20),
        run(5, "chrome", "new", 21),
        run(6, "safari", "new", 22),
        run(7, "firefox", "incomplete", 99),
    ];
    let latest = latest_runs(&runs).unwrap();
    let ids: Vec<i64> = latest.iter().map(|x| x.id).collect();
    assert_eq!(ids, vec![4, 5, 6]);
}

#[test]
fn latest_runs_without_complete_group_is_not_found() {
    let runs = vec![run(1, "firefox", "aaa", 10), run(2, "chrome", "aaa", 11)];
    let err = latest_runs(&runs).unwrap_err();
    assert!(matches!(err, wptfyi::error::Error::NotFound));
}

#[test]
fn labelled_query_serializes_labels_in_order() {
    let labels = vec!["interop-2023-a".to_owned(), "interop-2023-b".to_owned()];
    let q: Query = fx_failures_query(&labels);
    let body = SearchBody { query: q, run_ids: vec![1] };
    let expected = "{\"query\":{\"and\":[\
{\"not\":{\"browser_name\":\"firefox\",\"status\":\"OK\"}},\
{\"not\":{\"browser_name\":\"firefox\",\"status\":\"PASS\"}},\
{\"or\":[{\"label\":\"interop-2023-a\"},{\"label\":\"interop-2023-b\"}]}\
]},\"run_ids\":[1]}";
    assert_eq!(search_body_json(&body), expected);
}

fn area(counts: bool) -> FocusArea {
    FocusArea {
        description: String::new(),
        mdn: String::new(),
        spec_link: String::new(),
        tests: String::new(),
        counts_toward_score: counts,
    }
}

#[test]
fn interop_columns_keep_scoring_areas() {
    let focus_areas = vec![
        ("css".to_owned(), area(true)),
        ("investigation".to_owned(), area(false)),
        ("forms".to_owned(), area(true)),
    ];
    assert_eq!(interop_columns(&focus_areas), vec!["css", "forms"]);
}

#[test]
fn parse_u64_accepts_digits_only() {
    assert_eq!(parse_u64("0"), Some(0));
    assert_eq!(parse_u64("907"), Some(907));
    assert_eq!(parse_u64("18446744073709551615"), Some(u64::MAX));
    assert_eq!(parse_u64("18446744073709551616"), None);
    assert_eq!(parse_u64(""), None);
    assert_eq!(parse_u64("12a"), None);
}

#[test]
fn browser_score_totals_sum_columns() {
    let row = vec![
        ("date".to_owned(), "2024-01-02".to_owned()),
        ("firefox-css".to_owned(), "10".to_owned()),
        ("firefox-forms".to_owned(), "25".to_owned()),
    ];
    let columns = vec!["css".to_owned(), "forms".to_owned()];
    assert_eq!(browser_score_total("firefox", &columns, &row).unwrap(), 35);
    let err = browser_score_total("chrome", &columns, &row).unwrap_err();
    assert!(matches!(err, wptfyi::error::Error::MissingColumn));
    let bad = vec![("firefox-css".to_owned(), "n/a".to_owned())];
    let err = browser_score_total("firefox", &vec!["css".to_owned()], &bad).unwrap_err();
    assert!(matches!(err, wptfyi::error::Error::BadScore));
}

#[test]
fn category_lookup_by_name() {
    let categories = Categories {
        categories: vec![
            Category { name: "css".to_owned(), labels: vec!["interop-2023-css".to_owned()] },
            Category { name: "forms".to_owned(), labels: vec![] },
        ],
    };
    let by_name = categories.by_name();
    let css = wptfyi::interop::category_by_name(&by_name, "css").unwrap();
    assert_eq!(css.labels, vec!["interop-2023-css"]);
    assert!(wptfyi::interop::category_by_name(&by_name, "svg").is_none());
}

#[test]
fn focus_area_rows_score_and_collect_bugs() {
    // The response lists browsers out of roster order; they are matched by
    // name.  Firefox shows its total, the others total minus passes.
    let data = SearchData {
        runs: vec![
            run(1, "chrome", "aaa", 1),
            run(2, "firefox", "aaa", 2),
            run(3, "safari", "aaa", 3),
        ],
        results: vec![SearchResult {
            test: "/css/test.html".to_owned(),
            legacy_status: vec![
                LegacyStatus { passes: 2, total: 3 },
                LegacyStatus { passes: 0, total: 5 },
                LegacyStatus { passes: 3, total: 3 },
            ],
        }],
    };
    let metadata = vec![(
        "/css/test.html".to_owned(),
        vec![
            MetadataEntry {
                product: "firefox".to_owned(),
                url: "https://bugzilla.mozilla.org/show_bug.cgi?id=1234567".to_owned(),
                results: vec![],
                label: String::new(),
            },
            MetadataEntry {
                product: "chrome".to_owned(),
                url: "https://bugzilla.mozilla.org/show_bug.cgi?id=999".to_owned(),
                results: vec![],
                label: String::new(),
            },
            MetadataEntry {
                product: "firefox".to_owned(),
                url: "https://bugzilla.mozilla.org/show_bug.cgi?id=1234567".to_owned(),
                results: vec![],
                label: String::new(),
            },
        ],
    )];
    let rows = focus_area_rows(&data, &metadata).unwrap();
    assert_eq!(rows.len(), 1);
    assert_eq!(rows[0].test, "/css/test.html");
    assert_eq!(rows[0].firefox_failures, Some(5));
    assert_eq!(rows[0].chrome_failures, Some(1));
    assert_eq!(rows[0].safari_failures, Some(0));
    // Only firefox entries pointing at the tracker count, and the repeated
    // bug appears once.
    assert_eq!(rows[0].bugs, vec!["1234567"]);
}

#[test]
fn focus_area_rows_need_all_browsers() {
    let data = SearchData {
        runs: vec![run(1, "chrome", "aaa", 1), run(2, "firefox", "aaa", 2)],
        results: vec![],
    };
    let err = focus_area_rows(&data, &vec![]).unwrap_err();
    assert!(matches!(err, wptfyi::error::Error::IncompleteResponse));
}

#[test]
fn focus_area_bugs_are_sorted_ascending() {
    let data = SearchData {
        runs: vec![
            run(1, "firefox", "aaa", 1),
            run(2, "chrome", "aaa", 2),
            run(3, "safari", "aaa", 3),
        ],
        results: vec![SearchResult {
            test: "/x.html".to_owned(),
            legacy_status: vec![
                LegacyStatus { passes: 0, total: 1 },
                LegacyStatus { passes: 1, total: 1 },
                LegacyStatus { passes: 1, total: 1 },
            ],
        }],
    };
    let entry = |id: &str| MetadataEntry {
        product: "firefox".to_owned(),
        url: format!("https://bugzilla.mozilla.org/show_bug.cgi?id={}", id),
        results: vec![],
        label: String::new(),
    };
    let metadata = vec![(
        "/x.html".to_owned(),
        vec![entry("90"), entry("1200"), entry("90"), entry("100")],
    )];
    let rows = focus_area_rows(&data, &metadata).unwrap();
    // Distinct bug ids, ascending as the tracker links sort, each once.
    assert_eq!(rows[0].bugs, vec!["100", "1200", "90"]);
}

#[test]
fn duplicate_category_names_keep_the_last() {
    let categories = Categories {
        categories: vec![
            Category { name: "css".to_owned(), labels: vec!["old".to_owned()] },
            Category { name: "css".to_owned(), labels: vec!["new".to_owned()] },
        ],
    };
    let by_name = categories.by_name();
    assert_eq!(by_name.len(), 1);
    let css = wptfyi::interop::category_by_name(&by_name, "css").unwrap();
    assert_eq!(css.labels, vec!["new"]);
}
