use wptfyi::result::Status;
use wptfyi::search::{search_body_json, Clause, LinkClause, Query, ResultClause, Search, SearchBody};
use wptfyi::strutil::{i64_to_string, u64_to_string};
use wptfyi::sync::fx_only_failures_query;
use wptfyi::Wptfyi;

#[test]
fn decimal_rendering() {
    assert_eq!(u64_to_string(0), "0");
    assert_eq!(u64_to_string(907), "907");
    assert_eq!(u64_to_string(u64::MAX), "18446744073709551615");
    assert_eq!(i64_to_string(-42), "-42");
    assert_eq!(i64_to_string(i64::MIN), "-9223372036854775808");
}

#[test]
fn result_clause_wire_shape() {
    let body = SearchBody {
        query: Query {
            query: Clause::BrowserResult(ResultClause {
                browser_name: "firefox".to_owned(),
                status: Status::NotRun,
            }),
        },
        run_ids: vec![1, -2, 30],
    };
    assert_eq!(
        search_body_json(&body),
        "{\"query\":{\"browser_name\":\"firefox\",\"status\":\"NOTRUN\"},\"run_ids\":[1,-2,30]}"
    );
}

#[test]
fn link_clause_escapes_strings() {
    let body = SearchBody {
        query: Query {
            query: Clause::Link(LinkClause { link: "a\"b\\c\nd".to_owned() }),
        },
        run_ids: vec![],
    };
    assert_eq!(
        search_body_json(&body),
        "{\"query\":{\"link\":\"a\\\"b\\\\c\\nd\"},\"run_ids\":[]}"
    );
}

#[test]
fn failure_query_wire_shape() {
    let body = SearchBody { query: fx_only_failures_query(false), run_ids: vec![7, 8, 9] };
    let expected = "{\"query\":{\"and\":[\
{\"not\":{\"browser_name\":\"firefox\",\"status\":\"OK\"}},\
{\"not\":{\"browser_name\":\"firefox\",\"status\":\"PASS\"}},\
{\"or\":[{\"browser_name\":\"chrome\",\"status\":\"OK\"},\
{\"browser_name\":\"chrome\",\"status\":\"PASS\"}]},\
{\"or\":[{\"browser_name\":\"safari\",\"status\":\"OK\"},\
{\"browser_name\":\"safari\",\"status\":\"PASS\"}]}\
]},\"run_ids\":[7,8,9]}";
    assert_eq!(search_body_json(&body), expected);
}

#[test]
fn untriaged_query_appends_link_guard() {
    let body = SearchBody { query: fx_only_failures_query(true), run_ids: vec![] };
    let json = search_body_json(&body);
    assert!(json.ends_with(
        "{\"not\":{\"link\":\"bugzilla.mozilla.org\"}}]},\"run_ids\":[]}"
    ));
}

#[test]
fn query_serialization_is_deterministic() {
    // Two independent constructions with identical arguments give
    // byte-identical request bodies.
    let b1 = SearchBody { query: fx_only_failures_query(true), run_ids: vec![5, 6] };
    let b2 = SearchBody { query: fx_only_failures_query(true), run_ids: vec![5, 6] };
    assert_eq!(search_body_json(&b1), search_body_json(&b2));
}

#[test]
fn query_wire_format_is_valid_json() {
    let body = SearchBody { query: fx_only_failures_query(true), run_ids: vec![1, 2, 3] };
    let text = search_body_json(&body);
    let value: serde_json::Value = serde_json::from_str(&text).unwrap();
    assert_eq!(value["run_ids"], serde_json::Value::from(vec![1, 2, 3]));
    let and = value["query"]["and"].as_array().unwrap();
    assert_eq!(and.len(), 5);
    assert_eq!(and[0]["not"]["browser_name"].as_str().unwrap(), "firefox");
    assert_eq!(and[4]["not"]["link"].as_str().unwrap(), "bugzilla.mozilla.org");
}

#[test]
fn runs_url_lists_products_labels_and_count() {
    let mut runs = Wptfyi::new(None).runs();
    for product in ["chrome", "firefox", "safari"].iter() {
        runs.add_product(product, "experimental");
    }
    runs.add_label("master");
    runs.set_max_count(100);
    assert_eq!(
        runs.url(),
        "https://wpt.fyi/api/runs?product=chrome%5Bexperimental%5D\
         &product=firefox%5Bexperimental%5D&product=safari%5Bexperimental%5D\
         &label=master&max-count=100"
    );
}

#[test]
fn url_encoding_matches_form_rules() {
    let mut runs = Wptfyi::new(Some("example.test".to_owned())).runs();
    runs.add_label("a b*c-d.e_f/g\u{e9}");
    assert_eq!(
        runs.url(),
        "https://example.test/api/runs?label=a+b*c-d.e_f%2Fg%C3%A9"
    );
}

#[test]
fn search_url_and_body() {
    let mut search = Wptfyi::new(None).search();
    search.add_product("firefox", "experimental");
    search.add_label("master");
    assert_eq!(
        search.url(),
        "https://wpt.fyi/api/search?product=firefox%5Bexperimental%5D&label=master"
    );
    assert!(search.body().is_none());
    search.set_query(&[10, 11], fx_only_failures_query(false));
    let body = search.body().unwrap();
    assert_eq!(body.run_ids, vec![10, 11]);
}

#[test]
fn metadata_url_includes_test_level() {
    let mut metadata = Wptfyi::new(None).metadata();
    metadata.add_product("firefox");
    assert_eq!(
        metadata.url(),
        "https://wpt.fyi/api/metadata?product=firefox&includeTestLevel=true"
    );
}

#[test]
fn interop_urls() {
    let fyi = Wptfyi::new(None);
    assert_eq!(
        fyi.interop_data().url(),
        "https://wpt.fyi/static/interop-data_v2.json"
    );
    assert_eq!(
        fyi.interop_categories().url(),
        "https://raw.githubusercontent.com/web-platform-tests/results-analysis/main/interop-scoring/category-data.json"
    );
    assert_eq!(
        fyi.interop_scores(wptfyi::interop::BrowserChannel::Experimental).url(),
        "https://raw.githubusercontent.com/web-platform-tests/results-analysis/gh-pages/data/interop-2023/interop-2023-experimental-v2.csv"
    );
    assert_eq!(wptfyi::interop::BrowserChannel::Stable.as_str(), "stable");
}

#[test]
fn clause_decoding_round_trips() {
    let query = fx_only_failures_query(true);
    let body = SearchBody { query, run_ids: vec![] };
    let text = search_body_json(&body);
    // The encoded query starts after the "query" key of the body.
    let clause_start = "{\"query\":".len();
    let (clause, end) = wptfyi::search::parse_clause(&text, clause_start).unwrap();
    let reencoded = search_body_json(&SearchBody { query: Query { query: clause }, run_ids: vec![] });
    assert_eq!(&reencoded[clause_start..end], &text[clause_start..end]);
    assert!(text[end..].starts_with(",\"run_ids\""));
}

#[test]
fn clause_decoding_unescapes_strings() {
    let encoded = "{\"link\":\"a\\\"b\\\\c\\nd\"}";
    let (clause, end) = wptfyi::search::parse_clause(encoded, 0).unwrap();
    assert_eq!(end, encoded.len());
    match clause {
        Clause::Link(l) => assert_eq!(l.link, "a\"b\\c\nd"),
        _ => panic!("decoded the wrong variant"),
    }
}

#[test]
fn clause_decoding_rejects_unknown_shapes() {
    assert!(wptfyi::search::parse_clause("{\"xor\":[]}", 0).is_none());
    assert!(wptfyi::search::parse_clause("{\"browser_name\":\"x\",\"status\":\"BAD\"}", 0).is_none());
    assert!(wptfyi::search::parse_clause("{\"and\":[", 0).is_none());
}

#[test]
fn clause_decoding_handles_control_escapes() {
    let body = SearchBody {
        query: Query { query: Clause::Link(LinkClause { link: "a\u{1}b\u{8}c".to_owned() }) },
        run_ids: vec![],
    };
    let text = search_body_json(&body);
    let clause_start = "{\"query\":".len();
    let (clause, _) = wptfyi::search::parse_clause(&text, clause_start).unwrap();
    match clause {
        Clause::Link(l) => assert_eq!(l.link, "a\u{1}b\u{8}c"),
        _ => panic!("decoded the wrong variant"),
    }
    // A non-canonical escape for a named control character is rejected.
    assert!(wptfyi::search::parse_clause("{\"link\":\"\\u0009\"}", 0).is_none());
}
