//! Data returned by the results service: test runs, per-test search results,
//! and the per-browser pass/total counts attached to each result row.
//!
//! Timestamps are carried as Unix seconds so that ordering and minima can be
//! reasoned about directly; the surrounding program converts wire-format
//! dates to and from these integers.

use vstd::prelude::*;

verus! {

/// Outcome of a test or subtest, serialized on the wire as a fixed
/// uppercase token.
#[derive(Clone, Copy, Debug, PartialEq, Eq, Structural)]
pub enum Status {
    Okay,
    Pass,
    Fail,
    Error,
    Timeout,
    NotRun,
    Crash,
}

/// One test run of one browser, as listed by the runs endpoint.
#[derive(Debug)]
pub struct Run {
    pub id: i64,
    pub browser_name: String,
    pub browser_version: String,
    pub os_name: String,
    pub os_version: String,
    pub revision: String,
    pub full_revision_hash: String,
    pub results_url: String,
    /// Unix seconds.
    pub created_at: i64,
    /// Unix seconds.
    pub time_start: i64,
    /// Unix seconds.
    pub time_end: i64,
    pub raw_results_url: String,
    pub labels: Vec<String>,
}

/// Mathematical value of a [`Run`].
pub ghost struct RunView {
    pub id: int,
    pub browser_name: Seq<char>,
    pub browser_version: Seq<char>,
    pub os_name: Seq<char>,
    pub os_version: Seq<char>,
    pub revision: Seq<char>,
    pub full_revision_hash: Seq<char>,
    pub results_url: Seq<char>,
    pub created_at: int,
    pub time_start: int,
    pub time_end: int,
    pub raw_results_url: Seq<char>,
    pub labels: Seq<Seq<char>>,
}

impl View for Run {
    type V = RunView;

    open spec fn view(&self) -> RunView {
        RunView {
            id: self.id as int,
            browser_name: self.browser_name@,
            browser_version: self.browser_version@,
            os_name: self.os_name@,
            os_version: self.os_version@,
            revision: self.revision@,
            full_revision_hash: self.full_revision_hash@,
            results_url: self.results_url@,
            created_at: self.created_at as int,
            time_start: self.time_start as int,
            time_end: self.time_end as int,
            raw_results_url: self.raw_results_url@,
            labels: self.labels@.map_values(|l: String| l@),
        }
    }
}

impl Clone for Run {
    fn clone(&self) -> (r: Run)
        ensures
            r@ == self@,
    {
        let r = Run {
            id: self.id,
            browser_name: self.browser_name.clone(),
            browser_version: self.browser_version.clone(),
            os_name: self.os_name.clone(),
            os_version: self.os_version.clone(),
            revision: self.revision.clone(),
            full_revision_hash: self.full_revision_hash.clone(),
            results_url: self.results_url.clone(),
            created_at: self.created_at,
            time_start: self.time_start,
            time_end: self.time_end,
            raw_results_url: self.raw_results_url.clone(),
            labels: self.labels.clone(),
        };
        proof {
            assert(r.labels@.map_values(|l: String| l@) =~= self.labels@.map_values(
                |l: String| l@,
            ));
        }
        r
    }
}

/// Pass/total subtest counts of one browser on one test.
#[derive(Clone, Copy, Debug, PartialEq, Eq, Structural)]
pub struct LegacyStatus {
    pub passes: i64,
    pub total: i64,
}

/// One row of a search response: a test together with per-browser counts,
/// indexed positionally by the order of the response's run list.
pub struct SearchResult {
    pub test: String,
    pub legacy_status: Vec<LegacyStatus>,
}

/// Mathematical value of a [`SearchResult`].
pub ghost struct SearchResultView {
    pub test: Seq<char>,
    pub legacy_status: Seq<LegacyStatus>,
}

impl View for SearchResult {
    type V = SearchResultView;

    open spec fn view(&self) -> SearchResultView {
        SearchResultView { test: self.test@, legacy_status: self.legacy_status@ }
    }
}

/// A whole search response: the runs the search covered, and one result row
/// per matching test.
pub struct SearchData {
    pub runs: Vec<Run>,
    pub results: Vec<SearchResult>,
}

/// Mathematical value of a [`SearchData`].
pub ghost struct SearchDataView {
    pub runs: Seq<RunView>,
    pub results: Seq<SearchResultView>,
}

impl View for SearchData {
    type V = SearchDataView;

    open spec fn view(&self) -> SearchDataView {
        SearchDataView {
            runs: self.runs@.map_values(|r: Run| r@),
            results: self.results@.map_values(|r: SearchResult| r@),
        }
    }
}

} // verus!
