//! Incremental synchronization of failure counts: aligning raw runs into
//! complete per-revision sets, diffing them against the persisted ledger,
//! building the failure query, and reducing search responses to counts.

use vstd::prelude::*;

use crate::error::Error;
use crate::result::Run;
use crate::result::SearchData;
use crate::result::SearchDataView;
use crate::result::SearchResultView;
use crate::result::Status;
use crate::run::runs_by_commit;
use crate::run::spec_distinct_revs;
use crate::run::spec_group;
use crate::run::lemma_distinct_revs_no_dup;
use crate::search::AndClause;
use crate::search::Clause;
use crate::search::LinkClause;
use crate::search::NotClause;
use crate::search::OrClause;
use crate::search::Query;
use crate::search::ResultClause;
use crate::strutil::str_eq;
use crate::strutil::string_views;

verus! {

/// A complete aligned set: one run per roster browser, all against the same
/// revision.  Derived from a runs listing, never persisted directly.
pub struct NewRun {
    pub revision: String,
    pub run_ids: Vec<i64>,
    /// Earliest `created_at` among the set's runs, Unix seconds.
    pub date: i64,
}

/// Mathematical value of a [`NewRun`].
pub ghost struct NewRunView {
    pub revision: Seq<char>,
    pub run_ids: Seq<i64>,
    pub date: int,
}

impl View for NewRun {
    type V = NewRunView;

    open spec fn view(&self) -> NewRunView {
        NewRunView {
            revision: self.revision@,
            run_ids: self.run_ids@,
            date: self.date as int,
        }
    }
}

/// The views of a sequence of aligned sets.
pub open spec fn new_run_views(s: Seq<NewRun>) -> Seq<NewRunView> {
    s.map_values(|n: NewRun| n@)
}

/// How many browsers the roster requires for a revision's set of runs to
/// count as complete.
pub open spec fn spec_roster_size() -> int {
    3
}

/// The run ids selected by a group of run indices.
pub open spec fn ids_of(runs: Seq<Run>, g: Seq<int>) -> Seq<i64> {
    Seq::new(g.len(), |t: int| runs[g[t]].id)
}

/// The earliest `created_at` among the runs of a group.
pub open spec fn min_created(runs: Seq<Run>, g: Seq<int>) -> int
    decreases g.len(),
{
    if g.len() == 0 {
        0
    } else if g.len() == 1 {
        runs[g[0]].created_at as int
    } else {
        let rest = min_created(runs, g.drop_last());
        let last = runs[g.last()].created_at as int;
        if last < rest {
            last
        } else {
            rest
        }
    }
}

/// The aligned set of one revision.
pub open spec fn spec_new_run_of(runs: Seq<Run>, rev: Seq<char>) -> NewRunView {
    NewRunView {
        revision: rev,
        run_ids: ids_of(runs, spec_group(runs, rev)),
        date: min_created(runs, spec_group(runs, rev)),
    }
}

/// The aligned sets of the given revisions, keeping only revisions whose
/// group is complete.
pub open spec fn spec_aligned_of_keys(runs: Seq<Run>, keys: Seq<Seq<char>>) -> Seq<NewRunView>
    decreases keys.len(),
{
    if keys.len() == 0 {
        Seq::empty()
    } else {
        let init = spec_aligned_of_keys(runs, keys.drop_last());
        if spec_group(runs, keys.last()).len() == spec_roster_size() {
            init.push(spec_new_run_of(runs, keys.last()))
        } else {
            init
        }
    }
}

/// All complete aligned sets of a runs listing, in the order the revisions
/// first occur in it.
pub open spec fn spec_aligned_sets(runs: Seq<Run>) -> Seq<NewRunView> {
    spec_aligned_of_keys(runs, spec_distinct_revs(runs))
}

/// Every emitted revision is one of the given keys, and distinct keys yield
/// pairwise distinct revisions.
proof fn lemma_aligned_of_keys_revisions(runs: Seq<Run>, keys: Seq<Seq<char>>)
    requires
        forall|i: int, j: int| 0 <= i < j < keys.len() ==> keys[i] != keys[j],
    ensures
        forall|t: int|
            0 <= t < spec_aligned_of_keys(runs, keys).len() ==> keys.contains(
                #[trigger] spec_aligned_of_keys(runs, keys)[t].revision,
            ),
        forall|i: int, j: int|
            0 <= i < j < spec_aligned_of_keys(runs, keys).len()
                ==> #[trigger] spec_aligned_of_keys(runs, keys)[i].revision
                != #[trigger] spec_aligned_of_keys(runs, keys)[j].revision,
    decreases keys.len(),
{
    if keys.len() > 0 {
        let prev = keys.drop_last();
        assert(forall|i: int| 0 <= i < prev.len() ==> prev[i] == keys[i]);
        lemma_aligned_of_keys_revisions(runs, prev);
        let init = spec_aligned_of_keys(runs, prev);
        let whole = spec_aligned_of_keys(runs, keys);
        assert(forall|t: int|
            0 <= t < init.len() ==> prev.contains(#[trigger] init[t].revision));
        assert(forall|t: int|
            0 <= t < init.len() ==> keys.contains(#[trigger] init[t].revision)) by {
            assert(forall|t: int|
                0 <= t < init.len() ==> exists|s: int| 0 <= s < prev.len() && prev[s]
                    == #[trigger] init[t].revision);
        }
        if spec_group(runs, keys.last()).len() == spec_roster_size() {
            assert(whole == init.push(spec_new_run_of(runs, keys.last())));
            assert(forall|t: int| 0 <= t < init.len() ==> whole[t] == init[t]);
            assert(whole.last().revision == keys.last());
            assert forall|t: int| 0 <= t < init.len() implies init[t].revision != keys.last() by {
                let s = choose|s: int| 0 <= s < prev.len() && prev[s] == init[t].revision;
                assert(keys[s] == prev[s]);
            }
        }
    }
}

/// No two aligned sets of one runs listing share a revision.
pub proof fn lemma_aligned_sets_distinct_revisions(runs: Seq<Run>)
    ensures
        forall|i: int, j: int|
            0 <= i < j < spec_aligned_sets(runs).len() ==> #[trigger] spec_aligned_sets(
                runs,
            )[i].revision != #[trigger] spec_aligned_sets(runs)[j].revision,
{
    lemma_distinct_revs_no_dup(runs);
    lemma_aligned_of_keys_revisions(runs, spec_distinct_revs(runs));
}

/// Groups a runs listing by revision and emits one aligned set per revision
/// whose group is complete, in first-occurrence order.
pub fn get_runs(runs: &Vec<Run>) -> (rv: Vec<NewRun>)
    ensures
        new_run_views(rv@) == spec_aligned_sets(runs@),
{
    let groups = runs_by_commit(runs);
    let ghost dk = spec_distinct_revs(runs@);
    let ng = groups.len();
    let mut rv: Vec<NewRun> = Vec::new();
    let mut j: usize = 0;
    while j < ng
        invariant
            ng == groups@.len(),
            j <= ng,
            dk == spec_distinct_revs(runs@),
            groups@.map_values(|g: (String, Vec<usize>)| g.0@) =~= dk,
            forall|m: int|
                0 <= m < groups@.len() ==> (#[trigger] groups@[m]).1@.map_values(|u: usize| u as int)
                    == spec_group(runs@, groups@[m].0@),
            forall|m: int, t: int|
                0 <= m < groups@.len() && 0 <= t < groups@[m].1@.len()
                    ==> #[trigger] groups@[m].1@[t] < runs@.len(),
            new_run_views(rv@) =~= spec_aligned_of_keys(runs@, dk.take(j as int)),
        decreases ng - j,
    {
        let ghost key = groups@[j as int].0@;
        let ghost g = spec_group(runs@, key);
        proof {
            assert(dk[j as int] == key);
            assert(groups@[j as int].1@.map_values(|u: usize| u as int) == g);
            assert(dk.take(j + 1).drop_last() =~= dk.take(j as int));
            assert(dk.take(j + 1).last() == key);
        }
        let idxs_len = groups[j].1.len();
        if idxs_len == 3 {
            let mut run_ids: Vec<i64> = Vec::new();
            let mut t: usize = 0;
            while t < idxs_len
                invariant
                    ng == groups@.len(),
                    j < ng,
                    t <= idxs_len,
                    idxs_len == groups@[j as int].1@.len(),
                    g == spec_group(runs@, groups@[j as int].0@),
                    groups@[j as int].1@.map_values(|u: usize| u as int) == g,
                    forall|m: int, t2: int|
                        0 <= m < groups@.len() && 0 <= t2 < groups@[m].1@.len()
                            ==> #[trigger] groups@[m].1@[t2] < runs@.len(),
                    run_ids@ =~= ids_of(runs@, g).take(t as int),
                decreases idxs_len - t,
            {
                let idx = groups[j].1[t];
                proof {
                    assert(groups@[j as int].1@.map_values(|u: usize| u as int)[t as int]
                        == g[t as int]);
                }
                run_ids.push(runs[idx].id);
                proof {
                    assert(run_ids@ =~= ids_of(runs@, g).take(t + 1));
                }
                t = t + 1;
            }
            proof {
                assert(ids_of(runs@, g).take(idxs_len as int) =~= ids_of(runs@, g));
            }
            let i0 = groups[j].1[0];
            proof {
                assert(groups@[j as int].1@.map_values(|u: usize| u as int)[0] == g[0]);
            }
            let mut date: i64 = runs[i0].created_at;
            let mut t2: usize = 1;
            while t2 < idxs_len
                invariant
                    ng == groups@.len(),
                    j < ng,
                    1 <= t2 <= idxs_len,
                    idxs_len == groups@[j as int].1@.len(),
                    g == spec_group(runs@, groups@[j as int].0@),
                    groups@[j as int].1@.map_values(|u: usize| u as int) == g,
                    forall|m: int, t3: int|
                        0 <= m < groups@.len() && 0 <= t3 < groups@[m].1@.len()
                            ==> #[trigger] groups@[m].1@[t3] < runs@.len(),
                    date as int == min_created(runs@, g.take(t2 as int)),
                decreases idxs_len - t2,
            {
                let idx = groups[j].1[t2];
                proof {
                    assert(groups@[j as int].1@.map_values(|u: usize| u as int)[t2 as int]
                        == g[t2 as int]);
                    assert(g.take(t2 + 1).drop_last() =~= g.take(t2 as int));
                    assert(g.take(t2 + 1).last() == g[t2 as int]);
                }
                let c = runs[idx].created_at;
                if c < date {
                    date = c;
                }
                t2 = t2 + 1;
            }
            proof {
                assert(g.take(1) =~= seq![g[0]]);
                assert(g.take(idxs_len as int) =~= g);
            }
            let ghost prev_rv = rv@;
            rv.push(NewRun { revision: groups[j].0.clone(), run_ids, date });
            proof {
                assert(new_run_views(rv@) =~= new_run_views(prev_rv).push(rv@.last()@));
                assert(rv@.last()@ == spec_new_run_of(runs@, key));
                assert(new_run_views(rv@) =~= spec_aligned_of_keys(runs@, dk.take(j + 1)));
            }
        } else {
            proof {
                assert(g.len() != spec_roster_size());
                assert(new_run_views(rv@) =~= spec_aligned_of_keys(runs@, dk.take(j + 1)));
            }
        }
        j = j + 1;
    }
    proof {
        assert(dk.take(ng as int) =~= dk);
    }
    rv
}

impl Clone for NewRun {
    fn clone(&self) -> (r: NewRun)
        ensures
            r@ == self@,
    {
        let r = NewRun {
            revision: self.revision.clone(),
            run_ids: self.run_ids.clone(),
            date: self.date,
        };
        proof {
            assert(r.run_ids@ =~= self.run_ids@);
        }
        r
    }
}

/// Failure counts of one aligned set: failing tests and failing subtests.
#[derive(Clone, Copy, Debug, PartialEq, Eq, Structural)]
pub struct FailureCount {
    pub tests: i64,
    pub subtests: i64,
}

/// One persisted ledger entry: a processed revision with its run ids, date
/// and failure counts.  Entries are appended once and never changed.
pub struct RunData {
    pub revision: String,
    pub run_ids: Vec<i64>,
    /// Unix seconds.
    pub date: i64,
    pub all_failures: FailureCount,
    pub untriaged_failures: FailureCount,
}

/// Mathematical value of a [`RunData`].
pub ghost struct RunDataView {
    pub revision: Seq<char>,
    pub run_ids: Seq<i64>,
    pub date: int,
    pub all_failures: FailureCount,
    pub untriaged_failures: FailureCount,
}

impl View for RunData {
    type V = RunDataView;

    open spec fn view(&self) -> RunDataView {
        RunDataView {
            revision: self.revision@,
            run_ids: self.run_ids@,
            date: self.date as int,
            all_failures: self.all_failures,
            untriaged_failures: self.untriaged_failures,
        }
    }
}

/// The views of a sequence of ledger entries.
pub open spec fn run_data_views(s: Seq<RunData>) -> Seq<RunDataView> {
    s.map_values(|r: RunData| r@)
}

/// The revisions recorded by a ledger.
pub open spec fn spec_ledger_revisions(s: Seq<RunDataView>) -> Seq<Seq<char>> {
    s.map_values(|r: RunDataView| r.revision)
}

/// The persisted, append-only ledger of processed revisions.
pub struct RunsData {
    pub runs: Vec<RunData>,
}

impl RunsData {
    /// An empty ledger; a missing backing store loads as this.
    pub fn new() -> (r: RunsData)
        ensures
            r.runs@.len() == 0,
    {
        RunsData { runs: Vec::new() }
    }

    /// Does the ledger already record `rev`?
    pub fn contains_revision(&self, rev: &str) -> (r: bool)
        ensures
            r == spec_ledger_revisions(run_data_views(self.runs@)).contains(rev@),
    {
        let n = self.runs.len();
        let mut i: usize = 0;
        while i < n
            invariant
                n == self.runs@.len(),
                i <= n,
                forall|j: int|
                    0 <= j < i ==> spec_ledger_revisions(run_data_views(self.runs@))[j] != rev@,
            decreases n - i,
        {
            if str_eq(self.runs[i].revision.as_str(), rev) {
                proof {
                    assert(spec_ledger_revisions(run_data_views(self.runs@))[i as int] == rev@);
                }
                return true;
            }
            proof {
                assert(spec_ledger_revisions(run_data_views(self.runs@))[i as int]
                    == self.runs@[i as int].revision@);
            }
            i = i + 1;
        }
        proof {
            let revs = spec_ledger_revisions(run_data_views(self.runs@));
            assert(forall|j: int| 0 <= j < revs.len() ==> revs[j] != rev@);
        }
        false
    }

    /// Appends a new entry.  The caller guarantees, by consulting
    /// [`missing_runs`] first, that the revision is not yet recorded.
    pub fn append(&mut self, entry: RunData)
        requires
            !spec_ledger_revisions(run_data_views(old(self).runs@)).contains(entry.revision@),
        ensures
            final(self).runs@ == old(self).runs@.push(entry),
    {
        self.runs.push(entry);
    }
}

/// The candidates whose revision the ledger does not record yet, in
/// candidate order.
pub open spec fn spec_missing(ledger: Seq<RunDataView>, cands: Seq<NewRunView>) -> Seq<
    NewRunView,
> {
    cands.filter(|c: NewRunView| !spec_ledger_revisions(ledger).contains(c.revision))
}

/// Filters the candidate aligned sets down to those not yet in the ledger,
/// preserving their order.
pub fn missing_runs(existing_runs: &RunsData, new_runs: Vec<NewRun>) -> (rv: Vec<NewRun>)
    ensures
        new_run_views(rv@) == spec_missing(
            run_data_views(existing_runs.runs@),
            new_run_views(new_runs@),
        ),
{
    let ghost ledger = run_data_views(existing_runs.runs@);
    let ghost nv = new_run_views(new_runs@);
    let n = new_runs.len();
    let mut rv: Vec<NewRun> = Vec::new();
    let mut k: usize = 0;
    while k < n
        invariant
            n == new_runs@.len(),
            k <= n,
            ledger == run_data_views(existing_runs.runs@),
            nv == new_run_views(new_runs@),
            new_run_views(rv@) =~= spec_missing(ledger, nv.take(k as int)),
        decreases n - k,
    {
        proof {
            reveal(Seq::filter);
            assert(nv.take(k + 1).drop_last() =~= nv.take(k as int));
            assert(nv.take(k + 1).last() == nv[k as int]);
            assert(nv[k as int] == new_runs@[k as int]@);
        }
        if !existing_runs.contains_revision(new_runs[k].revision.as_str()) {
            let ghost prev = rv@;
            rv.push(new_runs[k].clone());
            proof {
                assert(new_run_views(rv@) =~= new_run_views(prev).push(nv[k as int]));
                assert(new_run_views(rv@) =~= spec_missing(ledger, nv.take(k + 1)));
            }
        } else {
            proof {
                assert(new_run_views(rv@) =~= spec_missing(ledger, nv.take(k + 1)));
            }
        }
        k = k + 1;
    }
    proof {
        assert(nv.take(n as int) =~= nv);
    }
    rv
}

/// Is `a` a subsequence of `b` (its elements occur in `b`, in order)?
pub open spec fn is_subsequence<T>(a: Seq<T>, b: Seq<T>) -> bool
    decreases a.len() + b.len(),
{
    if a.len() == 0 {
        true
    } else if b.len() == 0 {
        false
    } else if a.last() == b.last() {
        is_subsequence(a.drop_last(), b.drop_last()) || is_subsequence(a, b.drop_last())
    } else {
        is_subsequence(a, b.drop_last())
    }
}

proof fn lemma_subsequence_extend<T>(a: Seq<T>, b: Seq<T>, x: T)
    requires
        is_subsequence(a, b),
    ensures
        is_subsequence(a, b.push(x)),
{
    assert(b.push(x).drop_last() =~= b);
    assert(b.push(x).last() == x);
}

proof fn lemma_filter_is_subsequence<T>(s: Seq<T>, p: spec_fn(T) -> bool)
    ensures
        is_subsequence(s.filter(p), s),
    decreases s.len(),
{
    reveal(Seq::filter);
    if s.len() == 0 {
    } else {
        lemma_filter_is_subsequence(s.drop_last(), p);
        if p(s.last()) {
            assert(s.filter(p) == s.drop_last().filter(p).push(s.last()));
            assert(s.filter(p).drop_last() =~= s.drop_last().filter(p));
            assert(s.filter(p).last() == s.last());
        } else {
            assert(s.filter(p) == s.drop_last().filter(p));
            lemma_subsequence_extend(s.filter(p), s.drop_last(), s.last());
            assert(s.drop_last().push(s.last()) =~= s);
        }
    }
}

/// What `missing_runs` returns is a subsequence of the candidates, in their
/// order, and none of its revisions is already recorded in the ledger.
pub proof fn lemma_missing_is_fresh_subsequence(ledger: Seq<RunDataView>, cands: Seq<NewRunView>)
    ensures
        is_subsequence(spec_missing(ledger, cands), cands),
        forall|t: int|
            0 <= t < spec_missing(ledger, cands).len() ==> !spec_ledger_revisions(
                ledger,
            ).contains(#[trigger] spec_missing(ledger, cands)[t].revision),
{
    broadcast use vstd::seq_lib::group_filter_ensures;

    let p = |c: NewRunView| !spec_ledger_revisions(ledger).contains(c.revision);
    lemma_filter_is_subsequence(cands, p);
    assert forall|t: int| 0 <= t < spec_missing(ledger, cands).len() implies !spec_ledger_revisions(
        ledger,
    ).contains(#[trigger] spec_missing(ledger, cands)[t].revision) by {
        assert(p(cands.filter(p)[t]));
    }
}


/// The browser names of a search response's run list, in response order.
pub open spec fn spec_run_names(d: SearchDataView) -> Seq<Seq<char>> {
    d.runs.map_values(|r: crate::result::RunView| r.browser_name)
}

/// Does the response's run list name every roster browser?
pub open spec fn spec_roster_complete(d: SearchDataView, roster: Seq<Seq<char>>) -> bool {
    forall|i: int| 0 <= i < roster.len() ==> spec_run_names(d).contains(#[trigger] roster[i])
}

/// The index of the first occurrence of `x` in `s`, or `-1`.
pub open spec fn spec_first_index(s: Seq<Seq<char>>, x: Seq<char>) -> int
    decreases s.len(),
{
    if s.len() == 0 {
        -1
    } else if s[0] == x {
        0
    } else {
        let r = spec_first_index(s.drop_first(), x);
        if r < 0 {
            -1
        } else {
            r + 1
        }
    }
}

pub proof fn lemma_first_index_found(s: Seq<Seq<char>>, x: Seq<char>, k: int)
    requires
        0 <= k < s.len(),
        s[k] == x,
        forall|j: int| 0 <= j < k ==> s[j] != x,
    ensures
        spec_first_index(s, x) == k,
    decreases k,
{
    if k > 0 {
        assert(forall|j: int| 0 <= j < s.drop_first().len() ==> s.drop_first()[j] == s[j + 1]);
        lemma_first_index_found(s.drop_first(), x, k - 1);
    }
}

pub proof fn lemma_first_index_none(s: Seq<Seq<char>>, x: Seq<char>)
    requires
        forall|j: int| 0 <= j < s.len() ==> s[j] != x,
    ensures
        spec_first_index(s, x) == -1,
    decreases s.len(),
{
    if s.len() > 0 {
        assert(forall|j: int| 0 <= j < s.drop_first().len() ==> s.drop_first()[j] == s[j + 1]);
        lemma_first_index_none(s.drop_first(), x);
    }
}

/// The first index is non-negative exactly when the name occurs, and then
/// it points at the first occurrence.
pub proof fn lemma_first_index_contains(s: Seq<Seq<char>>, x: Seq<char>)
    ensures
        spec_first_index(s, x) >= 0 <==> s.contains(x),
        spec_first_index(s, x) >= 0 ==> spec_first_index(s, x) < s.len() && s[spec_first_index(
            s,
            x,
        )] == x,
    decreases s.len(),
{
    if s.len() > 0 {
        assert(forall|j: int| 0 <= j < s.drop_first().len() ==> s.drop_first()[j] == s[j + 1]);
        lemma_first_index_contains(s.drop_first(), x);
        if s[0] != x && s.drop_first().contains(x) {
            let w = choose|w: int| 0 <= w < s.drop_first().len() && s.drop_first()[w] == x;
            assert(s[w + 1] == x);
        }
        if s[0] == x {
            assert(s.contains(x));
        }
        if s.contains(x) && s[0] != x {
            let w = choose|w: int| 0 <= w < s.len() && s[w] == x;
            assert(s.drop_first()[w - 1] == x);
            assert(s.drop_first().contains(x));
        }
    }
}

/// The reference browser's `total` in one result row; rows too short to
/// carry the reference browser's entry count zero.
pub open spec fn spec_ref_total(row: SearchResultView, k: int) -> int {
    if 0 <= k < row.legacy_status.len() {
        row.legacy_status[k].total as int
    } else {
        0
    }
}

/// Sum of the reference browser's `total` over all result rows.
pub open spec fn spec_subtest_sum(results: Seq<SearchResultView>, k: int) -> int
    decreases results.len(),
{
    if results.len() == 0 {
        0
    } else {
        spec_subtest_sum(results.drop_last(), k) + spec_ref_total(results.last(), k)
    }
}

/// All per-browser totals of a response are non-negative.
pub open spec fn spec_totals_nonneg(results: Seq<SearchResultView>) -> bool {
    forall|i: int, j: int|
        0 <= i < results.len() && 0 <= j < results[i].legacy_status.len() ==> 0 <= (
        #[trigger] results[i].legacy_status[j]).total
}

proof fn lemma_subtest_sum_take_le(results: Seq<SearchResultView>, k: int, i: int)
    requires
        spec_totals_nonneg(results),
        0 <= i <= results.len(),
    ensures
        0 <= spec_subtest_sum(results.take(i), k),
        spec_subtest_sum(results.take(i), k) <= spec_subtest_sum(results, k),
    decreases results.len() - i,
{
    if i == results.len() {
        assert(results.take(i) =~= results);
        lemma_subtest_sum_nonneg(results, k);
    } else {
        lemma_subtest_sum_take_le(results, k, i + 1);
        assert(results.take(i + 1).drop_last() =~= results.take(i));
        assert(results.take(i + 1).last() == results[i]);
        assert(0 <= spec_ref_total(results[i], k));
        lemma_subtest_sum_nonneg_take(results, k, i);
    }
}

proof fn lemma_subtest_sum_nonneg(results: Seq<SearchResultView>, k: int)
    requires
        spec_totals_nonneg(results),
    ensures
        0 <= spec_subtest_sum(results, k),
    decreases results.len(),
{
    if results.len() > 0 {
        assert(forall|i: int, j: int|
            0 <= i < results.drop_last().len() && 0 <= j
                < results.drop_last()[i].legacy_status.len() ==> (
            #[trigger] results.drop_last()[i].legacy_status[j]) == results[i].legacy_status[j]);
        lemma_subtest_sum_nonneg(results.drop_last(), k);
        assert(0 <= spec_ref_total(results.last(), k));
    }
}

proof fn lemma_subtest_sum_nonneg_take(results: Seq<SearchResultView>, k: int, i: int)
    requires
        spec_totals_nonneg(results),
        0 <= i <= results.len(),
    ensures
        0 <= spec_subtest_sum(results.take(i), k),
    decreases i,
{
    if i > 0 {
        lemma_subtest_sum_nonneg_take(results, k, i - 1);
        assert(results.take(i).drop_last() =~= results.take(i - 1));
        assert(results.take(i).last() == results[i - 1]);
        assert(0 <= spec_ref_total(results[i - 1], k));
    }
}

/// Does the response's run list include a browser of this name?
fn search_names_contains(data: &SearchData, name: &str) -> (r: bool)
    ensures
        r == spec_run_names(data@).contains(name@),
{
    let n = data.runs.len();
    let mut j: usize = 0;
    while j < n
        invariant
            n == data.runs@.len(),
            j <= n,
            forall|t: int| 0 <= t < j ==> spec_run_names(data@)[t] != name@,
        decreases n - j,
    {
        proof {
            assert(spec_run_names(data@)[j as int] == data.runs@[j as int].browser_name@);
        }
        if str_eq(data.runs[j].browser_name.as_str(), name) {
            proof {
                assert(spec_run_names(data@)[j as int] == name@);
            }
            return true;
        }
        j = j + 1;
    }
    proof {
        let names = spec_run_names(data@);
        assert(forall|t: int| 0 <= t < names.len() ==> names[t] != name@);
    }
    false
}

/// Reduces a search response to failure counts: the number of result rows,
/// and the sum of the reference browser's `total` over the rows (a row
/// without an entry for the reference browser counts zero).  Fails with
/// `IncompleteResponse` exactly when the response's run list is missing a
/// roster browser.
pub fn count_failures(data: &SearchData, reference: &str, roster: &Vec<String>) -> (r: Result<
    FailureCount,
    Error,
>)
    requires
        spec_totals_nonneg(data@.results),
        spec_subtest_sum(data@.results, spec_first_index(spec_run_names(data@), reference@))
            <= i64::MAX,
        data@.results.len() <= i64::MAX,
    ensures
        r is Ok <==> spec_roster_complete(data@, string_views(roster@)),
        match r {
            Ok(fc) => {
                &&& fc.tests == data@.results.len()
                &&& fc.subtests == spec_subtest_sum(
                    data@.results,
                    spec_first_index(spec_run_names(data@), reference@),
                )
            },
            Err(e) => e is IncompleteResponse,
        },
{
    let nr = roster.len();
    let mut b: usize = 0;
    while b < nr
        invariant
            nr == roster@.len(),
            b <= nr,
            forall|t: int|
                0 <= t < b ==> spec_run_names(data@).contains(#[trigger] string_views(roster@)[t]),
        decreases nr - b,
    {
        proof {
            assert(string_views(roster@)[b as int] == roster@[b as int]@);
        }
        if !search_names_contains(data, roster[b].as_str()) {
            proof {
                assert(!spec_run_names(data@).contains(string_views(roster@)[b as int]));
            }
            return Err(Error::IncompleteResponse);
        }
        b = b + 1;
    }
    let nn = data.runs.len();
    let mut ref_idx: Option<usize> = None;
    let mut j: usize = 0;
    while j < nn
        invariant_except_break
            ref_idx is None,
        invariant
            nn == data.runs@.len(),
            j <= nn,
            forall|t: int| 0 <= t < j ==> spec_run_names(data@)[t] != reference@,
        ensures
            match ref_idx {
                Some(k) => k < nn && spec_first_index(spec_run_names(data@), reference@)
                    == k as int,
                None => forall|t: int|
                    0 <= t < nn ==> spec_run_names(data@)[t] != reference@,
            },
        decreases nn - j,
    {
        proof {
            assert(spec_run_names(data@)[j as int] == data.runs@[j as int].browser_name@);
        }
        if str_eq(data.runs[j].browser_name.as_str(), reference) {
            ref_idx = Some(j);
            proof {
                lemma_first_index_found(spec_run_names(data@), reference@, j as int);
            }
            break ;
        }
        j = j + 1;
    }
    let ghost kk = spec_first_index(spec_run_names(data@), reference@);
    proof {
        if ref_idx is None {
            lemma_first_index_none(spec_run_names(data@), reference@);
        }
    }
    let ghost results = data@.results;
    let nres = data.results.len();
    let mut subtests: i64 = 0;
    let mut i: usize = 0;
    while i < nres
        invariant
            nres == data.results@.len(),
            results == data@.results,
            i <= nres,
            spec_totals_nonneg(results),
            spec_subtest_sum(results, kk) <= i64::MAX,
            subtests as int == spec_subtest_sum(results.take(i as int), kk),
            match ref_idx {
                Some(k) => kk == k as int && k < data.runs@.len(),
                None => kk == -1,
            },
        decreases nres - i,
    {
        proof {
            assert(results.take(i + 1).drop_last() =~= results.take(i as int));
            assert(results.take(i + 1).last() == results[i as int]);
            assert(results[i as int] == data.results@[i as int]@);
            lemma_subtest_sum_take_le(results, kk, i + 1);
        }
        let add_total: i64 = match ref_idx {
            Some(k) => {
                if k < data.results[i].legacy_status.len() {
                    data.results[i].legacy_status[k].total
                } else {
                    0
                }
            },
            None => 0,
        };
        proof {
            assert(add_total as int == spec_ref_total(results[i as int], kk));
        }
        subtests = subtests + add_total;
        i = i + 1;
    }
    proof {
        assert(results.take(nres as int) =~= results);
    }
    let tests: i64 = data.results.len() as i64;
    proof {
        assert(tests as int == data@.results.len());
    }
    Ok(FailureCount { tests, subtests })
}

/// One status clause: `browser` finished with `status`.
pub open spec fn spec_is_result(c: Clause, browser: Seq<char>, status: Status) -> bool {
    c matches Clause::BrowserResult(r) && r.browser_name@ == browser && r.status == status
}

/// A negated status clause.
pub open spec fn spec_is_not_result(c: Clause, browser: Seq<char>, status: Status) -> bool {
    c matches Clause::Not(n) && spec_is_result(*n.not, browser, status)
}

/// "`browser` passed": an OR of its OK and PASS clauses, in that order.
pub open spec fn spec_is_or_pass(c: Clause, browser: Seq<char>) -> bool {
    c matches Clause::Or(o) && o.or@.len() == 2 && spec_is_result(o.or@[0], browser, Status::Okay)
        && spec_is_result(o.or@[1], browser, Status::Pass)
}

/// The clause restricting results to untriaged failures: NOT(link contains
/// the bug tracker's host).
pub open spec fn spec_is_untriaged_guard(c: Clause) -> bool {
    c matches Clause::Not(n) && (*n.not matches Clause::Link(l) && l.link@
        == "bugzilla.mozilla.org"@)
}

/// The failure query: firefox neither OK nor PASS, chrome and safari each OK
/// or PASS, and, when `untriaged` is set, no bug-tracker link; clauses stand
/// in exactly this order.
pub open spec fn spec_fx_only_query(q: Query, untriaged: bool) -> bool {
    q.query matches Clause::And(a) && {
        &&& a.and@.len() == if untriaged {
            5int
        } else {
            4int
        }
        &&& spec_is_not_result(a.and@[0], "firefox"@, Status::Okay)
        &&& spec_is_not_result(a.and@[1], "firefox"@, Status::Pass)
        &&& spec_is_or_pass(a.and@[2], "chrome"@)
        &&& spec_is_or_pass(a.and@[3], "safari"@)
        &&& (untriaged ==> spec_is_untriaged_guard(a.and@[4]))
    }
}

pub fn result_clause(browser: &str, status: Status) -> (c: Clause)
    ensures
        spec_is_result(c, browser@, status),
{
    Clause::BrowserResult(ResultClause { browser_name: browser.to_owned(), status })
}

pub fn not_result_clause(browser: &str, status: Status) -> (c: Clause)
    ensures
        spec_is_not_result(c, browser@, status),
{
    Clause::Not(NotClause { not: Box::new(result_clause(browser, status)) })
}

pub fn or_pass_clause(browser: &str) -> (c: Clause)
    ensures
        spec_is_or_pass(c, browser@),
{
    let mut or_parts: Vec<Clause> = Vec::new();
    or_parts.push(result_clause(browser, Status::Okay));
    or_parts.push(result_clause(browser, Status::Pass));
    Clause::Or(OrClause { or: or_parts })
}

/// Builds the query for tests that fail in firefox while chrome and safari
/// both pass; with `untriaged`, restricted to failures without a bug-tracker
/// link.  Pure construction: the result is fully determined by `untriaged`.
pub fn fx_only_failures_query(untriaged: bool) -> (q: Query)
    ensures
        spec_fx_only_query(q, untriaged),
{
    let mut and_parts: Vec<Clause> = Vec::new();
    and_parts.push(not_result_clause("firefox", Status::Okay));
    and_parts.push(not_result_clause("firefox", Status::Pass));
    and_parts.push(or_pass_clause("chrome"));
    and_parts.push(or_pass_clause("safari"));
    if untriaged {
        and_parts.push(
            Clause::Not(
                NotClause {
                    not: Box::new(
                        Clause::Link(LinkClause { link: "bugzilla.mozilla.org".to_owned() }),
                    ),
                },
            ),
        );
    }
    Query { query: Clause::And(AndClause { and: and_parts }) }
}

pub proof fn lemma_json_result_congruent(c1: Clause, c2: Clause, browser: Seq<char>, status: Status)
    requires
        spec_is_result(c1, browser, status),
        spec_is_result(c2, browser, status),
    ensures
        crate::search::json_of_clause(c1) == crate::search::json_of_clause(c2),
{
}

pub proof fn lemma_json_not_result_congruent(
    c1: Clause,
    c2: Clause,
    browser: Seq<char>,
    status: Status,
)
    requires
        spec_is_not_result(c1, browser, status),
        spec_is_not_result(c2, browser, status),
    ensures
        crate::search::json_of_clause(c1) == crate::search::json_of_clause(c2),
{
    match (c1, c2) {
        (Clause::Not(n1), Clause::Not(n2)) => {
            lemma_json_result_congruent(*n1.not, *n2.not, browser, status);
        },
        _ => {
            assert(false);
        },
    }
}

proof fn lemma_json_or_pass_congruent(c1: Clause, c2: Clause, browser: Seq<char>)
    requires
        spec_is_or_pass(c1, browser),
        spec_is_or_pass(c2, browser),
    ensures
        crate::search::json_of_clause(c1) == crate::search::json_of_clause(c2),
{
    match (c1, c2) {
        (Clause::Or(o1), Clause::Or(o2)) => {
            lemma_json_result_congruent(o1.or@[0], o2.or@[0], browser, Status::Okay);
            lemma_json_result_congruent(o1.or@[1], o2.or@[1], browser, Status::Pass);
            assert(forall|i: int|
                0 <= i < o1.or@.len() ==> crate::search::json_of_clause(#[trigger] o1.or@[i])
                    == crate::search::json_of_clause(#[trigger] o2.or@[i]));
            crate::search::lemma_json_list_congruent(o1.or@, o2.or@);
        },
        _ => {
            assert(false);
        },
    }
}

proof fn lemma_json_untriaged_guard_congruent(c1: Clause, c2: Clause)
    requires
        spec_is_untriaged_guard(c1),
        spec_is_untriaged_guard(c2),
    ensures
        crate::search::json_of_clause(c1) == crate::search::json_of_clause(c2),
{
    match (c1, c2) {
        (Clause::Not(n1), Clause::Not(n2)) => {
            match (*n1.not, *n2.not) {
                (Clause::Link(l1), Clause::Link(l2)) => {
                    assert(l1.link@ == l2.link@);
                    assert(crate::search::json_of_clause(*n1.not) == crate::search::json_of_clause(
                        *n2.not,
                    ));
                    assert(crate::search::json_of_clause(c1) == "{\"not\":"@
                        + crate::search::json_of_clause(*n1.not) + "}"@);
                    assert(crate::search::json_of_clause(c2) == "{\"not\":"@
                        + crate::search::json_of_clause(*n2.not) + "}"@);
                },
                _ => {
                    assert(false);
                },
            }
        },
        _ => {
            assert(false);
        },
    }
}

/// Determinism of the serialized failure query: any two queries built for
/// the same `untriaged` flag, sent over the same run ids, serialize to
/// byte-identical request bodies.
pub proof fn lemma_fx_only_query_serialization_deterministic(
    b1: crate::search::SearchBody,
    b2: crate::search::SearchBody,
    untriaged: bool,
)
    requires
        spec_fx_only_query(b1.query, untriaged),
        spec_fx_only_query(b2.query, untriaged),
        b1.run_ids@ == b2.run_ids@,
    ensures
        crate::search::json_of_search_body(b1) == crate::search::json_of_search_body(b2),
{
    match (b1.query.query, b2.query.query) {
        (Clause::And(a1), Clause::And(a2)) => {
            lemma_json_not_result_congruent(a1.and@[0], a2.and@[0], "firefox"@, Status::Okay);
            lemma_json_not_result_congruent(a1.and@[1], a2.and@[1], "firefox"@, Status::Pass);
            lemma_json_or_pass_congruent(a1.and@[2], a2.and@[2], "chrome"@);
            lemma_json_or_pass_congruent(a1.and@[3], a2.and@[3], "safari"@);
            if untriaged {
                lemma_json_untriaged_guard_congruent(a1.and@[4], a2.and@[4]);
            }
            assert(forall|i: int|
                0 <= i < a1.and@.len() ==> crate::search::json_of_clause(#[trigger] a1.and@[i])
                    == crate::search::json_of_clause(#[trigger] a2.and@[i]));
            crate::search::lemma_json_list_congruent(a1.and@, a2.and@);
        },
        _ => {
            assert(false);
        },
    }
}


proof fn lemma_filter_all_false<T>(s: Seq<T>, p: spec_fn(T) -> bool)
    requires
        forall|i: int| 0 <= i < s.len() ==> !p(#[trigger] s[i]),
    ensures
        s.filter(p) == Seq::<T>::empty(),
    decreases s.len(),
{
    reveal(Seq::filter);
    if s.len() > 0 {
        assert(forall|i: int| 0 <= i < s.drop_last().len() ==> s.drop_last()[i] == s[i]);
        lemma_filter_all_false(s.drop_last(), p);
    }
}

/// One sync pass at the ledger level: entries are appended, in reverse
/// discovery order, for exactly the candidates not yet recorded.
/// `entry_of` stands for the processing of one aligned set (querying the
/// service and reducing the response to counts).
pub open spec fn spec_sync_ledger(
    ledger: Seq<RunDataView>,
    cands: Seq<NewRunView>,
    entry_of: spec_fn(NewRunView) -> RunDataView,
) -> Seq<RunDataView> {
    ledger + spec_missing(ledger, cands).reverse().map_values(entry_of)
}

/// Idempotence of the sync: as long as processing keeps each candidate's
/// revision, a second pass over the same candidates finds nothing missing
/// and leaves the ledger exactly as the first pass left it.
pub proof fn lemma_sync_idempotent(
    ledger: Seq<RunDataView>,
    cands: Seq<NewRunView>,
    entry_of: spec_fn(NewRunView) -> RunDataView,
)
    requires
        forall|c: NewRunView| (#[trigger] entry_of(c)).revision == c.revision,
    ensures
        spec_sync_ledger(spec_sync_ledger(ledger, cands, entry_of), cands, entry_of)
            == spec_sync_ledger(ledger, cands, entry_of),
{
    let p = |c: NewRunView| !spec_ledger_revisions(ledger).contains(c.revision);
    let l1 = spec_sync_ledger(ledger, cands, entry_of);
    let m = spec_missing(ledger, cands);
    let app = m.reverse().map_values(entry_of);
    assert(l1 == ledger + app);
    assert forall|t: int| 0 <= t < cands.len() implies spec_ledger_revisions(l1).contains(
        (#[trigger] cands[t]).revision,
    ) by {
        let revs0 = spec_ledger_revisions(ledger);
        if revs0.contains(cands[t].revision) {
            let i = choose|i: int| 0 <= i < revs0.len() && revs0[i] == cands[t].revision;
            assert(spec_ledger_revisions(l1)[i] == l1[i].revision);
            assert(l1[i] == ledger[i]);
            assert(spec_ledger_revisions(l1)[i] == cands[t].revision);
        } else {
            cands.lemma_filter_contains(p, t);
            assert(m.contains(cands[t]));
            let i = choose|i: int| 0 <= i < m.len() && m[i] == cands[t];
            let ri = m.len() - 1 - i;
            assert(m.reverse()[ri] == m[i]);
            assert(app[ri] == entry_of(m[i]));
            assert(l1[ledger.len() + ri] == app[ri]);
            assert(spec_ledger_revisions(l1)[ledger.len() + ri] == cands[t].revision);
        }
    }
    let p1 = |c: NewRunView| !spec_ledger_revisions(l1).contains(c.revision);
    assert(forall|t: int| 0 <= t < cands.len() ==> !p1(#[trigger] cands[t]));
    lemma_filter_all_false(cands, p1);
    assert(spec_missing(l1, cands) == Seq::<NewRunView>::empty());
    assert(spec_missing(l1, cands).reverse() =~= Seq::<NewRunView>::empty());
    assert(spec_missing(l1, cands).reverse().map_values(entry_of)
        =~= Seq::<RunDataView>::empty());
    assert(spec_sync_ledger(l1, cands, entry_of) =~= l1);
}


} // verus!
