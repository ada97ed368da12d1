//! Report-side logic: the labelled failure query, selection of the latest
//! complete aligned run set, and reduction of interop score tables.

use vstd::prelude::*;

use crate::error::Error;
use crate::result::Run;
use crate::result::RunView;
use crate::result::Status;
use crate::run::runs_by_commit;
use crate::run::spec_distinct_revs;
use crate::run::spec_group;
use crate::search::AndClause;
use crate::search::Clause;
use crate::search::LabelClause;
use crate::search::OrClause;
use crate::search::Query;
use crate::sync::spec_is_not_result;
use crate::sync::spec_roster_size;
use crate::strutil::string_views;

verus! {

/// One label clause per label, in caller order.
pub open spec fn spec_is_label_list(cs: Seq<Clause>, labels: Seq<Seq<char>>) -> bool {
    cs.len() == labels.len() && forall|i: int|
        0 <= i < cs.len() ==> ((#[trigger] cs[i]) matches Clause::Label(l) && l.label@
            == labels[i])
}

/// The labelled failure query: firefox neither OK nor PASS and, when labels
/// are given, an OR over their label clauses last.
pub open spec fn spec_fx_failures_query(q: Query, labels: Seq<Seq<char>>) -> bool {
    q.query matches Clause::And(a) && {
        &&& a.and@.len() == if labels.len() == 0 {
            2int
        } else {
            3int
        }
        &&& spec_is_not_result(a.and@[0], "firefox"@, Status::Okay)
        &&& spec_is_not_result(a.and@[1], "firefox"@, Status::Pass)
        &&& (labels.len() > 0 ==> (a.and@[2] matches Clause::Or(o) && spec_is_label_list(
            o.or@,
            labels,
        )))
    }
}

/// Builds the query for tests failing in firefox, optionally restricted to
/// tests carrying one of the given labels.  Pure construction: the result is
/// fully determined by the labels.
pub fn fx_failures_query(labels: &Vec<String>) -> (q: Query)
    ensures
        spec_fx_failures_query(q, string_views(labels@)),
{
    let mut and_parts: Vec<Clause> = Vec::new();
    and_parts.push(crate::sync::not_result_clause("firefox", Status::Okay));
    and_parts.push(crate::sync::not_result_clause("firefox", Status::Pass));
    if labels.len() > 0 {
        let nl = labels.len();
        let mut or_parts: Vec<Clause> = Vec::new();
        let mut i: usize = 0;
        while i < nl
            invariant
                nl == labels@.len(),
                i <= nl,
                or_parts@.len() == i,
                forall|m: int|
                    0 <= m < i ==> ((#[trigger] or_parts@[m]) matches Clause::Label(l) && l.label@
                        == string_views(labels@)[m]),
            decreases nl - i,
        {
            or_parts.push(Clause::Label(LabelClause { label: labels[i].clone() }));
            i = i + 1;
        }
        and_parts.push(Clause::Or(OrClause { or: or_parts }));
    }
    Query { query: Clause::And(AndClause { and: and_parts }) }
}

/// Determinism of the serialized labelled failure query: two queries built
/// for the same labels encode to the same byte sequence.
pub proof fn lemma_fx_failures_query_deterministic(q1: Query, q2: Query, labels: Seq<Seq<char>>)
    requires
        spec_fx_failures_query(q1, labels),
        spec_fx_failures_query(q2, labels),
    ensures
        crate::search::json_of_clause(q1.query) == crate::search::json_of_clause(q2.query),
{
    match (q1.query, q2.query) {
        (Clause::And(a1), Clause::And(a2)) => {
            crate::sync::lemma_json_not_result_congruent(
                a1.and@[0],
                a2.and@[0],
                "firefox"@,
                Status::Okay,
            );
            crate::sync::lemma_json_not_result_congruent(
                a1.and@[1],
                a2.and@[1],
                "firefox"@,
                Status::Pass,
            );
            if labels.len() > 0 {
                match (a1.and@[2], a2.and@[2]) {
                    (Clause::Or(o1), Clause::Or(o2)) => {
                        assert forall|i: int|
                            0 <= i < o1.or@.len() implies crate::search::json_of_clause(
                            #[trigger] o1.or@[i],
                        ) == crate::search::json_of_clause(#[trigger] o2.or@[i]) by {
                            assert(o1.or@[i] matches Clause::Label(l1) && l1.label@ == labels[i]);
                            assert(o2.or@[i] matches Clause::Label(l2) && l2.label@ == labels[i]);
                        }
                        crate::search::lemma_json_list_congruent(o1.or@, o2.or@);
                    },
                    _ => {
                        assert(false);
                    },
                }
            }
            assert(forall|i: int|
                0 <= i < a1.and@.len() ==> crate::search::json_of_clause(#[trigger] a1.and@[i])
                    == crate::search::json_of_clause(#[trigger] a2.and@[i]));
            crate::search::lemma_json_list_congruent(a1.and@, a2.and@);
        },
        _ => {
            assert(false);
        },
    }
}

/// The latest `created_at` among the runs of a group.
pub open spec fn max_created(runs: Seq<Run>, g: Seq<int>) -> int
    decreases g.len(),
{
    if g.len() == 0 {
        0
    } else if g.len() == 1 {
        runs[g[0]].created_at as int
    } else {
        let rest = max_created(runs, g.drop_last());
        let last = runs[g.last()].created_at as int;
        if last > rest {
            last
        } else {
            rest
        }
    }
}

/// The revision index latest-mode selects among `keys`: the first complete
/// group with the greatest maximum `created_at`; `-1` when no group is
/// complete.
pub open spec fn spec_best_key(runs: Seq<Run>, keys: Seq<Seq<char>>) -> int
    decreases keys.len(),
{
    if keys.len() == 0 {
        -1
    } else {
        let b = spec_best_key(runs, keys.drop_last());
        if spec_group(runs, keys.last()).len() != spec_roster_size() {
            b
        } else if b < 0 {
            keys.len() - 1
        } else if max_created(runs, spec_group(runs, keys.last())) > max_created(
            runs,
            spec_group(runs, keys[b]),
        ) {
            keys.len() - 1
        } else {
            b
        }
    }
}

/// The selection of latest mode.
pub open spec fn spec_best(runs: Seq<Run>) -> int {
    spec_best_key(runs, spec_distinct_revs(runs))
}

/// What the selected index means: it names a complete group, no complete
/// group has a later maximum date, and among equally late ones it is the
/// first seen; when it is negative, no group is complete.
pub proof fn lemma_best_key_latest(runs: Seq<Run>, keys: Seq<Seq<char>>)
    ensures
        spec_best_key(runs, keys) < 0 ==> forall|j: int|
            0 <= j < keys.len() ==> spec_group(runs, #[trigger] keys[j]).len()
                != spec_roster_size(),
        spec_best_key(runs, keys) >= 0 ==> {
            let b = spec_best_key(runs, keys);
            &&& b < keys.len()
            &&& spec_group(runs, keys[b]).len() == spec_roster_size()
            &&& forall|j: int|
                0 <= j < keys.len() && spec_group(runs, #[trigger] keys[j]).len()
                    == spec_roster_size() ==> max_created(runs, spec_group(runs, keys[j]))
                    <= max_created(runs, spec_group(runs, keys[b]))
            &&& forall|j: int|
                0 <= j < spec_best_key(runs, keys) && spec_group(runs, #[trigger] keys[j]).len()
                    == spec_roster_size() ==> max_created(runs, spec_group(runs, keys[j]))
                    < max_created(runs, spec_group(runs, keys[b]))
        },
    decreases keys.len(),
{
    if keys.len() > 0 {
        lemma_best_key_latest(runs, keys.drop_last());
        assert(forall|j: int| 0 <= j < keys.len() - 1 ==> keys.drop_last()[j] == keys[j]);
    }
}

/// Selects the runs of the complete group whose newest run is latest; ties
/// keep the first-seen revision.  Fails with `NotFound` when no revision has
/// a complete group.
pub fn latest_runs(runs: &Vec<Run>) -> (r: Result<Vec<Run>, Error>)
    ensures
        r is Ok <==> spec_best(runs@) >= 0,
        match r {
            Ok(v) => {
                let g = spec_group(runs@, spec_distinct_revs(runs@)[spec_best(runs@)]);
                &&& v@.len() == g.len()
                &&& forall|t: int| 0 <= t < g.len() ==> (#[trigger] v@[t])@ == runs@[g[t]]@
            },
            Err(e) => e is NotFound,
        },
{
    let groups = runs_by_commit(runs);
    let ghost dk = spec_distinct_revs(runs@);
    let ng = groups.len();
    let mut best: Option<usize> = None;
    let mut best_date: i64 = 0;
    let mut j: usize = 0;
    while j < ng
        invariant
            ng == groups@.len(),
            j <= ng,
            dk == spec_distinct_revs(runs@),
            groups@.map_values(|g: (String, Vec<usize>)| g.0@) =~= dk,
            forall|m: int|
                0 <= m < groups@.len() ==> (#[trigger] groups@[m]).1@.map_values(|u: usize| u as int)
                    == spec_group(runs@, groups@[m].0@),
            forall|m: int, t: int|
                0 <= m < groups@.len() && 0 <= t < groups@[m].1@.len() ==> #[trigger] groups@[m].1@[t]
                    < runs@.len(),
            match best {
                Some(b) => b < j && spec_best_key(runs@, dk.take(j as int)) == b as int
                    && best_date as int == max_created(runs@, spec_group(runs@, dk[b as int])),
                None => spec_best_key(runs@, dk.take(j as int)) < 0,
            },
        decreases ng - j,
    {
        let ghost key = groups@[j as int].0@;
        let ghost g = spec_group(runs@, key);
        proof {
            assert(dk[j as int] == key);
            assert(groups@[j as int].1@.map_values(|u: usize| u as int) == g);
            assert(dk.take(j + 1).drop_last() =~= dk.take(j as int));
            assert(dk.take(j + 1).last() == key);
        }
        let idxs_len = groups[j].1.len();
        if idxs_len == 3 {
            let i0 = groups[j].1[0];
            proof {
                assert(groups@[j as int].1@.map_values(|u: usize| u as int)[0] == g[0]);
            }
            let mut date: i64 = runs[i0].created_at;
            let mut t2: usize = 1;
            while t2 < idxs_len
                invariant
                    ng == groups@.len(),
                    j < ng,
                    1 <= t2 <= idxs_len,
                    idxs_len == groups@[j as int].1@.len(),
                    g == spec_group(runs@, groups@[j as int].0@),
                    groups@[j as int].1@.map_values(|u: usize| u as int) == g,
                    forall|m: int, t3: int|
                        0 <= m < groups@.len() && 0 <= t3 < groups@[m].1@.len()
                            ==> #[trigger] groups@[m].1@[t3] < runs@.len(),
                    date as int == max_created(runs@, g.take(t2 as int)),
                decreases idxs_len - t2,
            {
                let idx = groups[j].1[t2];
                proof {
                    assert(groups@[j as int].1@.map_values(|u: usize| u as int)[t2 as int]
                        == g[t2 as int]);
                    assert(g.take(t2 + 1).drop_last() =~= g.take(t2 as int));
                    assert(g.take(t2 + 1).last() == g[t2 as int]);
                }
                let c = runs[idx].created_at;
                if c > date {
                    date = c;
                }
                t2 = t2 + 1;
            }
            proof {
                assert(g.take(1) =~= seq![g[0]]);
                assert(g.take(idxs_len as int) =~= g);
            }
            let replace = match best {
                Some(_) => date > best_date,
                None => true,
            };
            if replace {
                best = Some(j);
                best_date = date;
            }
        } else {
            proof {
                assert(g.len() != spec_roster_size());
            }
        }
        j = j + 1;
    }
    proof {
        assert(dk.take(ng as int) =~= dk);
    }
    match best {
        Some(bj) => {
            let ghost key = groups@[bj as int].0@;
            let ghost g = spec_group(runs@, key);
            proof {
                assert(dk[bj as int] == key);
                assert(groups@[bj as int].1@.map_values(|u: usize| u as int) == g);
            }
            let idxs_len = groups[bj].1.len();
            let mut v: Vec<Run> = Vec::new();
            let mut t: usize = 0;
            while t < idxs_len
                invariant
                    ng == groups@.len(),
                    bj < ng,
                    t <= idxs_len,
                    idxs_len == groups@[bj as int].1@.len(),
                    g == spec_group(runs@, groups@[bj as int].0@),
                    groups@[bj as int].1@.map_values(|u: usize| u as int) == g,
                    forall|m: int, t3: int|
                        0 <= m < groups@.len() && 0 <= t3 < groups@[m].1@.len()
                            ==> #[trigger] groups@[m].1@[t3] < runs@.len(),
                    v@.len() == t,
                    forall|m: int| 0 <= m < t ==> (#[trigger] v@[m])@ == runs@[g[m]]@,
                decreases idxs_len - t,
            {
                let idx = groups[bj].1[t];
                proof {
                    assert(groups@[bj as int].1@.map_values(|u: usize| u as int)[t as int]
                        == g[t as int]);
                }
                v.push(runs[idx].clone());
                t = t + 1;
            }
            Ok(v)
        },
        None => Err(Error::NotFound),
    }
}

/// The names of the focus areas that count toward the score, in their
/// listed order.
pub open spec fn spec_interop_columns(fa: Seq<(String, crate::interop::FocusArea)>) -> Seq<
    Seq<char>,
> {
    fa.filter(|p: (String, crate::interop::FocusArea)| p.1.counts_toward_score).map_values(
        |p: (String, crate::interop::FocusArea)| p.0@,
    )
}

/// Lists the focus-area names that count toward the score.
pub fn interop_columns(focus_areas: &Vec<(String, crate::interop::FocusArea)>) -> (columns: Vec<
    String,
>)
    ensures
        string_views(columns@) == spec_interop_columns(focus_areas@),
{
    let n = focus_areas.len();
    let mut columns: Vec<String> = Vec::new();
    let mut i: usize = 0;
    while i < n
        invariant
            n == focus_areas@.len(),
            i <= n,
            string_views(columns@) =~= spec_interop_columns(focus_areas@.take(i as int)),
        decreases n - i,
    {
        proof {
            reveal(Seq::filter);
            assert(focus_areas@.take(i + 1).drop_last() =~= focus_areas@.take(i as int));
            assert(focus_areas@.take(i + 1).last() == focus_areas@[i as int]);
        }
        if focus_areas[i].1.counts_toward_score {
            let ghost prev = columns@;
            columns.push(focus_areas[i].0.clone());
            proof {
                assert(string_views(columns@) =~= string_views(prev).push(
                    focus_areas@[i as int].0@,
                ));
                assert(string_views(columns@) =~= spec_interop_columns(focus_areas@.take(i + 1)));
            }
        } else {
            proof {
                assert(string_views(columns@) =~= spec_interop_columns(focus_areas@.take(i + 1)));
            }
        }
        i = i + 1;
    }
    proof {
        assert(focus_areas@.take(n as int) =~= focus_areas@);
    }
    columns
}

/// Are all characters decimal digits?
pub open spec fn spec_all_digits(s: Seq<char>) -> bool {
    forall|i: int| 0 <= i < s.len() ==> '0' <= #[trigger] s[i] <= '9'
}

/// The value of a digit string.
pub open spec fn spec_digits_val(s: Seq<char>) -> int
    decreases s.len(),
{
    if s.len() == 0 {
        0
    } else {
        spec_digits_val(s.drop_last()) * 10 + (s.last() as u32 as int - 48)
    }
}

/// The number a string denotes: all decimal digits, at least one.
pub open spec fn spec_parse_u64(s: Seq<char>) -> Option<int> {
    if s.len() > 0 && spec_all_digits(s) {
        Some(spec_digits_val(s))
    } else {
        None
    }
}

proof fn lemma_digits_val_nonneg(s: Seq<char>, i: int)
    requires
        spec_all_digits(s),
        0 <= i <= s.len(),
    ensures
        0 <= spec_digits_val(s.take(i)),
    decreases i,
{
    if i > 0 {
        lemma_digits_val_nonneg(s, i - 1);
        assert(s.take(i).drop_last() =~= s.take(i - 1));
        assert('0' <= s[i - 1] <= '9');
    }
}

proof fn lemma_digits_val_grows(s: Seq<char>, i: int, j: int)
    requires
        spec_all_digits(s),
        0 <= i <= j <= s.len(),
    ensures
        0 <= spec_digits_val(s.take(i)),
        spec_digits_val(s.take(i)) <= spec_digits_val(s.take(j)),
    decreases j - i,
{
    lemma_digits_val_nonneg(s, i);
    if i < j {
        lemma_digits_val_grows(s, i, j - 1);
        lemma_digits_val_nonneg(s, j - 1);
        assert(s.take(j).drop_last() =~= s.take(j - 1));
        assert('0' <= s[j - 1] <= '9');
        assert(spec_digits_val(s.take(j)) == spec_digits_val(s.take(j - 1)) * 10 + (s[j - 1]
            as u32 as int - 48));
    }
}

/// Parses a non-empty string of decimal digits; `None` when a character is
/// not a digit, the string is empty, or the value exceeds `u64::MAX`.
pub fn parse_u64(s: &str) -> (r: Option<u64>)
    ensures
        match r {
            Some(v) => spec_parse_u64(s@) == Some(v as int),
            None => match spec_parse_u64(s@) {
                Some(v2) => v2 > u64::MAX,
                None => true,
            },
        },
{
    let n = s.unicode_len();
    if n == 0 {
        return None;
    }
    let mut acc: u64 = 0;
    let mut i: usize = 0;
    while i < n
        invariant
            n == s@.len(),
            0 < n,
            i <= n,
            spec_all_digits(s@.take(i as int)),
            acc as int == spec_digits_val(s@.take(i as int)),
        decreases n - i,
    {
        let c = s.get_char(i);
        if c < '0' || c > '9' {
            proof {
                assert(!spec_all_digits(s@));
            }
            return None;
        }
        let d: u64 = (c as u32 - 48) as u64;
        proof {
            assert(s@.take(i + 1).drop_last() =~= s@.take(i as int));
            assert(s@.take(i + 1).last() == s@[i as int]);
            assert(spec_all_digits(s@.take(i + 1)));
        }
        if acc > (u64::MAX - d) / 10 {
            proof {
                assert(spec_digits_val(s@.take(i + 1)) == acc as int * 10 + d);
                assert(acc as int * 10 + d > u64::MAX) by (nonlinear_arith)
                    requires
                        acc as int > (u64::MAX as int - d) / 10,
                        0 <= d <= 9,
                ;
                if spec_all_digits(s@) {
                    lemma_digits_val_grows(s@, i + 1, n as int);
                    assert(s@.take(n as int) =~= s@);
                }
            }
            return None;
        }
        proof {
            assert(acc as int * 10 + d <= u64::MAX) by (nonlinear_arith)
                requires
                    acc as int <= (u64::MAX as int - d) / 10,
                    0 <= d <= 9,
            ;
        }
        acc = acc * 10 + d;
        i = i + 1;
    }
    proof {
        assert(s@.take(n as int) =~= s@);
    }
    Some(acc)
}

/// The outcome of folding score columns: a value, or the first failure.
pub ghost enum ScoreOutcome {
    Value(int),
    MissingColumn,
    BadScore,
}

/// The `browser-column` key of a score cell.
pub open spec fn spec_score_key(browser: Seq<char>, column: Seq<char>) -> Seq<char> {
    browser + "-"@ + column
}

/// Folding the columns from `i` with partial sum `acc`: the remaining
/// columns' parsed values are added; a missing column or an unparsable value
/// stops the fold with that failure.
pub open spec fn spec_score_from(
    browser: Seq<char>,
    columns: Seq<Seq<char>>,
    row: Seq<(String, String)>,
    i: int,
    acc: int,
) -> ScoreOutcome
    decreases columns.len() - i,
{
    if i < 0 || i >= columns.len() {
        ScoreOutcome::Value(acc)
    } else {
        match crate::interop::spec_row_lookup(row, spec_score_key(browser, columns[i])) {
            None => ScoreOutcome::MissingColumn,
            Some(s) => match spec_parse_u64(s) {
                None => ScoreOutcome::BadScore,
                Some(v) => if v > u64::MAX {
                    ScoreOutcome::BadScore
                } else {
                    spec_score_from(browser, columns, row, i + 1, acc + v)
                },
            },
        }
    }
}

/// The summed score of one browser over the given columns.
pub open spec fn spec_browser_score_total(
    browser: Seq<char>,
    columns: Seq<Seq<char>>,
    row: Seq<(String, String)>,
) -> ScoreOutcome {
    spec_score_from(browser, columns, row, 0, 0)
}

/// Sums a browser's scores over the given columns of a score row.  Fails
/// with `MissingColumn` when a `browser-column` cell is absent, and with
/// `BadScore` when a cell is not a decimal number or a value or the sum
/// exceeds `u64::MAX`.
pub fn browser_score_total(browser: &str, columns: &Vec<String>, row: &crate::interop::ScoreRow)
    -> (r: Result<u64, Error>)
    ensures
        match r {
            Ok(t) => spec_browser_score_total(browser@, string_views(columns@), row@)
                == ScoreOutcome::Value(t as int),
            Err(e) => match spec_browser_score_total(browser@, string_views(columns@), row@) {
                ScoreOutcome::Value(v) => v > u64::MAX && e is BadScore,
                ScoreOutcome::MissingColumn => e is MissingColumn,
                ScoreOutcome::BadScore => e is BadScore,
            },
        },
{
    let ghost cols = string_views(columns@);
    let nc = columns.len();
    let mut acc: u128 = 0;
    let mut i: usize = 0;
    while i < nc
        invariant
            nc == columns@.len(),
            cols == string_views(columns@),
            i <= nc,
            acc as int <= i as int * (u64::MAX as int),
            spec_browser_score_total(browser@, cols, row@) == spec_score_from(
                browser@,
                cols,
                row@,
                i as int,
                acc as int,
            ),
        decreases nc - i,
    {
        let mut key = browser.to_owned();
        key.append("-");
        key.append(columns[i].as_str());
        proof {
            reveal_strlit("-");
            assert("-"@ =~= seq!['-']);
            assert(key@ == spec_score_key(browser@, cols[i as int]));
        }
        let cell = crate::interop::row_get(row, key.as_str());
        match cell {
            None => {
                return Err(Error::MissingColumn);
            },
            Some(text) => {
                proof {
                    assert(crate::interop::spec_row_lookup(row@, key@) == Some(text@));
                }
                match parse_u64(text.as_str()) {
                    None => {
                        return Err(Error::BadScore);
                    },
                    Some(v) => {
                        proof {
                            assert(spec_parse_u64(text@) == Some(v as int));
                            assert(spec_score_from(browser@, cols, row@, i as int, acc as int)
                                == spec_score_from(browser@, cols, row@, i as int + 1, acc as int
                                + v as int));
                            assert(acc as int + v as int <= (i as int + 1) * (u64::MAX as int))
                                by (nonlinear_arith)
                                requires
                                    acc as int <= i as int * (u64::MAX as int),
                                    0 <= v as int <= u64::MAX as int,
                                    0 <= i as int,
                            ;
                            assert((i as int + 1) * (u64::MAX as int) <= (usize::MAX as int) * (
                            u64::MAX as int)) by (nonlinear_arith)
                                requires
                                    i as int + 1 <= usize::MAX as int,
                            ;
                            assert((usize::MAX as int) * (u64::MAX as int) < u128::MAX as int);
                        }
                        acc = acc + (v as u128);
                        i = i + 1;
                    },
                }
            },
        }
    }
    if acc > u64::MAX as u128 {
        Err(Error::BadScore)
    } else {
        Ok(acc as u64)
    }
}


/// Names the decoded query pairs of an absolute URL: `Some` exactly when
/// the string parses as a URL, with the percent-decoded `key=value` pairs
/// of its query in order.
pub uninterp spec fn url_query_pairs(s: Seq<char>) -> Option<Seq<(Seq<char>, Seq<char>)>>;

/// Relies on url::Url::parse followed by Url::query_pairs: together they
/// decode the query pairs of an absolute URL string.  The result depends on
/// the string alone; a string that does not parse yields `None`.
#[verifier::external_body]
fn parse_url_query_pairs(s: &str) -> (r: Option<Vec<(String, String)>>)
    ensures
        r is Some <==> url_query_pairs(s@) is Some,
        (r matches Some(ps) ==> url_query_pairs(s@) == Some(crate::urlenc::pair_views(ps@))),
{
    match url::Url::parse(s) {
        Ok(u) => Some(u.query_pairs().map(|(k, v)| (k.into_owned(), v.into_owned())).collect()),
        Err(_) => None,
    }
}

/// The value of the first pair with the given key.
pub open spec fn spec_pairs_lookup(qs: Seq<(Seq<char>, Seq<char>)>, key: Seq<char>) -> Option<
    Seq<char>,
>
    decreases qs.len(),
{
    if qs.len() == 0 {
        None
    } else if qs[0].0 == key {
        Some(qs[0].1)
    } else {
        spec_pairs_lookup(qs.drop_first(), key)
    }
}

proof fn lemma_pairs_lookup_found(qs: Seq<(Seq<char>, Seq<char>)>, key: Seq<char>, k: int)
    requires
        0 <= k < qs.len(),
        qs[k].0 == key,
        forall|m: int| 0 <= m < k ==> (#[trigger] qs[m]).0 != key,
    ensures
        spec_pairs_lookup(qs, key) == Some(qs[k].1),
    decreases k,
{
    if k > 0 {
        assert(forall|m: int| 0 <= m < qs.drop_first().len() ==> qs.drop_first()[m] == qs[m + 1]);
        lemma_pairs_lookup_found(qs.drop_first(), key, k - 1);
    }
}

proof fn lemma_pairs_lookup_none(qs: Seq<(Seq<char>, Seq<char>)>, key: Seq<char>)
    requires
        forall|m: int| 0 <= m < qs.len() ==> (#[trigger] qs[m]).0 != key,
    ensures
        spec_pairs_lookup(qs, key) is None,
    decreases qs.len(),
{
    if qs.len() > 0 {
        assert(forall|m: int| 0 <= m < qs.drop_first().len() ==> qs.drop_first()[m] == qs[m + 1]);
        lemma_pairs_lookup_none(qs.drop_first(), key);
    }
}

/// The bug id carried by a tracker URL: its first `id` query parameter.
pub open spec fn spec_bug_id(u: Seq<char>) -> Option<Seq<char>> {
    match url_query_pairs(u) {
        None => None,
        Some(qs) => spec_pairs_lookup(qs, "id"@),
    }
}

/// Extracts the first `id` query parameter of a tracker URL.
fn bug_id(u: &str) -> (r: Option<String>)
    ensures
        match r {
            Some(b) => spec_bug_id(u@) == Some(b@),
            None => spec_bug_id(u@) is None,
        },
{
    match parse_url_query_pairs(u) {
        None => None,
        Some(ps) => {
            let ghost qs = crate::urlenc::pair_views(ps@);
            let n = ps.len();
            let mut i: usize = 0;
            while i < n
                invariant
                    n == ps@.len(),
                    qs == crate::urlenc::pair_views(ps@),
                    url_query_pairs(u@) == Some(qs),
                    qs.len() == n,
                    i <= n,
                    forall|m: int| 0 <= m < i ==> (#[trigger] qs[m]).0 != "id"@,
                decreases n - i,
            {
                proof {
                    assert(qs[i as int] == (ps@[i as int].0@, ps@[i as int].1@));
                }
                if crate::strutil::str_eq(ps[i].0.as_str(), "id") {
                    let b = ps[i].1.clone();
                    proof {
                        lemma_pairs_lookup_found(qs, "id"@, i as int);
                        assert(qs[i as int].1 == ps@[i as int].1@);
                        assert(spec_pairs_lookup(qs, "id"@) == Some(ps@[i as int].1@));
                        assert(url_query_pairs(u@) == Some(qs));
                        assert(spec_bug_id(u@) == Some(ps@[i as int].1@));
                        assert(b@ == ps@[i as int].1@);
                    }
                    return Some(b);
                }
                i = i + 1;
            }
            proof {
                lemma_pairs_lookup_none(qs, "id"@);
            }
            None
        },
    }
}

/// The bug this metadata entry points to, when it is a firefox entry whose
/// link goes to the bug tracker.
pub open spec fn spec_entry_bug(e: crate::metadata::MetadataEntry) -> Option<Seq<char>> {
    if e.product@ == "firefox"@ && crate::strutil::match_at(
        e.url@,
        "https://bugzilla.mozilla.org"@,
        0,
    ) {
        spec_bug_id(e.url@)
    } else {
        None
    }
}

/// Inserts `b` into an ascending sequence, keeping it ascending; a value
/// already present is not inserted again.
pub open spec fn spec_insert_sorted(bs: Seq<Seq<char>>, b: Seq<char>) -> Seq<Seq<char>>
    decreases bs.len(),
{
    if bs.len() == 0 {
        seq![b]
    } else if bs[0] == b {
        bs
    } else if crate::strutil::spec_str_lt(b, bs[0]) {
        seq![b] + bs
    } else {
        seq![bs[0]] + spec_insert_sorted(bs.drop_first(), b)
    }
}

proof fn lemma_insert_sorted_at(bs: Seq<Seq<char>>, b: Seq<char>, i: int)
    requires
        0 <= i <= bs.len(),
        forall|j: int| 0 <= j < i ==> crate::strutil::spec_str_lt(#[trigger] bs[j], b),
        i < bs.len() ==> !crate::strutil::spec_str_lt(bs[i], b),
    ensures
        spec_insert_sorted(bs, b) == if i < bs.len() && bs[i] == b {
            bs
        } else {
            bs.take(i) + seq![b] + bs.skip(i)
        },
    decreases i,
{
    if i == 0 {
        if bs.len() > 0 && bs[0] != b {
            crate::strutil::lemma_str_lt_trichotomy(b, bs[0]);
        }
        if !(bs.len() > 0 && bs[0] == b) {
            assert(spec_insert_sorted(bs, b) =~= bs.take(0) + seq![b] + bs.skip(0));
        }
    } else {
        crate::strutil::lemma_str_lt_trichotomy(bs[0], b);
        assert(forall|j: int|
            0 <= j < bs.drop_first().len() ==> bs.drop_first()[j] == bs[j + 1]);
        lemma_insert_sorted_at(bs.drop_first(), b, i - 1);
        if i < bs.len() && bs[i] == b {
            assert(bs.drop_first()[i - 1] == b);
            assert(seq![bs[0]] + bs.drop_first() =~= bs);
        } else {
            assert(bs.drop_first().take(i - 1) =~= bs.take(i).drop_first());
            assert(bs.drop_first().skip(i - 1) =~= bs.skip(i));
            assert(seq![bs[0]] + (bs.drop_first().take(i - 1) + seq![b] + bs.drop_first().skip(
                i - 1,
            )) =~= bs.take(i) + seq![b] + bs.skip(i));
        }
    }
}

/// The distinct bugs of a test's metadata entries, in ascending order.
pub open spec fn spec_bugs(entries: Seq<crate::metadata::MetadataEntry>) -> Seq<Seq<char>>
    decreases entries.len(),
{
    if entries.len() == 0 {
        Seq::empty()
    } else {
        let init = spec_bugs(entries.drop_last());
        match spec_entry_bug(entries.last()) {
            Some(b) => spec_insert_sorted(init, b),
            None => init,
        }
    }
}

/// The metadata entries of the first record with the given test name.
pub open spec fn spec_meta_lookup(
    md: Seq<(String, Vec<crate::metadata::MetadataEntry>)>,
    test: Seq<char>,
) -> Option<Seq<crate::metadata::MetadataEntry>>
    decreases md.len(),
{
    if md.len() == 0 {
        None
    } else if md[0].0@ == test {
        Some(md[0].1@)
    } else {
        spec_meta_lookup(md.drop_first(), test)
    }
}

proof fn lemma_meta_lookup_found(
    md: Seq<(String, Vec<crate::metadata::MetadataEntry>)>,
    test: Seq<char>,
    k: int,
)
    requires
        0 <= k < md.len(),
        md[k].0@ == test,
        forall|m: int| 0 <= m < k ==> (#[trigger] md[m]).0@ != test,
    ensures
        spec_meta_lookup(md, test) == Some(md[k].1@),
    decreases k,
{
    if k > 0 {
        assert(forall|m: int| 0 <= m < md.drop_first().len() ==> md.drop_first()[m] == md[m + 1]);
        lemma_meta_lookup_found(md.drop_first(), test, k - 1);
    }
}

proof fn lemma_meta_lookup_none(
    md: Seq<(String, Vec<crate::metadata::MetadataEntry>)>,
    test: Seq<char>,
)
    requires
        forall|m: int| 0 <= m < md.len() ==> (#[trigger] md[m]).0@ != test,
    ensures
        spec_meta_lookup(md, test) is None,
    decreases md.len(),
{
    if md.len() > 0 {
        assert(forall|m: int| 0 <= m < md.drop_first().len() ==> md.drop_first()[m] == md[m + 1]);
        lemma_meta_lookup_none(md.drop_first(), test);
    }
}

/// The distinct bugs attached to a test, ascending, given the whole
/// metadata map.
pub open spec fn spec_test_bugs(
    md: Seq<(String, Vec<crate::metadata::MetadataEntry>)>,
    test: Seq<char>,
) -> Seq<Seq<char>> {
    match spec_meta_lookup(md, test) {
        Some(entries) => spec_bugs(entries.map_values(|e: crate::metadata::MetadataEntry| e)),
        None => Seq::empty(),
    }
}

/// One report row of a focus area: the test, its per-browser failure
/// counts, and the bugs filed against it.
#[derive(Debug)]
pub struct FocusAreaRow {
    pub test: String,
    /// The reference browser's `total`: every returned test fails there.
    pub firefox_failures: Option<i64>,
    /// `total - passes` of the comparison browser.
    pub chrome_failures: Option<i64>,
    /// `total - passes` of the comparison browser.
    pub safari_failures: Option<i64>,
    pub bugs: Vec<String>,
}

/// Per-browser pass/total counts are well formed: `0 <= passes <= total`.
pub open spec fn spec_counts_wf(results: Seq<crate::result::SearchResultView>) -> bool {
    forall|i: int, j: int|
        0 <= i < results.len() && 0 <= j < results[i].legacy_status.len() ==> 0 <= (
        #[trigger] results[i].legacy_status[j]).passes <= results[i].legacy_status[j].total
}

/// The failure count a report column shows for browser index `k`:
/// the raw total for the reference browser, `total - passes` otherwise.
pub open spec fn spec_column_count(
    row: crate::result::SearchResultView,
    k: int,
    reference: bool,
) -> Option<i64> {
    if 0 <= k < row.legacy_status.len() {
        if reference {
            Some(row.legacy_status[k].total)
        } else {
            Some((row.legacy_status[k].total - row.legacy_status[k].passes) as i64)
        }
    } else {
        None
    }
}

/// Computes the report rows of one focus area from a search response and
/// the metadata map: per test, firefox's failing-subtest total, the two
/// comparison browsers' failure counts, and the distinct bugs on the test.
/// Fails with `IncompleteResponse` exactly when the response's run list
/// does not name all three roster browsers.
pub fn focus_area_rows(
    results: &crate::result::SearchData,
    metadata: &Vec<(String, Vec<crate::metadata::MetadataEntry>)>,
) -> (r: Result<Vec<FocusAreaRow>, Error>)
    requires
        spec_counts_wf(results@.results),
    ensures
        r is Ok <==> {
            &&& crate::sync::spec_run_names(results@).contains("firefox"@)
            &&& crate::sync::spec_run_names(results@).contains("chrome"@)
            &&& crate::sync::spec_run_names(results@).contains("safari"@)
        },
        match r {
            Ok(v) => {
                let names = crate::sync::spec_run_names(results@);
                let ff = crate::sync::spec_first_index(names, "firefox"@);
                let ch = crate::sync::spec_first_index(names, "chrome"@);
                let sa = crate::sync::spec_first_index(names, "safari"@);
                &&& v@.len() == results@.results.len()
                &&& forall|i: int|
                    0 <= i < v@.len() ==> {
                        let row = results@.results[i];
                        &&& (#[trigger] v@[i]).test@ == row.test
                        &&& v@[i].firefox_failures == spec_column_count(row, ff, true)
                        &&& v@[i].chrome_failures == spec_column_count(row, ch, false)
                        &&& v@[i].safari_failures == spec_column_count(row, sa, false)
                        &&& string_views(v@[i].bugs@) == spec_test_bugs(metadata@, row.test)
                    }
            },
            Err(e) => e is IncompleteResponse,
        },
{
    let ff_idx = find_run_index(results, "firefox");
    let ch_idx = find_run_index(results, "chrome");
    let sa_idx = find_run_index(results, "safari");
    let ghost names = crate::sync::spec_run_names(results@);
    proof {
        crate::sync::lemma_first_index_contains(names, "firefox"@);
        crate::sync::lemma_first_index_contains(names, "chrome"@);
        crate::sync::lemma_first_index_contains(names, "safari"@);
    }
    if ff_idx.is_none() || ch_idx.is_none() || sa_idx.is_none() {
        return Err(Error::IncompleteResponse);
    }
    let nr = results.results.len();
    let mut v: Vec<FocusAreaRow> = Vec::new();
    let mut i: usize = 0;
    while i < nr
        invariant
            nr == results.results@.len(),
            names == crate::sync::spec_run_names(results@),
            spec_counts_wf(results@.results),
            i <= nr,
            v@.len() == i,
            match ff_idx {
                Some(k) => k as int == crate::sync::spec_first_index(names, "firefox"@),
                None => false,
            },
            match ch_idx {
                Some(k) => k as int == crate::sync::spec_first_index(names, "chrome"@),
                None => false,
            },
            match sa_idx {
                Some(k) => k as int == crate::sync::spec_first_index(names, "safari"@),
                None => false,
            },
            forall|m: int|
                0 <= m < i ==> {
                    let row = results@.results[m];
                    &&& (#[trigger] v@[m]).test@ == row.test
                    &&& v@[m].firefox_failures == spec_column_count(
                        row,
                        crate::sync::spec_first_index(names, "firefox"@),
                        true,
                    )
                    &&& v@[m].chrome_failures == spec_column_count(
                        row,
                        crate::sync::spec_first_index(names, "chrome"@),
                        false,
                    )
                    &&& v@[m].safari_failures == spec_column_count(
                        row,
                        crate::sync::spec_first_index(names, "safari"@),
                        false,
                    )
                    &&& string_views(v@[m].bugs@) == spec_test_bugs(metadata@, row.test)
                },
        decreases nr - i,
    {
        let ghost row = results@.results[i as int];
        proof {
            assert(row == results.results@[i as int]@);
            assert(forall|j: int|
                0 <= j < row.legacy_status.len() ==> (#[trigger] row.legacy_status[j])
                    == results.results@[i as int].legacy_status@[j]);
        }
        let firefox_failures = column_count(&results.results[i], ff_idx, true);
        let chrome_failures = column_count(&results.results[i], ch_idx, false);
        let safari_failures = column_count(&results.results[i], sa_idx, false);
        let bugs = test_bugs(metadata, results.results[i].test.as_str());
        v.push(
            FocusAreaRow {
                test: results.results[i].test.clone(),
                firefox_failures,
                chrome_failures,
                safari_failures,
                bugs,
            },
        );
        i = i + 1;
    }
    Ok(v)
}

/// The index of the first run with this browser name, if any.
fn find_run_index(results: &crate::result::SearchData, name: &str) -> (r: Option<usize>)
    ensures
        match r {
            Some(k) => k as int == crate::sync::spec_first_index(
                crate::sync::spec_run_names(results@),
                name@,
            ) && k < results@.runs.len(),
            None => crate::sync::spec_first_index(
                crate::sync::spec_run_names(results@),
                name@,
            ) < 0,
        },
{
    let ghost names = crate::sync::spec_run_names(results@);
    let n = results.runs.len();
    let mut j: usize = 0;
    while j < n
        invariant
            n == results.runs@.len(),
            names == crate::sync::spec_run_names(results@),
            names.len() == n,
            j <= n,
            forall|t: int| 0 <= t < j ==> names[t] != name@,
        decreases n - j,
    {
        proof {
            assert(names[j as int] == results.runs@[j as int].browser_name@);
        }
        if crate::strutil::str_eq(results.runs[j].browser_name.as_str(), name) {
            proof {
                crate::sync::lemma_first_index_found(names, name@, j as int);
            }
            return Some(j);
        }
        j = j + 1;
    }
    proof {
        crate::sync::lemma_first_index_none(names, name@);
    }
    None
}

/// One report cell: the counts of browser index `k` in this row.
fn column_count(row: &crate::result::SearchResult, k: Option<usize>, reference: bool) -> (r:
    Option<i64>)
    requires
        forall|j: int|
            0 <= j < row@.legacy_status.len() ==> 0 <= (#[trigger] row@.legacy_status[j]).passes
                <= row@.legacy_status[j].total,
        k matches Some(kk) ==> kk as int >= 0,
    ensures
        r == spec_column_count(
            row@,
            match k {
                Some(kk) => kk as int,
                None => -1,
            },
            reference,
        ),
{
    match k {
        Some(kk) => {
            if kk < row.legacy_status.len() {
                proof {
                    assert(row@.legacy_status[kk as int] == row.legacy_status@[kk as int]);
                }
                if reference {
                    Some(row.legacy_status[kk].total)
                } else {
                    Some(row.legacy_status[kk].total - row.legacy_status[kk].passes)
                }
            } else {
                None
            }
        },
        None => None,
    }
}

/// The distinct bugs of one test, in first-seen order.
/// Inserts a bug id at its ascending position, once.
fn insert_bug(bugs: &mut Vec<String>, b: String)
    ensures
        string_views(final(bugs)@) == spec_insert_sorted(string_views(old(bugs)@), b@),
{
    let ghost bs = string_views(bugs@);
    let n = bugs.len();
    let mut i: usize = 0;
    while i < n
        invariant
            n == bugs@.len(),
            bugs@ == old(bugs)@,
            bs == string_views(old(bugs)@),
            i <= n,
            forall|j: int| 0 <= j < i ==> crate::strutil::spec_str_lt(#[trigger] bs[j], b@),
        decreases n - i,
    {
        proof {
            assert(bs[i as int] == bugs@[i as int]@);
        }
        if crate::strutil::str_eq(bugs[i].as_str(), b.as_str()) {
            proof {
                crate::strutil::lemma_str_lt_trichotomy(bs[i as int], b@);
                lemma_insert_sorted_at(bs, b@, i as int);
            }
            return ;
        }
        if !crate::strutil::str_lt(bugs[i].as_str(), b.as_str()) {
            proof {
                lemma_insert_sorted_at(bs, b@, i as int);
            }
            let ghost prev = bugs@;
            bugs.insert(i, b);
            proof {
                assert(string_views(bugs@) =~= bs.take(i as int) + seq![b@] + bs.skip(i as int));
            }
            return ;
        }
        i = i + 1;
    }
    proof {
        lemma_insert_sorted_at(bs, b@, n as int);
    }
    let ghost prev = bugs@;
    bugs.push(b);
    proof {
        assert(string_views(bugs@) =~= bs.take(n as int) + seq![b@] + bs.skip(n as int));
    }
}

fn test_bugs(
    metadata: &Vec<(String, Vec<crate::metadata::MetadataEntry>)>,
    test: &str,
) -> (bugs: Vec<String>)
    ensures
        string_views(bugs@) == spec_test_bugs(metadata@, test@),
{
    let nm = metadata.len();
    let mut mi: Option<usize> = None;
    let mut j: usize = 0;
    while j < nm
        invariant_except_break
            mi is None,
        invariant
            nm == metadata@.len(),
            j <= nm,
            forall|m: int| 0 <= m < j ==> (#[trigger] metadata@[m]).0@ != test@,
        ensures
            match mi {
                Some(k) => k < nm && spec_meta_lookup(metadata@, test@) == Some(
                    metadata@[k as int].1@,
                ),
                None => forall|m: int| 0 <= m < nm ==> (#[trigger] metadata@[m]).0@ != test@,
            },
        decreases nm - j,
    {
        if crate::strutil::str_eq(metadata[j].0.as_str(), test) {
            mi = Some(j);
            proof {
                lemma_meta_lookup_found(metadata@, test@, j as int);
            }
            break ;
        }
        j = j + 1;
    }
    proof {
        if mi is None {
            lemma_meta_lookup_none(metadata@, test@);
        }
    }
    let mut bugs: Vec<String> = Vec::new();
    match mi {
        None => {
        },
        Some(k) => {
            let entries = &metadata[k].1;
            let ghost es = entries@;
            proof {
                assert(es.map_values(|e: crate::metadata::MetadataEntry| e) =~= es);
            }
            let ne = entries.len();
            let mut t: usize = 0;
            while t < ne
                invariant
                    ne == entries@.len(),
                    es == entries@,
                    t <= ne,
                    string_views(bugs@) =~= spec_bugs(es.take(t as int)),
                decreases ne - t,
            {
                proof {
                    assert(es.take(t + 1).drop_last() =~= es.take(t as int));
                    assert(es.take(t + 1).last() == es[t as int]);
                }
                let qualifies = crate::strutil::str_eq(entries[t].product.as_str(), "firefox")
                    && crate::strutil::str_starts_with(
                    entries[t].url.as_str(),
                    "https://bugzilla.mozilla.org",
                );
                if qualifies {
                    match bug_id(entries[t].url.as_str()) {
                        Some(b) => {
                            insert_bug(&mut bugs, b);
                            proof {
                                assert(string_views(bugs@) =~= spec_bugs(es.take(t + 1)));
                            }
                        },
                        None => {
                            proof {
                                assert(spec_entry_bug(es[t as int]) is None);
                                assert(string_views(bugs@) =~= spec_bugs(es.take(t + 1)));
                            }
                        },
                    }
                } else {
                    proof {
                        assert(spec_entry_bug(es[t as int]) is None);
                        assert(string_views(bugs@) =~= spec_bugs(es.take(t + 1)));
                    }
                }
                t = t + 1;
            }
            proof {
                assert(es.take(ne as int) =~= es);
            }
        },
    }
    bugs
}


} // verus!
