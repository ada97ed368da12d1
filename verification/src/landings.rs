//! Synchronization latency tracking: mercurial sync commits are filtered for
//! backouts, update commits are parsed for the revision they landed, and the
//! results are diffed against a persisted landing history.

use vstd::prelude::*;
use vstd::string::StrSliceExecFns;
use vstd::string::StringExecFns;

use crate::error::Error;
use crate::strutil::string_views;

verus! {

/// A mercurial log: its commit entries, newest first.
pub struct HgLog {
    pub entries: Vec<HgLogEntry>,
}

/// One mercurial commit: its node hash, message, and push time.
pub struct HgLogEntry {
    pub node: String,
    pub desc: String,
    /// Unix seconds.
    pub push_date: i64,
}

/// Mathematical value of an [`HgLogEntry`].
pub ghost struct HgLogEntryView {
    pub node: Seq<char>,
    pub desc: Seq<char>,
    pub push_date: int,
}

impl View for HgLogEntry {
    type V = HgLogEntryView;

    open spec fn view(&self) -> HgLogEntryView {
        HgLogEntryView { node: self.node@, desc: self.desc@, push_date: self.push_date as int }
    }
}

/// A revision landing synchronized from upstream, with its push time.
#[derive(Debug)]
pub struct GeckoSyncPoint {
    pub wpt_rev: String,
    /// Unix seconds.
    pub push_date: i64,
}

/// Mathematical value of a [`GeckoSyncPoint`].
pub ghost struct GeckoSyncPointView {
    pub wpt_rev: Seq<char>,
    pub push_date: int,
}

impl View for GeckoSyncPoint {
    type V = GeckoSyncPointView;

    open spec fn view(&self) -> GeckoSyncPointView {
        GeckoSyncPointView { wpt_rev: self.wpt_rev@, push_date: self.push_date as int }
    }
}

impl Clone for GeckoSyncPoint {
    fn clone(&self) -> (r: GeckoSyncPoint)
        ensures
            r@ == self@,
    {
        GeckoSyncPoint { wpt_rev: self.wpt_rev.clone(), push_date: self.push_date }
    }
}

/// A pull request that landed a synchronized revision.
pub struct GitHubPr {
    pub number: u64,
    /// Unix seconds.
    pub closed_at: i64,
}

/// One persisted landing record.
pub struct SyncPointWptRev {
    pub wpt_rev: String,
    pub wpt_pr: u64,
    /// Unix seconds.
    pub wpt_merge_time: i64,
    /// Unix seconds.
    pub gecko_push_time: i64,
}

/// Mathematical value of a [`SyncPointWptRev`].
pub ghost struct SyncPointWptRevView {
    pub wpt_rev: Seq<char>,
    pub wpt_pr: u64,
    pub wpt_merge_time: int,
    pub gecko_push_time: int,
}

impl View for SyncPointWptRev {
    type V = SyncPointWptRevView;

    open spec fn view(&self) -> SyncPointWptRevView {
        SyncPointWptRevView {
            wpt_rev: self.wpt_rev@,
            wpt_pr: self.wpt_pr,
            wpt_merge_time: self.wpt_merge_time as int,
            gecko_push_time: self.gecko_push_time as int,
        }
    }
}

/// The persisted landing history.
pub struct SyncData {
    pub landings: Vec<SyncPointWptRev>,
}

impl SyncData {
    /// An empty history; a missing backing store loads as this.
    pub fn new() -> (r: SyncData)
        ensures
            r.landings@.len() == 0,
    {
        SyncData { landings: Vec::new() }
    }
}

/// Is `c` a decimal digit?
pub open spec fn spec_is_digit(c: char) -> bool {
    '0' <= c && c <= '9'
}

/// Is `c` a hexadecimal digit?
pub open spec fn spec_is_hex(c: char) -> bool {
    spec_is_digit(c) || ('a' <= c && c <= 'f') || ('A' <= c && c <= 'F')
}

/// Length of the run of decimal digits starting at `from`.
pub open spec fn spec_digit_run(s: Seq<char>, from: int) -> int
    decreases s.len() - from when 0 <= from <= s.len()
{
    if from < 0 || from >= s.len() {
        0
    } else if spec_is_digit(s[from]) {
        1 + spec_digit_run(s, from + 1)
    } else {
        0
    }
}

/// Length of the run of hexadecimal digits starting at `from`.
pub open spec fn spec_hex_run(s: Seq<char>, from: int) -> int
    decreases s.len() - from when 0 <= from <= s.len()
{
    if from < 0 || from >= s.len() {
        0
    } else if spec_is_hex(s[from]) {
        1 + spec_hex_run(s, from + 1)
    } else {
        0
    }
}

proof fn lemma_digit_run_eq(s: Seq<char>, from: int, j: int)
    requires
        0 <= from <= j <= s.len(),
        forall|t: int| from <= t < j ==> spec_is_digit(#[trigger] s[t]),
        j == s.len() || !spec_is_digit(s[j]),
    ensures
        spec_digit_run(s, from) == j - from,
    decreases j - from,
{
    if from < j {
        lemma_digit_run_eq(s, from + 1, j);
    }
}

proof fn lemma_hex_run_eq(s: Seq<char>, from: int, j: int)
    requires
        0 <= from <= j <= s.len(),
        forall|t: int| from <= t < j ==> spec_is_hex(#[trigger] s[t]),
        j == s.len() || !spec_is_hex(s[j]),
    ensures
        spec_hex_run(s, from) == j - from,
    decreases j - from,
{
    if from < j {
        lemma_hex_run_eq(s, from + 1, j);
    }
}

/// Length of the run of decimal digits starting at `from`.
fn digit_run(s: &str, from: usize) -> (r: usize)
    requires
        from <= s@.len(),
    ensures
        r == spec_digit_run(s@, from as int),
        from + r <= s@.len(),
{
    let n = s.unicode_len();
    let mut j: usize = from;
    while j < n
        invariant
            n == s@.len(),
            from <= j <= n,
            forall|t: int| from <= t < j ==> spec_is_digit(#[trigger] s@[t]),
        decreases n - j,
    {
        let c = s.get_char(j);
        if !(c >= '0' && c <= '9') {
            proof {
                lemma_digit_run_eq(s@, from as int, j as int);
            }
            return j - from;
        }
        j = j + 1;
    }
    proof {
        lemma_digit_run_eq(s@, from as int, n as int);
    }
    n - from
}

/// Length of the run of hexadecimal digits starting at `from`.
fn hex_run(s: &str, from: usize) -> (r: usize)
    requires
        from <= s@.len(),
    ensures
        r == spec_hex_run(s@, from as int),
        from + r <= s@.len(),
{
    let n = s.unicode_len();
    let mut j: usize = from;
    while j < n
        invariant
            n == s@.len(),
            from <= j <= n,
            forall|t: int| from <= t < j ==> spec_is_hex(#[trigger] s@[t]),
        decreases n - j,
    {
        let c = s.get_char(j);
        let hex = (c >= '0' && c <= '9') || (c >= 'a' && c <= 'f') || (c >= 'A' && c <= 'F');
        if !hex {
            proof {
                lemma_hex_run_eq(s@, from as int, j as int);
            }
            return j - from;
        }
        j = j + 1;
    }
    proof {
        lemma_hex_run_eq(s@, from as int, n as int);
    }
    n - from
}

/// A backout notice at `i`: the backout phrase, a count of at least one
/// digit, then the word `changeset`.  The digit run is maximal, which is
/// what a backtracking digit match settles on, since a digit cannot begin
/// the following literal.
pub open spec fn spec_backout_at(s: Seq<char>, i: int) -> bool {
    &&& crate::strutil::match_at(s, "Backed out "@, i)
    &&& spec_digit_run(s, i + 11) >= 1
    &&& crate::strutil::match_at(s, " changeset"@, i + 11 + spec_digit_run(s, i + 11))
}

/// Does the message contain a backout notice?
pub open spec fn spec_is_backout(s: Seq<char>) -> bool {
    exists|i: int| spec_backout_at(s, i)
}

/// Does the message contain a backout notice?
pub fn is_backout(s: &str) -> (r: bool)
    ensures
        r == spec_is_backout(s@),
{
    proof {
        reveal_strlit("Backed out ");
        reveal_strlit(" changeset");
    }
    let n = s.unicode_len();
    let mut i: usize = 0;
    while i < n
        invariant
            n == s@.len(),
            i <= n,
            "Backed out "@.len() == 11,
            forall|m: int| 0 <= m < i ==> !spec_backout_at(s@, m),
        decreases n - i,
    {
        if crate::strutil::str_match_at(s, "Backed out ", i) {
            let k = digit_run(s, i + 11);
            if k >= 1 && crate::strutil::str_match_at(s, " changeset", i + 11 + k) {
                proof {
                    assert(spec_backout_at(s@, i as int));
                }
                return true;
            }
            proof {
                assert(!spec_backout_at(s@, i as int));
            }
        } else {
            proof {
                assert(!spec_backout_at(s@, i as int));
            }
        }
        i = i + 1;
    }
    proof {
        assert forall|m: int| !spec_backout_at(s@, m) by {
            if m < 0 || m >= n {
                assert(!crate::strutil::match_at(s@, "Backed out "@, m));
            }
        }
    }
    false
}

/// Index of the first newline at or after `from`; the length when none.
pub open spec fn spec_line_end(s: Seq<char>, from: int) -> int
    decreases s.len() - from when 0 <= from <= s.len()
{
    if from < 0 || from >= s.len() {
        from
    } else if s[from] == '\n' {
        from
    } else {
        spec_line_end(s, from + 1)
    }
}

proof fn lemma_line_end_bounds(s: Seq<char>, from: int)
    requires
        0 <= from <= s.len(),
    ensures
        from <= spec_line_end(s, from) <= s.len(),
    decreases s.len() - from,
{
    if from < s.len() && s[from] != '\n' {
        lemma_line_end_bounds(s, from + 1);
    }
}

proof fn lemma_line_end_eq(s: Seq<char>, from: int, e: int)
    requires
        0 <= from <= e <= s.len(),
        forall|t: int| from <= t < e ==> #[trigger] s[t] != '\n',
        e == s.len() || s[e] == '\n',
    ensures
        spec_line_end(s, from) == e,
    decreases e - from,
{
    if from < e {
        lemma_line_end_eq(s, from + 1, e);
    }
}

/// A line with a trailing carriage return stripped.
pub open spec fn spec_strip_cr(l: Seq<char>) -> Seq<char> {
    if l.len() > 0 && l.last() == '\r' {
        l.drop_last()
    } else {
        l
    }
}

/// The lines of `s` from `from` on: split at newlines, a carriage return
/// before a newline stripped, no trailing empty line.
pub open spec fn spec_lines_from(s: Seq<char>, from: int) -> Seq<Seq<char>>
    decreases s.len() - from when 0 <= from <= s.len() via spec_lines_from_decreases
{
    if from < 0 || from >= s.len() {
        Seq::empty()
    } else {
        let e = spec_line_end(s, from);
        if e < s.len() {
            seq![spec_strip_cr(s.subrange(from, e))] + spec_lines_from(s, e + 1)
        } else {
            seq![s.subrange(from, e)]
        }
    }
}

#[via_fn]
proof fn spec_lines_from_decreases(s: Seq<char>, from: int) {
    if 0 <= from <= s.len() {
        lemma_line_end_bounds(s, from);
    }
}

/// The lines of a message, as `str::lines` splits them.
pub open spec fn spec_lines(s: Seq<char>) -> Seq<Seq<char>> {
    spec_lines_from(s, 0)
}

/// Splits a message into its lines.
pub fn split_lines(s: &str) -> (rv: Vec<String>)
    ensures
        string_views(rv@) == spec_lines(s@),
{
    let n = s.unicode_len();
    let mut rv: Vec<String> = Vec::new();
    let mut start: usize = 0;
    while start < n
        invariant
            n == s@.len(),
            start <= n,
            spec_lines(s@) =~= string_views(rv@) + spec_lines_from(s@, start as int),
        decreases n - start,
    {
        let mut j: usize = start;
        while j < n
            invariant
                n == s@.len(),
                start <= j <= n,
                forall|t: int| start <= t < j ==> #[trigger] s@[t] != '\n',
            ensures
                start <= j <= n,
                forall|t: int| start <= t < j ==> #[trigger] s@[t] != '\n',
                j == n || s@[j as int] == '\n',
            decreases n - j,
        {
            if s.get_char(j) == '\n' {
                break ;
            }
            j = j + 1;
        }
        proof {
            if j < n {
                assert(s@[j as int] == '\n');
            }
            lemma_line_end_eq(s@, start as int, j as int);
        }
        let ghost prev = rv@;
        if j < n {
            let mut e = j;
            if e > start && s.get_char(e - 1) == '\r' {
                e = e - 1;
            }
            let line = s.substring_char(start, e);
            rv.push(line.to_owned());
            proof {
                assert(line@ =~= spec_strip_cr(s@.subrange(start as int, j as int)));
                assert(string_views(rv@) =~= string_views(prev).push(
                    spec_strip_cr(s@.subrange(start as int, j as int)),
                ));
                assert(spec_lines_from(s@, start as int) =~= seq![
                    spec_strip_cr(s@.subrange(start as int, j as int)),
                ] + spec_lines_from(s@, j + 1));
                assert(spec_lines(s@) =~= string_views(rv@) + spec_lines_from(s@, j + 1));
            }
            start = j + 1;
        } else {
            let line = s.substring_char(start, n);
            rv.push(line.to_owned());
            proof {
                assert(string_views(rv@) =~= string_views(prev).push(
                    s@.subrange(start as int, n as int),
                ));
                assert(spec_lines_from(s@, start as int) =~= seq![
                    s@.subrange(start as int, n as int),
                ]);
                assert(spec_lines_from(s@, n as int) =~= Seq::<Seq<char>>::empty());
                assert(spec_lines(s@) =~= string_views(rv@) + spec_lines_from(s@, n as int));
            }
            start = n;
        }
    }
    proof {
        assert(spec_lines_from(s@, start as int) =~= Seq::<Seq<char>>::empty());
        assert(string_views(rv@) =~= spec_lines(s@));
    }
    rv
}


/// A backed-out changeset reference at `p`: the literal, then at least one
/// hexadecimal digit.  The hexadecimal run is maximal, which is what a
/// backtracking match settles on, since a hexadecimal digit cannot begin
/// the end of the reference.
pub open spec fn spec_changeset_at(line: Seq<char>, p: int) -> bool {
    crate::strutil::match_at(line, "Backed out changeset "@, p) && spec_hex_run(line, p + 21) >= 1
}

/// The first position at or after `p` with a changeset reference; `-1`
/// when there is none.
pub open spec fn spec_first_changeset_from(line: Seq<char>, p: int) -> int
    decreases line.len() - p when 0 <= p <= line.len()
{
    if p < 0 || p >= line.len() {
        -1
    } else if spec_changeset_at(line, p) {
        p
    } else {
        spec_first_changeset_from(line, p + 1)
    }
}

/// The changeset revision a backout line names: the maximal hexadecimal
/// run after the first changeset reference.
pub open spec fn spec_line_capture(line: Seq<char>) -> Option<Seq<char>> {
    let p = spec_first_changeset_from(line, 0);
    if p < 0 {
        None
    } else {
        Some(line.subrange(p + 21, p + 21 + spec_hex_run(line, p + 21)))
    }
}

/// Extracts the changeset revision a backout line names, if any.
fn line_capture(line: &str) -> (r: Option<String>)
    ensures
        match r {
            Some(c) => spec_line_capture(line@) == Some(c@),
            None => spec_line_capture(line@) is None,
        },
{
    proof {
        reveal_strlit("Backed out changeset ");
    }
    let n = line.unicode_len();
    let mut p: usize = 0;
    while p < n
        invariant
            n == line@.len(),
            p <= n,
            "Backed out changeset "@.len() == 21,
            spec_first_changeset_from(line@, 0) == spec_first_changeset_from(line@, p as int),
        decreases n - p,
    {
        if crate::strutil::str_match_at(line, "Backed out changeset ", p) {
            let k = hex_run(line, p + 21);
            if k >= 1 {
                proof {
                    assert(spec_changeset_at(line@, p as int));
                    assert(spec_first_changeset_from(line@, p as int) == p as int);
                }
                let c = line.substring_char(p + 21, p + 21 + k);
                proof {
                    assert(c@ =~= line@.subrange(
                        p as int + 21,
                        p as int + 21 + spec_hex_run(line@, p as int + 21),
                    ));
                }
                return Some(c.to_owned());
            }
        }
        proof {
            assert(!spec_changeset_at(line@, p as int));
        }
        p = p + 1;
    }
    proof {
        assert(spec_first_changeset_from(line@, n as int) == -1);
    }
    None
}

/// The backed-out revisions after reading the lines from `j` on: each
/// line's captured revision is recorded once.
pub open spec fn spec_collect_backed(
    backed: Seq<Seq<char>>,
    ls: Seq<Seq<char>>,
    j: int,
) -> Seq<Seq<char>>
    decreases ls.len() - j when 0 <= j <= ls.len()
{
    if j < 0 || j >= ls.len() {
        backed
    } else {
        let b2 = match spec_line_capture(ls[j]) {
            Some(c) => if backed.contains(c) {
                backed
            } else {
                backed.push(c)
            },
            None => backed,
        };
        spec_collect_backed(b2, ls, j + 1)
    }
}

/// The backed-out revisions after reading a whole backout message.
pub open spec fn spec_backed_after(backed: Seq<Seq<char>>, desc: Seq<char>) -> Seq<Seq<char>> {
    spec_collect_backed(backed, spec_lines(desc), 0)
}

/// The views of a sequence of log entries.
pub open spec fn entry_views(s: Seq<HgLogEntry>) -> Seq<HgLogEntryView> {
    s.map_values(|e: HgLogEntry| e@)
}

/// The commits that survive backout filtering, reading from commit `i` with
/// the backed-out revisions collected so far: a backout commit is dropped
/// and contributes its revisions; a commit whose node is recorded as backed
/// out is dropped once; every other commit is kept, in order.
pub open spec fn spec_fb_from(
    commits: Seq<HgLogEntryView>,
    backed: Seq<Seq<char>>,
    i: int,
) -> Seq<HgLogEntryView>
    decreases commits.len() - i when 0 <= i <= commits.len()
{
    if i < 0 || i >= commits.len() {
        Seq::empty()
    } else {
        let c = commits[i];
        if spec_is_backout(c.desc) {
            spec_fb_from(commits, spec_backed_after(backed, c.desc), i + 1)
        } else if backed.contains(c.node) {
            spec_fb_from(commits, backed.remove_value(c.node), i + 1)
        } else {
            seq![c] + spec_fb_from(commits, backed, i + 1)
        }
    }
}

/// The commits of a log that survive backout filtering.
pub open spec fn spec_filter_backouts(commits: Seq<HgLogEntryView>) -> Seq<HgLogEntryView> {
    spec_fb_from(commits, Seq::empty(), 0)
}

impl Clone for HgLogEntry {
    fn clone(&self) -> (r: HgLogEntry)
        ensures
            r@ == self@,
    {
        HgLogEntry {
            node: self.node.clone(),
            desc: self.desc.clone(),
            push_date: self.push_date,
        }
    }
}

/// Drops backed-out commits: a backout commit is dropped and marks the
/// revisions its message names; a later commit whose node is so marked is
/// dropped once, consuming the mark.  All other commits stay, in order.
pub fn filter_backouts(commits: Vec<HgLogEntry>) -> (rv: Vec<HgLogEntry>)
    ensures
        entry_views(rv@) == spec_filter_backouts(entry_views(commits@)),
{
    let ghost cv = entry_views(commits@);
    let n = commits.len();
    let mut backed: Vec<String> = Vec::new();
    let mut rv: Vec<HgLogEntry> = Vec::new();
    proof {
        assert(string_views(backed@) =~= Seq::<Seq<char>>::empty());
        assert(entry_views(rv@) =~= Seq::<HgLogEntryView>::empty());
        assert(spec_filter_backouts(cv) =~= entry_views(rv@) + spec_fb_from(
            cv,
            string_views(backed@),
            0,
        ));
    }
    let mut i: usize = 0;
    while i < n
        invariant
            n == commits@.len(),
            cv == entry_views(commits@),
            cv.len() == n,
            i <= n,
            spec_filter_backouts(cv) =~= entry_views(rv@) + spec_fb_from(
                cv,
                string_views(backed@),
                i as int,
            ),
        decreases n - i,
    {
        proof {
            assert(cv[i as int] == commits@[i as int]@);
        }
        if is_backout(commits[i].desc.as_str()) {
            let lines = split_lines(commits[i].desc.as_str());
            let ghost lsv = spec_lines(cv[i as int].desc);
            let ghost backed0 = string_views(backed@);
            let nl = lines.len();
            let mut j: usize = 0;
            while j < nl
                invariant
                    nl == lines@.len(),
                    string_views(lines@) == lsv,
                    j <= nl,
                    spec_collect_backed(backed0, lsv, 0) == spec_collect_backed(
                        string_views(backed@),
                        lsv,
                        j as int,
                    ),
                decreases nl - j,
            {
                proof {
                    assert(lsv[j as int] == lines@[j as int]@);
                }
                match line_capture(lines[j].as_str()) {
                    Some(c) => {
                        if !crate::strutil::vec_contains_str(&backed, c.as_str()) {
                            let ghost prevb = backed@;
                            backed.push(c);
                            proof {
                                assert(string_views(backed@) =~= string_views(prevb).push(
                                    spec_line_capture(lsv[j as int]).unwrap(),
                                ));
                            }
                        }
                    },
                    None => {
                    },
                }
                j = j + 1;
            }
            proof {
                assert(spec_collect_backed(string_views(backed@), lsv, nl as int) == string_views(
                    backed@,
                ));
                assert(spec_backed_after(backed0, cv[i as int].desc) == string_views(backed@));
                assert(spec_fb_from(cv, backed0, i as int) == spec_fb_from(
                    cv,
                    string_views(backed@),
                    i + 1,
                ));
            }
        } else if crate::strutil::vec_contains_str(&backed, commits[i].node.as_str()) {
            let ghost bv = string_views(backed@);
            let ghost node = cv[i as int].node;
            let nb = backed.len();
            let mut fi: usize = 0;
            while fi < nb
                invariant_except_break
                    fi < nb || nb == 0,
                invariant
                    nb == backed@.len(),
                    bv == string_views(backed@),
                    bv.len() == nb,
                    fi <= nb,
                    bv.contains(node),
                    node == cv[i as int].node,
                    cv == entry_views(commits@),
                    i < cv.len(),
                    cv[i as int].node == commits@[i as int].node@,
                    forall|m: int| 0 <= m < fi ==> bv[m] != node,
                ensures
                    fi < nb,
                    bv[fi as int] == node,
                    forall|m: int| 0 <= m < fi ==> bv[m] != node,
                decreases nb - fi,
            {
                if crate::strutil::str_eq(backed[fi].as_str(), commits[i].node.as_str()) {
                    break ;
                }
                proof {
                    if fi + 1 == nb {
                        assert(forall|m: int| 0 <= m < nb ==> bv[m] != node);
                        assert(!bv.contains(node));
                        assert(false);
                    }
                }
                fi = fi + 1;
            }
            let ghost prevb = backed@;
            backed.remove(fi);
            proof {
                bv.index_of_first_ensures(node);
                let idx = bv.index_of_first(node).unwrap();
                assert(idx == fi as int);
                assert(bv.remove_value(node) == bv.remove(fi as int));
                assert(string_views(backed@) =~= string_views(prevb).remove(fi as int));
                assert(string_views(backed@) == bv.remove_value(node));
            }
        } else {
            let ghost prevr = rv@;
            rv.push(commits[i].clone());
            proof {
                assert(entry_views(rv@) =~= entry_views(prevr).push(cv[i as int]));
                assert(seq![cv[i as int]] + spec_fb_from(cv, string_views(backed@), i + 1)
                    =~= entry_views(rv@).subrange(prevr.len() as int, entry_views(rv@).len() as int)
                    + spec_fb_from(cv, string_views(backed@), i + 1));
            }
        }
        i = i + 1;
    }
    proof {
        assert(spec_fb_from(cv, string_views(backed@), n as int) =~= Seq::<HgLogEntryView>::empty());
    }
    rv
}


/// An update reference at `p`: the update phrase followed by at least one
/// hexadecimal digit of the landed revision.
pub open spec fn spec_update_at(line: Seq<char>, p: int) -> bool {
    crate::strutil::match_at(line, "Update web-platform-tests to "@, p) && spec_hex_run(
        line,
        p + 29,
    ) >= 1
}

/// The last position below `k` with an update reference; `-1` when none.
pub open spec fn spec_last_update_below(line: Seq<char>, k: int) -> int
    decreases k when k >= 0
{
    if k <= 0 {
        -1
    } else if spec_update_at(line, k - 1) {
        k - 1
    } else {
        spec_last_update_below(line, k - 1)
    }
}

/// The revision the line's last update reference names, if any: a greedy
/// leading match takes the last reference of the line, and the revision is
/// its maximal hexadecimal run.
pub open spec fn spec_update_capture_line(line: Seq<char>) -> Option<Seq<char>> {
    let p = spec_last_update_below(line, line.len() as int);
    if p < 0 {
        None
    } else {
        Some(line.subrange(p + 29, p + 29 + spec_hex_run(line, p + 29)))
    }
}

/// The index of the first line with an update reference; `-1` when none.
pub open spec fn spec_first_update_line(ls: Seq<Seq<char>>, j: int) -> int
    decreases ls.len() - j when 0 <= j <= ls.len()
{
    if j < 0 || j >= ls.len() {
        -1
    } else if spec_update_capture_line(ls[j]) is Some {
        j
    } else {
        spec_first_update_line(ls, j + 1)
    }
}

/// The revision an update commit message names: reading the lines in
/// order, the first line with an update reference decides, by its last
/// reference.
pub open spec fn spec_update_capture(s: Seq<char>) -> Option<Seq<char>> {
    let ls = spec_lines(s);
    let j = spec_first_update_line(ls, 0);
    if j < 0 {
        None
    } else {
        spec_update_capture_line(ls[j])
    }
}

/// Extracts the revision named by the line's last update reference.
fn update_capture_line(line: &str) -> (r: Option<String>)
    ensures
        match r {
            Some(c) => spec_update_capture_line(line@) == Some(c@),
            None => spec_update_capture_line(line@) is None,
        },
{
    proof {
        reveal_strlit("Update web-platform-tests to ");
    }
    let n = line.unicode_len();
    let mut k: usize = n;
    while k > 0
        invariant
            n == line@.len(),
            k <= n,
            "Update web-platform-tests to "@.len() == 29,
            spec_last_update_below(line@, n as int) == spec_last_update_below(line@, k as int),
        decreases k,
    {
        if crate::strutil::str_match_at(line, "Update web-platform-tests to ", k - 1) {
            let h = hex_run(line, k - 1 + 29);
            if h >= 1 {
                proof {
                    assert(spec_update_at(line@, k as int - 1));
                    assert(spec_last_update_below(line@, k as int) == k as int - 1);
                }
                let c = line.substring_char(k - 1 + 29, k - 1 + 29 + h);
                proof {
                    assert(c@ =~= line@.subrange(
                        k as int - 1 + 29,
                        k as int - 1 + 29 + spec_hex_run(line@, k as int - 1 + 29),
                    ));
                }
                return Some(c.to_owned());
            }
        }
        proof {
            assert(!spec_update_at(line@, k as int - 1));
        }
        k = k - 1;
    }
    proof {
        assert(spec_last_update_below(line@, 0) == -1);
    }
    None
}

/// Parses the revision an update commit landed.  Fails with
/// `BadCommitMessage` exactly when no line of the message carries an
/// update reference.
pub fn sync_point_from_entry(e: &HgLogEntry) -> (r: Result<GeckoSyncPoint, Error>)
    ensures
        r is Ok <==> spec_update_capture(e.desc@) is Some,
        (r matches Ok(g) ==> spec_update_capture(e.desc@) == Some(g.wpt_rev@) && g.push_date
            == e.push_date),
        (r matches Err(err) ==> err is BadCommitMessage),
{
    let lines = split_lines(e.desc.as_str());
    let ghost lsv = spec_lines(e.desc@);
    let nl = lines.len();
    let mut j: usize = 0;
    while j < nl
        invariant
            nl == lines@.len(),
            string_views(lines@) == lsv,
            lsv == spec_lines(e.desc@),
            j <= nl,
            spec_first_update_line(lsv, 0) == spec_first_update_line(lsv, j as int),
        decreases nl - j,
    {
        proof {
            assert(lsv[j as int] == lines@[j as int]@);
        }
        match update_capture_line(lines[j].as_str()) {
            Some(c) => {
                proof {
                    assert(spec_update_capture_line(lsv[j as int]) is Some);
                    assert(spec_first_update_line(lsv, j as int) == j as int);
                    assert(spec_update_capture(e.desc@) == Some(c@));
                }
                return Ok(GeckoSyncPoint { wpt_rev: c, push_date: e.push_date });
            },
            None => {
                proof {
                    assert(spec_update_capture_line(lsv[j as int]) is None);
                }
            },
        }
        j = j + 1;
    }
    proof {
        assert(spec_first_update_line(lsv, nl as int) == -1);
    }
    Err(Error::BadCommitMessage)
}

/// The views of a sequence of sync points.
pub open spec fn sync_point_views(s: Seq<GeckoSyncPoint>) -> Seq<GeckoSyncPointView> {
    s.map_values(|p: GeckoSyncPoint| p@)
}

/// The sync points of the kept commits: one per commit whose message names
/// an update revision, in commit order.
pub open spec fn spec_sync_points_of(kept: Seq<HgLogEntryView>) -> Seq<GeckoSyncPointView>
    decreases kept.len(),
{
    if kept.len() == 0 {
        Seq::empty()
    } else {
        let init = spec_sync_points_of(kept.drop_last());
        match spec_update_capture(kept.last().desc) {
            Some(rev) => init.push(
                GeckoSyncPointView { wpt_rev: rev, push_date: kept.last().push_date },
            ),
            None => init,
        }
    }
}

/// The sync points of a commit log: backed-out commits dropped, update
/// commits parsed, order kept.
pub open spec fn spec_extract_sync_points(commits: Seq<HgLogEntryView>) -> Seq<
    GeckoSyncPointView,
> {
    spec_sync_points_of(spec_filter_backouts(commits))
}

/// Extracts the sync points of a commit log: commits that were backed out
/// are dropped, and each remaining update commit contributes the revision
/// its message names, in log order.
pub fn extract_sync_points(entries: Vec<HgLogEntry>) -> (rv: Vec<GeckoSyncPoint>)
    ensures
        sync_point_views(rv@) == spec_extract_sync_points(entry_views(entries@)),
{
    let ghost cv = entry_views(entries@);
    let kept = filter_backouts(entries);
    let ghost kv = entry_views(kept@);
    let nk = kept.len();
    let mut rv: Vec<GeckoSyncPoint> = Vec::new();
    let mut i: usize = 0;
    while i < nk
        invariant
            nk == kept@.len(),
            kv == entry_views(kept@),
            kv == spec_filter_backouts(cv),
            i <= nk,
            sync_point_views(rv@) =~= spec_sync_points_of(kv.take(i as int)),
        decreases nk - i,
    {
        proof {
            assert(kv.take(i + 1).drop_last() =~= kv.take(i as int));
            assert(kv.take(i + 1).last() == kv[i as int]);
            assert(kv[i as int] == kept@[i as int]@);
        }
        match sync_point_from_entry(&kept[i]) {
            Ok(g) => {
                let ghost prev = rv@;
                rv.push(g);
                proof {
                    assert(sync_point_views(rv@) =~= sync_point_views(prev).push(
                        rv@.last()@,
                    ));
                    assert(sync_point_views(rv@) =~= spec_sync_points_of(kv.take(i + 1)));
                }
            },
            Err(_) => {
                proof {
                    assert(spec_update_capture(kv[i as int].desc) is None);
                    assert(sync_point_views(rv@) =~= spec_sync_points_of(kv.take(i + 1)));
                }
            },
        }
        i = i + 1;
    }
    proof {
        assert(kv.take(nk as int) =~= kv);
    }
    rv
}

/// The revisions a landing history records.
pub open spec fn spec_landing_revs(s: Seq<SyncPointWptRev>) -> Seq<Seq<char>> {
    s.map_values(|l: SyncPointWptRev| l.wpt_rev@)
}

/// The landing history together with its membership index.
pub struct LandingData {
    pub sync_data: SyncData,
}

impl LandingData {
    pub fn new(sync_data: SyncData) -> (r: LandingData)
        ensures
            r.sync_data == sync_data,
    {
        LandingData { sync_data }
    }

    /// Does the history already record `rev`?
    pub fn contains_rev(&self, rev: &str) -> (r: bool)
        ensures
            r == spec_landing_revs(self.sync_data.landings@).contains(rev@),
    {
        let n = self.sync_data.landings.len();
        let mut i: usize = 0;
        while i < n
            invariant
                n == self.sync_data.landings@.len(),
                i <= n,
                forall|m: int|
                    0 <= m < i ==> spec_landing_revs(self.sync_data.landings@)[m] != rev@,
            decreases n - i,
        {
            proof {
                assert(spec_landing_revs(self.sync_data.landings@)[i as int]
                    == self.sync_data.landings@[i as int].wpt_rev@);
            }
            if crate::strutil::str_eq(self.sync_data.landings[i].wpt_rev.as_str(), rev) {
                return true;
            }
            i = i + 1;
        }
        proof {
            let revs = spec_landing_revs(self.sync_data.landings@);
            assert(forall|m: int| 0 <= m < revs.len() ==> revs[m] != rev@);
        }
        false
    }

    /// The sync points whose revision the history does not record yet, in
    /// their order.
    pub fn missing(&self, sync_points: &Vec<GeckoSyncPoint>) -> (rv: Vec<GeckoSyncPoint>)
        ensures
            sync_point_views(rv@) == sync_point_views(sync_points@).filter(
                |p: GeckoSyncPointView|
                    !spec_landing_revs(self.sync_data.landings@).contains(p.wpt_rev),
            ),
    {
        let ghost pv = sync_point_views(sync_points@);
        let ghost pred = |p: GeckoSyncPointView|
            !spec_landing_revs(self.sync_data.landings@).contains(p.wpt_rev);
        let n = sync_points.len();
        let mut rv: Vec<GeckoSyncPoint> = Vec::new();
        let mut k: usize = 0;
        while k < n
            invariant
                n == sync_points@.len(),
                pv == sync_point_views(sync_points@),
                pred == (|p: GeckoSyncPointView|
                    !spec_landing_revs(self.sync_data.landings@).contains(p.wpt_rev)),
                k <= n,
                sync_point_views(rv@) =~= pv.take(k as int).filter(pred),
            decreases n - k,
        {
            proof {
                reveal(Seq::filter);
                assert(pv.take(k + 1).drop_last() =~= pv.take(k as int));
                assert(pv.take(k + 1).last() == pv[k as int]);
                assert(pv[k as int] == sync_points@[k as int]@);
            }
            if !self.contains_rev(sync_points[k].wpt_rev.as_str()) {
                let ghost prev = rv@;
                rv.push(sync_points[k].clone());
                proof {
                    assert(sync_point_views(rv@) =~= sync_point_views(prev).push(pv[k as int]));
                    assert(sync_point_views(rv@) =~= pv.take(k + 1).filter(pred));
                }
            } else {
                proof {
                    assert(sync_point_views(rv@) =~= pv.take(k + 1).filter(pred));
                }
            }
            k = k + 1;
        }
        proof {
            assert(pv.take(n as int) =~= pv);
        }
        rv
    }

    /// Records a landed sync point with the pull request that landed it.
    pub fn insert(&mut self, sync_point: GeckoSyncPoint, pr: GitHubPr)
        ensures
            final(self).sync_data.landings@.len() == old(self).sync_data.landings@.len() + 1,
            forall|i: int|
                0 <= i < old(self).sync_data.landings@.len()
                    ==> final(self).sync_data.landings@[i] == old(self).sync_data.landings@[i],
            final(self).sync_data.landings@.last().wpt_rev@ == sync_point.wpt_rev@,
            final(self).sync_data.landings@.last().wpt_pr == pr.number,
            final(self).sync_data.landings@.last().wpt_merge_time == pr.closed_at,
            final(self).sync_data.landings@.last().gecko_push_time == sync_point.push_date,
    {
        self.sync_data.landings.push(
            SyncPointWptRev {
                wpt_rev: sync_point.wpt_rev,
                wpt_pr: pr.number,
                wpt_merge_time: pr.closed_at,
                gecko_push_time: sync_point.push_date,
            },
        );
    }
}


} // verus!
