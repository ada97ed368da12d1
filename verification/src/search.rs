//! The search endpoint's boolean query language: a clause tree over
//! per-browser results, links and labels, together with its exact JSON wire
//! encoding.
//!
//! Each clause variant is encoded untagged, distinguished by its keys:
//! `{"and":[..]}`, `{"or":[..]}`, `{"not":..}`,
//! `{"browser_name":..,"status":..}`, `{"link":..}` and `{"label":..}`.
//! The encoding is specified character by character, so that a query value
//! determines its serialized form completely.

use vstd::prelude::*;
use vstd::string::StrSliceExecFns;
use vstd::string::StringExecFns;

use crate::result::Status;
use crate::strutil::spec_dec;
use crate::strutil::i64_to_string;

verus! {

/// A boolean query over test results.
pub enum Clause {
    And(AndClause),
    Not(NotClause),
    Or(OrClause),
    BrowserResult(ResultClause),
    Link(LinkClause),
    Label(LabelClause),
}

/// Conjunction of clauses.
pub struct AndClause {
    pub and: Vec<Clause>,
}

impl AndClause {
    pub fn push(&mut self, clause: Clause)
        ensures
            final(self).and@ == old(self).and@.push(clause),
    {
        self.and.push(clause);
    }
}

/// Disjunction of clauses.
pub struct OrClause {
    pub or: Vec<Clause>,
}

impl OrClause {
    pub fn push(&mut self, clause: Clause)
        ensures
            final(self).or@ == old(self).or@.push(clause),
    {
        self.or.push(clause);
    }
}

/// Negation of a clause.
pub struct NotClause {
    pub not: Box<Clause>,
}

/// "This browser finished the test with this status."
pub struct ResultClause {
    pub browser_name: String,
    pub status: Status,
}

/// "The test carries a link containing this substring."
pub struct LinkClause {
    pub link: String,
}

/// "The test carries this label."
pub struct LabelClause {
    pub label: String,
}

/// The query wrapper sent to the search endpoint.
pub struct Query {
    pub query: Clause,
}

/// A full search request body: a query plus the run ids it ranges over.
pub struct SearchBody {
    pub query: Query,
    pub run_ids: Vec<i64>,
}

/// The fixed uppercase wire token of a status.
pub open spec fn spec_status_token(s: Status) -> Seq<char> {
    match s {
        Status::Okay => "OK"@,
        Status::Pass => "PASS"@,
        Status::Fail => "FAIL"@,
        Status::Error => "ERROR"@,
        Status::Timeout => "TIMEOUT"@,
        Status::NotRun => "NOTRUN"@,
        Status::Crash => "CRASH"@,
    }
}

/// The fixed uppercase wire token of a status.
pub fn status_token(s: &Status) -> (r: &'static str)
    ensures
        r@ == spec_status_token(*s),
{
    match s {
        Status::Okay => "OK",
        Status::Pass => "PASS",
        Status::Fail => "FAIL",
        Status::Error => "ERROR",
        Status::Timeout => "TIMEOUT",
        Status::NotRun => "NOTRUN",
        Status::Crash => "CRASH",
    }
}

/// Lowercase hexadecimal digit of `d`, which must be below sixteen.
pub open spec fn spec_hex_digit(d: int) -> char {
    if d == 0 {
        '0'
    } else if d == 1 {
        '1'
    } else if d == 2 {
        '2'
    } else if d == 3 {
        '3'
    } else if d == 4 {
        '4'
    } else if d == 5 {
        '5'
    } else if d == 6 {
        '6'
    } else if d == 7 {
        '7'
    } else if d == 8 {
        '8'
    } else if d == 9 {
        '9'
    } else if d == 10 {
        'a'
    } else if d == 11 {
        'b'
    } else if d == 12 {
        'c'
    } else if d == 13 {
        'd'
    } else if d == 14 {
        'e'
    } else {
        'f'
    }
}

/// JSON string escaping of one character: quote, backslash and the named
/// control characters get two-character escapes, other control characters a
/// `\u00..` escape, anything else stands for itself.
pub open spec fn spec_escape_char(c: char) -> Seq<char> {
    if c == '"' {
        seq!['\\', '"']
    } else if c == '\\' {
        seq!['\\', '\\']
    } else if c == '\u{8}' {
        seq!['\\', 'b']
    } else if c == '\t' {
        seq!['\\', 't']
    } else if c == '\n' {
        seq!['\\', 'n']
    } else if c == '\u{c}' {
        seq!['\\', 'f']
    } else if c == '\r' {
        seq!['\\', 'r']
    } else if (c as u32) < 0x20 {
        seq!['\\', 'u', '0', '0', spec_hex_digit(c as u32 as int / 16), spec_hex_digit(
            c as u32 as int % 16,
        )]
    } else {
        seq![c]
    }
}

/// JSON string escaping of a whole string.
pub open spec fn spec_escape(s: Seq<char>) -> Seq<char>
    decreases s.len(),
{
    if s.len() == 0 {
        Seq::empty()
    } else {
        spec_escape(s.drop_last()) + spec_escape_char(s.last())
    }
}

fn hex_digit_str(d: u32) -> (r: &'static str)
    requires
        d < 16,
    ensures
        r@ =~= seq![spec_hex_digit(d as int)],
{
    proof {
        reveal_strlit("0");
        reveal_strlit("1");
        reveal_strlit("2");
        reveal_strlit("3");
        reveal_strlit("4");
        reveal_strlit("5");
        reveal_strlit("6");
        reveal_strlit("7");
        reveal_strlit("8");
        reveal_strlit("9");
        reveal_strlit("a");
        reveal_strlit("b");
        reveal_strlit("c");
        reveal_strlit("d");
        reveal_strlit("e");
        reveal_strlit("f");
    }
    match d {
        0 => "0",
        1 => "1",
        2 => "2",
        3 => "3",
        4 => "4",
        5 => "5",
        6 => "6",
        7 => "7",
        8 => "8",
        9 => "9",
        10 => "a",
        11 => "b",
        12 => "c",
        13 => "d",
        14 => "e",
        _ => "f",
    }
}

/// Appends the JSON escaping of `s` to `out`.
pub fn write_escaped(out: &mut String, s: &str)
    ensures
        final(out)@ == old(out)@ + spec_escape(s@),
{
    let n = s.unicode_len();
    let mut i: usize = 0;
    while i < n
        invariant
            n == s@.len(),
            i <= n,
            out@ == old(out)@ + spec_escape(s@.take(i as int)),
        decreases n - i,
    {
        let c = s.get_char(i);
        if c == '"' {
            out.append("\\\"");
            proof {
                reveal_strlit("\\\"");
                assert("\\\""@ =~= spec_escape_char(c));
            }
        } else if c == '\\' {
            out.append("\\\\");
            proof {
                reveal_strlit("\\\\");
                assert("\\\\"@ =~= spec_escape_char(c));
            }
        } else if c == '\u{8}' {
            out.append("\\b");
            proof {
                reveal_strlit("\\b");
                assert("\\b"@ =~= spec_escape_char(c));
            }
        } else if c == '\t' {
            out.append("\\t");
            proof {
                reveal_strlit("\\t");
                assert("\\t"@ =~= spec_escape_char(c));
            }
        } else if c == '\n' {
            out.append("\\n");
            proof {
                reveal_strlit("\\n");
                assert("\\n"@ =~= spec_escape_char(c));
            }
        } else if c == '\u{c}' {
            out.append("\\f");
            proof {
                reveal_strlit("\\f");
                assert("\\f"@ =~= spec_escape_char(c));
            }
        } else if c == '\r' {
            out.append("\\r");
            proof {
                reveal_strlit("\\r");
                assert("\\r"@ =~= spec_escape_char(c));
            }
        } else if (c as u32) < 0x20 {
            out.append("\\u00");
            out.append(hex_digit_str(c as u32 / 16));
            out.append(hex_digit_str(c as u32 % 16));
            proof {
                reveal_strlit("\\u00");
                assert("\\u00"@ + seq![spec_hex_digit(c as u32 as int / 16)] + seq![
                    spec_hex_digit(c as u32 as int % 16),
                ] =~= spec_escape_char(c));
            }
        } else {
            let piece = s.substring_char(i, i + 1);
            out.append(piece);
            proof {
                assert(piece@ =~= seq![s@[i as int]]);
                assert(seq![s@[i as int]] =~= spec_escape_char(c));
            }
        }
        proof {
            assert(s@.take(i + 1).drop_last() =~= s@.take(i as int));
            assert(s@.take(i + 1).last() == s@[i as int]);
            assert(out@ =~= old(out)@ + spec_escape(s@.take(i + 1)));
        }
        i = i + 1;
    }
    proof {
        assert(s@.take(n as int) =~= s@);
    }
}

/// The JSON encoding of a clause.
pub open spec fn json_of_clause(c: Clause) -> Seq<char>
    decreases c,
{
    match c {
        Clause::And(a) => "{\"and\":["@ + json_of_clause_list(a.and@) + "]}"@,
        Clause::Or(o) => "{\"or\":["@ + json_of_clause_list(o.or@) + "]}"@,
        Clause::Not(n) => "{\"not\":"@ + json_of_clause(*n.not) + "}"@,
        Clause::BrowserResult(r) => "{\"browser_name\":\""@ + spec_escape(r.browser_name@)
            + "\",\"status\":\""@ + spec_status_token(r.status) + "\"}"@,
        Clause::Link(l) => "{\"link\":\""@ + spec_escape(l.link@) + "\"}"@,
        Clause::Label(l) => "{\"label\":\""@ + spec_escape(l.label@) + "\"}"@,
    }
}

/// The JSON encoding of a clause list, comma separated.
pub open spec fn json_of_clause_list(cs: Seq<Clause>) -> Seq<char>
    decreases cs,
{
    if cs.len() == 0 {
        Seq::empty()
    } else if cs.len() == 1 {
        json_of_clause(cs[0])
    } else {
        json_of_clause_list(cs.drop_last()) + ","@ + json_of_clause(cs.last())
    }
}

/// The JSON encoding of a run-id list, comma separated.
pub open spec fn json_of_ids(ids: Seq<i64>) -> Seq<char>
    decreases ids.len(),
{
    if ids.len() == 0 {
        Seq::empty()
    } else if ids.len() == 1 {
        spec_dec(ids[0] as int)
    } else {
        json_of_ids(ids.drop_last()) + ","@ + spec_dec(ids.last() as int)
    }
}

/// The JSON encoding of a whole search request body.
pub open spec fn json_of_search_body(b: SearchBody) -> Seq<char> {
    "{\"query\":"@ + json_of_clause(b.query.query) + ",\"run_ids\":["@ + json_of_ids(b.run_ids@)
        + "]}"@
}

/// Appends the JSON encoding of `c` to `out`.
pub fn write_clause(out: &mut String, c: &Clause)
    ensures
        final(out)@ == old(out)@ + json_of_clause(*c),
    decreases *c,
{
    match c {
        Clause::And(a) => {
            out.append("{\"and\":[");
            write_clause_list(out, &a.and);
            out.append("]}");
            proof {
                assert(out@ =~= old(out)@ + json_of_clause(*c));
            }
        },
        Clause::Or(o) => {
            out.append("{\"or\":[");
            write_clause_list(out, &o.or);
            out.append("]}");
            proof {
                assert(out@ =~= old(out)@ + json_of_clause(*c));
            }
        },
        Clause::Not(n) => {
            out.append("{\"not\":");
            write_clause(out, &n.not);
            out.append("}");
            proof {
                assert(out@ =~= old(out)@ + json_of_clause(*c));
            }
        },
        Clause::BrowserResult(r) => {
            out.append("{\"browser_name\":\"");
            write_escaped(out, r.browser_name.as_str());
            out.append("\",\"status\":\"");
            out.append(status_token(&r.status));
            out.append("\"}");
            proof {
                assert(out@ =~= old(out)@ + json_of_clause(*c));
            }
        },
        Clause::Link(l) => {
            out.append("{\"link\":\"");
            write_escaped(out, l.link.as_str());
            out.append("\"}");
            proof {
                assert(out@ =~= old(out)@ + json_of_clause(*c));
            }
        },
        Clause::Label(l) => {
            out.append("{\"label\":\"");
            write_escaped(out, l.label.as_str());
            out.append("\"}");
            proof {
                assert(out@ =~= old(out)@ + json_of_clause(*c));
            }
        },
    }
}

/// Appends the comma-separated JSON encodings of `cs` to `out`.
pub fn write_clause_list(out: &mut String, cs: &Vec<Clause>)
    ensures
        final(out)@ == old(out)@ + json_of_clause_list(cs@),
    decreases cs@,
{
    let n = cs.len();
    let mut i: usize = 0;
    while i < n
        invariant
            n == cs@.len(),
            i <= n,
            out@ == old(out)@ + json_of_clause_list(cs@.take(i as int)),
        decreases n - i,
    {
        if i > 0 {
            out.append(",");
        }
        write_clause(out, &cs[i]);
        proof {
            assert(cs@.take(i + 1).drop_last() =~= cs@.take(i as int));
            assert(cs@.take(i + 1).last() == cs@[i as int]);
            if i == 0 {
                assert(cs@.take(1)[0] == cs@[0]);
            }
            assert(out@ =~= old(out)@ + json_of_clause_list(cs@.take(i + 1)));
        }
        i = i + 1;
    }
    proof {
        assert(cs@.take(n as int) =~= cs@);
    }
}

/// The serialized JSON of a search request body.  This is the exact byte
/// sequence sent on the wire, so equal bodies serialize identically.
pub fn search_body_json(b: &SearchBody) -> (r: String)
    ensures
        r@ == json_of_search_body(*b),
{
    let mut out = "{\"query\":".to_owned();
    write_clause(&mut out, &b.query.query);
    out.append(",\"run_ids\":[");
    let n = b.run_ids.len();
    let mut i: usize = 0;
    while i < n
        invariant
            n == b.run_ids@.len(),
            i <= n,
            out@ == "{\"query\":"@ + json_of_clause(b.query.query) + ",\"run_ids\":["@
                + json_of_ids(b.run_ids@.take(i as int)),
        decreases n - i,
    {
        if i > 0 {
            out.append(",");
        }
        let s = i64_to_string(b.run_ids[i]);
        out.append(s.as_str());
        proof {
            assert(b.run_ids@.take(i + 1).drop_last() =~= b.run_ids@.take(i as int));
            assert(b.run_ids@.take(i + 1).last() == b.run_ids@[i as int]);
            if i == 0 {
                assert(b.run_ids@.take(1)[0] == b.run_ids@[0]);
            }
            assert(out@ =~= "{\"query\":"@ + json_of_clause(b.query.query) + ",\"run_ids\":["@
                + json_of_ids(b.run_ids@.take(i + 1)));
        }
        i = i + 1;
    }
    out.append("]}");
    proof {
        assert(b.run_ids@.take(n as int) =~= b.run_ids@);
        assert(out@ =~= json_of_search_body(*b));
    }
    out
}


/// Clause lists whose members encode equally encode equally.
pub proof fn lemma_json_list_congruent(cs1: Seq<Clause>, cs2: Seq<Clause>)
    requires
        cs1.len() == cs2.len(),
        forall|i: int|
            0 <= i < cs1.len() ==> json_of_clause(#[trigger] cs1[i]) == json_of_clause(
                #[trigger] cs2[i],
            ),
    ensures
        json_of_clause_list(cs1) == json_of_clause_list(cs2),
    decreases cs1.len(),
{
    if cs1.len() > 1 {
        assert(forall|i: int|
            0 <= i < cs1.drop_last().len() ==> json_of_clause(#[trigger] cs1.drop_last()[i])
                == json_of_clause(#[trigger] cs2.drop_last()[i]));
        lemma_json_list_congruent(cs1.drop_last(), cs2.drop_last());
        assert(json_of_clause(cs1.last()) == json_of_clause(cs2.last()));
    } else if cs1.len() == 1 {
        assert(json_of_clause(cs1[0]) == json_of_clause(cs2[0]));
    }
}


/// Request builder for the search endpoint: products and labels select the
/// runs, the body carries the query and run ids.
pub struct Search {
    pub host: String,
    pub products: Vec<String>,
    pub labels: Vec<String>,
    pub body: Option<SearchBody>,
}

impl Search {
    pub fn new(host: String) -> (r: Search)
        ensures
            r.host@ == host@,
            r.products@.len() == 0,
            r.labels@.len() == 0,
            r.body is None,
    {
        Search { host, products: Vec::new(), labels: Vec::new(), body: None }
    }

    /// Restricts the search to one more product, `name[channel]`.
    pub fn add_product(&mut self, name: &str, channel: &str)
        ensures
            final(self).host == old(self).host,
            final(self).labels == old(self).labels,
            final(self).body == old(self).body,
            final(self).products@.len() == old(self).products@.len() + 1,
            forall|i: int|
                0 <= i < old(self).products@.len() ==> final(self).products@[i] == old(
                    self,
                ).products@[i],
            final(self).products@.last()@ == crate::run::spec_product_tag(name@, channel@),
    {
        self.products.push(crate::run::product_tag(name, channel));
    }

    /// Restricts the search to runs carrying one more label.
    pub fn add_label(&mut self, label: &str)
        ensures
            final(self).host == old(self).host,
            final(self).products == old(self).products,
            final(self).body == old(self).body,
            final(self).labels@.len() == old(self).labels@.len() + 1,
            forall|i: int|
                0 <= i < old(self).labels@.len() ==> final(self).labels@[i] == old(self).labels@[i],
            final(self).labels@.last()@ == label@,
    {
        self.labels.push(label.to_owned());
    }

    /// The full URL of the configured search request.
    pub fn url(&self) -> (r: String)
        ensures
            r@ == crate::urlenc::spec_url(
                self.host@,
                "/api/search"@,
                crate::run::spec_pl_pairs(
                    crate::strutil::string_views(self.products@),
                    crate::strutil::string_views(self.labels@),
                ),
            ),
    {
        let pairs = crate::run::product_label_pairs(&self.products, &self.labels);
        crate::urlenc::build_url(self.host.as_str(), "/api/search", &pairs)
    }

    /// Sets the request body: this query, over these run ids.
    pub fn set_query(&mut self, run_ids: &[i64], query: Query)
        ensures
            final(self).host == old(self).host,
            final(self).products == old(self).products,
            final(self).labels == old(self).labels,
            final(self).body matches Some(b) && b.query == query && b.run_ids@ == run_ids@,
    {
        self.body = Some(SearchBody { run_ids: vstd::slice::slice_to_vec(run_ids), query });
    }

    /// The request body, if one was set.
    pub fn body(&self) -> (r: Option<&SearchBody>)
        ensures
            match r {
                Some(b) => self.body matches Some(inner) && *b == inner,
                None => self.body is None,
            },
    {
        self.body.as_ref()
    }
}


/// Structural equality of clauses up to string views.
pub open spec fn clause_view_eq(a: Clause, b: Clause) -> bool
    decreases a,
{
    match (a, b) {
        (Clause::And(x), Clause::And(y)) => clause_list_view_eq(x.and@, y.and@),
        (Clause::Or(x), Clause::Or(y)) => clause_list_view_eq(x.or@, y.or@),
        (Clause::Not(x), Clause::Not(y)) => clause_view_eq(*x.not, *y.not),
        (Clause::BrowserResult(x), Clause::BrowserResult(y)) => x.browser_name@ == y.browser_name@
            && x.status == y.status,
        (Clause::Link(x), Clause::Link(y)) => x.link@ == y.link@,
        (Clause::Label(x), Clause::Label(y)) => x.label@ == y.label@,
        _ => false,
    }
}

/// Elementwise structural equality of clause lists.
pub open spec fn clause_list_view_eq(a: Seq<Clause>, b: Seq<Clause>) -> bool
    decreases a,
{
    a.len() == b.len() && forall|i: int|
        0 <= i < a.len() ==> clause_view_eq(#[trigger] a[i], #[trigger] b[i])
}

/// Escaping distributes over concatenation.
proof fn lemma_escape_concat(a: Seq<char>, b: Seq<char>)
    ensures
        spec_escape(a + b) == spec_escape(a) + spec_escape(b),
    decreases b.len(),
{
    if b.len() == 0 {
        assert(a + b =~= a);
        assert(spec_escape(a) + spec_escape(b) =~= spec_escape(a));
    } else {
        lemma_escape_concat(a, b.drop_last());
        assert((a + b).drop_last() =~= a + b.drop_last());
        assert((a + b).last() == b.last());
        assert(spec_escape(a + b) =~= spec_escape(a) + spec_escape(b));
    }
}

/// The shape of one character's escape: never empty, never opening with a
/// quote, opening with a backslash exactly for the escaped classes.
proof fn lemma_escape_char_shape(c: char)
    ensures
        1 <= spec_escape_char(c).len(),
        spec_escape_char(c)[0] != '"',
        spec_escape_char(c)[0] == '\\' <==> (c == '"' || c == '\\' || (c as u32) < 0x20),
        !(c == '"' || c == '\\' || (c as u32) < 0x20) ==> spec_escape_char(c) == seq![c],
        (c == '"' || c == '\\' || (c as u32) < 0x20) ==> spec_escape_char(c).len() >= 2,
{
}

/// The second character of an escape determines the escaped character.
proof fn lemma_escape_char_second(x: char, e: char)
    requires
        spec_escape_char(x)[0] == '\\',
        spec_escape_char(x).len() >= 2,
        spec_escape_char(x)[1] == e,
    ensures
        e == '"' ==> x == '"',
        e == '\\' ==> x == '\\',
        e == 'b' ==> x == '\u{8}',
        e == 't' ==> x == '\t',
        e == 'n' ==> x == '\n',
        e == 'f' ==> x == '\u{c}',
        e == 'r' ==> x == '\r',
        e == 'u' ==> (x as u32) < 0x20 && x != '\u{8}' && x != '\t' && x != '\n' && x != '\u{c}'
            && x != '\r' && spec_escape_char(x) == seq![
            '\\',
            'u',
            '0',
            '0',
            spec_hex_digit(x as u32 as int / 16),
            spec_hex_digit(x as u32 as int % 16),
        ],
        e != '"' && e != '\\' && e != 'b' && e != 't' && e != 'n' && e != 'f' && e != 'r' && e
            != 'u' ==> false,
{
    lemma_escape_char_shape(x);
}

/// Characters with the same code point are the same character.
proof fn lemma_char_code(a: char, b: char)
    requires
        a as u32 == b as u32,
    ensures
        a == b,
{
    assert(a == (a as u32) as char);
    assert(b == (b as u32) as char);
}

proof fn lemma_hex_digit_inj(d1: int, d2: int)
    requires
        0 <= d1 < 16,
        0 <= d2 < 16,
        spec_hex_digit(d1) == spec_hex_digit(d2),
    ensures
        d1 == d2,
{
}

/// The value of a lowercase hexadecimal digit character.
fn hex_val(c: char) -> (r: Option<u32>)
    ensures
        (r matches Some(d) ==> d < 16 && spec_hex_digit(d as int) == c),
        (r is None ==> forall|d: int| 0 <= d < 16 ==> c != spec_hex_digit(d)),
{
    match c {
        '0' => Some(0),
        '1' => Some(1),
        '2' => Some(2),
        '3' => Some(3),
        '4' => Some(4),
        '5' => Some(5),
        '6' => Some(6),
        '7' => Some(7),
        '8' => Some(8),
        '9' => Some(9),
        'a' => Some(10),
        'b' => Some(11),
        'c' => Some(12),
        'd' => Some(13),
        'e' => Some(14),
        'f' => Some(15),
        _ => {
            proof {
                assert forall|d: int| 0 <= d < 16 implies c != spec_hex_digit(d) by {
                }
            }
            None
        },
    }
}

/// The one-character string of a code point below `0x20`.
fn ctrl_str(code: u32) -> (r: &'static str)
    requires
        code < 0x20,
    ensures
        r@.len() == 1,
        r@[0] as u32 == code,
{
    proof {
        reveal_strlit("\u{0}");
        reveal_strlit("\u{1}");
        reveal_strlit("\u{2}");
        reveal_strlit("\u{3}");
        reveal_strlit("\u{4}");
        reveal_strlit("\u{5}");
        reveal_strlit("\u{6}");
        reveal_strlit("\u{7}");
        reveal_strlit("\u{8}");
        reveal_strlit("\u{9}");
        reveal_strlit("\u{a}");
        reveal_strlit("\u{b}");
        reveal_strlit("\u{c}");
        reveal_strlit("\u{d}");
        reveal_strlit("\u{e}");
        reveal_strlit("\u{f}");
        reveal_strlit("\u{10}");
        reveal_strlit("\u{11}");
        reveal_strlit("\u{12}");
        reveal_strlit("\u{13}");
        reveal_strlit("\u{14}");
        reveal_strlit("\u{15}");
        reveal_strlit("\u{16}");
        reveal_strlit("\u{17}");
        reveal_strlit("\u{18}");
        reveal_strlit("\u{19}");
        reveal_strlit("\u{1a}");
        reveal_strlit("\u{1b}");
        reveal_strlit("\u{1c}");
        reveal_strlit("\u{1d}");
        reveal_strlit("\u{1e}");
        reveal_strlit("\u{1f}");
    }
    match code {
        0 => "\u{0}",
        1 => "\u{1}",
        2 => "\u{2}",
        3 => "\u{3}",
        4 => "\u{4}",
        5 => "\u{5}",
        6 => "\u{6}",
        7 => "\u{7}",
        8 => "\u{8}",
        9 => "\u{9}",
        10 => "\u{a}",
        11 => "\u{b}",
        12 => "\u{c}",
        13 => "\u{d}",
        14 => "\u{e}",
        15 => "\u{f}",
        16 => "\u{10}",
        17 => "\u{11}",
        18 => "\u{12}",
        19 => "\u{13}",
        20 => "\u{14}",
        21 => "\u{15}",
        22 => "\u{16}",
        23 => "\u{17}",
        24 => "\u{18}",
        25 => "\u{19}",
        26 => "\u{1a}",
        27 => "\u{1b}",
        28 => "\u{1c}",
        29 => "\u{1d}",
        30 => "\u{1e}",
        _ => "\u{1f}",
    }
}

/// The input carries the escaped form of `t` at `pos`, followed by the
/// closing quote.
pub open spec fn escaped_at(s: Seq<char>, pos: int, t: Seq<char>) -> bool {
    &&& crate::strutil::match_at(s, spec_escape(t), pos)
    &&& pos + spec_escape(t).len() < s.len()
    &&& s[pos + spec_escape(t).len()] == '"'
}

/// What the input looks like while a prefix of the witness string has been
/// recovered: the next characters are the escape of the witness's next
/// character, or the closing quote once the witness is exhausted.
proof fn lemma_witness_step(s: Seq<char>, pos: int, p: int, acc: Seq<char>, t2: Seq<char>)
    requires
        escaped_at(s, pos, t2),
        acc.len() <= t2.len(),
        acc == t2.take(acc.len() as int),
        spec_escape(acc) == s.subrange(pos, p),
        0 <= pos <= p <= s.len(),
    ensures
        acc.len() < t2.len() ==> {
            let c = t2[acc.len() as int];
            &&& p + spec_escape_char(c).len() <= pos + spec_escape(t2).len()
            &&& forall|j: int|
                0 <= j < spec_escape_char(c).len() ==> s[p + j] == spec_escape_char(c)[j]
        },
        acc.len() == t2.len() ==> p == pos + spec_escape(t2).len() && s[p] == '"',
{
    let m = acc.len() as int;
    assert(t2 =~= t2.take(m) + t2.skip(m));
    lemma_escape_concat(t2.take(m), t2.skip(m));
    assert(spec_escape(t2) == spec_escape(acc) + spec_escape(t2.skip(m)));
    assert(p - pos == spec_escape(acc).len());
    if m < t2.len() {
        let c = t2[m];
        assert(t2.skip(m) =~= seq![c] + t2.skip(m + 1));
        lemma_escape_concat(seq![c], t2.skip(m + 1));
        assert(spec_escape(seq![c]) =~= spec_escape_char(c)) by {
            assert(seq![c].drop_last() =~= Seq::<char>::empty());
            assert(spec_escape(Seq::<char>::empty()) == Seq::<char>::empty());
            assert(seq![c].last() == c);
            assert(Seq::<char>::empty() + spec_escape_char(c) =~= spec_escape_char(c));
        }
        assert(spec_escape(t2.skip(m)) == spec_escape_char(c) + spec_escape(t2.skip(m + 1)));
        assert forall|j: int|
            0 <= j < spec_escape_char(c).len() implies s[p + j] == spec_escape_char(c)[j] by {
            assert(s.subrange(pos, pos + spec_escape(t2).len())[(p - pos) + j] == s[p + j]);
            assert(spec_escape(t2)[(p - pos) + j] == spec_escape(t2.skip(m))[j]);
            assert(spec_escape(t2.skip(m))[j] == spec_escape_char(c)[j]);
        }
    } else {
        assert(acc =~= t2);
    }
}

/// Parses the escaped body of an encoded string, up to (not consuming) the
/// closing quote.  Exactly the encoder's escapes are accepted, so whatever
/// is parsed re-encodes to the consumed characters; and wherever the input
/// carries an escaped string followed by a quote, parsing succeeds and
/// recovers exactly that string.
#[verifier::rlimit(100)]
fn parse_string_body(s: &str, pos: usize) -> (r: Option<(String, usize)>)
    requires
        pos <= s@.len(),
    ensures
        (r matches Some(t) ==> {
            &&& pos <= t.1 <= s@.len()
            &&& spec_escape(t.0@) == s@.subrange(pos as int, t.1 as int)
            &&& t.1 < s@.len()
            &&& s@[t.1 as int] == '"'
        }),
        forall|t2: Seq<char>|
            #[trigger] escaped_at(s@, pos as int, t2) ==> (r matches Some(t) && t.1 == pos
                + spec_escape(t2).len() && t.0@ == t2),
{
    let n = s.unicode_len();
    let mut acc = String::new();
    let mut p: usize = pos;
    while p < n
        invariant
            n == s@.len(),
            pos <= p <= n,
            spec_escape(acc@) =~= s@.subrange(pos as int, p as int),
            forall|t2: Seq<char>|
                escaped_at(s@, pos as int, t2) ==> acc@.len() <= t2.len() && acc@ == t2.take(
                    acc@.len() as int,
                ),
        decreases n - p,
    {
        proof {
            assert forall|t2: Seq<char>| escaped_at(s@, pos as int, t2) implies {
                &&& (acc@.len() < t2.len() ==> {
                    let c = t2[acc@.len() as int];
                    &&& p + spec_escape_char(c).len() <= pos + spec_escape(t2).len()
                    &&& forall|j: int|
                        0 <= j < spec_escape_char(c).len() ==> s@[p + j] == spec_escape_char(c)[j]
                })
                &&& (acc@.len() == t2.len() ==> p == pos + spec_escape(t2).len() && s@[p as int]
                    == '"')
            } by {
                lemma_witness_step(s@, pos as int, p as int, acc@, t2);
            }
        }
        let c = s.get_char(p);
        if c == '"' {
            proof {
                assert forall|t2: Seq<char>| escaped_at(s@, pos as int, t2) implies acc@.len()
                    == t2.len() && acc@ == t2 && p == pos + spec_escape(t2).len() by {
                    if acc@.len() < t2.len() {
                        lemma_escape_char_shape(t2[acc@.len() as int]);
                    }
                    assert(acc@ =~= t2.take(t2.len() as int));
                    assert(t2.take(t2.len() as int) =~= t2);
                }
            }
            return Some((acc, p));
        }
        let ghost prev = acc@;
        if c == '\\' {
            proof {
                assert forall|t2: Seq<char>| escaped_at(s@, pos as int, t2) implies prev.len()
                    < t2.len() && spec_escape_char(t2[prev.len() as int])[0] == '\\'
                    && spec_escape_char(t2[prev.len() as int]).len() >= 2 by {
                    lemma_escape_char_shape(t2[prev.len() as int]);
                }
            }
            if p + 1 >= n {
                proof {
                    assert forall|t2: Seq<char>| !escaped_at(s@, pos as int, t2) by {
                        if escaped_at(s@, pos as int, t2) {
                            lemma_escape_char_shape(t2[prev.len() as int]);
                        }
                    }
                }
                return None;
            }
            let e = s.get_char(p + 1);
            if e == '"' {
                acc.append("\"");
                proof {
                    reveal_strlit("\"");
                    assert(acc@.drop_last() =~= prev);
                    assert(spec_escape_char(acc@.last()) =~= seq!['\\', '"']);
                }
            } else if e == '\\' {
                acc.append("\\");
                proof {
                    reveal_strlit("\\");
                    assert(acc@.drop_last() =~= prev);
                    assert(spec_escape_char(acc@.last()) =~= seq!['\\', '\\']);
                }
            } else if e == 'b' {
                acc.append("\u{8}");
                proof {
                    reveal_strlit("\u{8}");
                    assert(acc@.drop_last() =~= prev);
                    assert(spec_escape_char(acc@.last()) =~= seq!['\\', 'b']);
                }
            } else if e == 't' {
                acc.append("\t");
                proof {
                    reveal_strlit("\t");
                    assert(acc@.drop_last() =~= prev);
                    assert(spec_escape_char(acc@.last()) =~= seq!['\\', 't']);
                }
            } else if e == 'n' {
                acc.append("\n");
                proof {
                    reveal_strlit("\n");
                    assert(acc@.drop_last() =~= prev);
                    assert(spec_escape_char(acc@.last()) =~= seq!['\\', 'n']);
                }
            } else if e == 'f' {
                acc.append("\u{c}");
                proof {
                    reveal_strlit("\u{c}");
                    assert(acc@.drop_last() =~= prev);
                    assert(spec_escape_char(acc@.last()) =~= seq!['\\', 'f']);
                }
            } else if e == 'r' {
                acc.append("\r");
                proof {
                    reveal_strlit("\r");
                    assert(acc@.drop_last() =~= prev);
                    assert(spec_escape_char(acc@.last()) =~= seq!['\\', 'r']);
                }
            } else if e == 'u' {
                if n - p < 6 || !(s.get_char(p + 2) == '0' && s.get_char(p + 3) == '0') {
                    proof {
                        assert forall|t2: Seq<char>| !escaped_at(s@, pos as int, t2) by {
                            if escaped_at(s@, pos as int, t2) {
                                lemma_escape_char_second(t2[prev.len() as int], 'u');
                            }
                        }
                    }
                    return None;
                }
                let h1 = hex_val(s.get_char(p + 4));
                let h2 = hex_val(s.get_char(p + 5));
                let (d1, d2) = match (h1, h2) {
                    (Some(d1), Some(d2)) => (d1, d2),
                    _ => {
                        proof {
                            assert forall|t2: Seq<char>| !escaped_at(s@, pos as int, t2) by {
                                if escaped_at(s@, pos as int, t2) {
                                    let x = t2[prev.len() as int];
                                    lemma_escape_char_second(x, 'u');
                                    assert(s@[p + 4] == spec_hex_digit(x as u32 as int / 16));
                                    assert(s@[p + 5] == spec_hex_digit(x as u32 as int % 16));
                                }
                            }
                        }
                        return None;
                    },
                };
                let code = d1 * 16 + d2;
                let named = code == 0x8 || code == 0x9 || code == 0xA || code == 0xC || code
                    == 0xD;
                if code >= 0x20 || named {
                    proof {
                        assert forall|t2: Seq<char>| !escaped_at(s@, pos as int, t2) by {
                            if escaped_at(s@, pos as int, t2) {
                                let x = t2[prev.len() as int];
                                lemma_escape_char_second(x, 'u');
                                assert(s@[p + 4] == spec_hex_digit(x as u32 as int / 16));
                                assert(s@[p + 5] == spec_hex_digit(x as u32 as int % 16));
                                assert(spec_hex_digit(d1 as int) == s@[p + 4]);
                                assert(spec_hex_digit(d2 as int) == s@[p + 5]);
                                lemma_hex_digit_inj(d1 as int, x as u32 as int / 16);
                                lemma_hex_digit_inj(d2 as int, x as u32 as int % 16);
                                assert(code as int == x as u32 as int);
                                assert((x as u32) < 0x20);
                                assert(x as u32 != 8) by {
                                    if x as u32 == 8 {
                                        lemma_char_code(x, '\u{8}');
                                    }
                                }
                                assert(x as u32 != 9) by {
                                    if x as u32 == 9 {
                                        lemma_char_code(x, '\t');
                                    }
                                }
                                assert(x as u32 != 10) by {
                                    if x as u32 == 10 {
                                        lemma_char_code(x, '\n');
                                    }
                                }
                                assert(x as u32 != 12) by {
                                    if x as u32 == 12 {
                                        lemma_char_code(x, '\u{c}');
                                    }
                                }
                                assert(x as u32 != 13) by {
                                    if x as u32 == 13 {
                                        lemma_char_code(x, '\r');
                                    }
                                }
                                assert(false);
                            }
                        }
                    }
                    return None;
                }
                let piece = ctrl_str(code);
                acc.append(piece);
                proof {
                    assert(acc@.drop_last() =~= prev);
                    let ch = acc@.last();
                    assert(ch as u32 == code);
                    assert(ch != '"' && ch != '\\' && ch != '\u{8}' && ch != '\t' && ch != '\n'
                        && ch != '\u{c}' && ch != '\r');
                    assert(spec_escape_char(ch) =~= seq![
                        '\\',
                        'u',
                        '0',
                        '0',
                        spec_hex_digit(code as int / 16),
                        spec_hex_digit(code as int % 16),
                    ]);
                    assert(spec_hex_digit(code as int / 16) == s@[p + 4]) by {
                        assert(code as int / 16 == d1 as int);
                    }
                    assert(spec_hex_digit(code as int % 16) == s@[p + 5]) by {
                        assert(code as int % 16 == d2 as int);
                    }
                    assert(spec_escape(acc@) =~= spec_escape(prev) + spec_escape_char(ch));
                    assert(s@.subrange(pos as int, p + 6) =~= s@.subrange(pos as int, p as int)
                        + seq![s@[p as int], s@[p + 1], s@[p + 2], s@[p + 3], s@[p + 4], s@[p + 5]]);
                    assert(spec_escape(acc@) =~= s@.subrange(pos as int, p + 6));
                    assert forall|t2: Seq<char>| escaped_at(s@, pos as int, t2) implies acc@.len()
                        <= t2.len() && acc@ == t2.take(acc@.len() as int) by {
                        let x = t2[prev.len() as int];
                        lemma_escape_char_second(x, 'u');
                        assert(s@[p + 4] == spec_hex_digit(x as u32 as int / 16));
                        assert(s@[p + 5] == spec_hex_digit(x as u32 as int % 16));
                        lemma_hex_digit_inj(d1 as int, x as u32 as int / 16);
                        lemma_hex_digit_inj(d2 as int, x as u32 as int % 16);
                        assert(x as u32 == code);
                        lemma_char_code(ch, x);
                        assert(acc@ =~= t2.take(prev.len() as int).push(x));
                        assert(t2.take(prev.len() as int + 1).drop_last() =~= t2.take(prev.len() as int));
                        assert(t2.take(prev.len() as int + 1).last() == x);
                        assert(acc@ =~= t2.take(prev.len() as int + 1));
                    }
                }
                p = p + 6;
                continue ;
            } else {
                proof {
                    assert forall|t2: Seq<char>| !escaped_at(s@, pos as int, t2) by {
                        if escaped_at(s@, pos as int, t2) {
                            lemma_escape_char_second(t2[prev.len() as int], e);
                        }
                    }
                }
                return None;
            }
            proof {
                let ch = acc@.last();
                assert(spec_escape(acc@) =~= spec_escape(prev) + spec_escape_char(ch));
                assert(s@.subrange(pos as int, p + 2) =~= s@.subrange(pos as int, p as int)
                    + seq![s@[p as int], s@[p + 1]]);
                assert(spec_escape(acc@) =~= s@.subrange(pos as int, p + 2));
                assert forall|t2: Seq<char>| escaped_at(s@, pos as int, t2) implies acc@.len()
                    <= t2.len() && acc@ == t2.take(acc@.len() as int) by {
                    let x = t2[prev.len() as int];
                    lemma_escape_char_second(x, e);
                    assert(ch == x);
                    assert(acc@ =~= t2.take(prev.len() as int).push(x));
                    assert(t2.take(prev.len() as int + 1).drop_last() =~= t2.take(prev.len() as int));
                    assert(t2.take(prev.len() as int + 1).last() == x);
                    assert(acc@ =~= t2.take(prev.len() as int + 1));
                }
            }
            p = p + 2;
        } else if (c as u32) < 0x20 {
            proof {
                assert forall|t2: Seq<char>| !escaped_at(s@, pos as int, t2) by {
                    if escaped_at(s@, pos as int, t2) {
                        lemma_escape_char_shape(t2[prev.len() as int]);
                    }
                }
            }
            return None;
        } else {
            let piece = s.substring_char(p, p + 1);
            acc.append(piece);
            proof {
                assert(acc@.drop_last() =~= prev);
                assert(acc@.last() == s@[p as int]);
                assert(spec_escape_char(acc@.last()) =~= seq![s@[p as int]]);
                assert(spec_escape(acc@) =~= spec_escape(prev) + seq![s@[p as int]]);
                assert(s@.subrange(pos as int, p + 1) =~= s@.subrange(pos as int, p as int)
                    + seq![s@[p as int]]);
                assert forall|t2: Seq<char>| escaped_at(s@, pos as int, t2) implies acc@.len()
                    <= t2.len() && acc@ == t2.take(acc@.len() as int) by {
                    let x = t2[prev.len() as int];
                    lemma_escape_char_shape(x);
                    assert(x == c);
                    assert(acc@ =~= t2.take(prev.len() as int).push(x));
                    assert(t2.take(prev.len() as int + 1).drop_last() =~= t2.take(prev.len() as int));
                    assert(t2.take(prev.len() as int + 1).last() == x);
                    assert(acc@ =~= t2.take(prev.len() as int + 1));
                }
            }
            p = p + 1;
        }
    }
    proof {
        assert forall|t2: Seq<char>| !escaped_at(s@, pos as int, t2) by {
            if escaped_at(s@, pos as int, t2) {
                let m = acc@.len() as int;
                assert(t2 =~= t2.take(m) + t2.skip(m));
                lemma_escape_concat(t2.take(m), t2.skip(m));
                assert(spec_escape(t2).len() >= spec_escape(acc@).len());
            }
        }
    }
    None
}

/// Parses a status token at `pos`.  Wherever the input carries a status
/// token, parsing succeeds with exactly that status.
fn parse_status(s: &str, pos: usize) -> (r: Option<(Status, usize)>)
    requires
        pos <= s@.len(),
    ensures
        (r matches Some(t) ==> {
            &&& pos <= t.1 <= s@.len()
            &&& spec_status_token(t.0) == s@.subrange(pos as int, t.1 as int)
        }),
        forall|st: Status|
            #[trigger] crate::strutil::match_at(s@, spec_status_token(st), pos as int) ==> (
            r matches Some(t) && t.1 == pos + spec_status_token(st).len() && t.0 == st),
{
    proof {
        reveal_strlit("OK");
        reveal_strlit("PASS");
        reveal_strlit("FAIL");
        reveal_strlit("ERROR");
        reveal_strlit("TIMEOUT");
        reveal_strlit("NOTRUN");
        reveal_strlit("CRASH");
    }
    let n = s.unicode_len();
    if crate::strutil::str_match_at(s, "OK", pos) {
        proof {
            lemma_status_disambiguation(s@, pos as int, Status::Okay);
        }
        Some((Status::Okay, pos + "OK".unicode_len()))
    } else if crate::strutil::str_match_at(s, "PASS", pos) {
        proof {
            lemma_status_disambiguation(s@, pos as int, Status::Pass);
        }
        Some((Status::Pass, pos + "PASS".unicode_len()))
    } else if crate::strutil::str_match_at(s, "FAIL", pos) {
        proof {
            lemma_status_disambiguation(s@, pos as int, Status::Fail);
        }
        Some((Status::Fail, pos + "FAIL".unicode_len()))
    } else if crate::strutil::str_match_at(s, "ERROR", pos) {
        proof {
            lemma_status_disambiguation(s@, pos as int, Status::Error);
        }
        Some((Status::Error, pos + "ERROR".unicode_len()))
    } else if crate::strutil::str_match_at(s, "TIMEOUT", pos) {
        proof {
            lemma_status_disambiguation(s@, pos as int, Status::Timeout);
        }
        Some((Status::Timeout, pos + "TIMEOUT".unicode_len()))
    } else if crate::strutil::str_match_at(s, "NOTRUN", pos) {
        proof {
            lemma_status_disambiguation(s@, pos as int, Status::NotRun);
        }
        Some((Status::NotRun, pos + "NOTRUN".unicode_len()))
    } else if crate::strutil::str_match_at(s, "CRASH", pos) {
        proof {
            lemma_status_disambiguation(s@, pos as int, Status::Crash);
        }
        Some((Status::Crash, pos + "CRASH".unicode_len()))
    } else {
        None
    }
}

/// Status tokens are told apart by their first character, so only one
/// status's token can match at a position.
proof fn lemma_status_disambiguation(s: Seq<char>, pos: int, matched: Status)
    requires
        crate::strutil::match_at(s, spec_status_token(matched), pos),
    ensures
        forall|st: Status|
            crate::strutil::match_at(s, spec_status_token(st), pos) ==> st == matched,
{
    reveal_strlit("OK");
    reveal_strlit("PASS");
    reveal_strlit("FAIL");
    reveal_strlit("ERROR");
    reveal_strlit("TIMEOUT");
    reveal_strlit("NOTRUN");
    reveal_strlit("CRASH");
    assert forall|st: Status|
        crate::strutil::match_at(s, spec_status_token(st), pos) implies st == matched by {
        assert(s[pos] == spec_status_token(st)[0]);
        assert(s[pos] == spec_status_token(matched)[0]);
    }
}

/// The input carries the encoding of the clause list `cs` at `pos`,
/// followed by the closing bracket.
pub open spec fn list_encoded_at(s: Seq<char>, pos: int, cs: Seq<Clause>) -> bool {
    &&& crate::strutil::match_at(s, json_of_clause_list(cs), pos)
    &&& pos + json_of_clause_list(cs).len() < s.len()
    &&& s[pos + json_of_clause_list(cs).len()] == ']'
}

proof fn lemma_literal_conflict(s: Seq<char>, pos: int, l1: Seq<char>, l2: Seq<char>, k: int)
    requires
        crate::strutil::match_at(s, l1, pos),
        crate::strutil::match_at(s, l2, pos),
        0 <= k < l1.len(),
        k < l2.len(),
    ensures
        l1[k] == l2[k],
{
    assert(s.subrange(pos, pos + l1.len())[k] == s[pos + k]);
    assert(s.subrange(pos, pos + l2.len())[k] == s[pos + k]);
}

/// Every encoded clause opens with its variant's key literal.
proof fn lemma_clause_open_lit(s: Seq<char>, pos: int, c: Clause)
    requires
        crate::strutil::match_at(s, json_of_clause(c), pos),
    ensures
        match c {
            Clause::And(_) => crate::strutil::match_at(s, "{\"and\":["@, pos),
            Clause::Or(_) => crate::strutil::match_at(s, "{\"or\":["@, pos),
            Clause::Not(_) => crate::strutil::match_at(s, "{\"not\":"@, pos),
            Clause::BrowserResult(_) => crate::strutil::match_at(s, "{\"browser_name\":\""@, pos),
            Clause::Link(_) => crate::strutil::match_at(s, "{\"link\":\""@, pos),
            Clause::Label(_) => crate::strutil::match_at(s, "{\"label\":\""@, pos),
        },
{
    match c {
        Clause::And(a) => {
            crate::strutil::lemma_match_at_concat(
                s,
                "{\"and\":["@ + json_of_clause_list(a.and@),
                "]}"@,
                pos,
            );
            crate::strutil::lemma_match_at_concat(
                s,
                "{\"and\":["@,
                json_of_clause_list(a.and@),
                pos,
            );
        },
        Clause::Or(o) => {
            crate::strutil::lemma_match_at_concat(
                s,
                "{\"or\":["@ + json_of_clause_list(o.or@),
                "]}"@,
                pos,
            );
            crate::strutil::lemma_match_at_concat(s, "{\"or\":["@, json_of_clause_list(o.or@), pos);
        },
        Clause::Not(n) => {
            crate::strutil::lemma_match_at_concat(
                s,
                "{\"not\":"@ + json_of_clause(*n.not),
                "}"@,
                pos,
            );
            crate::strutil::lemma_match_at_concat(s, "{\"not\":"@, json_of_clause(*n.not), pos);
        },
        Clause::BrowserResult(rc) => {
            crate::strutil::lemma_match_at_concat(
                s,
                "{\"browser_name\":\""@ + spec_escape(rc.browser_name@) + "\",\"status\":\""@
                    + spec_status_token(rc.status),
                "\"}"@,
                pos,
            );
            crate::strutil::lemma_match_at_concat(
                s,
                "{\"browser_name\":\""@ + spec_escape(rc.browser_name@) + "\",\"status\":\""@,
                spec_status_token(rc.status),
                pos,
            );
            crate::strutil::lemma_match_at_concat(
                s,
                "{\"browser_name\":\""@ + spec_escape(rc.browser_name@),
                "\",\"status\":\""@,
                pos,
            );
            crate::strutil::lemma_match_at_concat(
                s,
                "{\"browser_name\":\""@,
                spec_escape(rc.browser_name@),
                pos,
            );
        },
        Clause::Link(l) => {
            crate::strutil::lemma_match_at_concat(
                s,
                "{\"link\":\""@ + spec_escape(l.link@),
                "\"}"@,
                pos,
            );
            crate::strutil::lemma_match_at_concat(s, "{\"link\":\""@, spec_escape(l.link@), pos);
        },
        Clause::Label(l) => {
            crate::strutil::lemma_match_at_concat(
                s,
                "{\"label\":\""@ + spec_escape(l.label@),
                "\"}"@,
                pos,
            );
            crate::strutil::lemma_match_at_concat(s, "{\"label\":\""@, spec_escape(l.label@), pos);
        },
    }
}

/// Every encoded clause opens with a brace and is non-empty.
proof fn lemma_json_clause_first(c: Clause)
    ensures
        json_of_clause(c).len() >= 1,
        json_of_clause(c)[0] == '{',
{
    reveal_strlit("{\"and\":[");
    reveal_strlit("{\"or\":[");
    reveal_strlit("{\"not\":");
    reveal_strlit("{\"browser_name\":\"");
    reveal_strlit("{\"link\":\"");
    reveal_strlit("{\"label\":\"");
    match c {
        Clause::And(a) => {
            assert(json_of_clause(c)[0] == "{\"and\":["@[0]);
        },
        Clause::Or(o) => {
            assert(json_of_clause(c)[0] == "{\"or\":["@[0]);
        },
        Clause::Not(n) => {
            assert(json_of_clause(c)[0] == "{\"not\":"@[0]);
        },
        Clause::BrowserResult(rc) => {
            assert(json_of_clause(c)[0] == "{\"browser_name\":\""@[0]);
        },
        Clause::Link(l) => {
            assert(json_of_clause(c)[0] == "{\"link\":\""@[0]);
        },
        Clause::Label(l) => {
            assert(json_of_clause(c)[0] == "{\"label\":\""@[0]);
        },
    }
}

/// A non-empty encoded list splits after its `k`-th element's comma.
proof fn lemma_json_list_decompose(cs: Seq<Clause>, k: int)
    requires
        1 <= k < cs.len(),
    ensures
        json_of_clause_list(cs) == json_of_clause_list(cs.take(k)) + ","@ + json_of_clause_list(
            cs.skip(k),
        ),
    decreases cs.len(),
{
    if k == cs.len() - 1 {
        assert(cs.drop_last() =~= cs.take(k));
        assert(cs.skip(k) =~= seq![cs.last()]);
        assert(json_of_clause_list(seq![cs.last()]) == json_of_clause(cs.last()));
        assert(json_of_clause_list(cs) == json_of_clause_list(cs.take(k)) + ","@
            + json_of_clause_list(cs.skip(k)));
    } else {
        lemma_json_list_decompose(cs.drop_last(), k);
        assert(cs.drop_last().take(k) =~= cs.take(k));
        assert(cs.drop_last().skip(k) =~= cs.skip(k).drop_last());
        assert(cs.skip(k).last() == cs.last());
        assert(cs.skip(k).len() >= 2);
        assert(json_of_clause_list(cs.skip(k)) == json_of_clause_list(cs.skip(k).drop_last())
            + ","@ + json_of_clause(cs.last()));
        assert(json_of_clause_list(cs) =~= json_of_clause_list(cs.take(k)) + ","@
            + json_of_clause_list(cs.skip(k)));
    }
}

/// A match of a non-empty encoded list yields a match of its head.
proof fn lemma_list_head(s: Seq<char>, pos: int, cs: Seq<Clause>)
    requires
        crate::strutil::match_at(s, json_of_clause_list(cs), pos),
        cs.len() >= 1,
    ensures
        crate::strutil::match_at(s, json_of_clause(cs[0]), pos),
{
    if cs.len() == 1 {
        assert(json_of_clause_list(cs) == json_of_clause(cs[0]));
    } else {
        lemma_json_list_decompose(cs, 1);
        assert(cs.take(1) =~= seq![cs[0]]);
        assert(json_of_clause_list(seq![cs[0]]) == json_of_clause(cs[0]));
        crate::strutil::lemma_match_at_concat(
            s,
            json_of_clause_list(cs.take(1)) + ","@,
            json_of_clause_list(cs.skip(1)),
            pos,
        );
        crate::strutil::lemma_match_at_concat(s, json_of_clause_list(cs.take(1)), ","@, pos);
    }
}


#[verifier::rlimit(100)]
proof fn lemma_and_branch(s: Seq<char>, pos: int)
    requires
        crate::strutil::match_at(s, "{\"and\":["@, pos),
    ensures
        forall|c: Clause| crate::strutil::match_at(s, json_of_clause(c), pos) ==> ((c matches Clause::And(a)
                && list_encoded_at(s, pos + 8, a.and@) && crate::strutil::match_at(
                s,
                "]}"@,
                pos + 8 + json_of_clause_list(a.and@).len(),
            ) && json_of_clause(c).len() == 8 + 2 + json_of_clause_list(a.and@).len())),
{

            reveal_strlit("{\"and\":[");
            reveal_strlit("{\"or\":[");
            reveal_strlit("{\"not\":");
            reveal_strlit("{\"browser_name\":\"");
            reveal_strlit("{\"link\":\"");
            reveal_strlit("{\"label\":\"");
            reveal_strlit("]}");
    assert forall|c: Clause|
                crate::strutil::match_at(s, json_of_clause(c), pos) implies (c matches Clause::And(a)
                && list_encoded_at(s, pos + 8, a.and@) && crate::strutil::match_at(
                s,
                "]}"@,
                pos + 8 + json_of_clause_list(a.and@).len(),
            ) && json_of_clause(c).len() == 8 + 2 + json_of_clause_list(a.and@).len()) by {
                lemma_clause_open_lit(s, pos, c);
                match c {
                    Clause::And(a) => {
                        crate::strutil::lemma_match_at_concat(
                            s,
                            "{\"and\":["@ + json_of_clause_list(a.and@),
                            "]}"@,
                            pos,
                        );
                        crate::strutil::lemma_match_at_concat(
                            s,
                            "{\"and\":["@,
                            json_of_clause_list(a.and@),
                            pos,
                        );
                        let q = pos + 8 + json_of_clause_list(a.and@).len();
                        assert(s.subrange(q, q + 2)[0] == s[q]);
                    },
                    Clause::Or(_) => {
                        lemma_literal_conflict(s, pos, "{\"or\":["@, "{\"and\":["@, 2);
                    },
                    Clause::Not(_) => {
                        lemma_literal_conflict(s, pos, "{\"not\":"@, "{\"and\":["@, 2);
                    },
                    Clause::BrowserResult(_) => {
                        lemma_literal_conflict(s, pos, "{\"browser_name\":\""@, "{\"and\":["@, 2);
                    },
                    Clause::Link(_) => {
                        lemma_literal_conflict(s, pos, "{\"link\":\""@, "{\"and\":["@, 2);
                    },
                    Clause::Label(_) => {
                        lemma_literal_conflict(s, pos, "{\"label\":\""@, "{\"and\":["@, 2);
                    },
                }
            }
}

#[verifier::rlimit(100)]
#[verifier::spinoff_prover]
proof fn lemma_or_branch(s: Seq<char>, pos: int)
    requires
        crate::strutil::match_at(s, "{\"or\":["@, pos),
    ensures
        forall|c: Clause| crate::strutil::match_at(s, json_of_clause(c), pos) ==> ((c is Or
                && list_encoded_at(s, pos + 7, c->Or_0.or@) && crate::strutil::match_at(
                s,
                "]}"@,
                pos + 7 + json_of_clause_list(c->Or_0.or@).len(),
            ) && json_of_clause(c).len() == 7 + 2 + json_of_clause_list(c->Or_0.or@).len())),
{

            reveal_strlit("{\"and\":[");
            reveal_strlit("{\"or\":[");
            reveal_strlit("{\"not\":");
            reveal_strlit("{\"browser_name\":\"");
            reveal_strlit("{\"link\":\"");
            reveal_strlit("{\"label\":\"");
            reveal_strlit("]}");
    assert forall|c: Clause|
                crate::strutil::match_at(s, json_of_clause(c), pos) implies (c is Or
                && list_encoded_at(s, pos + 7, c->Or_0.or@) && crate::strutil::match_at(
                s,
                "]}"@,
                pos + 7 + json_of_clause_list(c->Or_0.or@).len(),
            ) && json_of_clause(c).len() == 7 + 2 + json_of_clause_list(c->Or_0.or@).len()) by {
                lemma_clause_open_lit(s, pos, c);
                match c {
                    Clause::Or(o) => {
                        crate::strutil::lemma_match_at_concat(
                            s,
                            "{\"or\":["@ + json_of_clause_list(o.or@),
                            "]}"@,
                            pos,
                        );
                        crate::strutil::lemma_match_at_concat(
                            s,
                            "{\"or\":["@,
                            json_of_clause_list(o.or@),
                            pos,
                        );
                        let q = pos + 7 + json_of_clause_list(o.or@).len();
                        assert(s.subrange(q, q + 2)[0] == s[q]);
                    },
                    Clause::And(_) => {
                        lemma_literal_conflict(s, pos, "{\"and\":["@, "{\"or\":["@, 2);
                    },
                    Clause::Not(_) => {
                        lemma_literal_conflict(s, pos, "{\"not\":"@, "{\"or\":["@, 2);
                    },
                    Clause::BrowserResult(_) => {
                        lemma_literal_conflict(s, pos, "{\"browser_name\":\""@, "{\"or\":["@, 2);
                    },
                    Clause::Link(_) => {
                        lemma_literal_conflict(s, pos, "{\"link\":\""@, "{\"or\":["@, 2);
                    },
                    Clause::Label(_) => {
                        lemma_literal_conflict(s, pos, "{\"label\":\""@, "{\"or\":["@, 2);
                    },
                }
            }
}

#[verifier::rlimit(100)]
#[verifier::spinoff_prover]
proof fn lemma_not_branch(s: Seq<char>, pos: int)
    requires
        crate::strutil::match_at(s, "{\"not\":"@, pos),
    ensures
        forall|c: Clause| crate::strutil::match_at(s, json_of_clause(c), pos) ==> ((c is Not
                && crate::strutil::match_at(s, json_of_clause(*c->Not_0.not), pos + 7)
                && crate::strutil::match_at(
                s,
                "}"@,
                pos + 7 + json_of_clause(*c->Not_0.not).len(),
            ) && json_of_clause(c).len() == 8 + json_of_clause(*c->Not_0.not).len())),
{

            reveal_strlit("{\"and\":[");
            reveal_strlit("{\"or\":[");
            reveal_strlit("{\"not\":");
            reveal_strlit("{\"browser_name\":\"");
            reveal_strlit("{\"link\":\"");
            reveal_strlit("{\"label\":\"");
            reveal_strlit("}");
    assert forall|c: Clause|
                crate::strutil::match_at(s, json_of_clause(c), pos) implies (c is Not
                && crate::strutil::match_at(s, json_of_clause(*c->Not_0.not), pos + 7)
                && crate::strutil::match_at(
                s,
                "}"@,
                pos + 7 + json_of_clause(*c->Not_0.not).len(),
            ) && json_of_clause(c).len() == 8 + json_of_clause(*c->Not_0.not).len()) by {
                lemma_clause_open_lit(s, pos, c);
                match c {
                    Clause::Not(nn) => {
                        crate::strutil::lemma_match_at_concat(
                            s,
                            "{\"not\":"@ + json_of_clause(*nn.not),
                            "}"@,
                            pos,
                        );
                        crate::strutil::lemma_match_at_concat(
                            s,
                            "{\"not\":"@,
                            json_of_clause(*nn.not),
                            pos,
                        );
                    },
                    Clause::And(_) => {
                        lemma_literal_conflict(s, pos, "{\"and\":["@, "{\"not\":"@, 2);
                    },
                    Clause::Or(_) => {
                        lemma_literal_conflict(s, pos, "{\"or\":["@, "{\"not\":"@, 2);
                    },
                    Clause::BrowserResult(_) => {
                        lemma_literal_conflict(s, pos, "{\"browser_name\":\""@, "{\"not\":"@, 2);
                    },
                    Clause::Link(_) => {
                        lemma_literal_conflict(s, pos, "{\"link\":\""@, "{\"not\":"@, 2);
                    },
                    Clause::Label(_) => {
                        lemma_literal_conflict(s, pos, "{\"label\":\""@, "{\"not\":"@, 2);
                    },
                }
            }
}

#[verifier::rlimit(100)]
proof fn lemma_browser_branch(s: Seq<char>, pos: int)
    requires
        crate::strutil::match_at(s, "{\"browser_name\":\""@, pos),
    ensures
        forall|c: Clause| crate::strutil::match_at(s, json_of_clause(c), pos) ==> ((c matches Clause::BrowserResult(rc)
                && {
                let el = spec_escape(rc.browser_name@).len();
                let tl = spec_status_token(rc.status).len();
                &&& escaped_at(s, pos + 17, rc.browser_name@)
                &&& crate::strutil::match_at(s, "\",\"status\":\""@, pos + 17 + el)
                &&& crate::strutil::match_at(
                    s,
                    spec_status_token(rc.status),
                    pos + 17 + el + 12,
                )
                &&& crate::strutil::match_at(s, "\"}"@, pos + 17 + el + 12 + tl)
                &&& json_of_clause(c).len() == 17 + el + 12 + tl + 2
            })),
{

            reveal_strlit("{\"and\":[");
            reveal_strlit("{\"or\":[");
            reveal_strlit("{\"not\":");
            reveal_strlit("{\"browser_name\":\"");
            reveal_strlit("{\"link\":\"");
            reveal_strlit("{\"label\":\"");
            reveal_strlit("\",\"status\":\"");
            reveal_strlit("\"}");
    assert forall|c: Clause|
                crate::strutil::match_at(s, json_of_clause(c), pos) implies (c matches Clause::BrowserResult(rc)
                && {
                let el = spec_escape(rc.browser_name@).len();
                let tl = spec_status_token(rc.status).len();
                &&& escaped_at(s, pos + 17, rc.browser_name@)
                &&& crate::strutil::match_at(s, "\",\"status\":\""@, pos + 17 + el)
                &&& crate::strutil::match_at(
                    s,
                    spec_status_token(rc.status),
                    pos + 17 + el + 12,
                )
                &&& crate::strutil::match_at(s, "\"}"@, pos + 17 + el + 12 + tl)
                &&& json_of_clause(c).len() == 17 + el + 12 + tl + 2
            }) by {
                lemma_clause_open_lit(s, pos, c);
                match c {
                    Clause::BrowserResult(rc) => {
                        let lit = "{\"browser_name\":\""@;
                        let esc = spec_escape(rc.browser_name@);
                        let mid = "\",\"status\":\""@;
                        let tok = spec_status_token(rc.status);
                        crate::strutil::lemma_match_at_concat(
                            s,
                            lit + esc + mid + tok,
                            "\"}"@,
                            pos,
                        );
                        crate::strutil::lemma_match_at_concat(s, lit + esc + mid, tok, pos);
                        crate::strutil::lemma_match_at_concat(s, lit + esc, mid, pos);
                        crate::strutil::lemma_match_at_concat(s, lit, esc, pos);
                        let q = pos + 17 + esc.len();
                        assert(s.subrange(q, q + 12)[0] == s[q]);
                    },
                    Clause::And(_) => {
                        lemma_literal_conflict(s, pos, "{\"and\":["@, "{\"browser_name\":\""@, 2);
                    },
                    Clause::Or(_) => {
                        lemma_literal_conflict(s, pos, "{\"or\":["@, "{\"browser_name\":\""@, 2);
                    },
                    Clause::Not(_) => {
                        lemma_literal_conflict(s, pos, "{\"not\":"@, "{\"browser_name\":\""@, 2);
                    },
                    Clause::Link(_) => {
                        lemma_literal_conflict(s, pos, "{\"link\":\""@, "{\"browser_name\":\""@, 2);
                    },
                    Clause::Label(_) => {
                        lemma_literal_conflict(s, pos, "{\"label\":\""@, "{\"browser_name\":\""@, 2);
                    },
                }
            }
}

#[verifier::rlimit(100)]
proof fn lemma_link_branch(s: Seq<char>, pos: int)
    requires
        crate::strutil::match_at(s, "{\"link\":\""@, pos),
    ensures
        forall|c: Clause| crate::strutil::match_at(s, json_of_clause(c), pos) ==> ((c matches Clause::Link(ll)
                && escaped_at(s, pos + 9, ll.link@) && crate::strutil::match_at(
                s,
                "\"}"@,
                pos + 9 + spec_escape(ll.link@).len(),
            ) && json_of_clause(c).len() == 9 + 2 + spec_escape(ll.link@).len())),
{

            reveal_strlit("{\"and\":[");
            reveal_strlit("{\"or\":[");
            reveal_strlit("{\"not\":");
            reveal_strlit("{\"browser_name\":\"");
            reveal_strlit("{\"link\":\"");
            reveal_strlit("{\"label\":\"");
            reveal_strlit("\"}");
    assert forall|c: Clause|
                crate::strutil::match_at(s, json_of_clause(c), pos) implies (c matches Clause::Link(ll)
                && escaped_at(s, pos + 9, ll.link@) && crate::strutil::match_at(
                s,
                "\"}"@,
                pos + 9 + spec_escape(ll.link@).len(),
            ) && json_of_clause(c).len() == 9 + 2 + spec_escape(ll.link@).len()) by {
                lemma_clause_open_lit(s, pos, c);
                match c {
                    Clause::Link(ll) => {
                        crate::strutil::lemma_match_at_concat(
                            s,
                            "{\"link\":\""@ + spec_escape(ll.link@),
                            "\"}"@,
                            pos,
                        );
                        crate::strutil::lemma_match_at_concat(
                            s,
                            "{\"link\":\""@,
                            spec_escape(ll.link@),
                            pos,
                        );
                        let q = pos + 9 + spec_escape(ll.link@).len();
                        assert(s.subrange(q, q + 2)[0] == s[q]);
                    },
                    Clause::And(_) => {
                        lemma_literal_conflict(s, pos, "{\"and\":["@, "{\"link\":\""@, 2);
                    },
                    Clause::Or(_) => {
                        lemma_literal_conflict(s, pos, "{\"or\":["@, "{\"link\":\""@, 2);
                    },
                    Clause::Not(_) => {
                        lemma_literal_conflict(s, pos, "{\"not\":"@, "{\"link\":\""@, 2);
                    },
                    Clause::BrowserResult(_) => {
                        lemma_literal_conflict(s, pos, "{\"browser_name\":\""@, "{\"link\":\""@, 2);
                    },
                    Clause::Label(_) => {
                        lemma_literal_conflict(s, pos, "{\"label\":\""@, "{\"link\":\""@, 3);
                    },
                }
            }
}

#[verifier::rlimit(100)]
proof fn lemma_label_branch(s: Seq<char>, pos: int)
    requires
        crate::strutil::match_at(s, "{\"label\":\""@, pos),
    ensures
        forall|c: Clause| crate::strutil::match_at(s, json_of_clause(c), pos) ==> ((c matches Clause::Label(ll)
                && escaped_at(s, pos + 10, ll.label@) && crate::strutil::match_at(
                s,
                "\"}"@,
                pos + 10 + spec_escape(ll.label@).len(),
            ) && json_of_clause(c).len() == 10 + 2 + spec_escape(ll.label@).len())),
{

            reveal_strlit("{\"and\":[");
            reveal_strlit("{\"or\":[");
            reveal_strlit("{\"not\":");
            reveal_strlit("{\"browser_name\":\"");
            reveal_strlit("{\"link\":\"");
            reveal_strlit("{\"label\":\"");
            reveal_strlit("\"}");
    assert forall|c: Clause|
                crate::strutil::match_at(s, json_of_clause(c), pos) implies (c matches Clause::Label(ll)
                && escaped_at(s, pos + 10, ll.label@) && crate::strutil::match_at(
                s,
                "\"}"@,
                pos + 10 + spec_escape(ll.label@).len(),
            ) && json_of_clause(c).len() == 10 + 2 + spec_escape(ll.label@).len()) by {
                lemma_clause_open_lit(s, pos, c);
                match c {
                    Clause::Label(ll) => {
                        crate::strutil::lemma_match_at_concat(
                            s,
                            "{\"label\":\""@ + spec_escape(ll.label@),
                            "\"}"@,
                            pos,
                        );
                        crate::strutil::lemma_match_at_concat(
                            s,
                            "{\"label\":\""@,
                            spec_escape(ll.label@),
                            pos,
                        );
                        let q = pos + 10 + spec_escape(ll.label@).len();
                        assert(s.subrange(q, q + 2)[0] == s[q]);
                    },
                    Clause::And(_) => {
                        lemma_literal_conflict(s, pos, "{\"and\":["@, "{\"label\":\""@, 2);
                    },
                    Clause::Or(_) => {
                        lemma_literal_conflict(s, pos, "{\"or\":["@, "{\"label\":\""@, 2);
                    },
                    Clause::Not(_) => {
                        lemma_literal_conflict(s, pos, "{\"not\":"@, "{\"label\":\""@, 2);
                    },
                    Clause::BrowserResult(_) => {
                        lemma_literal_conflict(s, pos, "{\"browser_name\":\""@, "{\"label\":\""@, 2);
                    },
                    Clause::Link(_) => {
                        lemma_literal_conflict(s, pos, "{\"link\":\""@, "{\"label\":\""@, 3);
                    },
                }
            }
}

/// Decodes one clause of the wire encoding, starting at `pos`.  The
/// variants are tried in a fixed order, each recognized by the keys it must
/// carry.  Whatever is decoded encodes back to exactly the consumed
/// characters; and wherever the input carries the encoding of a clause,
/// decoding succeeds, consumes exactly that encoding, and yields a clause
/// structurally equal to it -- so decoding inverts encoding.
#[verifier::rlimit(100)]
pub fn parse_clause(s: &str, pos: usize) -> (r: Option<(Clause, usize)>)
    requires
        pos <= s@.len(),
    ensures
        (r matches Some(t) ==> {
            &&& pos < t.1 <= s@.len()
            &&& json_of_clause(t.0) == s@.subrange(pos as int, t.1 as int)
        }),
        forall|c: Clause|
            #[trigger] crate::strutil::match_at(s@, json_of_clause(c), pos as int) ==> (r matches Some(
                t,
            ) && t.1 == pos + json_of_clause(c).len() && clause_view_eq(t.0, c)),
    decreases s@.len() - pos, 0int,
{
    let n = s.unicode_len();
    if crate::strutil::str_match_at(s, "{\"and\":[", pos) {
        proof {
            reveal_strlit("{\"and\":[");
            reveal_strlit("]}");
            lemma_and_branch(s@, pos as int);
        }
        let open = "{\"and\":[".unicode_len();
        let (items, p2) = match parse_clause_list(s, pos + open) {
            Some(x) => x,
            None => {
                proof {
                    assert forall|c: Clause|
                        !crate::strutil::match_at(s@, json_of_clause(c), pos as int) by {
                        if crate::strutil::match_at(s@, json_of_clause(c), pos as int) {
                            match c {
                                Clause::And(a) => {
                                    assert(list_encoded_at(s@, pos as int + 8, a.and@));
                                    assert(false);
                                },
                                _ => {
                                    assert(false);
                                },
                            }
                        }
                    }
                }
                return None;
            },
        };
        if !crate::strutil::str_match_at(s, "]}", p2) {
            proof {
                assert forall|c: Clause|
                    !crate::strutil::match_at(s@, json_of_clause(c), pos as int) by {
                    if crate::strutil::match_at(s@, json_of_clause(c), pos as int) {
                        match c {
                            Clause::And(a) => {
                                assert(list_encoded_at(s@, pos as int + 8, a.and@));
                                assert(false);
                            },
                            _ => {
                                assert(false);
                            },
                        }
                    }
                }
            }
            return None;
        }
        let close = "]}".unicode_len();
        let out = Clause::And(AndClause { and: items });
        proof {
            assert(s@.subrange(pos as int, p2 + close) =~= s@.subrange(pos as int, pos + open)
                + s@.subrange(pos + open, p2 as int) + s@.subrange(p2 as int, p2 + close));
            assert forall|c: Clause|
                crate::strutil::match_at(s@, json_of_clause(c), pos as int) implies p2 + close
                == pos + json_of_clause(c).len() && clause_view_eq(out, c) by {
                match c {
                    Clause::And(a) => {
                        assert(list_encoded_at(s@, pos as int + 8, a.and@));
                    },
                    _ => {
                        assert(false);
                    },
                }
            }
        }
        Some((out, p2 + close))
    } else if crate::strutil::str_match_at(s, "{\"or\":[", pos) {
        proof {
            reveal_strlit("{\"or\":[");
            reveal_strlit("]}");
            lemma_or_branch(s@, pos as int);
        }
        let open = "{\"or\":[".unicode_len();
        let (items, p2) = match parse_clause_list(s, pos + open) {
            Some(x) => x,
            None => {
                proof {
                    assert forall|c: Clause|
                        !crate::strutil::match_at(s@, json_of_clause(c), pos as int) by {
                        if crate::strutil::match_at(s@, json_of_clause(c), pos as int) {
                            match c {
                                Clause::Or(o) => {
                                    assert(c->Or_0 == o);
                                    assert((pos + open) as int == pos as int + 7);
                                    assert(list_encoded_at(s@, pos as int + 7, o.or@));
                                    assert(false);
                                },
                                _ => {
                                    assert(false);
                                },
                            }
                        }
                    }
                }
                return None;
            },
        };
        if !crate::strutil::str_match_at(s, "]}", p2) {
            proof {
                assert forall|c: Clause|
                    !crate::strutil::match_at(s@, json_of_clause(c), pos as int) by {
                    if crate::strutil::match_at(s@, json_of_clause(c), pos as int) {
                        match c {
                            Clause::Or(o) => {
                                assert(c->Or_0 == o);
                                assert((pos + open) as int == pos as int + 7);
                                assert(list_encoded_at(s@, pos as int + 7, o.or@));
                                assert(false);
                            },
                            _ => {
                                assert(false);
                            },
                        }
                    }
                }
            }
            return None;
        }
        let close = "]}".unicode_len();
        let out = Clause::Or(OrClause { or: items });
        proof {
            assert(s@.subrange(pos as int, p2 + close) =~= s@.subrange(pos as int, pos + open)
                + s@.subrange(pos + open, p2 as int) + s@.subrange(p2 as int, p2 + close));
            assert forall|c: Clause|
                crate::strutil::match_at(s@, json_of_clause(c), pos as int) implies p2 + close
                == pos + json_of_clause(c).len() && clause_view_eq(out, c) by {
                match c {
                    Clause::Or(o) => {
                        assert(c->Or_0 == o);
                        assert((pos + open) as int == pos as int + 7);
                        assert(list_encoded_at(s@, pos as int + 7, o.or@));
                    },
                    _ => {
                        assert(false);
                    },
                }
            }
        }
        Some((out, p2 + close))
    } else if crate::strutil::str_match_at(s, "{\"not\":", pos) {
        proof {
            reveal_strlit("{\"not\":");
            reveal_strlit("}");
            lemma_not_branch(s@, pos as int);
        }
        let open = "{\"not\":".unicode_len();
        let (inner, p2) = match parse_clause(s, pos + open) {
            Some(x) => x,
            None => {
                proof {
                    assert forall|c: Clause|
                        !crate::strutil::match_at(s@, json_of_clause(c), pos as int) by {
                        if crate::strutil::match_at(s@, json_of_clause(c), pos as int) {
                            assert(false);
                        }
                    }
                }
                return None;
            },
        };
        if !crate::strutil::str_match_at(s, "}", p2) {
            proof {
                assert forall|c: Clause|
                    !crate::strutil::match_at(s@, json_of_clause(c), pos as int) by {
                    if crate::strutil::match_at(s@, json_of_clause(c), pos as int) {
                        assert(false);
                    }
                }
            }
            return None;
        }
        let close = "}".unicode_len();
        let out = Clause::Not(NotClause { not: Box::new(inner) });
        proof {
            assert(s@.subrange(pos as int, p2 + close) =~= s@.subrange(pos as int, pos + open)
                + s@.subrange(pos + open, p2 as int) + s@.subrange(p2 as int, p2 + close));
            assert forall|c: Clause|
                crate::strutil::match_at(s@, json_of_clause(c), pos as int) implies p2 + close
                == pos + json_of_clause(c).len() && clause_view_eq(out, c) by {
                match c {
                    Clause::Not(nn) => {
                        assert(c->Not_0 == nn);
                        assert((pos + open) as int == pos as int + 7);
                        assert(crate::strutil::match_at(
                            s@,
                            json_of_clause(*nn.not),
                            pos as int + 7,
                        ));
                    },
                    _ => {
                        assert(false);
                    },
                }
            }
        }
        Some((out, p2 + close))
    } else if crate::strutil::str_match_at(s, "{\"browser_name\":\"", pos) {
        proof {
            reveal_strlit("{\"browser_name\":\"");
            reveal_strlit("\",\"status\":\"");
            reveal_strlit("\"}");
            lemma_browser_branch(s@, pos as int);
        }
        let open = "{\"browser_name\":\"".unicode_len();
        let (name, p2) = match parse_string_body(s, pos + open) {
            Some(x) => x,
            None => {
                proof {
                    assert forall|c: Clause|
                        !crate::strutil::match_at(s@, json_of_clause(c), pos as int) by {
                        if crate::strutil::match_at(s@, json_of_clause(c), pos as int) {
                            assert(false);
                        }
                    }
                }
                return None;
            },
        };
        if !crate::strutil::str_match_at(s, "\",\"status\":\"", p2) {
            proof {
                assert forall|c: Clause|
                    !crate::strutil::match_at(s@, json_of_clause(c), pos as int) by {
                    if crate::strutil::match_at(s@, json_of_clause(c), pos as int) {
                        assert(false);
                    }
                }
            }
            return None;
        }
        let mid = "\",\"status\":\"".unicode_len();
        let (status, p3) = match parse_status(s, p2 + mid) {
            Some(x) => x,
            None => {
                proof {
                    assert forall|c: Clause|
                        !crate::strutil::match_at(s@, json_of_clause(c), pos as int) by {
                        if crate::strutil::match_at(s@, json_of_clause(c), pos as int) {
                            assert(false);
                        }
                    }
                }
                return None;
            },
        };
        if !crate::strutil::str_match_at(s, "\"}", p3) {
            proof {
                assert forall|c: Clause|
                    !crate::strutil::match_at(s@, json_of_clause(c), pos as int) by {
                    if crate::strutil::match_at(s@, json_of_clause(c), pos as int) {
                        assert(false);
                    }
                }
            }
            return None;
        }
        let close = "\"}".unicode_len();
        let out = Clause::BrowserResult(ResultClause { browser_name: name, status });
        proof {
            assert(s@.subrange(pos as int, p3 + close) =~= s@.subrange(pos as int, pos + open)
                + s@.subrange(pos + open, p2 as int) + s@.subrange(p2 as int, p2 + mid)
                + s@.subrange(p2 + mid, p3 as int) + s@.subrange(p3 as int, p3 + close));
            assert forall|c: Clause|
                crate::strutil::match_at(s@, json_of_clause(c), pos as int) implies p3 + close
                == pos + json_of_clause(c).len() && clause_view_eq(out, c) by {
                match c {
                    Clause::BrowserResult(rc) => {
                    },
                    _ => {
                        assert(false);
                    },
                }
            }
        }
        Some((out, p3 + close))
    } else if crate::strutil::str_match_at(s, "{\"link\":\"", pos) {
        proof {
            reveal_strlit("{\"link\":\"");
            reveal_strlit("\"}");
            lemma_link_branch(s@, pos as int);
        }
        let open = "{\"link\":\"".unicode_len();
        let (text, p2) = match parse_string_body(s, pos + open) {
            Some(x) => x,
            None => {
                proof {
                    assert forall|c: Clause|
                        !crate::strutil::match_at(s@, json_of_clause(c), pos as int) by {
                        if crate::strutil::match_at(s@, json_of_clause(c), pos as int) {
                            assert(false);
                        }
                    }
                }
                return None;
            },
        };
        if !crate::strutil::str_match_at(s, "\"}", p2) {
            proof {
                assert forall|c: Clause|
                    !crate::strutil::match_at(s@, json_of_clause(c), pos as int) by {
                    if crate::strutil::match_at(s@, json_of_clause(c), pos as int) {
                        assert(false);
                    }
                }
            }
            return None;
        }
        let close = "\"}".unicode_len();
        let out = Clause::Link(LinkClause { link: text });
        proof {
            assert(s@.subrange(pos as int, p2 + close) =~= s@.subrange(pos as int, pos + open)
                + s@.subrange(pos + open, p2 as int) + s@.subrange(p2 as int, p2 + close));
            assert forall|c: Clause|
                crate::strutil::match_at(s@, json_of_clause(c), pos as int) implies p2 + close
                == pos + json_of_clause(c).len() && clause_view_eq(out, c) by {
                match c {
                    Clause::Link(ll) => {
                    },
                    _ => {
                        assert(false);
                    },
                }
            }
        }
        Some((out, p2 + close))
    } else if crate::strutil::str_match_at(s, "{\"label\":\"", pos) {
        proof {
            reveal_strlit("{\"label\":\"");
            reveal_strlit("\"}");
            lemma_label_branch(s@, pos as int);
        }
        let open = "{\"label\":\"".unicode_len();
        let (text, p2) = match parse_string_body(s, pos + open) {
            Some(x) => x,
            None => {
                proof {
                    assert forall|c: Clause|
                        !crate::strutil::match_at(s@, json_of_clause(c), pos as int) by {
                        if crate::strutil::match_at(s@, json_of_clause(c), pos as int) {
                            assert(false);
                        }
                    }
                }
                return None;
            },
        };
        if !crate::strutil::str_match_at(s, "\"}", p2) {
            proof {
                assert forall|c: Clause|
                    !crate::strutil::match_at(s@, json_of_clause(c), pos as int) by {
                    if crate::strutil::match_at(s@, json_of_clause(c), pos as int) {
                        assert(false);
                    }
                }
            }
            return None;
        }
        let close = "\"}".unicode_len();
        let out = Clause::Label(LabelClause { label: text });
        proof {
            assert(s@.subrange(pos as int, p2 + close) =~= s@.subrange(pos as int, pos + open)
                + s@.subrange(pos + open, p2 as int) + s@.subrange(p2 as int, p2 + close));
            assert forall|c: Clause|
                crate::strutil::match_at(s@, json_of_clause(c), pos as int) implies p2 + close
                == pos + json_of_clause(c).len() && clause_view_eq(out, c) by {
                match c {
                    Clause::Label(ll) => {
                    },
                    _ => {
                        assert(false);
                    },
                }
            }
        }
        Some((out, p2 + close))
    } else {
        proof {
            reveal_strlit("{\"and\":[");
            reveal_strlit("{\"or\":[");
            reveal_strlit("{\"not\":");
            reveal_strlit("{\"browser_name\":\"");
            reveal_strlit("{\"link\":\"");
            reveal_strlit("{\"label\":\"");
            assert forall|c: Clause|
                !crate::strutil::match_at(s@, json_of_clause(c), pos as int) by {
                if crate::strutil::match_at(s@, json_of_clause(c), pos as int) {
                    lemma_clause_open_lit(s@, pos as int, c);
                }
            }
        }
        None
    }
}

/// The list decoder answered the encoded list `cs`: success, consuming
/// exactly its encoding and recovering its clauses.
pub open spec fn list_decoded(r: Option<(Vec<Clause>, usize)>, pos: int, cs: Seq<Clause>) -> bool {
    match r {
        Some(t) => t.1 == pos + json_of_clause_list(cs).len() && clause_list_view_eq(t.0@, cs),
        None => false,
    }
}

/// Decodes a comma-separated clause list, stopping before `]`.  Wherever
/// the input carries an encoded list followed by `]`, decoding succeeds,
/// consumes exactly the list's encoding, and recovers the list.
#[verifier::rlimit(100)]
fn parse_clause_list(s: &str, pos: usize) -> (r: Option<(Vec<Clause>, usize)>)
    requires
        pos <= s@.len(),
    ensures
        (r matches Some(t) ==> {
            &&& pos <= t.1 <= s@.len()
            &&& json_of_clause_list(t.0@) == s@.subrange(pos as int, t.1 as int)
        }),
        forall|cs: Seq<Clause>|
            #[trigger] list_encoded_at(s@, pos as int, cs) ==> list_decoded(r, pos as int, cs),
    decreases s@.len() - pos, 1int,
{
    let mut items: Vec<Clause> = Vec::new();
    if crate::strutil::str_match_at(s, "]", pos) {
        proof {
            reveal_strlit("]");
            assert(json_of_clause_list(items@) =~= s@.subrange(pos as int, pos as int));
            assert forall|cs: Seq<Clause>| #[trigger] list_encoded_at(s@, pos as int, cs) implies
                list_decoded(Some((items, pos)), pos as int, cs) by {
                assert(json_of_clause_list(items@).len() == 0);
                if cs.len() >= 1 {
                    lemma_list_head(s@, pos as int, cs);
                    lemma_json_clause_first(cs[0]);
                    assert(s@.subrange(pos as int, pos + json_of_clause(cs[0]).len())[0]
                        == s@[pos as int]);
                    assert(s@.subrange(pos as int, pos + 1)[0] == s@[pos as int]);
                }
            }
        }
        return Some((items, pos));
    }
    proof {
        reveal_strlit("]");
        assert forall|cs: Seq<Clause>| list_encoded_at(s@, pos as int, cs) implies cs.len()
            >= 1 && crate::strutil::match_at(s@, json_of_clause(cs[0]), pos as int) by {
            if cs.len() == 0 {
                assert(s@[pos as int] == ']');
                assert(s@.subrange(pos as int, pos + 1) =~= seq![']']);
                assert("]"@ =~= seq![']']);
                assert(crate::strutil::match_at(s@, "]"@, pos as int));
            } else {
                lemma_list_head(s@, pos as int, cs);
            }
        }
    }
    let (first, p1) = match parse_clause(s, pos) {
        Some(x) => x,
        None => {
            proof {
                assert forall|cs: Seq<Clause>| !list_encoded_at(s@, pos as int, cs) by {
                    if list_encoded_at(s@, pos as int, cs) {
                        crate::strutil::lemma_match_at_concat(
                            s@,
                            json_of_clause(cs[0]),
                            Seq::<char>::empty(),
                            pos as int,
                        );
                    }
                }
            }
            return None;
        },
    };
    items.push(first);
    let mut p = p1;
    proof {
        assert(items@.len() == 1);
        assert(json_of_clause_list(items@) == json_of_clause(items@[0]));
        assert forall|cs: Seq<Clause>| list_encoded_at(s@, pos as int, cs) implies items@.len()
            <= cs.len() && p == pos + json_of_clause_list(cs.take(items@.len() as int)).len()
            && clause_list_view_eq(items@, cs.take(items@.len() as int)) by {
            assert(cs.take(1) =~= seq![cs[0]]);
            assert(json_of_clause_list(cs.take(1)) == json_of_clause(cs[0]));
        }
    }
    while p < s.unicode_len() && crate::strutil::str_match_at(s, ",", p)
        invariant
            pos <= p <= s@.len(),
            items@.len() >= 1,
            json_of_clause_list(items@) =~= s@.subrange(pos as int, p as int),
            forall|cs: Seq<Clause>|
                list_encoded_at(s@, pos as int, cs) ==> items@.len() <= cs.len() && p == pos
                    + json_of_clause_list(cs.take(items@.len() as int)).len()
                    && clause_list_view_eq(items@, cs.take(items@.len() as int)),
        decreases s@.len() - p,
    {
        let ghost cnt = items@.len() as int;
        proof {
            reveal_strlit(",");
            assert(s@.subrange(p as int, p + 1)[0] == s@[p as int]);
            assert(s@[p as int] == ',');
            assert forall|cs: Seq<Clause>| list_encoded_at(s@, pos as int, cs) implies cnt
                < cs.len() && crate::strutil::match_at(s@, json_of_clause(cs[cnt]), p + 1) by {
                if cnt == cs.len() {
                    assert(cs.take(cnt) =~= cs);
                    assert(s@[p as int] == ']');
                } else {
                    lemma_json_list_decompose(cs, cnt);
                    crate::strutil::lemma_match_at_concat(
                        s@,
                        json_of_clause_list(cs.take(cnt)) + ","@,
                        json_of_clause_list(cs.skip(cnt)),
                        pos as int,
                    );
                    crate::strutil::lemma_match_at_concat(
                        s@,
                        json_of_clause_list(cs.take(cnt)),
                        ","@,
                        pos as int,
                    );
                    lemma_list_head(s@, p + 1, cs.skip(cnt));
                    assert(cs.skip(cnt)[0] == cs[cnt]);
                }
            }
        }
        let sep = ",".unicode_len();
        let (next, p2) = match parse_clause(s, p + sep) {
            Some(x) => x,
            None => {
                proof {
                    assert forall|cs: Seq<Clause>| !list_encoded_at(s@, pos as int, cs) by {
                        if list_encoded_at(s@, pos as int, cs) {
                            crate::strutil::lemma_match_at_concat(
                                s@,
                                json_of_clause(cs[cnt]),
                                Seq::<char>::empty(),
                                p + 1,
                            );
                        }
                    }
                }
                return None;
            },
        };
        let ghost prev = items@;
        items.push(next);
        proof {
            assert(items@.drop_last() =~= prev);
            assert(json_of_clause_list(items@) == json_of_clause_list(prev) + ","@
                + json_of_clause(items@.last()));
            reveal_strlit(",");
            assert(","@ =~= s@.subrange(p as int, p + sep));
            assert(s@.subrange(pos as int, p2 as int) =~= s@.subrange(pos as int, p as int)
                + s@.subrange(p as int, p + sep) + s@.subrange(p + sep, p2 as int));
            assert forall|cs: Seq<Clause>| list_encoded_at(s@, pos as int, cs) implies items@.len()
                <= cs.len() && p2 == pos + json_of_clause_list(cs.take(items@.len() as int)).len()
                && clause_list_view_eq(items@, cs.take(items@.len() as int)) by {
                assert(cs.take(cnt + 1).drop_last() =~= cs.take(cnt));
                assert(cs.take(cnt + 1).last() == cs[cnt]);
                assert(json_of_clause_list(cs.take(cnt + 1)) == json_of_clause_list(cs.take(cnt))
                    + ","@ + json_of_clause(cs[cnt]));
                assert(clause_view_eq(items@.last(), cs[cnt]));
                assert forall|i: int|
                    0 <= i < items@.len() implies clause_view_eq(
                    #[trigger] items@[i],
                    #[trigger] cs.take(cnt + 1)[i],
                ) by {
                    if i < cnt {
                        assert(items@[i] == prev[i]);
                        assert(cs.take(cnt)[i] == cs.take(cnt + 1)[i]);
                    }
                }
            }
        }
        p = p2;
    }
    proof {
        assert forall|cs: Seq<Clause>| #[trigger] list_encoded_at(s@, pos as int, cs) implies
            list_decoded(Some((items, p)), pos as int, cs) by {
            let cnt = items@.len() as int;
            if cnt < cs.len() {
                lemma_json_list_decompose(cs, cnt);
                crate::strutil::lemma_match_at_concat(
                    s@,
                    json_of_clause_list(cs.take(cnt)) + ","@,
                    json_of_clause_list(cs.skip(cnt)),
                    pos as int,
                );
                crate::strutil::lemma_match_at_concat(
                    s@,
                    json_of_clause_list(cs.take(cnt)),
                    ","@,
                    pos as int,
                );
                reveal_strlit(",");
                assert(s@[p as int] == ',');
                assert(s@.subrange(p as int, p + 1) =~= seq![',']);
                assert(crate::strutil::match_at(s@, ","@, p as int));
            } else {
                assert(cs.take(cnt) =~= cs);
            }
        }
    }
    Some((items, p))
}

} // verus!
