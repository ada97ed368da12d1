//! The interop datasets: yearly focus-area metadata, category labels and
//! score tables, with the request builders that fetch them.
//!
//! Keyed collections are carried as vectors of pairs in their source order;
//! lookups scan for the first matching key.

use vstd::prelude::*;
use vstd::string::StringExecFns;

use crate::strutil::str_eq;
use crate::urlenc::build_url;
use crate::urlenc::spec_url;

verus! {

/// One year's interop metadata.
pub struct YearData {
    pub table_sections: Vec<TableSections>,
    pub investigation_scores: Vec<InvestigationScore>,
    pub csv_url: String,
    pub summary_feature_name: String,
    pub issue_url: String,
    pub matrix_url: String,
    /// Focus areas by name, in the order the service lists them.
    pub focus_areas: Vec<(String, FocusArea)>,
}

/// A named section of the interop results table.
pub struct TableSections {
    pub name: String,
    pub rows: Vec<String>,
    pub score_as_group: bool,
}

/// An investigation area and its score history.
pub struct InvestigationScore {
    pub name: String,
    pub scores_over_time: Vec<InvestigationUpdate>,
}

/// One dated investigation score.
pub struct InvestigationUpdate {
    pub date: String,
    pub score: u64,
}

/// One focus area of an interop year.
pub struct FocusArea {
    pub description: String,
    pub mdn: String,
    /// Link to the specification of the feature.
    pub spec_link: String,
    pub tests: String,
    pub counts_toward_score: bool,
}

/// Request builder for the yearly interop metadata.
pub struct InteropData {
    pub host: String,
}

impl InteropData {
    pub fn new(host: String) -> (r: InteropData)
        ensures
            r.host@ == host@,
    {
        InteropData { host }
    }

    /// The URL of the interop metadata document.
    pub fn url(&self) -> (r: String)
        ensures
            r@ == spec_url(
                self.host@,
                "/static/interop-data_v2.json"@,
                Seq::<(Seq<char>, Seq<char>)>::empty(),
            ),
    {
        let pairs: Vec<(String, String)> = Vec::new();
        proof {
            assert(crate::urlenc::pair_views(pairs@) =~= Seq::<(Seq<char>, Seq<char>)>::empty());
        }
        build_url(self.host.as_str(), "/static/interop-data_v2.json", &pairs)
    }
}

/// The category list of one interop year.
pub struct Categories {
    pub categories: Vec<Category>,
}

/// One scoring category: its name and the test labels it covers.
pub struct Category {
    pub name: String,
    pub labels: Vec<String>,
}

impl Clone for Category {
    fn clone(&self) -> (r: Category)
        ensures
            r.name@ == self.name@,
            r.labels@.len() == self.labels@.len(),
            forall|i: int| 0 <= i < self.labels@.len() ==> r.labels@[i]@ == self.labels@[i]@,
    {
        let r = Category { name: self.name.clone(), labels: self.labels.clone() };
        proof {
            assert(r.labels@ =~= self.labels@);
        }
        r
    }
}

/// The distinct category names, each at its first occurrence.
pub open spec fn spec_distinct_names(cats: Seq<Category>) -> Seq<Seq<char>>
    decreases cats.len(),
{
    if cats.len() == 0 {
        Seq::empty()
    } else {
        let init = spec_distinct_names(cats.drop_last());
        if init.contains(cats.last().name@) {
            init
        } else {
            init.push(cats.last().name@)
        }
    }
}

/// The index of the last category bearing `name`; `-1` when there is none.
pub open spec fn spec_last_with_name(cats: Seq<Category>, name: Seq<char>) -> int
    decreases cats.len(),
{
    if cats.len() == 0 {
        -1
    } else if cats.last().name@ == name {
        cats.len() - 1
    } else {
        spec_last_with_name(cats.drop_last(), name)
    }
}

proof fn lemma_distinct_names_exist(cats: Seq<Category>)
    ensures
        forall|j: int|
            0 <= j < spec_distinct_names(cats).len() ==> 0 <= spec_last_with_name(
                cats,
                #[trigger] spec_distinct_names(cats)[j],
            ) < cats.len(),
    decreases cats.len(),
{
    if cats.len() > 0 {
        lemma_distinct_names_exist(cats.drop_last());
        let init = spec_distinct_names(cats.drop_last());
        assert forall|j: int|
            0 <= j < spec_distinct_names(cats).len() implies 0 <= spec_last_with_name(
            cats,
            #[trigger] spec_distinct_names(cats)[j],
        ) < cats.len() by {
            let n = spec_distinct_names(cats)[j];
            if cats.last().name@ != n {
                if j < init.len() {
                    assert(init[j] == n);
                }
            }
        }
    }
}

impl Categories {
    /// One pair per distinct category name, names in first-occurrence
    /// order, each mapped to the last category bearing that name.
    pub fn by_name(&self) -> (rv: Vec<(String, Category)>)
        ensures
            rv@.map_values(|p: (String, Category)| p.0@) == spec_distinct_names(self.categories@),
            forall|j: int|
                0 <= j < rv@.len() ==> {
                    let src = self.categories@[spec_last_with_name(
                        self.categories@,
                        (#[trigger] rv@[j]).0@,
                    )];
                    &&& rv@[j].1.name@ == rv@[j].0@
                    &&& rv@[j].1.name@ == src.name@
                    &&& rv@[j].1.labels@.len() == src.labels@.len()
                    &&& (forall|t: int|
                        0 <= t < src.labels@.len() ==> (#[trigger] rv@[j].1.labels@[t])@
                            == src.labels@[t]@)
                },
    {
        let ghost cats = self.categories@;
        let n = self.categories.len();
        let mut names: Vec<String> = Vec::new();
        let mut k: usize = 0;
        while k < n
            invariant
                n == self.categories@.len(),
                cats == self.categories@,
                k <= n,
                crate::strutil::string_views(names@) =~= spec_distinct_names(cats.take(k as int)),
            decreases n - k,
        {
            proof {
                assert(cats.take(k + 1).drop_last() =~= cats.take(k as int));
                assert(cats.take(k + 1).last() == cats[k as int]);
            }
            if !crate::strutil::vec_contains_str(&names, self.categories[k].name.as_str()) {
                names.push(self.categories[k].name.clone());
                proof {
                    assert(crate::strutil::string_views(names@) =~= spec_distinct_names(
                        cats.take(k as int),
                    ).push(cats[k as int].name@));
                }
            }
            k = k + 1;
        }
        proof {
            assert(cats.take(n as int) =~= cats);
            lemma_distinct_names_exist(cats);
        }
        let nn = names.len();
        let mut rv: Vec<(String, Category)> = Vec::new();
        let mut j: usize = 0;
        while j < nn
            invariant
                n == self.categories@.len(),
                cats == self.categories@,
                nn == names@.len(),
                crate::strutil::string_views(names@) =~= spec_distinct_names(cats),
                forall|m: int|
                    0 <= m < spec_distinct_names(cats).len() ==> 0 <= spec_last_with_name(
                        cats,
                        #[trigger] spec_distinct_names(cats)[m],
                    ) < cats.len(),
                j <= nn,
                rv@.map_values(|p: (String, Category)| p.0@) =~= spec_distinct_names(cats).take(
                    j as int,
                ),
                forall|m: int|
                    0 <= m < rv@.len() ==> {
                        let src = cats[spec_last_with_name(cats, (#[trigger] rv@[m]).0@)];
                        &&& rv@[m].1.name@ == rv@[m].0@
                        &&& rv@[m].1.name@ == src.name@
                        &&& rv@[m].1.labels@.len() == src.labels@.len()
                        &&& (forall|t: int|
                            0 <= t < src.labels@.len() ==> (#[trigger] rv@[m].1.labels@[t])@
                                == src.labels@[t]@)
                    },
            decreases nn - j,
        {
            let ghost name = names@[j as int]@;
            proof {
                assert(spec_distinct_names(cats)[j as int] == name);
            }
            let mut best: usize = 0;
            let mut found = false;
            let mut k2: usize = 0;
            while k2 < n
                invariant
                    n == self.categories@.len(),
                    cats == self.categories@,
                    nn == names@.len(),
                    j < nn,
                    name == names@[j as int]@,
                    k2 <= n,
                    found ==> best < k2 && cats[best as int].name@ == name,
                    spec_last_with_name(cats.take(k2 as int), name) == if found {
                        best as int
                    } else {
                        -1int
                    },
                decreases n - k2,
            {
                proof {
                    assert(cats.take(k2 + 1).drop_last() =~= cats.take(k2 as int));
                    assert(cats.take(k2 + 1).last() == cats[k2 as int]);
                }
                if crate::strutil::str_eq(self.categories[k2].name.as_str(), names[j].as_str()) {
                    best = k2;
                    found = true;
                }
                k2 = k2 + 1;
            }
            proof {
                assert(cats.take(n as int) =~= cats);
            }
            if found {
                let ghost prev = rv@;
                rv.push((names[j].clone(), self.categories[best].clone()));
                proof {
                    assert(rv@.map_values(|p: (String, Category)| p.0@) =~= prev.map_values(
                        |p: (String, Category)| p.0@,
                    ).push(name));
                    assert(spec_distinct_names(cats).take(j + 1) =~= spec_distinct_names(
                        cats,
                    ).take(j as int).push(name));
                    let m = prev.len() as int;
                    assert(spec_last_with_name(cats, name) == best as int);
                    assert(rv@[m].0@ == name);
                    assert(rv@[m].1.name@ == cats[best as int].name@);
                    assert(rv@[m].1.labels@.len() == cats[best as int].labels@.len());
                    assert(forall|t: int|
                        0 <= t < cats[best as int].labels@.len()
                            ==> (#[trigger] rv@[m].1.labels@[t])@
                            == cats[best as int].labels@[t]@);
                    assert(forall|m2: int| 0 <= m2 < prev.len() ==> rv@[m2] == prev[m2]);
                }
            } else {
                proof {
                    assert(spec_last_with_name(cats, name) == -1);
                    assert(false);
                }
            }
            j = j + 1;
        }
        proof {
            assert(spec_distinct_names(cats).take(nn as int) =~= spec_distinct_names(cats));
        }
        rv
    }
}

/// The index of the first pair bearing `name`; `-1` when there is none.
pub open spec fn spec_category_index(pairs: Seq<(String, Category)>, name: Seq<char>) -> int
    decreases pairs.len(),
{
    if pairs.len() == 0 {
        -1
    } else if pairs[0].0@ == name {
        0
    } else {
        let r = spec_category_index(pairs.drop_first(), name);
        if r < 0 {
            -1
        } else {
            r + 1
        }
    }
}

proof fn lemma_category_index_found(pairs: Seq<(String, Category)>, name: Seq<char>, k: int)
    requires
        0 <= k < pairs.len(),
        pairs[k].0@ == name,
        forall|m: int| 0 <= m < k ==> (#[trigger] pairs[m]).0@ != name,
    ensures
        spec_category_index(pairs, name) == k,
    decreases k,
{
    if k > 0 {
        assert(forall|m: int|
            0 <= m < pairs.drop_first().len() ==> pairs.drop_first()[m] == pairs[m + 1]);
        lemma_category_index_found(pairs.drop_first(), name, k - 1);
    }
}

proof fn lemma_category_index_none(pairs: Seq<(String, Category)>, name: Seq<char>)
    requires
        forall|m: int| 0 <= m < pairs.len() ==> (#[trigger] pairs[m]).0@ != name,
    ensures
        spec_category_index(pairs, name) == -1,
    decreases pairs.len(),
{
    if pairs.len() > 0 {
        assert(forall|m: int|
            0 <= m < pairs.drop_first().len() ==> pairs.drop_first()[m] == pairs[m + 1]);
        lemma_category_index_none(pairs.drop_first(), name);
    }
}

/// The category of the first pair bearing the given name, if any.
pub fn category_by_name<'a>(pairs: &'a Vec<(String, Category)>, name: &str) -> (r: Option<
    &'a Category,
>)
    ensures
        r is Some <==> spec_category_index(pairs@, name@) >= 0,
        (r matches Some(c) ==> *c == pairs@[spec_category_index(pairs@, name@)].1),
{
    let n = pairs.len();
    let mut i: usize = 0;
    while i < n
        invariant
            n == pairs@.len(),
            i <= n,
            forall|m: int| 0 <= m < i ==> (#[trigger] pairs@[m]).0@ != name@,
        decreases n - i,
    {
        if str_eq(pairs[i].0.as_str(), name) {
            proof {
                lemma_category_index_found(pairs@, name@, i as int);
            }
            return Some(&pairs[i].1);
        }
        i = i + 1;
    }
    proof {
        lemma_category_index_none(pairs@, name@);
    }
    None
}

/// Request builder for the category-label document.
pub struct CategoryData {}

impl CategoryData {
    pub fn new() -> (r: CategoryData) {
        CategoryData {  }
    }

    /// The fixed URL of the category-label document.
    pub fn url(&self) -> (r: String)
        ensures
            r@
                == "https://raw.githubusercontent.com/web-platform-tests/results-analysis/main/interop-scoring/category-data.json"@,
    {
        "https://raw.githubusercontent.com/web-platform-tests/results-analysis/main/interop-scoring/category-data.json".to_owned()
    }
}

/// Which release channel's runs a score table covers.
#[derive(Clone, Copy, Debug, PartialEq, Eq, Structural)]
pub enum BrowserChannel {
    Stable,
    Experimental,
}

impl BrowserChannel {
    /// The channel's lowercase token, as it appears in URLs.
    pub fn as_str(&self) -> (r: &'static str)
        ensures
            r@ == match self {
                BrowserChannel::Stable => "stable"@,
                BrowserChannel::Experimental => "experimental"@,
            },
    {
        match self {
            BrowserChannel::Stable => "stable",
            BrowserChannel::Experimental => "experimental",
        }
    }
}

/// One row of a score table: column name to value, in column order.
pub type ScoreRow = Vec<(String, String)>;

/// The value of the first row cell with the given key.
pub open spec fn spec_row_lookup(row: Seq<(String, String)>, key: Seq<char>) -> Option<Seq<char>>
    decreases row.len(),
{
    if row.len() == 0 {
        None
    } else if row[0].0@ == key {
        Some(row[0].1@)
    } else {
        spec_row_lookup(row.drop_first(), key)
    }
}

proof fn lemma_row_lookup_found(row: Seq<(String, String)>, key: Seq<char>, k: int)
    requires
        0 <= k < row.len(),
        row[k].0@ == key,
        forall|m: int| 0 <= m < k ==> (#[trigger] row[m]).0@ != key,
    ensures
        spec_row_lookup(row, key) == Some(row[k].1@),
    decreases k,
{
    if k > 0 {
        assert(forall|m: int| 0 <= m < row.drop_first().len() ==> row.drop_first()[m] == row[m + 1]);
        lemma_row_lookup_found(row.drop_first(), key, k - 1);
    }
}

proof fn lemma_row_lookup_none(row: Seq<(String, String)>, key: Seq<char>)
    requires
        forall|m: int| 0 <= m < row.len() ==> (#[trigger] row[m]).0@ != key,
    ensures
        spec_row_lookup(row, key) is None,
    decreases row.len(),
{
    if row.len() > 0 {
        assert(forall|m: int| 0 <= m < row.drop_first().len() ==> row.drop_first()[m] == row[m + 1]);
        lemma_row_lookup_none(row.drop_first(), key);
    }
}

/// The value of the first column of the given name, if any.
pub fn row_get<'a>(row: &'a ScoreRow, key: &str) -> (r: Option<&'a String>)
    ensures
        match r {
            Some(v) => spec_row_lookup(row@, key@) == Some(v@),
            None => spec_row_lookup(row@, key@) is None,
        },
{
    let n = row.len();
    let mut i: usize = 0;
    while i < n
        invariant
            n == row@.len(),
            i <= n,
            forall|m: int| 0 <= m < i ==> (#[trigger] row@[m]).0@ != key@,
        decreases n - i,
    {
        if str_eq(row[i].0.as_str(), key) {
            proof {
                lemma_row_lookup_found(row@, key@, i as int);
            }
            return Some(&row[i].1);
        }
        i = i + 1;
    }
    proof {
        lemma_row_lookup_none(row@, key@);
    }
    None
}

/// Request builder for a year's score table.
pub struct ScoreData {
    pub channel: BrowserChannel,
}

impl ScoreData {
    pub fn new(channel: BrowserChannel) -> (r: ScoreData)
        ensures
            r.channel == channel,
    {
        ScoreData { channel }
    }

    /// The fixed URL of the channel's score table.
    pub fn url(&self) -> (r: String)
        ensures
            r@
                == "https://raw.githubusercontent.com/web-platform-tests/results-analysis/gh-pages/data/interop-2023/interop-2023-"@
                + (match self.channel {
                BrowserChannel::Stable => "stable"@,
                BrowserChannel::Experimental => "experimental"@,
            }) + "-v2.csv"@,
    {
        let mut s =
            "https://raw.githubusercontent.com/web-platform-tests/results-analysis/gh-pages/data/interop-2023/interop-2023-".to_owned();
        s.append(self.channel.as_str());
        s.append("-v2.csv");
        s
    }
}

} // verus!
