//! The runs endpoint: a request builder for listing test runs, and grouping
//! of fetched runs by the revision they were run against.

use vstd::prelude::*;
use vstd::string::StringExecFns;

use crate::result::Run;
use crate::strutil::spec_dec;
use crate::strutil::i64_to_string;
use crate::strutil::str_eq;
use crate::strutil::string_views;
use crate::strutil::vec_contains_str;
use crate::urlenc::build_url;
use crate::urlenc::pair_views;
use crate::urlenc::spec_url;

verus! {

/// The `name[channel]` product selector understood by the service.
pub open spec fn spec_product_tag(name: Seq<char>, channel: Seq<char>) -> Seq<char> {
    name + "["@ + channel + "]"@
}

/// Builds the `name[channel]` product selector.
pub fn product_tag(name: &str, channel: &str) -> (r: String)
    ensures
        r@ == spec_product_tag(name@, channel@),
{
    let mut s = name.to_owned();
    s.append("[");
    s.append(channel);
    s.append("]");
    s
}

/// The `product` and `label` query pairs shared by the endpoints.
pub open spec fn spec_pl_pairs(products: Seq<Seq<char>>, labels: Seq<Seq<char>>) -> Seq<
    (Seq<char>, Seq<char>),
> {
    products.map_values(|p: Seq<char>| ("product"@, p)) + labels.map_values(
        |l: Seq<char>| ("label"@, l),
    )
}

/// Builds the `product` and `label` query pairs.
pub fn product_label_pairs(products: &Vec<String>, labels: &Vec<String>) -> (pairs: Vec<
    (String, String),
>)
    ensures
        pair_views(pairs@) == spec_pl_pairs(string_views(products@), string_views(labels@)),
{
    let mut pairs: Vec<(String, String)> = Vec::new();
    let np = products.len();
    let mut i: usize = 0;
    while i < np
        invariant
            np == products@.len(),
            i <= np,
            pair_views(pairs@) =~= string_views(products@).take(i as int).map_values(
                |p: Seq<char>| ("product"@, p),
            ),
        decreases np - i,
    {
        let ghost prev = pairs@;
        pairs.push(("product".to_owned(), products[i].clone()));
        proof {
            let pv = string_views(products@);
            assert(pair_views(pairs@) =~= pair_views(prev).push(("product"@, pv[i as int])));
            assert(pv.take(i + 1) =~= pv.take(i as int).push(pv[i as int]));
            assert(pv.take(i + 1).map_values(|p: Seq<char>| ("product"@, p)) =~= pv.take(
                i as int,
            ).map_values(|p: Seq<char>| ("product"@, p)).push(("product"@, pv[i as int])));
            assert(pair_views(pairs@) =~= pv.take(i + 1).map_values(
                |p: Seq<char>| ("product"@, p),
            ));
        }
        i = i + 1;
    }
    let nl = labels.len();
    let mut j: usize = 0;
    while j < nl
        invariant
            np == products@.len(),
            nl == labels@.len(),
            j <= nl,
            pair_views(pairs@) =~= string_views(products@).map_values(
                |p: Seq<char>| ("product"@, p),
            ) + string_views(labels@).take(j as int).map_values(|l: Seq<char>| ("label"@, l)),
        decreases nl - j,
    {
        let ghost prev = pairs@;
        pairs.push(("label".to_owned(), labels[j].clone()));
        proof {
            let lv = string_views(labels@);
            assert(pair_views(pairs@) =~= pair_views(prev).push(("label"@, lv[j as int])));
            assert(lv.take(j + 1) =~= lv.take(j as int).push(lv[j as int]));
            assert(lv.take(j + 1).map_values(|l: Seq<char>| ("label"@, l)) =~= lv.take(
                j as int,
            ).map_values(|l: Seq<char>| ("label"@, l)).push(("label"@, lv[j as int])));
            assert(pair_views(pairs@) =~~= string_views(products@).map_values(
                |p: Seq<char>| ("product"@, p),
            ) + lv.take(j + 1).map_values(|l: Seq<char>| ("label"@, l)));
        }
        j = j + 1;
    }
    proof {
        assert(string_views(products@).take(np as int) =~= string_views(products@));
        assert(string_views(labels@).take(nl as int) =~= string_views(labels@));
    }
    pairs
}

/// The query pairs of a runs request: one `product` pair per product, one
/// `label` pair per label, then `max-count` when set.
pub open spec fn spec_runs_pairs(
    products: Seq<Seq<char>>,
    labels: Seq<Seq<char>>,
    max_count: Option<i64>,
) -> Seq<(Seq<char>, Seq<char>)> {
    spec_pl_pairs(products, labels) + match max_count {
        Some(c) => seq![("max-count"@, spec_dec(c as int))],
        None => Seq::<(Seq<char>, Seq<char>)>::empty(),
    }
}

/// Request builder for the runs listing endpoint.
pub struct Runs {
    pub host: String,
    pub products: Vec<String>,
    pub labels: Vec<String>,
    pub max_count: Option<i64>,
}

impl Runs {
    pub fn new(host: String) -> (r: Runs)
        ensures
            r.host@ == host@,
            r.products@.len() == 0,
            r.labels@.len() == 0,
            r.max_count is None,
    {
        Runs { host, products: Vec::new(), labels: Vec::new(), max_count: None }
    }

    /// Restricts the listing to one more product, `name[channel]`.
    pub fn add_product(&mut self, name: &str, channel: &str)
        ensures
            final(self).host == old(self).host,
            final(self).labels == old(self).labels,
            final(self).max_count == old(self).max_count,
            final(self).products@.len() == old(self).products@.len() + 1,
            forall|i: int|
                0 <= i < old(self).products@.len() ==> final(self).products@[i] == old(
                    self,
                ).products@[i],
            final(self).products@.last()@ == spec_product_tag(name@, channel@),
    {
        self.products.push(product_tag(name, channel));
    }

    /// Restricts the listing to runs carrying one more label.
    pub fn add_label(&mut self, label: &str)
        ensures
            final(self).host == old(self).host,
            final(self).products == old(self).products,
            final(self).max_count == old(self).max_count,
            final(self).labels@.len() == old(self).labels@.len() + 1,
            forall|i: int|
                0 <= i < old(self).labels@.len() ==> final(self).labels@[i] == old(self).labels@[i],
            final(self).labels@.last()@ == label@,
    {
        self.labels.push(label.to_owned());
    }

    /// Caps how many runs the listing returns.
    pub fn set_max_count(&mut self, max_count: i64)
        ensures
            final(self).host == old(self).host,
            final(self).products == old(self).products,
            final(self).labels == old(self).labels,
            final(self).max_count == Some(max_count),
    {
        self.max_count = Some(max_count);
    }

    /// The full URL of the configured runs request.
    pub fn url(&self) -> (r: String)
        ensures
            r@ == spec_url(
                self.host@,
                "/api/runs"@,
                spec_runs_pairs(
                    string_views(self.products@),
                    string_views(self.labels@),
                    self.max_count,
                ),
            ),
    {
        let mut pairs = product_label_pairs(&self.products, &self.labels);
        if let Some(count) = self.max_count {
            let ghost prev = pairs@;
            pairs.push(("max-count".to_owned(), i64_to_string(count)));
            proof {
                assert(pair_views(pairs@) =~= pair_views(prev).push(
                    ("max-count"@, spec_dec(count as int)),
                ));
            }
        }
        proof {
            assert(pair_views(pairs@) =~= spec_runs_pairs(
                string_views(self.products@),
                string_views(self.labels@),
                self.max_count,
            ));
        }
        build_url(self.host.as_str(), "/api/runs", &pairs)
    }
}

/// The distinct revisions of `runs`, each at the position of its first
/// occurrence.
pub open spec fn spec_distinct_revs(runs: Seq<Run>) -> Seq<Seq<char>>
    decreases runs.len(),
{
    if runs.len() == 0 {
        Seq::empty()
    } else {
        let init = spec_distinct_revs(runs.drop_last());
        if init.contains(runs.last().full_revision_hash@) {
            init
        } else {
            init.push(runs.last().full_revision_hash@)
        }
    }
}

/// The indices of the runs whose revision is `rev`, in input order.
pub open spec fn spec_group(runs: Seq<Run>, rev: Seq<char>) -> Seq<int>
    decreases runs.len(),
{
    if runs.len() == 0 {
        Seq::empty()
    } else {
        let init = spec_group(runs.drop_last(), rev);
        if runs.last().full_revision_hash@ == rev {
            init.push(runs.len() - 1)
        } else {
            init
        }
    }
}

/// The distinct revisions contain no duplicates.
pub proof fn lemma_distinct_revs_no_dup(runs: Seq<Run>)
    ensures
        forall|i: int, j: int|
            0 <= i < j < spec_distinct_revs(runs).len() ==> #[trigger] spec_distinct_revs(runs)[i]
                != #[trigger] spec_distinct_revs(runs)[j],
    decreases runs.len(),
{
    if runs.len() > 0 {
        lemma_distinct_revs_no_dup(runs.drop_last());
        let init = spec_distinct_revs(runs.drop_last());
        let whole = spec_distinct_revs(runs);
        if !init.contains(runs.last().full_revision_hash@) {
            assert(forall|i: int| 0 <= i < init.len() ==> #[trigger] whole[i] == init[i]);
            assert(forall|i: int|
                0 <= i < init.len() ==> #[trigger] init[i] != runs.last().full_revision_hash@);
        }
    }
}

/// Groups runs by their full revision hash.  The keys are the distinct
/// revisions in first-occurrence order; each group lists the indices of that
/// revision's runs in input order.
pub fn runs_by_commit(runs: &Vec<Run>) -> (groups: Vec<(String, Vec<usize>)>)
    ensures
        groups@.map_values(|g: (String, Vec<usize>)| g.0@) =~= spec_distinct_revs(runs@),
        forall|j: int|
            0 <= j < groups@.len() ==> (#[trigger] groups@[j]).1@.map_values(|u: usize| u as int)
                == spec_group(runs@, groups@[j].0@),
        forall|j: int, t: int|
            0 <= j < groups@.len() && 0 <= t < groups@[j].1@.len() ==> #[trigger] groups@[j].1@[t]
                < runs@.len(),
{
    let n = runs.len();
    let mut keys: Vec<String> = Vec::new();
    let mut k: usize = 0;
    while k < n
        invariant
            n == runs@.len(),
            k <= n,
            string_views(keys@) =~= spec_distinct_revs(runs@.take(k as int)),
        decreases n - k,
    {
        proof {
            assert(runs@.take(k + 1).drop_last() =~= runs@.take(k as int));
            assert(runs@.take(k + 1).last() == runs@[k as int]);
        }
        if !vec_contains_str(&keys, runs[k].full_revision_hash.as_str()) {
            keys.push(runs[k].full_revision_hash.clone());
            proof {
                assert(string_views(keys@) =~= spec_distinct_revs(runs@.take(k as int)).push(
                    runs@[k as int].full_revision_hash@,
                ));
            }
        }
        k = k + 1;
    }
    proof {
        assert(runs@.take(n as int) =~= runs@);
    }
    let nk = keys.len();
    let mut groups: Vec<(String, Vec<usize>)> = Vec::new();
    let mut j: usize = 0;
    while j < nk
        invariant
            n == runs@.len(),
            nk == keys@.len(),
            j <= nk,
            string_views(keys@) =~= spec_distinct_revs(runs@),
            groups@.map_values(|g: (String, Vec<usize>)| g.0@) =~= string_views(keys@).take(
                j as int,
            ),
            forall|m: int|
                0 <= m < groups@.len() ==> (#[trigger] groups@[m]).1@.map_values(|u: usize| u as int)
                    == spec_group(runs@, groups@[m].0@),
            forall|m: int, t: int|
                0 <= m < groups@.len() && 0 <= t < groups@[m].1@.len() ==> #[trigger] groups@[m].1@[t]
                    < runs@.len(),
        decreases nk - j,
    {
        let mut idxs: Vec<usize> = Vec::new();
        let mut k2: usize = 0;
        while k2 < n
            invariant
                n == runs@.len(),
                nk == keys@.len(),
                j < nk,
                k2 <= n,
                idxs@.map_values(|u: usize| u as int) =~= spec_group(
                    runs@.take(k2 as int),
                    keys@[j as int]@,
                ),
                forall|t: int| 0 <= t < idxs@.len() ==> #[trigger] idxs@[t] < runs@.len(),
            decreases n - k2,
        {
            proof {
                assert(runs@.take(k2 + 1).drop_last() =~= runs@.take(k2 as int));
                assert(runs@.take(k2 + 1).last() == runs@[k2 as int]);
            }
            if str_eq(runs[k2].full_revision_hash.as_str(), keys[j].as_str()) {
                idxs.push(k2);
                proof {
                    assert(idxs@.map_values(|u: usize| u as int) =~= spec_group(
                        runs@.take(k2 as int),
                        keys@[j as int]@,
                    ).push(k2 as int));
                }
            }
            k2 = k2 + 1;
        }
        proof {
            assert(runs@.take(n as int) =~= runs@);
        }
        groups.push((keys[j].clone(), idxs));
        proof {
            assert(string_views(keys@).take(j + 1) =~= string_views(keys@).take(j as int).push(
                keys@[j as int]@,
            ));
            assert(groups@.map_values(|g: (String, Vec<usize>)| g.0@) =~= string_views(keys@).take(
                j + 1,
            ));
        }
        j = j + 1;
    }
    proof {
        assert(string_views(keys@).take(nk as int) =~= string_views(keys@));
    }
    groups
}

} // verus!
