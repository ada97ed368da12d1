//! The metadata endpoint: per-test annotations such as bug-tracker links,
//! and the request builder for fetching them.

use vstd::prelude::*;

use crate::run::product_label_pairs;
use crate::run::spec_pl_pairs;
use crate::strutil::string_views;
use crate::urlenc::build_url;
use crate::urlenc::pair_views;
use crate::urlenc::spec_url;

verus! {

/// Request builder for the metadata endpoint.
pub struct Metadata {
    pub host: String,
    pub products: Vec<String>,
}

/// The query pairs of a metadata request: one `product` pair per product,
/// then `includeTestLevel=true`.
pub open spec fn spec_metadata_pairs(products: Seq<Seq<char>>) -> Seq<(Seq<char>, Seq<char>)> {
    products.map_values(|p: Seq<char>| ("product"@, p)).push(("includeTestLevel"@, "true"@))
}

impl Metadata {
    pub fn new(host: String) -> (r: Metadata)
        ensures
            r.host@ == host@,
            r.products@.len() == 0,
    {
        Metadata { host, products: Vec::new() }
    }

    /// Restricts the metadata to one more product, by bare name.
    pub fn add_product(&mut self, name: &str)
        ensures
            final(self).host == old(self).host,
            final(self).products@.len() == old(self).products@.len() + 1,
            forall|i: int|
                0 <= i < old(self).products@.len() ==> final(self).products@[i] == old(
                    self,
                ).products@[i],
            final(self).products@.last()@ == name@,
    {
        self.products.push(name.to_owned());
    }

    /// The full URL of the configured metadata request.
    pub fn url(&self) -> (r: String)
        ensures
            r@ == spec_url(
                self.host@,
                "/api/metadata"@,
                spec_metadata_pairs(string_views(self.products@)),
            ),
    {
        let labels: Vec<String> = Vec::new();
        let mut pairs = product_label_pairs(&self.products, &labels);
        let ghost prev = pairs@;
        pairs.push(("includeTestLevel".to_owned(), "true".to_owned()));
        proof {
            assert(string_views(labels@).map_values(|l: Seq<char>| ("label"@, l))
                =~= Seq::<(Seq<char>, Seq<char>)>::empty());
            assert(pair_views(prev) =~= string_views(self.products@).map_values(
                |p: Seq<char>| ("product"@, p),
            ));
            assert(pair_views(pairs@) =~= pair_views(prev).push(("includeTestLevel"@, "true"@)));
            assert(pair_views(pairs@) =~= spec_metadata_pairs(string_views(self.products@)));
        }
        build_url(self.host.as_str(), "/api/metadata", &pairs)
    }
}

/// One metadata annotation on a test: which product it concerns, the link it
/// carries, and optional per-subtest results.
pub struct MetadataEntry {
    pub product: String,
    pub url: String,
    pub results: Vec<MetadataResult>,
    pub label: String,
}

/// A per-subtest metadata result.
pub struct MetadataResult {
    pub subtest: Option<String>,
    pub status: Option<u64>,
}

} // verus!
