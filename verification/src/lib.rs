//! Client-side logic for the wpt.fyi results service: request builders for
//! the runs, search and metadata endpoints, a boolean query language with its
//! wire encoding, alignment of per-browser test runs by revision, an
//! append-only ledger of processed revisions, and reduction of search
//! responses into failure counts.

use vstd::prelude::*;

pub mod error;
pub mod interop;
pub mod landings;
pub mod metadata;
pub mod result;
pub mod run;
pub mod scores;
pub mod search;
pub mod strutil;
pub mod sync;
pub mod urlenc;

verus! {

/// Entry point tying the request builders to one results-service host.
pub struct Wptfyi {
    pub host: String,
}

impl Wptfyi {
    /// With no host given, the public wpt.fyi instance is used.
    pub fn new(host: Option<String>) -> (r: Wptfyi)
        ensures
            match host {
                Some(h) => r.host@ == h@,
                None => r.host@ == "wpt.fyi"@,
            },
    {
        Wptfyi {
            host: match host {
                Some(h) => h,
                None => "wpt.fyi".to_owned(),
            },
        }
    }

    /// A runs-listing request builder for this host.
    pub fn runs(&self) -> (r: run::Runs)
        ensures
            r.host@ == self.host@,
            r.products@.len() == 0,
            r.labels@.len() == 0,
            r.max_count is None,
    {
        run::Runs::new(self.host.clone())
    }

    /// A search request builder for this host.
    pub fn search(&self) -> (r: search::Search)
        ensures
            r.host@ == self.host@,
            r.products@.len() == 0,
            r.labels@.len() == 0,
            r.body is None,
    {
        search::Search::new(self.host.clone())
    }

    /// An interop-metadata request builder for this host.
    pub fn interop_data(&self) -> (r: interop::InteropData)
        ensures
            r.host@ == self.host@,
    {
        interop::InteropData::new(self.host.clone())
    }

    /// The category-label request builder.
    pub fn interop_categories(&self) -> (r: interop::CategoryData) {
        interop::CategoryData::new()
    }

    /// A metadata request builder for this host.
    pub fn metadata(&self) -> (r: metadata::Metadata)
        ensures
            r.host@ == self.host@,
            r.products@.len() == 0,
    {
        metadata::Metadata::new(self.host.clone())
    }

    /// A score-table request builder for the given channel.
    pub fn interop_scores(&self, browser_channel: interop::BrowserChannel) -> (r: interop::ScoreData)
        ensures
            r.channel == browser_channel,
    {
        interop::ScoreData::new(browser_channel)
    }
}

} // verus!
