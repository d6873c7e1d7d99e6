//! The fetch collaborator that both scrapers depend on. A live
//! implementation performs the network I/O outside this crate; tests inject
//! fixture-backed implementations.

use vstd::prelude::*;

use crate::error::Error;
use crate::metallum::MetallumReleases;
use crate::wiki::WikiDoc;

verus! {

/// The capability interface of the external sources.
pub trait Client {
    /// Fetches the wiki-style document for `year`, reduced to its month
    /// tables, or fails with a transport error.
    fn fetch_document(&self, year: i32) -> Result<WikiDoc, Error>;

    /// Fetches one page of the paginated release listing; `None` signals the
    /// end of the data (a failed fetch is treated the same way).
    fn fetch_metallum(&self, page: u16) -> Option<MetallumReleases>;

    /// Looks up a streaming page for `artist`, best effort.
    fn get_bandcamp_link(&self, artist: &str) -> Option<String>;
}

} // verus!
