//! The error taxonomy shared by the scrapers: every failure of a scrape run
//! is terminal for that run and is reported through one of these variants.

use vstd::prelude::*;

verus! {

/// Result alias used throughout the crate.
pub type Result<T> = core::result::Result<T, Error>;

/// A terminal failure of a scrape run.
#[derive(Debug, PartialEq, Eq, Structural)]
pub enum Error {
    /// A required anchor or field was absent while decoding a record.
    NoItem,
    /// A date or numeric field could not be parsed.
    ParseFail,
    /// A transport-level fetch failure.
    RequestFail,
    /// The selector or query engine itself failed.
    ScraperFail,
    /// A required configuration value was absent from the environment.
    MissingEnv,
}

} // verus!
