//! A per-year calendar of heavy-metal album releases, assembled from two
//! scraped sources: a wiki-style page of monthly tables and a paginated
//! metal-database listing. The crate normalizes the messy source text,
//! interprets the tabular markup, decodes the paginated records, and merges
//! the two resulting calendars into one deduplicated view.

pub mod calendar;
pub mod client;
pub mod config;
pub mod error;
pub mod metallum;
pub mod text;
pub mod wiki;
