//! Core logic of a notification-API client: it reconciles the URL list of a
//! configured content source (a sitemap tree or a syndication feed) against
//! previously recorded per-source state, classifies each URL as new, modified
//! or unchanged, and prepares size-bounded submission batches for the remote
//! bulk-notification endpoint.
//!
//! All network and database traffic stays outside this crate: the traversal
//! and the batch protocol are exposed as step machines that a driver feeds
//! with fetched documents and response status codes.

pub mod config;
pub mod detect;
pub mod entry;
pub mod feed;
pub mod sitemap;
pub mod submit;
pub mod textscan;
pub mod traverse;

pub use entry::Source;
pub use entry::SourceType;
pub use entry::SubmitEntry;
pub use entry::SubmitReason;
pub use entry::UrlEntry;
