//! Canonicalization and decomposition of percent-encoded file-route paths.
//!
//! Many byte-distinct request strings are equivalent locators for the same
//! file resource. This crate picks one canonical percent-encoded
//! representative per equivalence class, decides whether a request must be
//! redirected to it, and splits the canonical path into an owner identifier
//! and a resource path, optionally extracting a file ID override from the
//! query string.

pub mod api;
pub mod laws;
pub mod locator;
pub mod percent;
pub mod text;

pub use locator::canonicalize;
pub use locator::concat_path_and_query;
pub use locator::get_queried_file_id;
pub use locator::parse_file_route_path;
pub use locator::MalformedEncoding;
pub use locator::Resolution;
