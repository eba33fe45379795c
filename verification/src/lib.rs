//! Discovery of stacked review requests.
//!
//! Given an in-memory cache of fetched review-request records and the list of
//! currently open request numbers, the resolver reconstructs the chain
//! ("stack") of requests that depend on one another: by an explicit stack
//! declaration in a request body, by matching base/head branch names, or by
//! free-text dependency phrases such as "depends on #12".

pub mod extract;
pub mod pr;
pub mod render;
pub mod resolve;
pub mod sort;
pub mod text;
pub mod url;
