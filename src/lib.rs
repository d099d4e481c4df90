//! Checks stored credentials against a breached-password corpus through a
//! k-anonymity range query: only a five-character digest prefix ever leaves
//! the machine.
//!
//! `digests` indexes credentials by prefix, digest and name; `client` reads
//! the replies of the range endpoint; `scan` queries each prefix once and
//! collects the names whose digest is listed.

pub mod text;
pub mod string_set;
pub mod keyed;
pub mod digests;
pub mod error;
pub mod client;
pub mod scan;
