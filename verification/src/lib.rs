//! Core engine of a personal music server: a relational catalog of
//! filesystem nodes, tracks, albums, artists and cover images, the scan
//! pipeline that fills it, a cue-sheet parser, an HTTP request/query parser,
//! a bounded LRU blob cache, the connection state machine and the paginated
//! query layer that backs the HTTP API.

use vstd::prelude::*;

pub mod cache;
pub mod cue;
pub mod http;
pub mod http_util;
pub mod index;
pub mod lyrics;
pub mod query;
pub mod scan;
pub mod server;
pub mod text;
pub mod thumb;

verus! {

/// A named virtual top-level directory; catalog paths are prefixed with the
/// root's name. `path` is the filesystem directory the root maps to.
pub struct Root {
    pub name: Vec<u8>,
    pub path: Vec<u8>,
}

} // verus!
