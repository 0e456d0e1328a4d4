//! A request-routing and middleware-dispatch core for an HTTP server.
//!
//! Path patterns are registered into a segment trie, one trie per HTTP
//! method.  A pattern is a `/`-separated template whose segments are either
//! literal text, a `:name` parameter binding one path segment, or a `*name`
//! wildcard binding all remaining segments.  Requests are resolved to a
//! terminal trie node plus extracted parameters; ordered middleware chains
//! (global and per-scope) wrap the matched handler in onion style.
//!
//! The routing logic here is synchronous and fully verified; the network
//! transport, response construction and handler invocation live outside
//! this crate and drive it through plain values.

pub mod engine;
pub mod laws;
pub mod middleware;
pub mod params;
pub mod pattern;
pub mod router;
pub mod swagger;
pub mod text;
pub mod trie;
