//! A memory-bounded caching layer for a small reverse HTTP proxy.
//!
//! The crate provides an LRU store with per-entry absolute expiry and an
//! aggregate memory budget ([`cache`]), a byte-level model of HTTP
//! messages ([`headers`], [`message`]), the policies that decide which
//! requests and responses may be cached ([`policy`]), the header
//! transformations applied on the proxy path ([`transform`]), and the
//! cache-around-upstream pipeline itself ([`proxy`]).
//!
//! Time is a plain `u64` count of milliseconds; callers pass the current
//! instant explicitly, so every operation is deterministic and fully
//! specified.

pub mod cache;
pub mod headers;
pub mod message;
pub mod policy;
pub mod proxy;
pub mod transform;
