//! A forward HTTP/1.1 proxy library: request parsing, host blocklisting,
//! freshness evaluation, and a two-tier response cache (an in-memory L1 tier
//! under LRU eviction backed by a durable L2 tier).
//!
//! The library holds the decision logic of the proxy: what a request means,
//! whether a response may be cached and for how long, and how the L1 tier,
//! its LRU queue and the hit counters evolve.  The surrounding process
//! performs the socket and L2 backend round trips and feeds the results to
//! these functions as plain values.

pub mod cache;
pub mod codec;
pub mod entry;
pub mod headers;
pub mod host_filtering;
pub mod parsing;
pub mod pipeline;
pub mod text;
