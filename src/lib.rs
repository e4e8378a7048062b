//! Succinct rank/select bit vectors.
//!
//! `BitVector` is the plain packed bit store, which answers rank and select by
//! scanning. `FastRASBVec` adds a cache-line packed rank directory and a
//! megablock sample so that rank and select run in (nearly) constant time.
//! `NaiveBitVector` keeps one `bool` per bit as a reference. All of them
//! answer through `RankSelectVector`, specified against the mathematical
//! model in `model`; `laws` states what follows for every one of them.
pub mod bvec;
pub mod fast_bvec;
pub mod input;
pub mod laws;
pub mod model;
pub mod naive_bvec;
pub mod params;
pub mod query;
pub mod record;
pub mod sampling;
pub mod word;
