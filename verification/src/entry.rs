//! A single retained sample of the stream.

use vstd::prelude::*;

verus! {

/// One retained sample: its value `v`, the number `g` of stream elements it
/// stands for in the cumulative rank, and the rank-error allowance `delta`
/// granted to it when it was inserted.
#[derive(Clone, Copy, Debug, PartialEq, Eq, Structural)]
pub struct Entry {
    /// The sampled value.
    pub v: i64,
    /// The gap: how many stream elements this entry contributes to the
    /// cumulative rank.
    pub g: usize,
    /// The rank-error allowance: an upper bound on how far the true rank of
    /// `v` may sit above the rank implied by the gaps up to this entry.
    pub delta: usize,
}

} // verus!
