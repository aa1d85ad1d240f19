use vstd::prelude::*;

pub use crate::decoder::{CatchResult, Statistics};



verus! {

/// How an encoder chooses the droplets it emits.
#[derive(Clone, Copy, Debug, PartialEq, Eq, Structural)]
pub enum EncoderType {
    /// The first k droplets carry the k source symbols unchanged, in order;
    /// after that the encoder continues as in `Random`.
    Systematic,
    /// Every droplet is a random combination of source symbols.
    Random,
}

/// The header of a droplet: which source symbols its payload combines.
#[derive(Clone, Copy, Debug, PartialEq, Eq, Structural)]
pub enum DropType {
    /// A seed and a degree: the combined indices are the first `degree` draws
    /// of the index sampler seeded with `seed` over the symbol range.
    Seeded(u64, usize),
    /// The payload is the unmodified source symbol of this index.
    Edges(usize),
}

/// Why an encoder, a decoder or a degree distribution could not be built.
#[derive(Clone, Copy, Debug, PartialEq, Eq, Structural)]
pub enum ConfigError {
    /// The symbol size is zero.
    ZeroBlocksize,
    /// The message is empty, so there are no source symbols.
    EmptyMessage,
    /// A degree distribution over zero symbols was asked for.
    ZeroChunks,
    /// The spike position lies outside `1..=k`.
    SpikeOutOfRange,
    /// The cumulative degree weights do not fit in 64 bits.
    WeightOverflow,
    /// All degree weights are zero.
    ZeroWeight,
    /// The degree distribution was built for another number of symbols.
    ChunkCountMismatch,
}

/// Why a decoder refused a droplet. A refused droplet leaves the decoder unchanged.
#[derive(Clone, Copy, Debug, PartialEq, Eq, Structural)]
pub enum DropletError {
    /// The decoder has already reconstructed the message.
    AlreadyFinished,
    /// The payload is not exactly one symbol long.
    PayloadLength,
    /// A systematic droplet names an index outside the symbol range.
    IndexOutOfRange,
    /// A seeded droplet has degree zero.
    ZeroDegree,
    /// A seeded droplet has a degree larger than the number of symbols.
    DegreeTooLarge,
    /// The tag byte of an encoded droplet is neither 0 nor 1.
    UnknownTag,
    /// An encoded droplet is shorter than its header and payload.
    Truncated,
}

} // verus!
