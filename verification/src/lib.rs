//! A batched boolean set-algebra query engine over per-sample k-mer
//! sketches: samples are summarised as sketches of their fixed-length
//! sequence words, and a query of four term groups (mandatory
//! intersection, any-of groups, exclude-if-common groups, mandatory
//! exclusion) is evaluated against a store of encoded sketches.
use vstd::prelude::*;

pub mod codec;
pub mod groups;
pub mod laws;
pub mod output;
pub mod parse;
pub mod query;
pub mod reduce;
pub mod sketch;
pub mod store;

verus! {

/// Length of every sequence word (k-mer) held in a sketch.
pub const KMER_LEN: usize = 21;

/// A k-mer is valid when it has exactly the fixed word length.
pub open spec fn is_kmer(w: Seq<u8>) -> bool {
    w.len() == KMER_LEN
}

/// Why a query fails. Every failure aborts the whole query: no partial
/// result is returned.
#[derive(Clone, Copy, Debug, PartialEq, Eq, Structural)]
pub enum QueryError {
    /// A referenced sample has no persisted sketch.
    MissingSketch(i32),
    /// A referenced sample's persisted bytes do not decode.
    CorruptSketch(i32),
    /// An intersection was requested over zero locations.
    EmptyInput,
    /// A malformed term-group record.
    InvalidQuerySpec,
}

} // verus!
