//! Chunked aggregation of `key;value` records: statistics per key over a
//! delimited byte buffer, partitioned into record-aligned chunks so that
//! independent workers can each aggregate one chunk and the results can be
//! merged in any order.
#![verifier::loop_isolation(false)]

use vstd::prelude::*;

pub mod aggmap;
pub mod chunk;
pub mod lex;
pub mod output;
pub mod pipeline;
pub mod records;
pub mod stats;
pub mod value;

verus! {

/// The ways a record can fail to parse.
#[derive(Clone, Copy, Debug, PartialEq, Eq, Structural)]
pub enum RecordError {
    /// The record has no `;` separating key from value.
    MissingDelimiter,
    /// The key span before the `;` is empty.
    EmptyKey,
    /// The value span does not match `-?[0-9]+\.[0-9]`, or is too large to
    /// represent.
    MalformedValue,
}

} // verus!
