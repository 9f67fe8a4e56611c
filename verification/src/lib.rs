//! Compact binary document representation and a columnar multi-valued
//! fast-field index.
//!
//! A document is one contiguous append-only byte arena together with a root
//! list of (field id, address) pairs.  Every pointer into the arena is a
//! fixed 4-byte record: a type tag and a 24-bit offset, so a document can
//! hold at most 16 MiB of payload.  Values nest arbitrarily: scalars are
//! fixed-width or length-prefixed leaves, arrays and objects are
//! length-prefixed position tables of child records.  Decoding is lazy: a
//! container decodes one child per step and never materializes siblings
//! ahead of need.
//!
//! The multi-valued fast-field index pairs a monotonic per-document offset
//! column with a flat value column, giving constant-time per-document value
//! ranges and a linear position-to-document reverse mapping.

use vstd::prelude::*;

pub mod addr;
pub mod bytes;
pub mod codec;
pub mod doc;
pub mod multivalued;
pub mod value;
pub mod vint;

pub use addr::{Addr, ValueAddr, ValueType};
pub use doc::{
    CompactDoc, CompactDocArrayIter, CompactDocObjectIter, CompactDocValue, FieldValueAddr,
    FieldValueIterRef, ReferenceValue, ReferenceValueLeaf,
};
pub use multivalued::{positions_to_docids, MultiValuedFastFieldReader};
pub use value::{LeafValue, ObjectEntry, OwnedValue};

verus! {

/// Errors of the compact document codec.
#[derive(Clone, Copy, PartialEq, Eq, Structural, Debug)]
pub enum DocError {
    /// An address would need an offset of 2^24 or more.
    ArenaOverflow,
    /// A field id above 65535 was handed to the root table.
    FieldIdOverflow,
    /// A truncated buffer or an invalid length prefix met during decode.
    MalformedData,
    /// A tag byte outside the closed enumeration met during decode.
    UnknownTypeTag,
}

/// A document id in the fast-field index.
pub type DocId = u32;

/// Error that may happen when building a document from JSON input.
/// JSON parsing itself and field resolution live outside this core; this
/// type carries their verdict.
#[derive(Clone, PartialEq, Debug)]
pub enum DocParsingError {
    /// The payload given is not valid JSON; carries a caller-made sample
    /// of the offending input.
    InvalidJson(String),
    /// One of the value nodes could not be stored; carries the field
    /// name and the codec's error.
    ValueError(String, DocError),
}

impl DocParsingError {
    /// Builds the not-JSON error from a sample of the offending input.
    pub fn invalid_json(invalid_json: String) -> (r: DocParsingError)
        ensures
            r == DocParsingError::InvalidJson(invalid_json),
    {
        DocParsingError::InvalidJson(invalid_json)
    }
}

/// A field handle, assigned by an external schema resolver.
#[derive(Clone, Copy, PartialEq, Eq, Structural, Debug)]
pub struct Field {
    id: u32,
}

impl Field {
    /// The field id this handle carries.
    pub closed spec fn spec_field_id(self) -> u32 {
        self.id
    }

    pub fn from_field_id(id: u32) -> (r: Field)
        ensures
            r.spec_field_id() == id,
    {
        Field { id }
    }

    pub fn field_id(&self) -> (r: u32)
        ensures
            r == self.spec_field_id(),
    {
        self.id
    }
}

} // verus!
