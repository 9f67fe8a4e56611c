//! The tagged value trees a document holds: leaves, arrays and objects,
//! together with their mathematical form.
//!
//! Text, facet paths and pre-tokenized text are carried as their UTF-8
//! bytes: the codec stores and returns payload bytes and leaves character
//! handling to the caller.  A 64-bit float travels as its raw bit pattern.

use crate::addr::ValueType;
use vstd::prelude::*;

verus! {

broadcast use {vstd::seq::group_seq_axioms, vstd::std_specs::vec::group_vec_axioms};

/// Mathematical form of one value tree.
pub enum SpecValue {
    Null,
    Str(Seq<u8>),
    U64(u64),
    I64(i64),
    F64Bits(u64),
    Date(i64),
    Facet(Seq<u8>),
    Bytes(Seq<u8>),
    IpAddr(u128),
    Bool(bool),
    PreTokStr(Seq<u8>),
    Array(Seq<SpecValue>),
    Object(Seq<(Seq<u8>, SpecValue)>),
}

impl SpecValue {
    /// The kind a value encodes under.
    pub open spec fn type_of(self) -> ValueType {
        match self {
            SpecValue::Null => ValueType::Null,
            SpecValue::Str(_) => ValueType::Str,
            SpecValue::U64(_) => ValueType::U64,
            SpecValue::I64(_) => ValueType::I64,
            SpecValue::F64Bits(_) => ValueType::F64,
            SpecValue::Date(_) => ValueType::Date,
            SpecValue::Facet(_) => ValueType::Facet,
            SpecValue::Bytes(_) => ValueType::Bytes,
            SpecValue::IpAddr(_) => ValueType::IpAddr,
            SpecValue::Bool(_) => ValueType::Bool,
            SpecValue::PreTokStr(_) => ValueType::PreTokStr,
            SpecValue::Array(_) => ValueType::Array,
            SpecValue::Object(_) => ValueType::Object,
        }
    }

    pub open spec fn is_leaf(self) -> bool {
        !(self is Array) && !(self is Object)
    }

    /// Machine bound: every length-prefixed payload, object key included,
    /// is shorter than 2^32, so its length fits the prefix.
    pub open spec fn wf(self) -> bool
        decreases self,
    {
        match self {
            SpecValue::Str(b) => b.len() < 0x1_0000_0000,
            SpecValue::Facet(b) => b.len() < 0x1_0000_0000,
            SpecValue::Bytes(b) => b.len() < 0x1_0000_0000,
            SpecValue::PreTokStr(b) => b.len() < 0x1_0000_0000,
            SpecValue::Array(items) => forall|i: int|
                0 <= i < items.len() ==> (#[trigger] items[i]).wf(),
            SpecValue::Object(entries) => forall|i: int|
                0 <= i < entries.len() ==> ((#[trigger] entries[i]).1.wf() && entries[i].0.len()
                    < 0x1_0000_0000),
            _ => true,
        }
    }
}

/// A leaf value: a scalar or a flat byte payload, never a container.
pub enum LeafValue {
    Null,
    /// UTF-8 bytes of a text value.
    Str(Vec<u8>),
    U64(u64),
    I64(i64),
    /// A 64-bit float as its raw bit pattern.
    F64Bits(u64),
    /// Nanosecond timestamp.
    Date(i64),
    /// Encoded facet path bytes.
    Facet(Vec<u8>),
    Bytes(Vec<u8>),
    /// An IP address as a 128-bit integer, IPv4 widened to the IPv6-mapped
    /// form by the caller.
    IpAddr(u128),
    Bool(bool),
    /// UTF-8 bytes of the text of a pre-tokenized string.
    PreTokStr(Vec<u8>),
}

impl View for LeafValue {
    type V = SpecValue;

    open spec fn view(&self) -> SpecValue {
        match self {
            LeafValue::Null => SpecValue::Null,
            LeafValue::Str(b) => SpecValue::Str(b@),
            LeafValue::U64(n) => SpecValue::U64(*n),
            LeafValue::I64(n) => SpecValue::I64(*n),
            LeafValue::F64Bits(n) => SpecValue::F64Bits(*n),
            LeafValue::Date(n) => SpecValue::Date(*n),
            LeafValue::Facet(b) => SpecValue::Facet(b@),
            LeafValue::Bytes(b) => SpecValue::Bytes(b@),
            LeafValue::IpAddr(n) => SpecValue::IpAddr(*n),
            LeafValue::Bool(b) => SpecValue::Bool(*b),
            LeafValue::PreTokStr(b) => SpecValue::PreTokStr(b@),
        }
    }
}

/// One key/value pair of an object.
pub struct ObjectEntry {
    /// UTF-8 bytes of the key.
    pub key: Vec<u8>,
    pub value: OwnedValue,
}

/// An owned value tree, the input of the encoder.
pub enum OwnedValue {
    Leaf(LeafValue),
    Array(Vec<OwnedValue>),
    Object(Vec<ObjectEntry>),
}

/// The mathematical form of an owned tree.
pub open spec fn view_owned(v: OwnedValue) -> SpecValue
    decreases v,
{
    match v {
        OwnedValue::Leaf(l) => l@,
        OwnedValue::Array(items) => SpecValue::Array(view_owned_seq(items@)),
        OwnedValue::Object(entries) => SpecValue::Object(view_entry_seq(entries@)),
    }
}

/// The mathematical form of a list of elements.
pub open spec fn view_owned_seq(items: Seq<OwnedValue>) -> Seq<SpecValue>
    decreases items,
{
    if items.len() == 0 {
        Seq::empty()
    } else {
        seq![view_owned(items[0])] + view_owned_seq(items.skip(1))
    }
}

/// The mathematical form of a list of object entries.
pub open spec fn view_entry_seq(entries: Seq<ObjectEntry>) -> Seq<(Seq<u8>, SpecValue)>
    decreases entries,
{
    if entries.len() == 0 {
        Seq::empty()
    } else {
        seq![(entries[0].key@, view_owned(entries[0].value))] + view_entry_seq(entries.skip(1))
    }
}

/// `view_owned_seq` maps elementwise.
pub proof fn lemma_view_owned_seq(items: Seq<OwnedValue>)
    ensures
        view_owned_seq(items).len() == items.len(),
        forall|i: int|
            0 <= i < items.len() ==> #[trigger] view_owned_seq(items)[i] == view_owned(items[i]),
    decreases items,
{
    if items.len() > 0 {
        lemma_view_owned_seq(items.skip(1));
    }
}

/// `view_entry_seq` maps elementwise.
pub proof fn lemma_view_entry_seq(entries: Seq<ObjectEntry>)
    ensures
        view_entry_seq(entries).len() == entries.len(),
        forall|i: int|
            0 <= i < entries.len() ==> #[trigger] view_entry_seq(entries)[i] == (
            entries[i].key@,
            view_owned(entries[i].value),
            ),
    decreases entries,
{
    if entries.len() > 0 {
        lemma_view_entry_seq(entries.skip(1));
    }
}

impl View for OwnedValue {
    type V = SpecValue;

    open spec fn view(&self) -> SpecValue {
        view_owned(*self)
    }
}

} // verus!
