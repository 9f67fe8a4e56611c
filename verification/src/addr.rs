//! Value addresses: the fixed 4-byte (type tag, 24-bit offset) records that
//! every pointer in the arena uses, root entries and position-table entries
//! alike.

use crate::DocError;
use vstd::prelude::*;

verus! {

/// The closed enumeration of value kinds.  The tag byte of a record fully
/// determines how the bytes behind it decode.
#[derive(Clone, Copy, PartialEq, Eq, Structural, Debug)]
pub enum ValueType {
    /// A null value.
    Null,
    /// Text, stored as a length-prefixed byte payload.
    Str,
    /// Unsigned 64-bit integer.
    U64,
    /// Signed 64-bit integer.
    I64,
    /// 64-bit float, carried as its raw bit pattern.
    F64,
    /// Date and time as a signed 64-bit nanosecond timestamp.
    Date,
    /// Facet path, stored as a length-prefixed byte payload.
    Facet,
    /// Arbitrarily sized byte array.
    Bytes,
    /// IP address as a 128-bit unsigned integer, IPv4 widened to its
    /// IPv6-mapped form by the caller before storage.
    IpAddr,
    /// Boolean, packed into the offset field of the address.
    Bool,
    /// Pre-tokenized text, stored as a length-prefixed byte payload.
    PreTokStr,
    /// Object: a position table of (key, value) record pairs.
    Object,
    /// Array: a position table of element records.
    Array,
}

/// The wire tag of each kind.
pub open spec fn tag_of(t: ValueType) -> u8 {
    match t {
        ValueType::Null => 0,
        ValueType::Str => 1,
        ValueType::U64 => 2,
        ValueType::I64 => 3,
        ValueType::F64 => 4,
        ValueType::Date => 5,
        ValueType::Facet => 6,
        ValueType::Bytes => 7,
        ValueType::IpAddr => 8,
        ValueType::Bool => 9,
        ValueType::PreTokStr => 10,
        ValueType::Object => 11,
        ValueType::Array => 12,
    }
}

/// The kind behind a wire tag.  Meaningful for tags up to 12 only.
pub open spec fn spec_type_from_tag(b: u8) -> ValueType
    recommends
        b <= 12,
{
    if b == 0 {
        ValueType::Null
    } else if b == 1 {
        ValueType::Str
    } else if b == 2 {
        ValueType::U64
    } else if b == 3 {
        ValueType::I64
    } else if b == 4 {
        ValueType::F64
    } else if b == 5 {
        ValueType::Date
    } else if b == 6 {
        ValueType::Facet
    } else if b == 7 {
        ValueType::Bytes
    } else if b == 8 {
        ValueType::IpAddr
    } else if b == 9 {
        ValueType::Bool
    } else if b == 10 {
        ValueType::PreTokStr
    } else if b == 11 {
        ValueType::Object
    } else {
        ValueType::Array
    }
}

pub proof fn lemma_tag_round_trip(t: ValueType)
    ensures
        spec_type_from_tag(tag_of(t)) == t,
        tag_of(t) <= 12,
{
}

/// Whether values of this kind live inline in the offset field, taking no
/// arena bytes at all.
pub open spec fn is_inline(t: ValueType) -> bool {
    t == ValueType::Null || t == ValueType::Bool
}

/// Whether this kind is a container backed by a position table.
pub open spec fn is_container(t: ValueType) -> bool {
    t == ValueType::Object || t == ValueType::Array
}

impl ValueType {
    /// The wire tag of this kind.
    pub fn to_tag_byte(&self) -> (r: u8)
        ensures
            r == tag_of(*self),
    {
        match self {
            ValueType::Null => 0,
            ValueType::Str => 1,
            ValueType::U64 => 2,
            ValueType::I64 => 3,
            ValueType::F64 => 4,
            ValueType::Date => 5,
            ValueType::Facet => 6,
            ValueType::Bytes => 7,
            ValueType::IpAddr => 8,
            ValueType::Bool => 9,
            ValueType::PreTokStr => 10,
            ValueType::Object => 11,
            ValueType::Array => 12,
        }
    }

    /// Decode a wire tag; a byte outside the closed enumeration is a typed
    /// fault, never reinterpreted.
    pub fn from_tag_byte(b: u8) -> (r: Result<ValueType, DocError>)
        ensures
            b <= 12 ==> r == Ok::<ValueType, DocError>(spec_type_from_tag(b)),
            b > 12 ==> r == Err::<ValueType, DocError>(DocError::UnknownTypeTag),
    {
        if b == 0 {
            Ok(ValueType::Null)
        } else if b == 1 {
            Ok(ValueType::Str)
        } else if b == 2 {
            Ok(ValueType::U64)
        } else if b == 3 {
            Ok(ValueType::I64)
        } else if b == 4 {
            Ok(ValueType::F64)
        } else if b == 5 {
            Ok(ValueType::Date)
        } else if b == 6 {
            Ok(ValueType::Facet)
        } else if b == 7 {
            Ok(ValueType::Bytes)
        } else if b == 8 {
            Ok(ValueType::IpAddr)
        } else if b == 9 {
            Ok(ValueType::Bool)
        } else if b == 10 {
            Ok(ValueType::PreTokStr)
        } else if b == 11 {
            Ok(ValueType::Object)
        } else if b == 12 {
            Ok(ValueType::Array)
        } else {
            Err(DocError::UnknownTypeTag)
        }
    }
}

/// A 3-byte arena offset.  The arena of one document is hard-capped at
/// 2^24 bytes so that every pointer stays 4 bytes wide.
#[derive(Clone, Copy, PartialEq, Eq, Structural, Debug)]
pub struct Addr {
    off: u32,
}

impl View for Addr {
    type V = u32;

    closed spec fn view(&self) -> u32 {
        self.off
    }
}

impl Addr {
    /// Every constructed address fits in 24 bits.
    pub open spec fn wf(self) -> bool {
        self@ < 0x1000000
    }

    /// Truncate a 32-bit offset to 3 bytes; an offset of 2^24 or more
    /// does not fit and is refused.
    pub fn from_u32(val: u32) -> (r: Result<Addr, DocError>)
        ensures
            val < 0x1000000 ==> (r matches Ok(a) && a@ == val && a.wf()),
            val >= 0x1000000 ==> r == Err::<Addr, DocError>(DocError::ArenaOverflow),
    {
        if val >= 0x1000000 {
            Err(DocError::ArenaOverflow)
        } else {
            Ok(Addr { off: val })
        }
    }

    /// The offset, zero-extended back to 32 bits.
    pub fn to_u32(&self) -> (r: u32)
        ensures
            r == self@,
    {
        self.off
    }
}

/// The value type and the address of its payload.  For `Bool` and `Null`
/// the scalar itself is packed into the offset and no arena bytes back it.
#[derive(Clone, Copy, PartialEq, Eq, Structural, Debug)]
pub struct ValueAddr {
    pub type_id: ValueType,
    pub val: Addr,
}

impl View for ValueAddr {
    type V = (ValueType, u32);

    open spec fn view(&self) -> (ValueType, u32) {
        (self.type_id, self.val@)
    }
}

impl ValueAddr {
    pub open spec fn wf(self) -> bool {
        self.val.wf()
    }

    /// Pair a kind with an offset; an offset of 2^24 or more does not fit
    /// in the 3 offset bytes and is refused.
    pub fn new(type_id: ValueType, val: u32) -> (r: Result<ValueAddr, DocError>)
        ensures
            val < 0x1000000 ==> (r matches Ok(a) && a@ == (type_id, val) && a.wf()),
            val >= 0x1000000 ==> r == Err::<ValueAddr, DocError>(DocError::ArenaOverflow),
    {
        match Addr::from_u32(val) {
            Ok(a) => Ok(ValueAddr { type_id, val: a }),
            Err(e) => Err(e),
        }
    }

    /// The offset or inline scalar this address carries.
    pub fn offset(&self) -> (r: u32)
        ensures
            r == self@.1,
    {
        self.val.to_u32()
    }
}

/// The 4-byte wire form of a record: tag byte, then the offset big-endian
/// in 3 bytes.
pub open spec fn record_bytes(t: ValueType, off: u32) -> Seq<u8>
    recommends
        off < 0x1000000,
{
    seq![tag_of(t), ((off >> 16) & 0xff) as u8, ((off >> 8) & 0xff) as u8, (off & 0xff) as u8]
}

/// Parse the record stored at `pos`: `None` on a truncated buffer or a tag
/// outside the closed enumeration.
pub open spec fn record_at(arena: Seq<u8>, pos: int) -> Option<(ValueType, u32)> {
    if 0 <= pos && pos + 4 <= arena.len() && arena[pos] <= 12 {
        Some(
            (
                spec_type_from_tag(arena[pos]),
                ((arena[pos + 1] as u32) << 16) | ((arena[pos + 2] as u32) << 8) | (arena[pos
                    + 3] as u32),
            ),
        )
    } else {
        None
    }
}

/// A parsed record's offset always fits in 24 bits.
pub proof fn lemma_record_at_fits(arena: Seq<u8>, pos: int)
    ensures
        record_at(arena, pos) matches Some(r) ==> r.1 < 0x1000000,
{
    if record_at(arena, pos) is Some {
        let b1 = arena[pos + 1];
        let b2 = arena[pos + 2];
        let b3 = arena[pos + 3];
        assert(((b1 as u32) << 16) | ((b2 as u32) << 8) | (b3 as u32) < 0x1000000) by (bit_vector);
    }
}

/// Parsing a freshly written record gives back what was written.
pub proof fn lemma_record_round_trip(pre: Seq<u8>, t: ValueType, off: u32, post: Seq<u8>)
    requires
        off < 0x1000000,
    ensures
        record_at(pre + record_bytes(t, off) + post, pre.len() as int) == Some((t, off)),
{
    let arena = pre + record_bytes(t, off) + post;
    let pos = pre.len() as int;
    assert(arena[pos] == tag_of(t));
    assert(arena[pos + 1] == ((off >> 16) & 0xff) as u8);
    assert(arena[pos + 2] == ((off >> 8) & 0xff) as u8);
    assert(arena[pos + 3] == (off & 0xff) as u8);
    lemma_tag_round_trip(t);
    assert(off < 0x1000000 ==> (((((off >> 16) & 0xff) as u8) as u32) << 16) | (((((off >> 8)
        & 0xff) as u8) as u32) << 8) | (((off & 0xff) as u8) as u32) == off) by (bit_vector);
}

/// A record parse is unaffected by bytes appended after the buffer.
pub proof fn lemma_record_at_stable(arena: Seq<u8>, ext: Seq<u8>, pos: int)
    ensures
        record_at(arena, pos) is Some ==> record_at(arena + ext, pos) == record_at(arena, pos),
{
}

/// Append the 4-byte wire form of `a` to `out`.
pub fn write_record(out: &mut Vec<u8>, a: ValueAddr)
    requires
        a.wf(),
    ensures
        final(out)@ == old(out)@ + record_bytes(a@.0, a@.1),
{
    let off = a.offset();
    proof {
        assert((off >> 16) & 0xff < 256 && (off >> 8) & 0xff < 256 && off & 0xff < 256)
            by (bit_vector);
    }
    out.push(a.type_id.to_tag_byte());
    out.push(((off >> 16) & 0xff) as u8);
    out.push(((off >> 8) & 0xff) as u8);
    out.push((off & 0xff) as u8);
    assert(final(out)@ =~= old(out)@ + record_bytes(a@.0, a@.1));
}

/// Parse the record stored at `pos`, exactly as `record_at` reads it:
/// a truncated buffer or an out-of-range tag is a typed fault.
pub fn read_record(data: &Vec<u8>, pos: usize) -> (r: Result<ValueAddr, DocError>)
    ensures
        match r {
            Ok(a) => record_at(data@, pos as int) == Some(a@) && a.wf(),
            Err(e) => record_at(data@, pos as int) is None && (e == DocError::MalformedData || e
                == DocError::UnknownTypeTag),
        },
{
    if pos >= data.len() || data.len() - pos < 4 {
        return Err(DocError::MalformedData);
    }
    let tag = data[pos];
    if tag > 12 {
        return Err(DocError::UnknownTypeTag);
    }
    let t = match ValueType::from_tag_byte(tag) {
        Ok(t) => t,
        Err(_) => {
            return Err(DocError::UnknownTypeTag);
        },
    };
    let off: u32 = ((data[pos + 1] as u32) << 16) | ((data[pos + 2] as u32) << 8) | (data[pos
        + 3] as u32);
    proof {
        lemma_record_at_fits(data@, pos as int);
    }
    match ValueAddr::new(t, off) {
        Ok(a) => Ok(a),
        Err(e) => Err(e),
    }
}

} // verus!
