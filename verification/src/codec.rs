//! The byte-level meaning of the arena.
//!
//! `dec_value` says what value a (type tag, offset) record denotes in a
//! given arena; it is the reference meaning of every address the encoder
//! hands out.  `enc_value` is the layout model of the encoder: it maps an
//! arena and a value to the extended arena and the minted address, or to
//! `None` where an offset of 2^24 or more would be needed.  The round-trip
//! law ties the two together.

use crate::addr::{is_container, is_inline, record_at, record_bytes, ValueType};
use crate::bytes::{i64_to_u64, u128_from_le, u128_le, u64_from_le, u64_le, u64_to_i64};
use crate::value::SpecValue;
use crate::vint::{vint_dec, vint_enc};
use vstd::prelude::*;

verus! {

broadcast use vstd::seq::group_seq_axioms;

/// The length-prefixed payload stored at `off`: `None` on a truncated
/// buffer or an invalid length prefix.
pub open spec fn dec_payload(arena: Seq<u8>, off: u32) -> Option<Seq<u8>> {
    if off <= arena.len() {
        match vint_dec(arena.skip(off as int)) {
            None => None,
            Some((len, k)) => if off + k + len <= arena.len() {
                Some(arena.subrange(off as int + k, off as int + k + len))
            } else {
                None
            },
        }
    } else {
        None
    }
}

/// The decoded meaning of a leaf record.  `None` for containers and on
/// malformed bytes.
pub open spec fn dec_leaf(arena: Seq<u8>, t: ValueType, off: u32) -> Option<SpecValue> {
    match t {
        ValueType::Null => Some(SpecValue::Null),
        ValueType::Bool => Some(SpecValue::Bool(off != 0)),
        ValueType::U64 => if off + 8 <= arena.len() {
            Some(SpecValue::U64(u64_from_le(arena.subrange(off as int, off as int + 8))))
        } else {
            None
        },
        ValueType::I64 => if off + 8 <= arena.len() {
            Some(
                SpecValue::I64(u64_to_i64(u64_from_le(arena.subrange(off as int, off as int + 8)))),
            )
        } else {
            None
        },
        ValueType::F64 => if off + 8 <= arena.len() {
            Some(SpecValue::F64Bits(u64_from_le(arena.subrange(off as int, off as int + 8))))
        } else {
            None
        },
        ValueType::Date => if off + 8 <= arena.len() {
            Some(
                SpecValue::Date(
                    u64_to_i64(u64_from_le(arena.subrange(off as int, off as int + 8))),
                ),
            )
        } else {
            None
        },
        ValueType::IpAddr => if off + 16 <= arena.len() {
            Some(SpecValue::IpAddr(u128_from_le(arena.subrange(off as int, off as int + 16))))
        } else {
            None
        },
        ValueType::Str => match dec_payload(arena, off) {
            Some(b) => Some(SpecValue::Str(b)),
            None => None,
        },
        ValueType::Facet => match dec_payload(arena, off) {
            Some(b) => Some(SpecValue::Facet(b)),
            None => None,
        },
        ValueType::Bytes => match dec_payload(arena, off) {
            Some(b) => Some(SpecValue::Bytes(b)),
            None => None,
        },
        ValueType::PreTokStr => match dec_payload(arena, off) {
            Some(b) => Some(SpecValue::PreTokStr(b)),
            None => None,
        },
        ValueType::Object => None,
        ValueType::Array => None,
    }
}

/// Parse a position table: a run of variable-length integers filling the
/// whole buffer.
pub open spec fn parse_positions(bytes: Seq<u8>) -> Option<Seq<u32>>
    decreases bytes.len(),
{
    if bytes.len() == 0 {
        Some(Seq::empty())
    } else {
        match vint_dec(bytes) {
            None => None,
            Some((p, k)) => if 1 <= k <= bytes.len() {
                match parse_positions(bytes.skip(k)) {
                    None => None,
                    Some(rest) => Some(seq![p] + rest),
                }
            } else {
                None
            },
        }
    }
}

/// The position table stored at `off`.
pub open spec fn dec_positions(arena: Seq<u8>, off: u32) -> Option<Seq<u32>> {
    match dec_payload(arena, off) {
        None => None,
        Some(table) => parse_positions(table),
    }
}

/// The decoded meaning of any record.  A container reads its position
/// table at `off`; every entry points at a child record written strictly
/// before the table, so child containers sit at smaller offsets.
pub open spec fn dec_value(arena: Seq<u8>, t: ValueType, off: u32) -> Option<SpecValue>
    decreases off, 1int, 0int,
{
    if t == ValueType::Array {
        match dec_positions(arena, off) {
            None => None,
            Some(ps) => match dec_array_items(arena, ps, off) {
                None => None,
                Some(items) => Some(SpecValue::Array(items)),
            },
        }
    } else if t == ValueType::Object {
        match dec_positions(arena, off) {
            None => None,
            Some(ps) => match dec_object_entries(arena, ps, off) {
                None => None,
                Some(entries) => Some(SpecValue::Object(entries)),
            },
        }
    } else {
        dec_leaf(arena, t, off)
    }
}

/// Decode the elements behind a parsed position table.  `bound` is the
/// table's own offset: a child container at or past it would be a forward
/// reference, which no well-formed arena holds.
pub open spec fn dec_array_items(arena: Seq<u8>, ps: Seq<u32>, bound: u32) -> Option<
    Seq<SpecValue>,
>
    decreases bound, 0int, ps.len(),
{
    if ps.len() == 0 {
        Some(Seq::empty())
    } else {
        match record_at(arena, ps[0] as int) {
            None => None,
            Some((ct, coff)) => {
                let child = if is_container(ct) {
                    if coff < bound {
                        dec_value(arena, ct, coff)
                    } else {
                        None
                    }
                } else {
                    dec_leaf(arena, ct, coff)
                };
                match child {
                    None => None,
                    Some(cv) => match dec_array_items(arena, ps.skip(1), bound) {
                        None => None,
                        Some(rest) => Some(seq![cv] + rest),
                    },
                }
            },
        }
    }
}

/// Decode the (key, value) entries behind a parsed position table.  Each
/// entry is a key record, which must be text, directly followed by a value
/// record.
pub open spec fn dec_object_entries(arena: Seq<u8>, ps: Seq<u32>, bound: u32) -> Option<
    Seq<(Seq<u8>, SpecValue)>,
>
    decreases bound, 0int, ps.len(),
{
    if ps.len() == 0 {
        Some(Seq::empty())
    } else {
        match record_at(arena, ps[0] as int) {
            None => None,
            Some((kt, koff)) => if kt != ValueType::Str {
                None
            } else {
                match dec_payload(arena, koff) {
                    None => None,
                    Some(key) => match record_at(arena, ps[0] as int + 4) {
                        None => None,
                        Some((vt, voff)) => {
                            let child = if is_container(vt) {
                                if voff < bound {
                                    dec_value(arena, vt, voff)
                                } else {
                                    None
                                }
                            } else {
                                dec_leaf(arena, vt, voff)
                            };
                            match child {
                                None => None,
                                Some(cv) => match dec_object_entries(arena, ps.skip(1), bound) {
                                    None => None,
                                    Some(rest) => Some(seq![(key, cv)] + rest),
                                },
                            }
                        },
                    },
                }
            },
        }
    }
}

/// The arena bytes a non-inline leaf appends.
pub open spec fn leaf_payload(v: SpecValue) -> Seq<u8> {
    match v {
        SpecValue::Str(b) => vint_enc(b.len() as u32) + b,
        SpecValue::Facet(b) => vint_enc(b.len() as u32) + b,
        SpecValue::Bytes(b) => vint_enc(b.len() as u32) + b,
        SpecValue::PreTokStr(b) => vint_enc(b.len() as u32) + b,
        SpecValue::U64(n) => u64_le(n),
        SpecValue::I64(n) => u64_le(i64_to_u64(n)),
        SpecValue::F64Bits(n) => u64_le(n),
        SpecValue::Date(n) => u64_le(i64_to_u64(n)),
        SpecValue::IpAddr(n) => u128_le(n),
        _ => Seq::empty(),
    }
}

/// The scalar an inline leaf packs into the offset field.
pub open spec fn inline_off(v: SpecValue) -> u32 {
    match v {
        SpecValue::Bool(b) => if b {
            1
        } else {
            0
        },
        _ => 0,
    }
}

/// Encode one leaf: inline kinds cost no arena bytes; the rest append
/// their payload at the current end, whose offset must fit in 3 bytes.
pub open spec fn enc_leaf(arena: Seq<u8>, v: SpecValue) -> (Seq<u8>, Option<(ValueType, u32)>) {
    if is_inline(v.type_of()) {
        (arena, Some((v.type_of(), inline_off(v))))
    } else if arena.len() < 0x1000000 {
        (arena + leaf_payload(v), Some((v.type_of(), arena.len() as u32)))
    } else {
        (arena, None)
    }
}

/// Encode one value: leaves append their payload; a container first
/// encodes children and their records, then appends its position table.
pub open spec fn enc_value(arena: Seq<u8>, v: SpecValue) -> (Seq<u8>, Option<(ValueType, u32)>)
    decreases v,
{
    match v {
        SpecValue::Array(items) => {
            let r = enc_items(arena, items);
            match r.1 {
                None => (r.0, None),
                Some(tb) => if r.0.len() < 0x1000000 {
                    (
                        r.0 + vint_enc(tb.len() as u32) + tb,
                        Some((ValueType::Array, r.0.len() as u32)),
                    )
                } else {
                    (r.0, None)
                },
            }
        },
        SpecValue::Object(entries) => {
            let r = enc_entries(arena, entries);
            match r.1 {
                None => (r.0, None),
                Some(tb) => if r.0.len() < 0x1000000 {
                    (
                        r.0 + vint_enc(tb.len() as u32) + tb,
                        Some((ValueType::Object, r.0.len() as u32)),
                    )
                } else {
                    (r.0, None)
                },
            }
        },
        _ => enc_leaf(arena, v),
    }
}

/// Encode array elements in order.  After each child the 4-byte child
/// record is appended and its position, which must fit in 3 bytes, joins
/// the table bytes.
pub open spec fn enc_items(arena: Seq<u8>, items: Seq<SpecValue>) -> (Seq<u8>, Option<Seq<u8>>)
    decreases items,
{
    if items.len() == 0 {
        (arena, Some(Seq::empty()))
    } else {
        let r1 = enc_value(arena, items[0]);
        match r1.1 {
            None => (r1.0, None),
            Some(a) => if r1.0.len() < 0x1000000 {
                let pos = r1.0.len() as u32;
                let arena2 = r1.0 + record_bytes(a.0, a.1);
                let r2 = enc_items(arena2, items.skip(1));
                match r2.1 {
                    None => (r2.0, None),
                    Some(tb) => (r2.0, Some(vint_enc(pos) + tb)),
                }
            } else {
                (r1.0, None)
            },
        }
    }
}

/// Encode object entries in order: key payload, child value, then the
/// key and value records side by side; the key record's position joins
/// the table bytes.
pub open spec fn enc_entries(arena: Seq<u8>, entries: Seq<(Seq<u8>, SpecValue)>) -> (
    Seq<u8>,
    Option<Seq<u8>>,
)
    decreases entries,
{
    if entries.len() == 0 {
        (arena, Some(Seq::empty()))
    } else {
        let rk = enc_leaf(arena, SpecValue::Str(entries[0].0));
        match rk.1 {
            None => (rk.0, None),
            Some(ka) => {
                let rv = enc_value(rk.0, entries[0].1);
                match rv.1 {
                    None => (rv.0, None),
                    Some(va) => if rv.0.len() < 0x1000000 {
                        let pos = rv.0.len() as u32;
                        let arena2 = rv.0 + record_bytes(ka.0, ka.1) + record_bytes(va.0, va.1);
                        let r2 = enc_entries(arena2, entries.skip(1));
                        match r2.1 {
                            None => (r2.0, None),
                            Some(tb) => (r2.0, Some(vint_enc(pos) + tb)),
                        }
                    } else {
                        (rv.0, None)
                    },
                }
            },
        }
    }
}

/// Prefix order on byte sequences is transitive.
pub proof fn lemma_prefix_trans(a: Seq<u8>, b: Seq<u8>, c: Seq<u8>)
    requires
        a.is_prefix_of(b),
        b.is_prefix_of(c),
    ensures
        a.is_prefix_of(c),
{
    assert(a =~= c.subrange(0, a.len() as int));
}

/// A payload parse survives appending bytes to the arena.
pub proof fn lemma_dec_payload_stable(arena: Seq<u8>, ext: Seq<u8>, off: u32)
    ensures
        dec_payload(arena, off) is Some ==> dec_payload(arena + ext, off) == dec_payload(
            arena,
            off,
        ),
{
    if dec_payload(arena, off) is Some {
        crate::vint::lemma_vint_dec_len(arena.skip(off as int));
        crate::vint::lemma_vint_dec_stable(arena.skip(off as int), ext);
        assert((arena + ext).skip(off as int) =~= arena.skip(off as int) + ext);
        let lk = vint_dec(arena.skip(off as int))->0;
        assert((arena + ext).subrange(off as int + lk.1, off as int + lk.1 + lk.0) =~= arena
            .subrange(off as int + lk.1, off as int + lk.1 + lk.0));
    }
}

/// A leaf decode survives appending bytes to the arena.
pub proof fn lemma_dec_leaf_stable(arena: Seq<u8>, ext: Seq<u8>, t: ValueType, off: u32)
    ensures
        dec_leaf(arena, t, off) is Some ==> dec_leaf(arena + ext, t, off) == dec_leaf(
            arena,
            t,
            off,
        ),
{
    lemma_dec_payload_stable(arena, ext, off);
    if off + 8 <= arena.len() {
        assert((arena + ext).subrange(off as int, off as int + 8) =~= arena.subrange(
            off as int,
            off as int + 8,
        ));
    }
    if off + 16 <= arena.len() {
        assert((arena + ext).subrange(off as int, off as int + 16) =~= arena.subrange(
            off as int,
            off as int + 16,
        ));
    }
}

/// A whole-value decode survives appending bytes to the arena: addresses
/// already decodable stay decodable, with the same meaning, however much
/// is appended later.
pub proof fn lemma_dec_value_stable(arena: Seq<u8>, ext: Seq<u8>, t: ValueType, off: u32)
    ensures
        dec_value(arena, t, off) is Some ==> dec_value(arena + ext, t, off) == dec_value(
            arena,
            t,
            off,
        ),
    decreases off, 1int, 0int,
{
    if dec_value(arena, t, off) is Some {
        if t == ValueType::Array {
            lemma_dec_payload_stable(arena, ext, off);
            let ps = dec_positions(arena, off)->0;
            lemma_dec_array_items_stable(arena, ext, ps, off);
        } else if t == ValueType::Object {
            lemma_dec_payload_stable(arena, ext, off);
            let ps = dec_positions(arena, off)->0;
            lemma_dec_object_entries_stable(arena, ext, ps, off);
        } else {
            lemma_dec_leaf_stable(arena, ext, t, off);
        }
    }
}

pub proof fn lemma_dec_array_items_stable(arena: Seq<u8>, ext: Seq<u8>, ps: Seq<u32>, bound: u32)
    ensures
        dec_array_items(arena, ps, bound) is Some ==> dec_array_items(arena + ext, ps, bound)
            == dec_array_items(arena, ps, bound),
    decreases bound, 0int, ps.len(),
{
    if dec_array_items(arena, ps, bound) is Some && ps.len() > 0 {
        crate::addr::lemma_record_at_stable(arena, ext, ps[0] as int);
        let r = record_at(arena, ps[0] as int)->0;
        if is_container(r.0) {
            if r.1 < bound {
                lemma_dec_value_stable(arena, ext, r.0, r.1);
            }
        } else {
            lemma_dec_leaf_stable(arena, ext, r.0, r.1);
        }
        lemma_dec_array_items_stable(arena, ext, ps.skip(1), bound);
    }
}

pub proof fn lemma_dec_object_entries_stable(arena: Seq<u8>, ext: Seq<u8>, ps: Seq<u32>, bound: u32)
    ensures
        dec_object_entries(arena, ps, bound) is Some ==> dec_object_entries(arena + ext, ps, bound)
            == dec_object_entries(arena, ps, bound),
    decreases bound, 0int, ps.len(),
{
    if dec_object_entries(arena, ps, bound) is Some && ps.len() > 0 {
        crate::addr::lemma_record_at_stable(arena, ext, ps[0] as int);
        let rk = record_at(arena, ps[0] as int)->0;
        lemma_dec_payload_stable(arena, ext, rk.1);
        crate::addr::lemma_record_at_stable(arena, ext, ps[0] as int + 4);
        let rv = record_at(arena, ps[0] as int + 4)->0;
        if is_container(rv.0) {
            if rv.1 < bound {
                lemma_dec_value_stable(arena, ext, rv.0, rv.1);
            }
        } else {
            lemma_dec_leaf_stable(arena, ext, rv.0, rv.1);
        }
        lemma_dec_object_entries_stable(arena, ext, ps.skip(1), bound);
    }
}

/// A non-inline leaf's payload is never empty.
pub proof fn lemma_leaf_payload_len(v: SpecValue)
    requires
        v.is_leaf(),
        !is_inline(v.type_of()),
    ensures
        1 <= leaf_payload(v).len(),
{
    match v {
        SpecValue::Str(b) => crate::vint::lemma_vint_enc_len(b.len() as u32),
        SpecValue::Facet(b) => crate::vint::lemma_vint_enc_len(b.len() as u32),
        SpecValue::Bytes(b) => crate::vint::lemma_vint_enc_len(b.len() as u32),
        SpecValue::PreTokStr(b) => crate::vint::lemma_vint_enc_len(b.len() as u32),
        _ => (),
    }
}

/// The encoder only appends, and every address it mints carries the
/// value's own type and an offset inside the bytes written so far.
pub proof fn lemma_enc_value_extends(arena: Seq<u8>, v: SpecValue)
    ensures
        ({
            let r = enc_value(arena, v);
            &&& arena.is_prefix_of(r.0)
            &&& (r.1 matches Some(a) ==> a.0 == v.type_of() && a.1 < 0x1000000 && (is_inline(a.0)
                ==> r.0 == arena && a.1 <= 1) && (!is_inline(a.0) ==> arena.len() <= a.1 && a.1
                < r.0.len()))
        }),
    decreases v,
{
    match v {
        SpecValue::Array(items) => {
            lemma_enc_items_extends(arena, items);
            let r = enc_items(arena, items);
            if r.1 is Some && r.0.len() < 0x1000000 {
                crate::vint::lemma_vint_enc_len((r.1->0).len() as u32);
            }
        },
        SpecValue::Object(entries) => {
            lemma_enc_entries_extends(arena, entries);
            let r = enc_entries(arena, entries);
            if r.1 is Some && r.0.len() < 0x1000000 {
                crate::vint::lemma_vint_enc_len((r.1->0).len() as u32);
            }
        },
        _ => {
            if !is_inline(v.type_of()) && arena.len() < 0x1000000 {
                lemma_leaf_payload_len(v);
            }
        },
    }
}

/// Element encoding only appends; on success at least four bytes per
/// element were appended and the table holds at most five bytes each.
pub proof fn lemma_enc_items_extends(arena: Seq<u8>, items: Seq<SpecValue>)
    ensures
        ({
            let r = enc_items(arena, items);
            &&& arena.is_prefix_of(r.0)
            &&& (r.1 matches Some(tb) ==> r.0.len() >= arena.len() + 4 * items.len() && tb.len()
                <= 5 * items.len())
        }),
    decreases items,
{
    if items.len() > 0 {
        lemma_enc_value_extends(arena, items[0]);
        let r1 = enc_value(arena, items[0]);
        if r1.1 is Some {
            if r1.0.len() < 0x1000000 {
                let pos = r1.0.len() as u32;
                let arena2 = r1.0 + record_bytes((r1.1->0).0, (r1.1->0).1);
                lemma_enc_items_extends(arena2, items.skip(1));
                let r2 = enc_items(arena2, items.skip(1));
                lemma_prefix_trans(arena, r1.0, arena2);
                lemma_prefix_trans(arena, arena2, r2.0);
                if r2.1 is Some {
                    crate::vint::lemma_vint_enc_len(pos);
                }
            }
        }
    }
}

/// Entry encoding only appends; on success at least eight bytes per entry
/// were appended and the table holds at most five bytes each.
pub proof fn lemma_enc_entries_extends(arena: Seq<u8>, entries: Seq<(Seq<u8>, SpecValue)>)
    ensures
        ({
            let r = enc_entries(arena, entries);
            &&& arena.is_prefix_of(r.0)
            &&& (r.1 matches Some(tb) ==> r.0.len() >= arena.len() + 8 * entries.len() && tb.len()
                <= 5 * entries.len())
        }),
    decreases entries,
{
    if entries.len() > 0 {
        let rk = enc_leaf(arena, SpecValue::Str(entries[0].0));
        assert(arena.is_prefix_of(rk.0));
        if rk.1 is Some {
            lemma_enc_value_extends(rk.0, entries[0].1);
            let rv = enc_value(rk.0, entries[0].1);
            lemma_prefix_trans(arena, rk.0, rv.0);
            if rv.1 is Some {
                if rv.0.len() < 0x1000000 {
                    let pos = rv.0.len() as u32;
                    let arena2 = rv.0 + record_bytes((rk.1->0).0, (rk.1->0).1) + record_bytes(
                        (rv.1->0).0,
                        (rv.1->0).1,
                    );
                    lemma_enc_entries_extends(arena2, entries.skip(1));
                    let r2 = enc_entries(arena2, entries.skip(1));
                    lemma_prefix_trans(arena, rv.0, arena2);
                    lemma_prefix_trans(arena, arena2, r2.0);
                    if r2.1 is Some {
                        crate::vint::lemma_vint_enc_len(pos);
                    }
                }
            }
        }
    }
}

/// A freshly written length-prefixed payload reads back, whatever stood
/// before it and whatever comes after it.
pub proof fn lemma_payload_round_trip(pre: Seq<u8>, b: Seq<u8>, post: Seq<u8>)
    requires
        b.len() < 0x1_0000_0000,
        pre.len() < 0x1000000,
    ensures
        dec_payload(pre + (vint_enc(b.len() as u32) + b) + post, pre.len() as u32) == Some(b),
{
    let lenu = b.len() as u32;
    let arena = pre + (vint_enc(lenu) + b) + post;
    let off = pre.len() as u32;
    crate::vint::lemma_vint_round_trip(lenu, b + post);
    crate::vint::lemma_vint_enc_len(lenu);
    let k = vint_enc(lenu).len() as int;
    assert(arena.skip(off as int) =~= vint_enc(lenu) + (b + post));
    assert(arena.subrange(off as int + k, off as int + k + lenu) =~= b);
}

/// A freshly written leaf reads back: inline kinds from the offset field
/// alone, the rest from the payload at the old arena end.
pub proof fn lemma_leaf_round_trip(arena: Seq<u8>, v: SpecValue, post: Seq<u8>)
    requires
        v.is_leaf(),
        v.wf(),
    ensures
        is_inline(v.type_of()) ==> dec_leaf(arena, v.type_of(), inline_off(v)) == Some(v),
        !is_inline(v.type_of()) && arena.len() < 0x1000000 ==> dec_leaf(
            arena + leaf_payload(v) + post,
            v.type_of(),
            arena.len() as u32,
        ) == Some(v),
{
    if !is_inline(v.type_of()) && arena.len() < 0x1000000 {
        let fin = arena + leaf_payload(v) + post;
        let off = arena.len() as u32;
        match v {
            SpecValue::Str(b) => {
                lemma_payload_round_trip(arena, b, post);
                assert(fin =~= arena + (vint_enc(b.len() as u32) + b) + post);
            },
            SpecValue::Facet(b) => {
                lemma_payload_round_trip(arena, b, post);
                assert(fin =~= arena + (vint_enc(b.len() as u32) + b) + post);
            },
            SpecValue::Bytes(b) => {
                lemma_payload_round_trip(arena, b, post);
                assert(fin =~= arena + (vint_enc(b.len() as u32) + b) + post);
            },
            SpecValue::PreTokStr(b) => {
                lemma_payload_round_trip(arena, b, post);
                assert(fin =~= arena + (vint_enc(b.len() as u32) + b) + post);
            },
            SpecValue::U64(n) => {
                assert(fin.subrange(off as int, off as int + 8) =~= u64_le(n));
                crate::bytes::lemma_u64_le_round_trip(n);
            },
            SpecValue::I64(n) => {
                assert(fin.subrange(off as int, off as int + 8) =~= u64_le(i64_to_u64(n)));
                crate::bytes::lemma_u64_le_round_trip(i64_to_u64(n));
                crate::bytes::lemma_i64_u64_round_trip(n);
            },
            SpecValue::F64Bits(n) => {
                assert(fin.subrange(off as int, off as int + 8) =~= u64_le(n));
                crate::bytes::lemma_u64_le_round_trip(n);
            },
            SpecValue::Date(n) => {
                assert(fin.subrange(off as int, off as int + 8) =~= u64_le(i64_to_u64(n)));
                crate::bytes::lemma_u64_le_round_trip(i64_to_u64(n));
                crate::bytes::lemma_i64_u64_round_trip(n);
            },
            SpecValue::IpAddr(n) => {
                assert(fin.subrange(off as int, off as int + 16) =~= u128_le(n));
                crate::bytes::lemma_u128_le_round_trip(n);
            },
            _ => (),
        }
    }
}
/// A record sitting fully inside a prefix of `fin` reads back from `fin`.
pub proof fn lemma_record_in(fin: Seq<u8>, base: Seq<u8>, t: ValueType, off: u32)
    requires
        off < 0x1000000,
        (base + record_bytes(t, off)).is_prefix_of(fin),
    ensures
        record_at(fin, base.len() as int) == Some((t, off)),
{
    let mid = base + record_bytes(t, off);
    let ext = fin.subrange(mid.len() as int, fin.len() as int);
    assert(fin =~= base + record_bytes(t, off) + ext);
    crate::addr::lemma_record_round_trip(base, t, off, ext);
}

/// A length-prefixed payload sitting fully inside a prefix of `fin` reads
/// back from `fin`.
pub proof fn lemma_payload_in(fin: Seq<u8>, pre: Seq<u8>, b: Seq<u8>)
    requires
        b.len() < 0x1_0000_0000,
        pre.len() < 0x1000000,
        (pre + (vint_enc(b.len() as u32) + b)).is_prefix_of(fin),
    ensures
        dec_payload(fin, pre.len() as u32) == Some(b),
{
    let mid = pre + (vint_enc(b.len() as u32) + b);
    let ext = fin.subrange(mid.len() as int, fin.len() as int);
    assert(fin =~= pre + (vint_enc(b.len() as u32) + b) + ext);
    lemma_payload_round_trip(pre, b, ext);
}

/// A non-inline leaf payload sitting fully inside a prefix of `fin` reads
/// back from `fin`.
pub proof fn lemma_leaf_in(fin: Seq<u8>, arena: Seq<u8>, v: SpecValue)
    requires
        v.is_leaf(),
        v.wf(),
        !is_inline(v.type_of()),
        arena.len() < 0x1000000,
        (arena + leaf_payload(v)).is_prefix_of(fin),
    ensures
        dec_leaf(fin, v.type_of(), arena.len() as u32) == Some(v),
{
    let mid = arena + leaf_payload(v);
    let ext = fin.subrange(mid.len() as int, fin.len() as int);
    assert(fin =~= arena + leaf_payload(v) + ext);
    lemma_leaf_round_trip(arena, v, ext);
}

/// Prepending one encoded position to a parsed table parses as that
/// position followed by the rest.
pub proof fn lemma_table_step(pos: u32, tbr: Seq<u8>, psr: Seq<u32>)
    requires
        parse_positions(tbr) == Some(psr),
    ensures
        parse_positions(vint_enc(pos) + tbr) == Some(seq![pos] + psr),
{
    crate::vint::lemma_vint_round_trip(pos, tbr);
    crate::vint::lemma_vint_enc_len(pos);
    let k = vint_enc(pos).len() as int;
    assert((vint_enc(pos) + tbr).skip(k) =~= tbr);
}

/// Round trip: a value the encoder placed reads back from its minted
/// address, in the encoder's own output and in any later extension of it.
#[verifier::spinoff_prover]
#[verifier::rlimit(100)]
pub proof fn lemma_enc_dec(arena: Seq<u8>, v: SpecValue, fin: Seq<u8>)
    requires
        v.wf(),
        enc_value(arena, v).1 is Some,
        enc_value(arena, v).0.is_prefix_of(fin),
    ensures
        dec_value(fin, (enc_value(arena, v).1->0).0, (enc_value(arena, v).1->0).1) == Some(v),
    decreases v,
{
    lemma_enc_value_extends(arena, v);
    let r = enc_value(arena, v);
    match v {
        SpecValue::Array(items) => {
            let ri = enc_items(arena, items);
            let tb = ri.1->0;
            let off = ri.0.len() as u32;
            lemma_enc_items_extends(arena, items);
            assert(4 * items.len() <= ri.0.len());
            assert(tb.len() < 0x1_0000_0000);
            assert(r.0 =~= ri.0 + (vint_enc(tb.len() as u32) + tb));
            lemma_payload_in(fin, ri.0, tb);
            assert(ri.0.is_prefix_of(fin)) by {
                assert(ri.0.is_prefix_of(r.0));
                lemma_prefix_trans(ri.0, r.0, fin);
            };
            lemma_items_round_trip(arena, items, fin, off);
        },
        SpecValue::Object(entries) => {
            let ri = enc_entries(arena, entries);
            let tb = ri.1->0;
            let off = ri.0.len() as u32;
            lemma_enc_entries_extends(arena, entries);
            assert(8 * entries.len() <= ri.0.len());
            assert(tb.len() < 0x1_0000_0000);
            assert(r.0 =~= ri.0 + (vint_enc(tb.len() as u32) + tb));
            lemma_payload_in(fin, ri.0, tb);
            assert(ri.0.is_prefix_of(fin)) by {
                assert(ri.0.is_prefix_of(r.0));
                lemma_prefix_trans(ri.0, r.0, fin);
            };
            assert(forall|i: int|
                0 <= i < entries.len() ==> (#[trigger] entries[i].1.wf() && entries[i].0.len()
                    < 0x1_0000_0000));
            lemma_entries_round_trip(arena, entries, fin, off);
        },
        _ => {
            if is_inline(v.type_of()) {
                lemma_leaf_round_trip(fin, v, Seq::empty());
            } else {
                lemma_leaf_in(fin, arena, v);
            }
        },
    }
}

/// Round trip for the elements of an array: the table bytes parse back to
/// the element record positions, and those records decode to the elements
/// in order, in any extension `fin` of the encoder's output, under any
/// `bound` at or past that output's end.
#[verifier::spinoff_prover]
#[verifier::rlimit(100)]
pub proof fn lemma_items_round_trip(arena: Seq<u8>, items: Seq<SpecValue>, fin: Seq<u8>, bound: u32)
    requires
        forall|i: int| 0 <= i < items.len() ==> #[trigger] items[i].wf(),
        enc_items(arena, items).1 is Some,
        enc_items(arena, items).0.is_prefix_of(fin),
        enc_items(arena, items).0.len() <= bound,
    ensures
        parse_positions(enc_items(arena, items).1->0) is Some,
        dec_array_items(fin, parse_positions(enc_items(arena, items).1->0)->0, bound) == Some(
            items,
        ),
    decreases items,
{
    if items.len() == 0 {
        assert(parse_positions(Seq::empty()) == Some(Seq::<u32>::empty()));
        assert(items =~= Seq::<SpecValue>::empty());
    } else {
        lemma_enc_value_extends(arena, items[0]);
        let r1 = enc_value(arena, items[0]);
        let a = r1.1->0;
        let pos = r1.0.len() as u32;
        let arena2 = r1.0 + record_bytes(a.0, a.1);
        let r2 = enc_items(arena2, items.skip(1));
        lemma_enc_items_extends(arena2, items.skip(1));
        let tbr = r2.1->0;
        assert(forall|i: int|
            0 <= i < items.skip(1).len() ==> #[trigger] items.skip(1)[i].wf()) by {
            assert(forall|i: int|
                0 <= i < items.skip(1).len() ==> items.skip(1)[i] == items[i + 1]);
        };
        lemma_items_round_trip(arena2, items.skip(1), fin, bound);
        let psr = parse_positions(tbr)->0;
        lemma_table_step(pos, tbr, psr);
        let ps = seq![pos] + psr;
        // the child record reads back from `fin`
        assert(arena2.is_prefix_of(fin)) by {
            assert(arena2.is_prefix_of(r2.0));
            lemma_prefix_trans(arena2, r2.0, fin);
        };
        lemma_record_in(fin, r1.0, a.0, a.1);
        assert(record_at(fin, pos as int) == Some(a));
        // the child itself reads back
        assert(r1.0.is_prefix_of(fin)) by {
            assert(r1.0.is_prefix_of(arena2));
            lemma_prefix_trans(r1.0, arena2, fin);
        };
        lemma_enc_dec(arena, items[0], fin);
        assert(dec_value(fin, a.0, a.1) == Some(items[0]));
        if is_container(a.0) {
            assert(a.1 < pos);
        } else {
            assert(dec_leaf(fin, a.0, a.1) == Some(items[0]));
        }
        assert(ps[0] == pos);
        assert(ps.skip(1) =~= psr);
        assert(dec_array_items(fin, ps, bound) == Some(seq![items[0]] + items.skip(1)));
        assert(seq![items[0]] + items.skip(1) =~= items);
    }
}

/// Round trip for the entries of an object: the table bytes parse back to
/// the key-record positions; each key payload and each value record
/// decode to the entry, in order.
#[verifier::spinoff_prover]
#[verifier::rlimit(100)]
pub proof fn lemma_entries_round_trip(
    arena: Seq<u8>,
    entries: Seq<(Seq<u8>, SpecValue)>,
    fin: Seq<u8>,
    bound: u32,
)
    requires
        forall|i: int|
            0 <= i < entries.len() ==> (#[trigger] entries[i].1.wf() && entries[i].0.len()
                < 0x1_0000_0000),
        enc_entries(arena, entries).1 is Some,
        enc_entries(arena, entries).0.is_prefix_of(fin),
        enc_entries(arena, entries).0.len() <= bound,
    ensures
        parse_positions(enc_entries(arena, entries).1->0) is Some,
        dec_object_entries(fin, parse_positions(enc_entries(arena, entries).1->0)->0, bound)
            == Some(entries),
    decreases entries,
{
    if entries.len() == 0 {
        assert(parse_positions(Seq::empty()) == Some(Seq::<u32>::empty()));
        assert(entries =~= Seq::<(Seq<u8>, SpecValue)>::empty());
    } else {
        let key = entries[0].0;
        let rk = enc_leaf(arena, SpecValue::Str(key));
        let ka = rk.1->0;
        lemma_enc_value_extends(rk.0, entries[0].1);
        let rv = enc_value(rk.0, entries[0].1);
        let va = rv.1->0;
        let pos = rv.0.len() as u32;
        let krec = record_bytes(ka.0, ka.1);
        let vrec = record_bytes(va.0, va.1);
        let arena2 = rv.0 + krec + vrec;
        let r2 = enc_entries(arena2, entries.skip(1));
        lemma_enc_entries_extends(arena2, entries.skip(1));
        let tbr = r2.1->0;
        assert(forall|i: int|
            0 <= i < entries.skip(1).len() ==> (#[trigger] entries.skip(1)[i].1.wf()
                && entries.skip(1)[i].0.len() < 0x1_0000_0000)) by {
            assert(forall|i: int|
                0 <= i < entries.skip(1).len() ==> entries.skip(1)[i] == entries[i + 1]);
        };
        lemma_entries_round_trip(arena2, entries.skip(1), fin, bound);
        let psr = parse_positions(tbr)->0;
        lemma_table_step(pos, tbr, psr);
        let ps = seq![pos] + psr;
        assert(arena2.is_prefix_of(fin)) by {
            assert(arena2.is_prefix_of(r2.0));
            lemma_prefix_trans(arena2, r2.0, fin);
        };
        // both records read back from `fin`
        assert((rv.0 + krec).is_prefix_of(fin)) by {
            assert((rv.0 + krec).is_prefix_of(arena2));
            lemma_prefix_trans(rv.0 + krec, arena2, fin);
        };
        lemma_record_in(fin, rv.0, ka.0, ka.1);
        assert(record_at(fin, pos as int) == Some(ka));
        lemma_record_in(fin, rv.0 + krec, va.0, va.1);
        assert((rv.0 + krec).len() == pos as int + 4);
        assert(record_at(fin, pos as int + 4) == Some(va));
        // the key payload reads back
        assert(ka.0 == ValueType::Str && ka.1 == arena.len());
        assert(rk.0 =~= arena + (vint_enc(key.len() as u32) + key));
        assert(rk.0.is_prefix_of(fin)) by {
            assert(rk.0.is_prefix_of(rv.0));
            lemma_prefix_trans(rk.0, rv.0, arena2);
            lemma_prefix_trans(rk.0, arena2, fin);
        };
        lemma_payload_in(fin, arena, key);
        assert(dec_payload(fin, ka.1) == Some(key));
        // the value reads back
        assert(rv.0.is_prefix_of(fin)) by {
            assert(rv.0.is_prefix_of(arena2));
            lemma_prefix_trans(rv.0, arena2, fin);
        };
        lemma_enc_dec(rk.0, entries[0].1, fin);
        assert(dec_value(fin, va.0, va.1) == Some(entries[0].1));
        if is_container(va.0) {
            assert(va.1 < pos);
        } else {
            assert(dec_leaf(fin, va.0, va.1) == Some(entries[0].1));
        }
        assert(ps[0] == pos);
        assert(ps.skip(1) =~= psr);
        assert(dec_object_entries(fin, ps, bound) == Some(
            seq![(key, entries[0].1)] + entries.skip(1),
        ));
        assert(seq![(key, entries[0].1)] + entries.skip(1) =~= entries);
    }
}


/// Monotonic addressing: across two consecutive encodes, the second
/// minted offset lies at or past the end of everything the first call
/// wrote, so offsets never decrease and are never reused.
pub proof fn lemma_monotonic_addressing(arena: Seq<u8>, v1: SpecValue, v2: SpecValue)
    requires
        enc_value(arena, v1).1 is Some,
        enc_value(enc_value(arena, v1).0, v2).1 is Some,
        !is_inline(v1.type_of()),
        !is_inline(v2.type_of()),
    ensures
        ({
            let a1 = enc_value(arena, v1).0;
            let o1 = (enc_value(arena, v1).1->0).1;
            let o2 = (enc_value(a1, v2).1->0).1;
            arena.len() <= o1 < a1.len() <= o2 && o1 < o2
        }),
{
    lemma_enc_value_extends(arena, v1);
    lemma_enc_value_extends(enc_value(arena, v1).0, v2);
}

/// A failed or later encode never disturbs what was already written:
/// every address that decoded before still decodes, to the same value,
/// after any further encode.
pub proof fn lemma_prior_addresses_stay_valid(
    arena: Seq<u8>,
    t: ValueType,
    off: u32,
    v2: SpecValue,
)
    requires
        dec_value(arena, t, off) is Some,
    ensures
        dec_value(enc_value(arena, v2).0, t, off) == dec_value(arena, t, off),
{
    lemma_enc_value_extends(arena, v2);
    let a2 = enc_value(arena, v2).0;
    let ext = a2.subrange(arena.len() as int, a2.len() as int);
    assert(a2 =~= arena + ext);
    lemma_dec_value_stable(arena, ext, t, off);
}

/// Booleans and nulls have a zero arena footprint: encoding one changes
/// no arena byte and always succeeds, with the scalar packed into the
/// offset field of the address.
pub proof fn lemma_inline_zero_footprint(arena: Seq<u8>, v: SpecValue)
    requires
        is_inline(v.type_of()),
    ensures
        enc_value(arena, v).0 == arena,
        enc_value(arena, v).1 == Some((v.type_of(), inline_off(v))),
{
}


/// One step of array iteration, tied to the decoded element list: when
/// the remaining table region parses to positions whose elements decode,
/// the head entry of the region is the first position, its record holds
/// the first element, and the rest of the region carries the rest of the
/// elements.  Induction over this step walks a whole decoded array.
pub proof fn lemma_array_iteration_step(arena: Seq<u8>, reg: Seq<u8>, bound: u32)
    requires
        parse_positions(reg) is Some,
        (parse_positions(reg)->0).len() > 0,
        dec_array_items(arena, parse_positions(reg)->0, bound) is Some,
    ensures
        vint_dec(reg) is Some,
        ({
            let ps = parse_positions(reg)->0;
            let items = dec_array_items(arena, ps, bound)->0;
            let pk = vint_dec(reg)->0;
            &&& pk.0 == ps[0]
            &&& parse_positions(reg.skip(pk.1)) == Some(ps.skip(1))
            &&& record_at(arena, ps[0] as int) is Some
            &&& ({
                let c = record_at(arena, ps[0] as int)->0;
                &&& (is_container(c.0) ==> c.1 < bound && dec_value(arena, c.0, c.1) == Some(
                    items[0],
                ))
                &&& (!is_container(c.0) ==> dec_leaf(arena, c.0, c.1) == Some(items[0]))
            })
            &&& dec_array_items(arena, ps.skip(1), bound) == Some(items.skip(1))
        }),
{
    let ps = parse_positions(reg)->0;
    assert(reg.len() > 0);
    let pk = vint_dec(reg)->0;
    crate::vint::lemma_vint_dec_len(reg);
    let rest = parse_positions(reg.skip(pk.1))->0;
    assert(ps == seq![pk.0] + rest);
    assert(ps[0] == pk.0);
    assert(ps.skip(1) =~= rest);
    let items = dec_array_items(arena, ps, bound)->0;
    let c = record_at(arena, ps[0] as int)->0;
    let rest_items = dec_array_items(arena, ps.skip(1), bound)->0;
    assert(items == seq![dec_child(arena, c.0, c.1, bound)->0] + rest_items);
    assert(items[0] == dec_child(arena, c.0, c.1, bound)->0);
    assert(items.skip(1) =~= rest_items);
}

/// The child a container entry resolves to, under the forward-reference
/// guard.
pub open spec fn dec_child(arena: Seq<u8>, ct: ValueType, coff: u32, bound: u32) -> Option<
    SpecValue,
> {
    if is_container(ct) {
        if coff < bound {
            dec_value(arena, ct, coff)
        } else {
            None
        }
    } else {
        dec_leaf(arena, ct, coff)
    }
}


/// One step of object iteration, tied to the decoded entry list: the
/// head entry of the region names a text key record whose payload is the
/// first key, the record beside it holds the first value, and the rest
/// of the region carries the rest of the entries.
pub proof fn lemma_object_iteration_step(arena: Seq<u8>, reg: Seq<u8>, bound: u32)
    requires
        parse_positions(reg) is Some,
        (parse_positions(reg)->0).len() > 0,
        dec_object_entries(arena, parse_positions(reg)->0, bound) is Some,
    ensures
        vint_dec(reg) is Some,
        ({
            let ps = parse_positions(reg)->0;
            let entries = dec_object_entries(arena, ps, bound)->0;
            let pk = vint_dec(reg)->0;
            &&& pk.0 == ps[0]
            &&& parse_positions(reg.skip(pk.1)) == Some(ps.skip(1))
            &&& record_at(arena, ps[0] as int) is Some
            &&& ({
                let kc = record_at(arena, ps[0] as int)->0;
                &&& kc.0 == ValueType::Str
                &&& dec_payload(arena, kc.1) == Some(entries[0].0)
            })
            &&& record_at(arena, ps[0] as int + 4) is Some
            &&& ({
                let vc = record_at(arena, ps[0] as int + 4)->0;
                dec_child(arena, vc.0, vc.1, bound) == Some(entries[0].1)
            })
            &&& dec_object_entries(arena, ps.skip(1), bound) == Some(entries.skip(1))
        }),
{
    let ps = parse_positions(reg)->0;
    assert(reg.len() > 0);
    let pk = vint_dec(reg)->0;
    crate::vint::lemma_vint_dec_len(reg);
    let rest = parse_positions(reg.skip(pk.1))->0;
    assert(ps == seq![pk.0] + rest);
    assert(ps[0] == pk.0);
    assert(ps.skip(1) =~= rest);
    let entries = dec_object_entries(arena, ps, bound)->0;
    let kc = record_at(arena, ps[0] as int)->0;
    let key = dec_payload(arena, kc.1)->0;
    let vc = record_at(arena, ps[0] as int + 4)->0;
    let rest_entries = dec_object_entries(arena, ps.skip(1), bound)->0;
    assert(entries == seq![(key, dec_child(arena, vc.0, vc.1, bound)->0)] + rest_entries);
    assert(entries[0] == (key, dec_child(arena, vc.0, vc.1, bound)->0));
    assert(entries.skip(1) =~= rest_entries);
}

} // verus!
