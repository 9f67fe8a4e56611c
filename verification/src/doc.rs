//! The compact document: one append-only byte arena plus the root list of
//! (field id, address) pairs.
//!
//! Every add operation is proved equal to the layout model `enc_value`,
//! so the round-trip law of the codec speaks about the addresses these
//! methods mint.

use crate::addr::{record_bytes, write_record, Addr, ValueAddr, ValueType};
use crate::bytes::i64_to_u64_exec;
use crate::codec::{enc_entries, enc_items, enc_leaf, enc_value, lemma_enc_value_extends};
use crate::value::{
    lemma_view_entry_seq, lemma_view_owned_seq, view_entry_seq, view_owned, view_owned_seq,
    LeafValue, ObjectEntry, OwnedValue, SpecValue,
};
use crate::vint::{vint_enc, write_vint_u32};
use crate::{DocError, Field};
use vstd::prelude::*;

verus! {

broadcast use {vstd::seq::group_seq_axioms, vstd::std_specs::vec::group_vec_axioms};

/// One root entry: a 16-bit field id paired with a value address.
#[derive(Clone, Copy, PartialEq, Eq, Structural, Debug)]
pub struct FieldValueAddr {
    pub field: u16,
    pub value: ValueAddr,
}

/// A compact document: encoded value payloads in `node_data`, root
/// entries in order of insertion.  Append-only: nothing is ever moved,
/// rewritten or compacted.
#[derive(Clone, Debug)]
pub struct CompactDoc {
    /// The byte arena all value addresses point into.
    pub node_data: Vec<u8>,
    field_values: Vec<FieldValueAddr>,
}

/// Relies on std's Vec::shrink_to_fit: it can only shrink the unused
/// capacity and leaves the contents untouched.
#[verifier::external_body]
fn vec_shrink_to_fit<T>(v: &mut Vec<T>)
    ensures
        final(v)@ == old(v)@,
{
    v.shrink_to_fit();
}

impl CompactDoc {
    /// The arena bytes.
    pub closed spec fn arena(self) -> Seq<u8> {
        self.node_data@
    }

    /// The root entries.
    pub closed spec fn fields(self) -> Seq<FieldValueAddr> {
        self.field_values@
    }

    /// Creates a new, empty document; the capacity hint reserves arena
    /// space for the expected total of serialized data.
    pub fn with_capacity(bytes: usize) -> (r: CompactDoc)
        ensures
            r.arena() == Seq::<u8>::empty(),
            r.fields() == Seq::<FieldValueAddr>::empty(),
    {
        CompactDoc { node_data: Vec::with_capacity(bytes), field_values: Vec::with_capacity(4) }
    }

    /// Creates a new, empty document.
    pub fn new() -> (r: CompactDoc)
        ensures
            r.arena() == Seq::<u8>::empty(),
            r.fields() == Seq::<FieldValueAddr>::empty(),
    {
        CompactDoc::with_capacity(1024)
    }

    /// Shrinks the backing buffers to fit the data; the contents stay as
    /// they are.
    pub fn shrink_to_fit(&mut self)
        ensures
            final(self).arena() == old(self).arena(),
            final(self).fields() == old(self).fields(),
    {
        vec_shrink_to_fit(&mut self.node_data);
        vec_shrink_to_fit(&mut self.field_values);
    }

    /// The number of root (field, value) entries.
    pub fn len(&self) -> (r: usize)
        ensures
            r == self.fields().len(),
    {
        self.field_values.len()
    }

    /// Append one length-prefixed byte payload and mint its address.
    fn append_payload(&mut self, t: ValueType, bytes: &[u8]) -> (r: Result<ValueAddr, DocError>)
        requires
            bytes@.len() < 0x1_0000_0000,
        ensures
            final(self).fields() == old(self).fields(),
            old(self).arena().len() < 0x1000000 ==> final(self).arena() == old(self).arena()
                + vint_enc(bytes@.len() as u32) + bytes@,
            old(self).arena().len() >= 0x1000000 ==> *final(self) == *old(self) && r == Err::<
                ValueAddr,
                DocError,
            >(DocError::ArenaOverflow),
            (r matches Ok(a) ==> old(self).arena().len() < 0x1000000 && a@ == (
                t,
                old(self).arena().len() as u32,
            ) && a.wf()),
            (r is Err ==> old(self).arena().len() >= 0x1000000),
    {
        if self.node_data.len() >= 0x1000000 {
            return Err(DocError::ArenaOverflow);
        }
        let pos = self.node_data.len() as u32;
        write_vint_u32(&mut self.node_data, bytes.len() as u32);
        self.node_data.extend_from_slice(bytes);
        match ValueAddr::new(t, pos) {
            Ok(a) => Ok(a),
            Err(e) => Err(e),
        }
    }

    /// Append one leaf value and mint its address, exactly as the layout
    /// model `enc_leaf` lays it out.  Booleans and nulls take no arena
    /// bytes; the other kinds need the current arena end to fit in an
    /// address.
    pub fn add_value_leaf(&mut self, leaf: &LeafValue) -> (r: Result<ValueAddr, DocError>)
        requires
            leaf@.wf(),
        ensures
            final(self).arena() == enc_leaf(old(self).arena(), leaf@).0,
            final(self).fields() == old(self).fields(),
            (r matches Ok(a) ==> enc_leaf(old(self).arena(), leaf@).1 == Some(a@) && a.wf()),
            (r matches Err(e) ==> enc_leaf(old(self).arena(), leaf@).1 is None && e
                == DocError::ArenaOverflow),
    {
        match leaf {
            LeafValue::Null => {
                match ValueAddr::new(ValueType::Null, 0) {
                    Ok(a) => Ok(a),
                    Err(e) => Err(e),
                }
            },
            LeafValue::Bool(b) => {
                match ValueAddr::new(ValueType::Bool, if *b {
                    1
                } else {
                    0
                }) {
                    Ok(a) => Ok(a),
                    Err(e) => Err(e),
                }
            },
            LeafValue::Str(b) => {
                let r = self.append_payload(ValueType::Str, b.as_slice());
                proof {
                    assert(final(self).arena() == enc_leaf(old(self).arena(), leaf@).0);
                }
                r
            },
            LeafValue::Facet(b) => {
                let r = self.append_payload(ValueType::Facet, b.as_slice());
                proof {
                    assert(final(self).arena() == enc_leaf(old(self).arena(), leaf@).0);
                }
                r
            },
            LeafValue::Bytes(b) => {
                let r = self.append_payload(ValueType::Bytes, b.as_slice());
                proof {
                    assert(final(self).arena() == enc_leaf(old(self).arena(), leaf@).0);
                }
                r
            },
            LeafValue::PreTokStr(b) => {
                let r = self.append_payload(ValueType::PreTokStr, b.as_slice());
                proof {
                    assert(final(self).arena() == enc_leaf(old(self).arena(), leaf@).0);
                }
                r
            },
            LeafValue::U64(n) => self.append_fixed8(ValueType::U64, *n),
            LeafValue::I64(n) => self.append_fixed8(ValueType::I64, i64_to_u64_exec(*n)),
            LeafValue::F64Bits(n) => self.append_fixed8(ValueType::F64, *n),
            LeafValue::Date(n) => self.append_fixed8(ValueType::Date, i64_to_u64_exec(*n)),
            LeafValue::IpAddr(n) => self.append_fixed16(ValueType::IpAddr, *n),
        }
    }

    /// Append one 8-byte little-endian payload and mint its address.
    fn append_fixed8(&mut self, t: ValueType, n: u64) -> (r: Result<ValueAddr, DocError>)
        ensures
            final(self).fields() == old(self).fields(),
            old(self).arena().len() < 0x1000000 ==> final(self).arena() == old(self).arena()
                + crate::bytes::u64_le(n),
            old(self).arena().len() >= 0x1000000 ==> *final(self) == *old(self),
            (r matches Ok(a) ==> old(self).arena().len() < 0x1000000 && a@ == (
                t,
                old(self).arena().len() as u32,
            ) && a.wf()),
            (r matches Err(e) ==> old(self).arena().len() >= 0x1000000 && e
                == DocError::ArenaOverflow),
    {
        if self.node_data.len() >= 0x1000000 {
            return Err(DocError::ArenaOverflow);
        }
        let pos = self.node_data.len() as u32;
        crate::bytes::write_u64_le(&mut self.node_data, n);
        match ValueAddr::new(t, pos) {
            Ok(a) => Ok(a),
            Err(e) => Err(e),
        }
    }

    /// Append one 16-byte little-endian payload and mint its address.
    fn append_fixed16(&mut self, t: ValueType, n: u128) -> (r: Result<ValueAddr, DocError>)
        ensures
            final(self).fields() == old(self).fields(),
            old(self).arena().len() < 0x1000000 ==> final(self).arena() == old(self).arena()
                + crate::bytes::u128_le(n),
            old(self).arena().len() >= 0x1000000 ==> *final(self) == *old(self),
            (r matches Ok(a) ==> old(self).arena().len() < 0x1000000 && a@ == (
                t,
                old(self).arena().len() as u32,
            ) && a.wf()),
            (r matches Err(e) ==> old(self).arena().len() >= 0x1000000 && e
                == DocError::ArenaOverflow),
    {
        if self.node_data.len() >= 0x1000000 {
            return Err(DocError::ArenaOverflow);
        }
        let pos = self.node_data.len() as u32;
        crate::bytes::write_u128_le(&mut self.node_data, n);
        match ValueAddr::new(t, pos) {
            Ok(a) => Ok(a),
            Err(e) => Err(e),
        }
    }

    /// Append one value tree and mint its root address, exactly as the
    /// layout model `enc_value` lays it out.  On failure the bytes already
    /// appended stay as unreachable dead space; no address escapes for
    /// them.
    pub fn add_value(&mut self, value: &OwnedValue) -> (r: Result<ValueAddr, DocError>)
        requires
            view_owned(*value).wf(),
        ensures
            final(self).arena() == enc_value(old(self).arena(), view_owned(*value)).0,
            final(self).fields() == old(self).fields(),
            (r matches Ok(a) ==> enc_value(old(self).arena(), view_owned(*value)).1 == Some(a@)
                && a.wf()),
            (r matches Err(e) ==> enc_value(old(self).arena(), view_owned(*value)).1 is None && e
                == DocError::ArenaOverflow),
        decreases *value,
    {
        match value {
            OwnedValue::Leaf(l) => {
                proof {
                    assert(view_owned(*value) == l@);
                    assert(l@.is_leaf());
                }
                self.add_value_leaf(l)
            },
            OwnedValue::Array(items) => self.add_array(items, Ghost(view_owned(*value))),
            OwnedValue::Object(entries) => self.add_object_entries(
                entries,
                Ghost(view_owned(*value)),
            ),
        }
    }
    /// Encode the elements of an array, then its position table.
    #[verifier::spinoff_prover]
    #[verifier::rlimit(100)]
    fn add_array(&mut self, items: &Vec<OwnedValue>, Ghost(sv): Ghost<SpecValue>) -> (r: Result<
        ValueAddr,
        DocError,
    >)
        requires
            sv == SpecValue::Array(view_owned_seq(items@)),
            sv.wf(),
        ensures
            final(self).arena() == enc_value(old(self).arena(), sv).0,
            final(self).fields() == old(self).fields(),
            (r matches Ok(a) ==> enc_value(old(self).arena(), sv).1 == Some(a@) && a.wf()),
            (r matches Err(e) ==> enc_value(old(self).arena(), sv).1 is None && e
                == DocError::ArenaOverflow),
        decreases items@,
    {
        let ghost arena0 = self.node_data@;
        let ghost svs = view_owned_seq(items@);
        proof {
            lemma_view_owned_seq(items@);
            assert(svs.skip(0) =~= svs);
            let t0 = enc_items(arena0, svs).1;
            if t0 is Some {
                assert(Seq::<u8>::empty() + (t0->0) =~= (t0->0));
            }
        }
        let mut positions: Vec<u8> = Vec::new();
        let mut j: usize = 0;
        while j < items.len()
            invariant
                j <= items.len(),
                arena0 == old(self).arena(),
                sv == SpecValue::Array(svs),
                svs == view_owned_seq(items@),
                svs.len() == items@.len(),
                forall|i: int| 0 <= i < items@.len() ==> #[trigger] svs[i] == view_owned(
                    items@[i],
                ),
                forall|i: int| 0 <= i < svs.len() ==> (#[trigger] svs[i]).wf(),
                self.fields() == old(self).fields(),
                arena0.len() + 4 * j <= self.node_data@.len(),
                4 * (j as int) <= 0x1000004,
                positions@.len() <= 5 * j,
                enc_items(arena0, svs).0 == enc_items(self.node_data@, svs.skip(j as int)).0,
                enc_items(arena0, svs).1 == (match enc_items(
                    self.node_data@,
                    svs.skip(j as int),
                ).1 {
                    None => None::<Seq<u8>>,
                    Some(tb) => Some(positions@ + tb),
                }),
            decreases items@.len() - j,
        {
            let ghost cur = self.node_data@;
            let ghost rest = svs.skip(j as int);
            proof {
                assert(rest[0] == svs[j as int]);
                assert(rest.skip(1) =~= svs.skip(j as int + 1));
            }
            let r = self.add_value(&items[j]);
            proof {
                lemma_enc_value_extends(cur, svs[j as int]);
            }
            match r {
                Err(e) => {
                    proof {
                        assert(enc_items(cur, rest).0 == self.node_data@);
                        assert(enc_items(cur, rest).1 is None);
                        assert(enc_value(arena0, sv).0 == self.node_data@);
                        assert(enc_value(arena0, sv).1 is None);
                    }
                    return Err(e);
                },
                Ok(a) => {
                    let pos = self.node_data.len();
                    if pos >= 0x1000000 {
                        proof {
                            assert(enc_items(cur, rest).0 == self.node_data@);
                            assert(enc_items(cur, rest).1 is None);
                            assert(enc_value(arena0, sv).0 == self.node_data@);
                            assert(enc_value(arena0, sv).1 is None);
                        }
                        return Err(DocError::ArenaOverflow);
                    }
                    let ghost before_rec = self.node_data@;
                    let ghost positions_before = positions@;
                    write_record(&mut self.node_data, a);
                    write_vint_u32(&mut positions, pos as u32);
                    proof {
                        crate::vint::lemma_vint_enc_len(pos as u32);
                        assert(self.node_data@ == before_rec + record_bytes(a@.0, a@.1));
                        assert(enc_items(cur, rest).0 == enc_items(
                            self.node_data@,
                            rest.skip(1),
                        ).0);
                        let t2 = enc_items(self.node_data@, rest.skip(1)).1;
                        if t2 is Some {
                            assert(enc_items(cur, rest).1 == Some(
                                vint_enc(pos as u32) + (t2->0),
                            ));
                            assert(positions_before + (vint_enc(pos as u32) + (t2->0))
                                =~= positions@ + (t2->0));
                        } else {
                            assert(enc_items(cur, rest).1 is None);
                        }
                    }
                    j = j + 1;
                },
            }
        }
        proof {
            assert(svs.skip(j as int) =~= Seq::<SpecValue>::empty());
            assert(enc_items(self.node_data@, Seq::<SpecValue>::empty()) == (
                self.node_data@,
                Some(Seq::<u8>::empty()),
            ));
            assert(positions@ + Seq::<u8>::empty() =~= positions@);
            assert(enc_items(arena0, svs).0 == self.node_data@);
            assert(enc_items(arena0, svs).1 == Some(positions@));
        }
        let table_pos = self.node_data.len();
        if table_pos >= 0x1000000 {
            proof {
                assert(enc_value(arena0, sv).0 == self.node_data@);
                assert(enc_value(arena0, sv).1 is None);
            }
            return Err(DocError::ArenaOverflow);
        }
        let ghost before_table = self.node_data@;
        write_vint_u32(&mut self.node_data, positions.len() as u32);
        self.node_data.extend_from_slice(positions.as_slice());
        proof {
            assert(self.node_data@ =~= before_table + vint_enc(positions@.len() as u32)
                + positions@);
            assert(enc_value(arena0, sv).0 == self.node_data@);
            assert(enc_value(arena0, sv).1 == Some((ValueType::Array, table_pos as u32)));
        }
        match ValueAddr::new(ValueType::Array, table_pos as u32) {
            Ok(a) => Ok(a),
            Err(e) => Err(e),
        }
    }

    /// Encode the entries of an object, then its position table.  Each
    /// entry writes the key payload, the child value, and then the key
    /// and value records side by side.
    #[verifier::spinoff_prover]
    #[verifier::rlimit(100)]
    fn add_object_entries(
        &mut self,
        entries: &Vec<ObjectEntry>,
        Ghost(sv): Ghost<SpecValue>,
    ) -> (r: Result<ValueAddr, DocError>)
        requires
            sv == SpecValue::Object(view_entry_seq(entries@)),
            sv.wf(),
        ensures
            final(self).arena() == enc_value(old(self).arena(), sv).0,
            final(self).fields() == old(self).fields(),
            (r matches Ok(a) ==> enc_value(old(self).arena(), sv).1 == Some(a@) && a.wf()),
            (r matches Err(e) ==> enc_value(old(self).arena(), sv).1 is None && e
                == DocError::ArenaOverflow),
        decreases entries@,
    {
        let ghost arena0 = self.node_data@;
        let ghost svs = view_entry_seq(entries@);
        proof {
            lemma_view_entry_seq(entries@);
            assert(svs.skip(0) =~= svs);
            let t0 = enc_entries(arena0, svs).1;
            if t0 is Some {
                assert(Seq::<u8>::empty() + (t0->0) =~= (t0->0));
            }
        }
        let mut positions: Vec<u8> = Vec::new();
        let mut j: usize = 0;
        while j < entries.len()
            invariant
                j <= entries.len(),
                arena0 == old(self).arena(),
                sv == SpecValue::Object(svs),
                svs == view_entry_seq(entries@),
                svs.len() == entries@.len(),
                forall|i: int| 0 <= i < entries@.len() ==> #[trigger] svs[i] == (
                    entries@[i].key@,
                    view_owned(entries@[i].value),
                ),
                forall|i: int|
                    0 <= i < svs.len() ==> ((#[trigger] svs[i]).1.wf() && svs[i].0.len()
                        < 0x1_0000_0000),
                self.fields() == old(self).fields(),
                arena0.len() + 8 * j <= self.node_data@.len(),
                8 * (j as int) <= 0x1000008,
                positions@.len() <= 5 * j,
                enc_entries(arena0, svs).0 == enc_entries(self.node_data@, svs.skip(j as int)).0,
                enc_entries(arena0, svs).1 == (match enc_entries(
                    self.node_data@,
                    svs.skip(j as int),
                ).1 {
                    None => None::<Seq<u8>>,
                    Some(tb) => Some(positions@ + tb),
                }),
            decreases entries@.len() - j,
        {
            let ghost cur = self.node_data@;
            let ghost rest = svs.skip(j as int);
            proof {
                assert(rest[0] == svs[j as int]);
                assert(rest.skip(1) =~= svs.skip(j as int + 1));
            }
            let entry = &entries[j];
            let rk = self.append_payload(ValueType::Str, entry.key.as_slice());
            proof {
                if cur.len() < 0x1000000 {
                    assert(enc_leaf(cur, SpecValue::Str(entry.key@)).0 == cur + (vint_enc(
                        entry.key@.len() as u32,
                    ) + entry.key@)) by {
                        assert(cur + (vint_enc(entry.key@.len() as u32) + entry.key@) =~= cur
                            + vint_enc(entry.key@.len() as u32) + entry.key@);
                    };
                }
            }
            match rk {
                Err(e) => {
                    proof {
                        assert(enc_entries(cur, rest).0 == self.node_data@);
                        assert(enc_entries(cur, rest).1 is None);
                        assert(enc_value(arena0, sv).0 == self.node_data@);
                        assert(enc_value(arena0, sv).1 is None);
                    }
                    return Err(e);
                },
                Ok(ka) => {
                    let ghost cur_k = self.node_data@;
                    proof {
                        assert(enc_leaf(cur, SpecValue::Str(entry.key@)).0 == cur_k);
                        assert(enc_leaf(cur, SpecValue::Str(entry.key@)).1 == Some(ka@));
                    }
                    let rv = self.add_value(&entry.value);
                    proof {
                        lemma_enc_value_extends(cur_k, svs[j as int].1);
                    }
                    match rv {
                        Err(e) => {
                            proof {
                                assert(enc_entries(cur, rest).0 == self.node_data@);
                                assert(enc_entries(cur, rest).1 is None);
                                assert(enc_value(arena0, sv).0 == self.node_data@);
                                assert(enc_value(arena0, sv).1 is None);
                            }
                            return Err(e);
                        },
                        Ok(va) => {
                            let pos = self.node_data.len();
                            if pos >= 0x1000000 {
                                proof {
                                    assert(enc_entries(cur, rest).0 == self.node_data@);
                                    assert(enc_entries(cur, rest).1 is None);
                                    assert(enc_value(arena0, sv).0 == self.node_data@);
                                    assert(enc_value(arena0, sv).1 is None);
                                }
                                return Err(DocError::ArenaOverflow);
                            }
                            let ghost before_rec = self.node_data@;
                            let ghost positions_before = positions@;
                            write_record(&mut self.node_data, ka);
                            write_record(&mut self.node_data, va);
                            write_vint_u32(&mut positions, pos as u32);
                            proof {
                                crate::vint::lemma_vint_enc_len(pos as u32);
                                assert(self.node_data@ =~= before_rec + record_bytes(ka@.0, ka@.1)
                                    + record_bytes(va@.0, va@.1));
                                assert(enc_entries(cur, rest).0 == enc_entries(
                                    self.node_data@,
                                    rest.skip(1),
                                ).0);
                                let t2 = enc_entries(self.node_data@, rest.skip(1)).1;
                                if t2 is Some {
                                    assert(enc_entries(cur, rest).1 == Some(
                                        vint_enc(pos as u32) + (t2->0),
                                    ));
                                    assert(positions_before + (vint_enc(pos as u32) + (t2->0))
                                        =~= positions@ + (t2->0));
                                } else {
                                    assert(enc_entries(cur, rest).1 is None);
                                }
                            }
                            j = j + 1;
                        },
                    }
                },
            }
        }
        proof {
            assert(svs.skip(j as int) =~= Seq::<(Seq<u8>, SpecValue)>::empty());
            assert(enc_entries(self.node_data@, Seq::<(Seq<u8>, SpecValue)>::empty()) == (
                self.node_data@,
                Some(Seq::<u8>::empty()),
            ));
            assert(positions@ + Seq::<u8>::empty() =~= positions@);
            assert(enc_entries(arena0, svs).0 == self.node_data@);
            assert(enc_entries(arena0, svs).1 == Some(positions@));
        }
        let table_pos = self.node_data.len();
        if table_pos >= 0x1000000 {
            proof {
                assert(enc_value(arena0, sv).0 == self.node_data@);
                assert(enc_value(arena0, sv).1 is None);
            }
            return Err(DocError::ArenaOverflow);
        }
        let ghost before_table = self.node_data@;
        write_vint_u32(&mut self.node_data, positions.len() as u32);
        self.node_data.extend_from_slice(positions.as_slice());
        proof {
            assert(self.node_data@ =~= before_table + vint_enc(positions@.len() as u32)
                + positions@);
            assert(enc_value(arena0, sv).0 == self.node_data@);
            assert(enc_value(arena0, sv).1 == Some((ValueType::Object, table_pos as u32)));
        }
        match ValueAddr::new(ValueType::Object, table_pos as u32) {
            Ok(a) => Ok(a),
            Err(e) => Err(e),
        }
    }

    /// What adding one value under a field id leaves behind: the root
    /// table gains exactly one entry whose address decodes back to the
    /// value; an id above 65535 changes nothing; an arena overflow leaves
    /// only unreachable dead bytes behind.
    pub open spec fn add_outcome(
        old_doc: CompactDoc,
        new_doc: CompactDoc,
        fid: u32,
        lv: SpecValue,
        r: Result<(), DocError>,
    ) -> bool {
        &&& (fid > 0xFFFF ==> new_doc.arena() == old_doc.arena() && new_doc.fields()
            == old_doc.fields() && r == Err::<(), DocError>(DocError::FieldIdOverflow))
        &&& (fid <= 0xFFFF ==> {
            &&& new_doc.arena() == enc_value(old_doc.arena(), lv).0
            &&& (match r {
                Ok(_) => {
                    &&& enc_value(old_doc.arena(), lv).1 is Some
                    &&& new_doc.fields().len() == old_doc.fields().len() + 1
                    &&& new_doc.fields().take(old_doc.fields().len() as int)
                        == old_doc.fields()
                    &&& new_doc.fields().last().field == fid as u16
                    &&& new_doc.fields().last().value@ == enc_value(old_doc.arena(), lv).1->0
                    &&& new_doc.fields().last().value.wf()
                    &&& crate::codec::dec_value(
                        new_doc.arena(),
                        new_doc.fields().last().value@.0,
                        new_doc.fields().last().value@.1,
                    ) == Some(lv)
                },
                Err(e) => {
                    &&& e == DocError::ArenaOverflow
                    &&& enc_value(old_doc.arena(), lv).1 is None
                    &&& new_doc.fields() == old_doc.fields()
                },
            })
        })
    }

    /// Add a (field, value) pair to the document.  The field id is
    /// checked against the 16-bit root-table limit before any byte is
    /// written; the value may be any nested tree.
    pub fn add_field_value(&mut self, field: Field, value: &OwnedValue) -> (r: Result<
        (),
        DocError,
    >)
        requires
            view_owned(*value).wf(),
        ensures
            CompactDoc::add_outcome(
                *old(self),
                *final(self),
                field.spec_field_id(),
                view_owned(*value),
                r,
            ),
    {
        if field.field_id() > 0xFFFF {
            return Err(DocError::FieldIdOverflow);
        }
        let fid = field.field_id() as u16;
        let ghost arena0 = self.node_data@;
        match self.add_value(value) {
            Ok(addr) => {
                let entry = FieldValueAddr { field: fid, value: addr };
                self.field_values.push(entry);
                proof {
                    assert(self.field_values@.take(old(self).field_values@.len() as int)
                        =~= old(self).field_values@);
                    assert(self.node_data@.is_prefix_of(self.node_data@)) by {
                        assert(self.node_data@ =~= self.node_data@.subrange(
                            0,
                            self.node_data@.len() as int,
                        ));
                    };
                    crate::codec::lemma_enc_dec(arena0, view_owned(*value), self.node_data@);
                }
                Ok(())
            },
            Err(e) => Err(e),
        }
    }

    /// Add a (field, leaf value) pair to the document.
    pub fn add_leaf_field_value(&mut self, field: Field, leaf: &LeafValue) -> (r: Result<
        (),
        DocError,
    >)
        requires
            leaf@.wf(),
        ensures
            CompactDoc::add_outcome(*old(self), *final(self), field.spec_field_id(), leaf@, r),
    {
        if field.field_id() > 0xFFFF {
            return Err(DocError::FieldIdOverflow);
        }
        let fid = field.field_id() as u16;
        let ghost arena0 = self.node_data@;
        proof {
            assert(leaf@.is_leaf());
            assert(enc_value(arena0, leaf@) == enc_leaf(arena0, leaf@));
        }
        match self.add_value_leaf(leaf) {
            Ok(addr) => {
                let entry = FieldValueAddr { field: fid, value: addr };
                self.field_values.push(entry);
                proof {
                    assert(self.field_values@.take(old(self).field_values@.len() as int)
                        =~= old(self).field_values@);
                    assert(self.node_data@.is_prefix_of(self.node_data@)) by {
                        assert(self.node_data@ =~= self.node_data@.subrange(
                            0,
                            self.node_data@.len() as int,
                        ));
                    };
                    crate::codec::lemma_enc_dec(arena0, leaf@, self.node_data@);
                }
                Ok(())
            },
            Err(e) => Err(e),
        }
    }

    /// Add a text value: the UTF-8 bytes of the text.
    pub fn add_text(&mut self, field: Field, text: &[u8]) -> (r: Result<(), DocError>)
        requires
            text@.len() < 0x1_0000_0000,
        ensures
            CompactDoc::add_outcome(
                *old(self),
                *final(self),
                field.spec_field_id(),
                SpecValue::Str(text@),
                r,
            ),
    {
        let leaf = LeafValue::Str(vstd::slice::slice_to_vec(text));
        self.add_leaf_field_value(field, &leaf)
    }

    /// Add an encoded facet path.
    pub fn add_facet(&mut self, field: Field, path: &[u8]) -> (r: Result<(), DocError>)
        requires
            path@.len() < 0x1_0000_0000,
        ensures
            CompactDoc::add_outcome(
                *old(self),
                *final(self),
                field.spec_field_id(),
                SpecValue::Facet(path@),
                r,
            ),
    {
        let leaf = LeafValue::Facet(vstd::slice::slice_to_vec(path));
        self.add_leaf_field_value(field, &leaf)
    }

    /// Add the text of a pre-tokenized string.
    pub fn add_pre_tokenized_text(&mut self, field: Field, pre_tokenized_text: &[u8]) -> (r:
        Result<(), DocError>)
        requires
            pre_tokenized_text@.len() < 0x1_0000_0000,
        ensures
            CompactDoc::add_outcome(
                *old(self),
                *final(self),
                field.spec_field_id(),
                SpecValue::PreTokStr(pre_tokenized_text@),
                r,
            ),
    {
        let leaf = LeafValue::PreTokStr(vstd::slice::slice_to_vec(pre_tokenized_text));
        self.add_leaf_field_value(field, &leaf)
    }

    /// Add a byte-array value.
    pub fn add_bytes(&mut self, field: Field, value: &[u8]) -> (r: Result<(), DocError>)
        requires
            value@.len() < 0x1_0000_0000,
        ensures
            CompactDoc::add_outcome(
                *old(self),
                *final(self),
                field.spec_field_id(),
                SpecValue::Bytes(value@),
                r,
            ),
    {
        let leaf = LeafValue::Bytes(vstd::slice::slice_to_vec(value));
        self.add_leaf_field_value(field, &leaf)
    }

    /// Add an unsigned integer value.
    pub fn add_u64(&mut self, field: Field, value: u64) -> (r: Result<(), DocError>)
        ensures
            CompactDoc::add_outcome(
                *old(self),
                *final(self),
                field.spec_field_id(),
                SpecValue::U64(value),
                r,
            ),
    {
        let leaf = LeafValue::U64(value);
        self.add_leaf_field_value(field, &leaf)
    }

    /// Add a signed integer value.
    pub fn add_i64(&mut self, field: Field, value: i64) -> (r: Result<(), DocError>)
        ensures
            CompactDoc::add_outcome(
                *old(self),
                *final(self),
                field.spec_field_id(),
                SpecValue::I64(value),
                r,
            ),
    {
        let leaf = LeafValue::I64(value);
        self.add_leaf_field_value(field, &leaf)
    }

    /// Add a boolean value; it costs no arena bytes at all.
    pub fn add_bool(&mut self, field: Field, value: bool) -> (r: Result<(), DocError>)
        ensures
            CompactDoc::add_outcome(
                *old(self),
                *final(self),
                field.spec_field_id(),
                SpecValue::Bool(value),
                r,
            ),
    {
        let leaf = LeafValue::Bool(value);
        self.add_leaf_field_value(field, &leaf)
    }

    /// Add a date value as a nanosecond timestamp.
    pub fn add_date(&mut self, field: Field, nanos: i64) -> (r: Result<(), DocError>)
        ensures
            CompactDoc::add_outcome(
                *old(self),
                *final(self),
                field.spec_field_id(),
                SpecValue::Date(nanos),
                r,
            ),
    {
        let leaf = LeafValue::Date(nanos);
        self.add_leaf_field_value(field, &leaf)
    }

    /// Add an IP address as a 128-bit integer; an IPv4 address is widened
    /// to its IPv6-mapped form by the caller.
    pub fn add_ip_addr(&mut self, field: Field, value: u128) -> (r: Result<(), DocError>)
        ensures
            CompactDoc::add_outcome(
                *old(self),
                *final(self),
                field.spec_field_id(),
                SpecValue::IpAddr(value),
                r,
            ),
    {
        let leaf = LeafValue::IpAddr(value);
        self.add_leaf_field_value(field, &leaf)
    }

    /// Add an object value from its entries, in order.
    pub fn add_object(&mut self, field: Field, object: Vec<ObjectEntry>) -> (r: Result<
        (),
        DocError,
    >)
        requires
            view_owned(OwnedValue::Object(object)).wf(),
        ensures
            CompactDoc::add_outcome(
                *old(self),
                *final(self),
                field.spec_field_id(),
                view_owned(OwnedValue::Object(object)),
                r,
            ),
    {
        let v = OwnedValue::Object(object);
        self.add_field_value(field, &v)
    }

    /// The root entries that carry the given field id, in insertion
    /// order.
    pub open spec fn matching_fields(fields: Seq<FieldValueAddr>, fid: u32) -> Seq<FieldValueAddr>
        decreases fields.len(),
    {
        if fields.len() == 0 {
            Seq::empty()
        } else {
            let init = CompactDoc::matching_fields(fields.drop_last(), fid);
            if fields.last().field == fid {
                init.push(fields.last())
            } else {
                init
            }
        }
    }

    /// All values associated with the given field, in insertion order,
    /// as lazy handles into this document.
    pub fn get_all(&self, field: Field) -> (r: Vec<CompactDocValue>)
        ensures
            ({
                let m = CompactDoc::matching_fields(self.fields(), field.spec_field_id());
                &&& r@.len() == m.len()
                &&& forall|i: int|
                    0 <= i < m.len() ==> (#[trigger] r@[i]).spec_container() == *self
                        && r@[i].spec_addr() == m[i].value@
            }),
    {
        let fid = field.field_id();
        let mut r: Vec<CompactDocValue> = Vec::new();
        let mut i: usize = 0;
        while i < self.field_values.len()
            invariant
                i <= self.field_values@.len(),
                ({
                    let m = CompactDoc::matching_fields(self.fields().take(i as int), fid);
                    &&& r@.len() == m.len()
                    &&& forall|k: int|
                        0 <= k < m.len() ==> (#[trigger] r@[k]).spec_container() == *self
                            && r@[k].spec_addr() == m[k].value@
                }),
                fid == field.spec_field_id(),
            decreases self.field_values@.len() - i,
        {
            let fv = self.field_values[i];
            proof {
                assert(self.fields().take(i as int + 1).drop_last() =~= self.fields().take(
                    i as int,
                ));
                assert(self.fields().take(i as int + 1).last() == self.fields()[i as int]);
            }
            if fv.field as u32 == fid {
                r.push(CompactDocValue { container: self, value: fv.value });
            }
            i = i + 1;
        }
        proof {
            assert(self.fields().take(i as int) =~= self.fields());
        }
        r
    }

    /// The first value associated with the given field, if any.
    pub fn get_first(&self, field: Field) -> (r: Option<CompactDocValue>)
        ensures
            ({
                let m = CompactDoc::matching_fields(self.fields(), field.spec_field_id());
                match r {
                    Some(v) => m.len() > 0 && v.spec_container() == *self && v.spec_addr()
                        == m[0].value@,
                    None => m.len() == 0,
                }
            }),
    {
        let all = self.get_all(field);
        if all.len() == 0 {
            None
        } else {
            Some(all[0])
        }
    }

    /// Iterate over all root (field, value) pairs in insertion order.
    pub fn field_values(&self) -> (r: FieldValueIterRef)
        ensures
            r.spec_container() == *self,
            r.spec_index() == 0,
    {
        FieldValueIterRef { container: self, idx: 0 }
    }

    /// Exact content equality: the same arena bytes and the same root
    /// entries.  Two documents built by the same sequence of adds compare
    /// equal, and equal documents decode identically at every address.
    /// This is representation equality, finer than a per-field comparison
    /// of decoded value sets.
    pub fn content_eq(&self, other: &CompactDoc) -> (r: bool)
        ensures
            r == (self.arena() == other.arena() && self.fields() == other.fields()),
    {
        if self.node_data.len() != other.node_data.len() {
            return false;
        }
        if self.field_values.len() != other.field_values.len() {
            return false;
        }
        let mut i: usize = 0;
        while i < self.node_data.len()
            invariant
                i <= self.arena().len() == other.arena().len(),
                forall|k: int| 0 <= k < i ==> #[trigger] self.arena()[k] == other.arena()[k],
            decreases self.arena().len() - i,
        {
            if self.node_data[i] != other.node_data[i] {
                return false;
            }
            i = i + 1;
        }
        proof {
            assert(self.arena() =~= other.arena());
        }
        let mut j: usize = 0;
        while j < self.field_values.len()
            invariant
                j <= self.fields().len() == other.fields().len(),
                forall|k: int| 0 <= k < j ==> #[trigger] self.fields()[k] == other.fields()[k],
            decreases self.fields().len() - j,
        {
            if !(self.field_values[j] == other.field_values[j]) {
                return false;
            }
            j = j + 1;
        }
        proof {
            assert(self.fields() =~= other.fields());
        }
        true
    }
    /// The (field id, value) entries one (field, values) pair flattens
    /// to: the pair's id, once per value, in order.
    pub open spec fn pair_entries(pair: (Field, Vec<OwnedValue>)) -> Seq<(u32, SpecValue)> {
        Seq::new(pair.1@.len(), |j: int| (pair.0.spec_field_id(), view_owned(pair.1@[j])))
    }

    /// The flattened (field id, value) list of a whole named document.
    pub open spec fn flat_pairs(named: Seq<(Field, Vec<OwnedValue>)>) -> Seq<(u32, SpecValue)>
        decreases named.len(),
    {
        if named.len() == 0 {
            Seq::empty()
        } else {
            CompactDoc::flat_pairs(named.drop_last()) + CompactDoc::pair_entries(named.last())
        }
    }

    /// The flattened entries of the pairs from index `i` on.
    pub open spec fn flat_pairs_from(named: Seq<(Field, Vec<OwnedValue>)>, i: int) -> Seq<
        (u32, SpecValue),
    >
        decreases named.len() - i,
    {
        if i < 0 || i >= named.len() {
            Seq::empty()
        } else {
            CompactDoc::pair_entries(named[i]) + CompactDoc::flat_pairs_from(named, i + 1)
        }
    }

    /// Folding the encoder over a list of entries: the arena all of them
    /// leave behind, and whether every one of them minted an address.
    pub open spec fn enc_all(arena: Seq<u8>, entries: Seq<(u32, SpecValue)>) -> (Seq<u8>, bool)
        decreases entries.len(),
    {
        if entries.len() == 0 {
            (arena, true)
        } else {
            let r1 = enc_value(arena, entries[0].1);
            match r1.1 {
                None => (r1.0, false),
                Some(_) => CompactDoc::enc_all(r1.0, entries.skip(1)),
            }
        }
    }

    /// Build a document from already-resolved (field, values) pairs: each
    /// value of each pair becomes one root entry, in order.  Succeeds
    /// whenever every field id fits 16 bits and the whole encode fits the
    /// arena; then the k-th root entry carries the k-th flattened pair's
    /// id and an address that decodes back to its value.
    #[verifier::spinoff_prover]
    #[verifier::rlimit(100)]
    pub fn convert_named_doc(named_doc: &Vec<(Field, Vec<OwnedValue>)>) -> (r: Result<
        CompactDoc,
        DocError,
    >)
        requires
            forall|i: int, j: int|
                0 <= i < named_doc@.len() && 0 <= j < (#[trigger] named_doc@[i]).1@.len()
                    ==> (#[trigger] view_owned(named_doc@[i].1@[j])).wf(),
        ensures
            ({
                let flat = CompactDoc::flat_pairs(named_doc@);
                &&& ((forall|i: int|
                    0 <= i < named_doc@.len() ==> (#[trigger] named_doc@[i]).0.spec_field_id()
                        <= 0xFFFF) && CompactDoc::enc_all(Seq::<u8>::empty(), flat).1 ==> r is Ok)
                &&& (r matches Ok(d) ==> {
                    &&& d.fields().len() == flat.len()
                    &&& d.arena() == CompactDoc::enc_all(Seq::<u8>::empty(), flat).0
                    &&& forall|k: int|
                        0 <= k < flat.len() ==> (#[trigger] d.fields()[k]).field == flat[k].0 as u16
                            && crate::codec::dec_value(
                            d.arena(),
                            d.fields()[k].value@.0,
                            d.fields()[k].value@.1,
                        ) == Some(flat[k].1)
                })
                &&& (r matches Err(e) ==> (e == DocError::FieldIdOverflow && (exists|i: int|
                    0 <= i < named_doc@.len() && (#[trigger] named_doc@[i]).0.spec_field_id()
                        > 0xFFFF)) || (e == DocError::ArenaOverflow && !CompactDoc::enc_all(
                    Seq::<u8>::empty(),
                    flat,
                ).1))
            }),
    {
        let ghost flat = CompactDoc::flat_pairs(named_doc@);
        let mut doc = CompactDoc::new();
        proof {
            assert(flat.take(0) =~= Seq::<(u32, SpecValue)>::empty());
        }
        let mut i: usize = 0;
        while i < named_doc.len()
            invariant
                i <= named_doc@.len(),
                flat == CompactDoc::flat_pairs(named_doc@),
                forall|k: int, j: int|
                    0 <= k < named_doc@.len() && 0 <= j < (#[trigger] named_doc@[k]).1@.len()
                        ==> (#[trigger] view_owned(named_doc@[k].1@[j])).wf(),
                doc.fields().len() == CompactDoc::flat_pairs(named_doc@.take(i as int)).len(),
                doc.fields().len() <= flat.len(),
                doc.arena() == CompactDoc::enc_all(
                    Seq::<u8>::empty(),
                    flat.take(doc.fields().len() as int),
                ).0,
                CompactDoc::enc_all(Seq::<u8>::empty(), flat.take(doc.fields().len() as int)).1,
                forall|k: int|
                    0 <= k < doc.fields().len() ==> (#[trigger] doc.fields()[k]).field == flat[k].0
                        as u16 && crate::codec::dec_value(
                        doc.arena(),
                        doc.fields()[k].value@.0,
                        doc.fields()[k].value@.1,
                    ) == Some(flat[k].1),
            decreases named_doc@.len() - i,
        {
            let pair = &named_doc[i];
            let ghost pre = CompactDoc::flat_pairs(named_doc@.take(i as int));
            let mut j: usize = 0;
            while j < pair.1.len()
                invariant
                    i < named_doc@.len(),
                    j <= pair.1@.len(),
                    *pair == named_doc@[i as int],
                    pre == CompactDoc::flat_pairs(named_doc@.take(i as int)),
                    flat == CompactDoc::flat_pairs(named_doc@),
                    forall|k: int, j2: int|
                        0 <= k < named_doc@.len() && 0 <= j2 < (#[trigger] named_doc@[k]).1@.len()
                            ==> (#[trigger] view_owned(named_doc@[k].1@[j2])).wf(),
                    doc.fields().len() == pre.len() + j,
                    doc.fields().len() <= flat.len(),
                    doc.arena() == CompactDoc::enc_all(
                        Seq::<u8>::empty(),
                        flat.take(doc.fields().len() as int),
                    ).0,
                    CompactDoc::enc_all(
                        Seq::<u8>::empty(),
                        flat.take(doc.fields().len() as int),
                    ).1,
                    forall|k: int|
                        0 <= k < doc.fields().len() ==> (#[trigger] doc.fields()[k]).field
                            == flat[k].0 as u16 && crate::codec::dec_value(
                            doc.arena(),
                            doc.fields()[k].value@.0,
                            doc.fields()[k].value@.1,
                        ) == Some(flat[k].1),
                decreases pair.1@.len() - j,
            {
                let ghost m = doc.fields().len() as int;
                let ghost p_i = CompactDoc::pair_entries(named_doc@[i as int]);
                proof {
                    lemma_flat_pairs_split(named_doc@, i as int);
                    assert(flat == pre + CompactDoc::flat_pairs_from(named_doc@, i as int));
                    assert(CompactDoc::flat_pairs_from(named_doc@, i as int) == p_i
                        + CompactDoc::flat_pairs_from(named_doc@, i as int + 1));
                    assert(flat[m] == (pre + (p_i + CompactDoc::flat_pairs_from(
                        named_doc@,
                        i as int + 1,
                    )))[m]);
                    assert(flat[m] == p_i[j as int]);
                    assert(flat[m] == (pair.0.spec_field_id(), view_owned(pair.1@[j as int])));
                    assert(m + 1 <= flat.len());
                }
                let ghost doc_before = doc;
                match doc.add_field_value(pair.0, &pair.1[j]) {
                    Ok(_) => {
                        proof {
                            let lv = view_owned(pair.1@[j as int]);
                            lemma_add_preserves_entries(
                                doc_before,
                                doc,
                                pair.0.spec_field_id(),
                                lv,
                                Ok(()),
                            );
                            assert(flat.take(m + 1) =~= flat.take(m) + seq![flat[m]]);
                            lemma_enc_all_append(Seq::<u8>::empty(), flat.take(m), seq![flat[m]]);
                            let single = seq![flat[m]];
                            assert(single[0] == flat[m]);
                            assert(single.skip(1) =~= Seq::<(u32, SpecValue)>::empty());
                            assert(pair.0.spec_field_id() <= 0xFFFF);
                            assert(enc_value(doc_before.arena(), lv).1 is Some);
                            assert(CompactDoc::enc_all(
                                enc_value(doc_before.arena(), lv).0,
                                single.skip(1),
                            ) == (doc.arena(), true));
                            assert(CompactDoc::enc_all(doc_before.arena(), single) == (
                                doc.arena(),
                                true,
                            ));
                            assert(CompactDoc::enc_all(
                                Seq::<u8>::empty(),
                                flat.take(m + 1),
                            ) == (doc.arena(), true));
                            assert forall|k: int| 0 <= k < doc.fields().len() implies (
                            #[trigger] doc.fields()[k]).field == flat[k].0 as u16
                                && crate::codec::dec_value(
                                doc.arena(),
                                doc.fields()[k].value@.0,
                                doc.fields()[k].value@.1,
                            ) == Some(flat[k].1) by {
                                if k < m {
                                    assert(doc.fields()[k] == doc_before.fields()[k]);
                                } else {
                                    assert(doc.fields()[k] == doc.fields().last());
                                }
                            }
                        }
                        j = j + 1;
                    },
                    Err(e) => {
                        proof {
                            if e == DocError::FieldIdOverflow {
                                assert(named_doc@[i as int].0.spec_field_id() > 0xFFFF);
                            } else {
                                let lv = view_owned(pair.1@[j as int]);
                                assert(enc_value(doc_before.arena(), lv).1 is None);
                                assert(flat.take(m + 1) =~= flat.take(m) + seq![flat[m]]);
                                lemma_enc_all_append(
                                    Seq::<u8>::empty(),
                                    flat.take(m),
                                    seq![flat[m]],
                                );
                                assert(CompactDoc::enc_all(
                                    Seq::<u8>::empty(),
                                    flat.take(m + 1),
                                ).1 == false);
                                assert(flat =~= flat.take(m + 1) + flat.skip(m + 1));
                                lemma_enc_all_append(
                                    Seq::<u8>::empty(),
                                    flat.take(m + 1),
                                    flat.skip(m + 1),
                                );
                                assert(CompactDoc::enc_all(Seq::<u8>::empty(), flat).1 == false);
                            }
                        }
                        return Err(e);
                    },
                }
            }
            proof {
                lemma_flat_pairs_take(named_doc@, i as int);
                assert(CompactDoc::pair_entries(named_doc@[i as int]).len() == pair.1@.len());
            }
            i = i + 1;
        }
        proof {
            assert(named_doc@.take(i as int) =~= named_doc@);
            assert(flat.take(flat.len() as int) =~= flat);
        }
        Ok(doc)
    }
}

/// One step of the flattening: cutting one more pair off the front.
pub proof fn lemma_flat_pairs_take(named: Seq<(Field, Vec<OwnedValue>)>, i: int)
    requires
        0 <= i < named.len(),
    ensures
        CompactDoc::flat_pairs(named.take(i + 1)) == CompactDoc::flat_pairs(named.take(i))
            + CompactDoc::pair_entries(named[i]),
{
    assert(named.take(i + 1).drop_last() =~= named.take(i));
    assert(named.take(i + 1).last() == named[i]);
}

/// The flattened list splits at any pair boundary.
pub proof fn lemma_flat_pairs_split(named: Seq<(Field, Vec<OwnedValue>)>, i: int)
    requires
        0 <= i <= named.len(),
    ensures
        CompactDoc::flat_pairs(named) == CompactDoc::flat_pairs(named.take(i))
            + CompactDoc::flat_pairs_from(named, i),
    decreases named.len() - i,
{
    if i == named.len() {
        assert(named.take(i) =~= named);
        assert(CompactDoc::flat_pairs(named) + Seq::<(u32, SpecValue)>::empty()
            =~= CompactDoc::flat_pairs(named));
    } else {
        lemma_flat_pairs_split(named, i + 1);
        lemma_flat_pairs_take(named, i);
        assert(CompactDoc::flat_pairs(named.take(i)) + (CompactDoc::pair_entries(named[i])
            + CompactDoc::flat_pairs_from(named, i + 1)) =~= (CompactDoc::flat_pairs(
            named.take(i),
        ) + CompactDoc::pair_entries(named[i])) + CompactDoc::flat_pairs_from(named, i + 1));
    }
}

/// The encoder fold splits over concatenation: a failed prefix settles
/// the whole fold, a successful one hands its arena to the rest.
pub proof fn lemma_enc_all_append(
    arena: Seq<u8>,
    es1: Seq<(u32, SpecValue)>,
    es2: Seq<(u32, SpecValue)>,
)
    ensures
        CompactDoc::enc_all(arena, es1 + es2) == (if CompactDoc::enc_all(arena, es1).1 {
            CompactDoc::enc_all(CompactDoc::enc_all(arena, es1).0, es2)
        } else {
            CompactDoc::enc_all(arena, es1)
        }),
    decreases es1.len(),
{
    if es1.len() == 0 {
        assert(es1 + es2 =~= es2);
    } else {
        assert((es1 + es2)[0] == es1[0]);
        let r1 = enc_value(arena, es1[0].1);
        if r1.1 is Some {
            lemma_enc_all_append(r1.0, es1.skip(1), es2);
            assert((es1 + es2).skip(1) =~= es1.skip(1) + es2);
        }
    }
}

/// A value handle: the owning document and the address of one value.
/// Decoding goes through `as_value`, which never reads ahead of need.
#[derive(Clone, Copy)]
pub struct CompactDocValue<'a> {
    container: &'a CompactDoc,
    value: ValueAddr,
}

impl<'a> CompactDocValue<'a> {
    /// The document this handle points into.
    pub closed spec fn spec_container(self) -> CompactDoc {
        *self.container
    }

    /// The (type, offset) pair of this handle.
    pub closed spec fn spec_addr(self) -> (ValueType, u32) {
        self.value@
    }
}

/// Iterator over the root (field, value) pairs of a document.
pub struct FieldValueIterRef<'a> {
    container: &'a CompactDoc,
    idx: usize,
}

impl<'a> FieldValueIterRef<'a> {
    /// The document being iterated.
    pub closed spec fn spec_container(self) -> CompactDoc {
        *self.container
    }

    /// How many entries were already handed out.
    pub closed spec fn spec_index(self) -> int {
        self.idx as int
    }

    /// Hand out the next (field, value) pair, in insertion order.
    pub fn next(&mut self) -> (r: Option<(Field, CompactDocValue<'a>)>)
        ensures
            final(self).spec_container() == old(self).spec_container(),
            ({
                let fields = old(self).spec_container().fields();
                let i = old(self).spec_index();
                if i < fields.len() {
                    &&& r matches Some(p) && p.0.spec_field_id() == fields[i].field as u32
                        && p.1.spec_container() == old(self).spec_container()
                        && p.1.spec_addr() == fields[i].value@
                    &&& final(self).spec_index() == i + 1
                } else {
                    r is None && final(self).spec_index() == i
                }
            }),
    {
        if self.idx < self.container.field_values.len() {
            let fv = self.container.field_values[self.idx];
            self.idx = self.idx + 1;
            Some(
                (
                    Field::from_field_id(fv.field as u32),
                    CompactDocValue { container: self.container, value: fv.value },
                ),
            )
        } else {
            None
        }
    }
}


/// Adding a value never disturbs what is already in the document: the
/// old root entries stand unchanged, and every address among them that
/// decoded before decodes to the same value afterwards.
pub proof fn lemma_add_preserves_entries(
    old_doc: CompactDoc,
    new_doc: CompactDoc,
    fid: u32,
    lv: SpecValue,
    r: Result<(), DocError>,
)
    requires
        CompactDoc::add_outcome(old_doc, new_doc, fid, lv, r),
    ensures
        forall|i: int|
            0 <= i < old_doc.fields().len() ==> #[trigger] new_doc.fields()[i]
                == old_doc.fields()[i],
        forall|i: int|
            0 <= i < old_doc.fields().len() && crate::codec::dec_value(
                old_doc.arena(),
                (#[trigger] old_doc.fields()[i]).value@.0,
                old_doc.fields()[i].value@.1,
            ) is Some ==> crate::codec::dec_value(
                new_doc.arena(),
                old_doc.fields()[i].value@.0,
                old_doc.fields()[i].value@.1,
            ) == crate::codec::dec_value(
                old_doc.arena(),
                old_doc.fields()[i].value@.0,
                old_doc.fields()[i].value@.1,
            ),
{
    if fid <= 0xFFFF {
        assert forall|i: int| 0 <= i < old_doc.fields().len() implies #[trigger] new_doc.fields()[i]
            == old_doc.fields()[i] by {
            if r is Ok {
                assert(new_doc.fields().take(old_doc.fields().len() as int)[i]
                    == new_doc.fields()[i]);
            }
        }
        assert forall|i: int|
            0 <= i < old_doc.fields().len() && crate::codec::dec_value(
                old_doc.arena(),
                (#[trigger] old_doc.fields()[i]).value@.0,
                old_doc.fields()[i].value@.1,
            ) is Some implies crate::codec::dec_value(
            new_doc.arena(),
            old_doc.fields()[i].value@.0,
            old_doc.fields()[i].value@.1,
        ) == crate::codec::dec_value(
            old_doc.arena(),
            old_doc.fields()[i].value@.0,
            old_doc.fields()[i].value@.1,
        ) by {
            crate::codec::lemma_prior_addresses_stay_valid(
                old_doc.arena(),
                old_doc.fields()[i].value@.0,
                old_doc.fields()[i].value@.1,
                lv,
            );
        }
    }
}

/// A decoded leaf: scalars by value, byte payloads as borrowed views into
/// the arena, copy-free.
pub enum ReferenceValueLeaf<'a> {
    Null,
    Str(&'a [u8]),
    U64(u64),
    I64(i64),
    F64Bits(u64),
    Date(i64),
    Facet(&'a [u8]),
    Bytes(&'a [u8]),
    IpAddr(u128),
    Bool(bool),
    PreTokStr(&'a [u8]),
}

/// The mathematical value a decoded leaf stands for.
pub open spec fn leaf_view(l: ReferenceValueLeaf) -> SpecValue {
    match l {
        ReferenceValueLeaf::Null => SpecValue::Null,
        ReferenceValueLeaf::Str(b) => SpecValue::Str(b@),
        ReferenceValueLeaf::U64(n) => SpecValue::U64(n),
        ReferenceValueLeaf::I64(n) => SpecValue::I64(n),
        ReferenceValueLeaf::F64Bits(n) => SpecValue::F64Bits(n),
        ReferenceValueLeaf::Date(n) => SpecValue::Date(n),
        ReferenceValueLeaf::Facet(b) => SpecValue::Facet(b@),
        ReferenceValueLeaf::Bytes(b) => SpecValue::Bytes(b@),
        ReferenceValueLeaf::IpAddr(n) => SpecValue::IpAddr(n),
        ReferenceValueLeaf::Bool(b) => SpecValue::Bool(b),
        ReferenceValueLeaf::PreTokStr(b) => SpecValue::PreTokStr(b@),
    }
}

/// A decoded value view: a leaf, or a lazy iterator over a container's
/// position table that resolves one child per step.
pub enum ReferenceValue<'a> {
    Leaf(ReferenceValueLeaf<'a>),
    Array(CompactDocArrayIter<'a>),
    Object(CompactDocObjectIter<'a>),
}

/// Forward-only iterator over an array's position table.  Each step reads
/// one table entry and hands out a lazy handle to that child; later
/// siblings are not touched.
#[derive(Clone)]
pub struct CompactDocArrayIter<'a> {
    container: &'a CompactDoc,
    cur: usize,
    end: usize,
    bound: u32,
}

impl<'a> CompactDocArrayIter<'a> {
    /// The document being read.
    pub closed spec fn spec_container(self) -> CompactDoc {
        *self.container
    }

    /// The table's own offset: no child container may sit at or past it.
    pub closed spec fn spec_bound(self) -> u32 {
        self.bound
    }

    /// The raw table bytes not yet consumed.  Parsing them with
    /// `parse_positions` gives the positions still to be handed out.
    pub closed spec fn region(self) -> Option<Seq<u8>> {
        if self.cur <= self.end && self.end <= self.container.arena().len() {
            Some(self.container.arena().subrange(self.cur as int, self.end as int))
        } else {
            None
        }
    }

    /// Open the position table stored at `addr`.
    pub fn new(container: &'a CompactDoc, addr: Addr) -> (r: Result<Self, DocError>)
        ensures
            match crate::codec::dec_payload(container.arena(), addr@) {
                Some(_) => r matches Ok(it) && it.spec_container() == *container
                    && it.spec_bound() == addr@ && it.region() == crate::codec::dec_payload(
                    container.arena(),
                    addr@,
                ),
                None => r == Err::<Self, DocError>(DocError::MalformedData),
            },
    {
        let off = addr.to_u32() as usize;
        if off > container.node_data.len() {
            return Err(DocError::MalformedData);
        }
        match crate::vint::read_vint_u32(container.node_data.as_slice(), off) {
            None => Err(DocError::MalformedData),
            Some((plen, k)) => {
                if (plen as usize) > container.node_data.len() - (off + k) {
                    return Err(DocError::MalformedData);
                }
                let it = CompactDocArrayIter {
                    container,
                    cur: off + k,
                    end: off + k + (plen as usize),
                    bound: addr.to_u32(),
                };
                proof {
                    assert(container.arena().subrange(
                        off + k,
                        off + k + plen as int,
                    ) =~= crate::codec::dec_payload(container.arena(), addr@)->0);
                }
                Ok(it)
            },
        }
    }

    /// Read one table entry and resolve it into a child handle.  `None`
    /// at the end of the table, and on any malformed entry: a truncated
    /// table, an unreadable record, or a forward container reference.
    pub fn next(&mut self) -> (r: Option<CompactDocValue<'a>>)
        ensures
            final(self).spec_container() == old(self).spec_container(),
            final(self).spec_bound() == old(self).spec_bound(),
            ({
                let arena = old(self).spec_container().arena();
                match old(self).region() {
                    Some(reg) => match crate::vint::vint_dec(reg) {
                        Some((p, k)) => match crate::addr::record_at(arena, p as int) {
                            Some((ct, coff)) => if !crate::addr::is_container(ct) || coff < old(self).spec_bound() {
                                r matches Some(v) && v.spec_container() == old(self).spec_container() && v.spec_addr() == (ct, coff) && final(self).region() == Some(reg.skip(k))
                            } else {
                                r is None
                            },
                            None => r is None,
                        },
                        None => r is None,
                    },
                    None => r is None,
                }
            }),
    {
        if self.cur >= self.end || self.end > self.container.node_data.len() {
            return None;
        }
        let region = vstd::slice::slice_subrange(
            self.container.node_data.as_slice(),
            self.cur,
            self.end,
        );
        proof {
            assert(region@.skip(0) =~= region@);
        }
        match crate::vint::read_vint_u32(region, 0) {
            None => None,
            Some((p, k)) => {
                proof {
                    crate::vint::lemma_vint_dec_len(region@);
                }
                match crate::addr::read_record(&self.container.node_data, p as usize) {
                    Err(_) => None,
                    Ok(va) => {
                        proof {
                            crate::addr::lemma_record_at_fits(
                                self.container.arena(),
                                p as int,
                            );
                        }
                        let is_cont = match va.type_id {
                            ValueType::Array => true,
                            ValueType::Object => true,
                            _ => false,
                        };
                        if is_cont && va.offset() >= self.bound {
                            return None;
                        }
                        let ghost old_region = region@;
                        self.cur = self.cur + k;
                        proof {
                            assert(old_region.skip(k as int) =~= self.container.arena().subrange(
                                self.cur as int,
                                self.end as int,
                            ));
                        }
                        Some(CompactDocValue { container: self.container, value: va })
                    },
                }
            },
        }
    }
}

/// Forward-only iterator over an object's position table.  Each step
/// reads one entry, resolves the key bytes eagerly and hands out a lazy
/// handle to the value.
#[derive(Clone)]
pub struct CompactDocObjectIter<'a> {
    container: &'a CompactDoc,
    cur: usize,
    end: usize,
    bound: u32,
}

impl<'a> CompactDocObjectIter<'a> {
    /// The document being read.
    pub closed spec fn spec_container(self) -> CompactDoc {
        *self.container
    }

    /// The table's own offset: no child container may sit at or past it.
    pub closed spec fn spec_bound(self) -> u32 {
        self.bound
    }

    /// The raw table bytes not yet consumed.  Parsing them with
    /// `parse_positions` gives the positions still to be handed out.
    pub closed spec fn region(self) -> Option<Seq<u8>> {
        if self.cur <= self.end && self.end <= self.container.arena().len() {
            Some(self.container.arena().subrange(self.cur as int, self.end as int))
        } else {
            None
        }
    }

    /// Open the position table stored at `addr`.
    pub fn new(container: &'a CompactDoc, addr: Addr) -> (r: Result<Self, DocError>)
        ensures
            match crate::codec::dec_payload(container.arena(), addr@) {
                Some(_) => r matches Ok(it) && it.spec_container() == *container
                    && it.spec_bound() == addr@ && it.region() == crate::codec::dec_payload(
                    container.arena(),
                    addr@,
                ),
                None => r == Err::<Self, DocError>(DocError::MalformedData),
            },
    {
        let off = addr.to_u32() as usize;
        if off > container.node_data.len() {
            return Err(DocError::MalformedData);
        }
        match crate::vint::read_vint_u32(container.node_data.as_slice(), off) {
            None => Err(DocError::MalformedData),
            Some((plen, k)) => {
                if (plen as usize) > container.node_data.len() - (off + k) {
                    return Err(DocError::MalformedData);
                }
                let it = CompactDocObjectIter {
                    container,
                    cur: off + k,
                    end: off + k + (plen as usize),
                    bound: addr.to_u32(),
                };
                proof {
                    assert(container.arena().subrange(
                        off + k,
                        off + k + plen as int,
                    ) =~= crate::codec::dec_payload(container.arena(), addr@)->0);
                }
                Ok(it)
            },
        }
    }

    /// Read one table entry and resolve it into the key's bytes and a
    /// lazy handle to the value.  `None` at the end of the table, and on
    /// any malformed entry.
    pub fn next(&mut self) -> (r: Option<(&'a [u8], CompactDocValue<'a>)>)
        ensures
            final(self).spec_container() == old(self).spec_container(),
            final(self).spec_bound() == old(self).spec_bound(),
            ({
                let arena = old(self).spec_container().arena();
                match old(self).region() {
                    Some(reg) => match crate::vint::vint_dec(reg) {
                        Some((p, k)) => match crate::addr::record_at(arena, p as int) {
                            Some((kt, koff)) => if kt != ValueType::Str {
                                r is None
                            } else {
                                match crate::codec::dec_payload(arena, koff) {
                                    None => r is None,
                                    Some(key) => match crate::addr::record_at(
                                        arena,
                                        p as int + 4,
                                    ) {
                                        None => r is None,
                                        Some((vt, voff)) => if !crate::addr::is_container(vt)
                                            || voff < old(self).spec_bound() {
                                            r matches Some(pr) && pr.0@ == key
                                                && pr.1.spec_container() == old(self).spec_container() && pr.1.spec_addr() == (vt, voff)
                                                && final(self).region() == Some(reg.skip(k))
                                        } else {
                                            r is None
                                        },
                                    },
                                }
                            },
                            None => r is None,
                        },
                        None => r is None,
                    },
                    None => r is None,
                }
            }),
    {
        if self.cur >= self.end || self.end > self.container.node_data.len() {
            return None;
        }
        let region = vstd::slice::slice_subrange(
            self.container.node_data.as_slice(),
            self.cur,
            self.end,
        );
        proof {
            assert(region@.skip(0) =~= region@);
        }
        match crate::vint::read_vint_u32(region, 0) {
            None => None,
            Some((p, k)) => {
                proof {
                    crate::vint::lemma_vint_dec_len(region@);
                }
                match crate::addr::read_record(&self.container.node_data, p as usize) {
                    Err(_) => None,
                    Ok(ka) => {
                        let is_str = match ka.type_id {
                            ValueType::Str => true,
                            _ => false,
                        };
                        if !is_str {
                            return None;
                        }
                        let key = match self.container.extract_str(ka) {
                            Ok(b) => b,
                            Err(_) => {
                                return None;
                            },
                        };
                        match crate::addr::read_record(
                            &self.container.node_data,
                            p as usize + 4,
                        ) {
                            Err(_) => None,
                            Ok(va) => {
                                let is_cont = match va.type_id {
                                    ValueType::Array => true,
                                    ValueType::Object => true,
                                    _ => false,
                                };
                                if is_cont && va.offset() >= self.bound {
                                    return None;
                                }
                                let ghost old_region = region@;
                                self.cur = self.cur + k;
                                proof {
                                    assert(old_region.skip(k as int) =~= self.container.arena()
                                        .subrange(self.cur as int, self.end as int));
                                }
                                Some(
                                    (
                                        key,
                                        CompactDocValue {
                                            container: self.container,
                                            value: va,
                                        },
                                    ),
                                )
                            },
                        }
                    },
                }
            },
        }
    }
}

impl CompactDoc {
    /// The arena bytes from `addr` on.
    pub fn get_slice(&self, addr: Addr) -> (r: &[u8])
        requires
            addr@ <= self.arena().len(),
        ensures
            r@ == self.arena().skip(addr@ as int),
    {
        let start = addr.to_u32() as usize;
        let r = vstd::slice::slice_subrange(
            self.node_data.as_slice(),
            start,
            self.node_data.len(),
        );
        proof {
            assert(r@ =~= self.arena().skip(addr@ as int));
        }
        r
    }

    /// The length-prefixed payload behind an address, as a borrowed view.
    pub fn extract_str(&self, ref_value: ValueAddr) -> (r: Result<&[u8], DocError>)
        ensures
            match crate::codec::dec_payload(self.arena(), ref_value@.1) {
                Some(pl) => r matches Ok(b) && b@ == pl,
                None => r == Err::<&[u8], DocError>(DocError::MalformedData),
            },
    {
        let off = ref_value.offset() as usize;
        if off > self.node_data.len() {
            return Err(DocError::MalformedData);
        }
        match crate::vint::read_vint_u32(self.node_data.as_slice(), off) {
            None => Err(DocError::MalformedData),
            Some((plen, k)) => {
                if (plen as usize) > self.node_data.len() - (off + k) {
                    return Err(DocError::MalformedData);
                }
                let b = vstd::slice::slice_subrange(
                    self.node_data.as_slice(),
                    off + k,
                    off + k + (plen as usize),
                );
                proof {
                    assert(b@ =~= crate::codec::dec_payload(self.arena(), ref_value@.1)->0);
                }
                Ok(b)
            },
        }
    }

    /// Decode the value behind an address, lazily: a leaf is read in
    /// place, a container becomes an iterator over its position table.
    /// A truncated buffer is a typed fault; sibling values stay
    /// readable.
    pub fn extract_ref_value(&self, ref_value: ValueAddr) -> (r: Result<
        ReferenceValue,
        DocError,
    >)
        ensures
            ({
                let t = ref_value@.0;
                let off = ref_value@.1;
                match r {
                    Ok(rv) => match rv {
                        ReferenceValue::Leaf(l) => !crate::addr::is_container(t)
                            && crate::codec::dec_leaf(self.arena(), t, off) == Some(leaf_view(l)),
                        ReferenceValue::Array(it) => t == ValueType::Array && it.spec_container()
                            == *self && it.spec_bound() == off && it.region()
                            == crate::codec::dec_payload(self.arena(), off)
                            && crate::codec::dec_payload(self.arena(), off) is Some,
                        ReferenceValue::Object(it) => t == ValueType::Object && it.spec_container()
                            == *self && it.spec_bound() == off && it.region()
                            == crate::codec::dec_payload(self.arena(), off)
                            && crate::codec::dec_payload(self.arena(), off) is Some,
                    },
                    Err(e) => {
                        &&& e == DocError::MalformedData
                        &&& (crate::addr::is_container(t) ==> crate::codec::dec_payload(
                            self.arena(),
                            off,
                        ) is None)
                        &&& (!crate::addr::is_container(t) ==> crate::codec::dec_leaf(
                            self.arena(),
                            t,
                            off,
                        ) is None)
                    },
                }
            }),
    {
        let off32 = ref_value.offset();
        let off = off32 as usize;
        match ref_value.type_id {
            ValueType::Null => Ok(ReferenceValue::Leaf(ReferenceValueLeaf::Null)),
            ValueType::Bool => Ok(ReferenceValue::Leaf(ReferenceValueLeaf::Bool(off32 != 0))),
            ValueType::U64 => {
                if self.node_data.len() < 8 || off > self.node_data.len() - 8 {
                    return Err(DocError::MalformedData);
                }
                Ok(
                    ReferenceValue::Leaf(
                        ReferenceValueLeaf::U64(crate::bytes::read_u64_le(&self.node_data, off)),
                    ),
                )
            },
            ValueType::I64 => {
                if self.node_data.len() < 8 || off > self.node_data.len() - 8 {
                    return Err(DocError::MalformedData);
                }
                Ok(
                    ReferenceValue::Leaf(
                        ReferenceValueLeaf::I64(
                            crate::bytes::u64_to_i64_exec(
                                crate::bytes::read_u64_le(&self.node_data, off),
                            ),
                        ),
                    ),
                )
            },
            ValueType::F64 => {
                if self.node_data.len() < 8 || off > self.node_data.len() - 8 {
                    return Err(DocError::MalformedData);
                }
                Ok(
                    ReferenceValue::Leaf(
                        ReferenceValueLeaf::F64Bits(
                            crate::bytes::read_u64_le(&self.node_data, off),
                        ),
                    ),
                )
            },
            ValueType::Date => {
                if self.node_data.len() < 8 || off > self.node_data.len() - 8 {
                    return Err(DocError::MalformedData);
                }
                Ok(
                    ReferenceValue::Leaf(
                        ReferenceValueLeaf::Date(
                            crate::bytes::u64_to_i64_exec(
                                crate::bytes::read_u64_le(&self.node_data, off),
                            ),
                        ),
                    ),
                )
            },
            ValueType::IpAddr => {
                if self.node_data.len() < 16 || off > self.node_data.len() - 16 {
                    return Err(DocError::MalformedData);
                }
                Ok(
                    ReferenceValue::Leaf(
                        ReferenceValueLeaf::IpAddr(
                            crate::bytes::read_u128_le(&self.node_data, off),
                        ),
                    ),
                )
            },
            ValueType::Str => {
                match self.extract_str(ref_value) {
                    Ok(b) => Ok(ReferenceValue::Leaf(ReferenceValueLeaf::Str(b))),
                    Err(e) => Err(e),
                }
            },
            ValueType::Facet => {
                match self.extract_str(ref_value) {
                    Ok(b) => Ok(ReferenceValue::Leaf(ReferenceValueLeaf::Facet(b))),
                    Err(e) => Err(e),
                }
            },
            ValueType::Bytes => {
                match self.extract_str(ref_value) {
                    Ok(b) => Ok(ReferenceValue::Leaf(ReferenceValueLeaf::Bytes(b))),
                    Err(e) => Err(e),
                }
            },
            ValueType::PreTokStr => {
                match self.extract_str(ref_value) {
                    Ok(b) => Ok(ReferenceValue::Leaf(ReferenceValueLeaf::PreTokStr(b))),
                    Err(e) => Err(e),
                }
            },
            ValueType::Object => {
                match CompactDocObjectIter::new(self, ref_value.val) {
                    Ok(it) => Ok(ReferenceValue::Object(it)),
                    Err(e) => Err(e),
                }
            },
            ValueType::Array => {
                match CompactDocArrayIter::new(self, ref_value.val) {
                    Ok(it) => Ok(ReferenceValue::Array(it)),
                    Err(e) => Err(e),
                }
            },
        }
    }
}

impl<'a> CompactDocValue<'a> {
    /// Decode this handle's value, lazily.
    pub fn as_value(&self) -> (r: Result<ReferenceValue<'a>, DocError>)
        ensures
            ({
                let t = self.spec_addr().0;
                let off = self.spec_addr().1;
                let arena = self.spec_container().arena();
                match r {
                    Ok(rv) => match rv {
                        ReferenceValue::Leaf(l) => !crate::addr::is_container(t)
                            && crate::codec::dec_leaf(arena, t, off) == Some(leaf_view(l)),
                        ReferenceValue::Array(it) => t == ValueType::Array && it.spec_container()
                            == self.spec_container() && it.spec_bound() == off && it.region()
                            == crate::codec::dec_payload(arena, off) && crate::codec::dec_payload(
                            arena,
                            off,
                        ) is Some,
                        ReferenceValue::Object(it) => t == ValueType::Object && it.spec_container()
                            == self.spec_container() && it.spec_bound() == off && it.region()
                            == crate::codec::dec_payload(arena, off) && crate::codec::dec_payload(
                            arena,
                            off,
                        ) is Some,
                    },
                    Err(e) => {
                        &&& e == DocError::MalformedData
                        &&& (crate::addr::is_container(t) ==> crate::codec::dec_payload(
                            arena,
                            off,
                        ) is None)
                        &&& (!crate::addr::is_container(t) ==> crate::codec::dec_leaf(
                            arena,
                            t,
                            off,
                        ) is None)
                    },
                }
            }),
    {
        self.container.extract_ref_value(self.value)
    }
}

} // verus!
