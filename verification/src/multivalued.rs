//! Reader for a multivalued fast field.
//!
//! Two read-only columns: a monotonic offset column of length
//! docCount + 1 delimiting, for each document, its slice of a flat value
//! column.  Built once by an external segment builder, queried lock-free
//! thereafter.

use crate::DocId;
use vstd::prelude::*;

verus! {

broadcast use {vstd::seq::group_seq_axioms, vstd::std_specs::vec::group_vec_axioms};

/// Reader for a multivalued `u64` fast field.
///
/// `vals` is the concatenated list of all documents' values; `idx`
/// associates each document with the index of its first value.
#[derive(Clone, Debug)]
pub struct MultiValuedFastFieldReader {
    idx: Vec<u64>,
    vals: Vec<u64>,
}

impl MultiValuedFastFieldReader {
    /// The offset column.
    pub closed spec fn offsets(self) -> Seq<u64> {
        self.idx@
    }

    /// The flat value column.
    pub closed spec fn values(self) -> Seq<u64> {
        self.vals@
    }

    /// Well-formed columns: the offsets start at zero, never decrease,
    /// and the last one equals the value column's length.
    pub open spec fn wf(self) -> bool {
        &&& self.offsets().len() >= 1
        &&& self.offsets()[0] == 0
        &&& forall|i: int, j: int|
            0 <= i <= j < self.offsets().len() ==> #[trigger] self.offsets()[i]
                <= #[trigger] self.offsets()[j]
        &&& self.offsets().last() == self.values().len()
    }

    /// How many documents the offset column covers.
    pub open spec fn spec_num_docs(self) -> int {
        self.offsets().len() - 1
    }

    /// Whether position `p` of the value column belongs to document `d`.
    pub open spec fn pos_in_doc(self, d: int, p: int) -> bool {
        self.offsets()[d] <= p < self.offsets()[d + 1]
    }

    /// Wrap the two columns built by the segment builder.
    pub fn open(idx: Vec<u64>, vals: Vec<u64>) -> (r: MultiValuedFastFieldReader)
        requires
            idx@.len() >= 1,
            idx@[0] == 0,
            forall|i: int, j: int|
                0 <= i <= j < idx@.len() ==> #[trigger] idx@[i] <= #[trigger] idx@[j],
            idx@.last() == vals@.len(),
        ensures
            r.offsets() == idx@,
            r.values() == vals@,
            r.wf(),
    {
        MultiValuedFastFieldReader { idx, vals }
    }

    /// Returns `[start, end)` such that the values associated with `doc`
    /// are `start..end` of the value column.  The caller keeps `doc` in
    /// bounds: this hot path performs no check of its own.
    pub fn range(&self, doc: DocId) -> (r: (u64, u64))
        requires
            self.wf(),
            doc + 1 < self.offsets().len(),
        ensures
            r.0 == self.offsets()[doc as int],
            r.1 == self.offsets()[doc as int + 1],
            r.0 <= r.1 <= self.values().len(),
    {
        let n = self.idx.len();
        let start = self.idx[doc as usize];
        let end = self.idx[doc as usize + 1];
        proof {
            assert(n == self.offsets().len());
            assert(self.offsets().last() == self.offsets()[self.offsets().len() - 1]);
        }
        (start, end)
    }

    /// Overwrite `vals` with the given range of the value column.
    fn get_vals_for_range(&self, range: (u64, u64), vals: &mut Vec<u64>)
        requires
            range.0 <= range.1 <= self.values().len(),
        ensures
            final(vals)@ == self.values().subrange(range.0 as int, range.1 as int),
    {
        vals.clear();
        let n = self.vals.len();
        let mut p = range.0;
        while p < range.1
            invariant
                range.0 <= p <= range.1 <= self.values().len(),
                n == self.values().len(),
                vals@ == self.values().subrange(range.0 as int, p as int),
            decreases range.1 - p,
        {
            vals.push(self.vals[p as usize]);
            proof {
                assert(self.values().subrange(range.0 as int, p as int + 1)
                    =~= self.values().subrange(range.0 as int, p as int).push(
                    self.values()[p as int],
                ));
            }
            p = p + 1;
        }
        proof {
            assert(vals@ =~= self.values().subrange(range.0 as int, range.1 as int));
        }
    }

    /// Overwrite `vals` with the values associated with `doc`.
    pub fn get_vals(&self, doc: DocId, vals: &mut Vec<u64>)
        requires
            self.wf(),
            doc + 1 < self.offsets().len(),
        ensures
            final(vals)@ == self.values().subrange(
                self.offsets()[doc as int] as int,
                self.offsets()[doc as int + 1] as int,
            ),
    {
        let range = self.range(doc);
        self.get_vals_for_range(range, vals);
    }

    /// The minimum over the entire value column, 0 if it is empty.
    /// Document liveness is not consulted: the result is a lower bound
    /// of the minimum over any subset of live documents.
    pub fn min_value(&self) -> (r: u64)
        ensures
            self.values().len() == 0 ==> r == 0,
            self.values().len() > 0 ==> (exists|i: int|
                0 <= i < self.values().len() && self.values()[i] == r) && (forall|i: int|
                0 <= i < self.values().len() ==> #[trigger] self.values()[i] >= r),
    {
        if self.vals.len() == 0 {
            return 0;
        }
        let mut r = self.vals[0];
        proof {
            assert(self.values()[0] == r);
        }
        let mut i: usize = 1;
        while i < self.vals.len()
            invariant
                1 <= i <= self.values().len(),
                exists|k: int| 0 <= k < i && self.values()[k] == r,
                forall|k: int| 0 <= k < i ==> #[trigger] self.values()[k] >= r,
            decreases self.values().len() - i,
        {
            if self.vals[i] < r {
                r = self.vals[i];
                proof {
                    assert(self.values()[i as int] == r);
                }
            }
            i = i + 1;
        }
        r
    }

    /// The maximum over the entire value column, 0 if it is empty.
    /// Document liveness is not consulted: the result is an upper bound
    /// of the maximum over any subset of live documents.
    pub fn max_value(&self) -> (r: u64)
        ensures
            self.values().len() == 0 ==> r == 0,
            self.values().len() > 0 ==> (exists|i: int|
                0 <= i < self.values().len() && self.values()[i] == r) && (forall|i: int|
                0 <= i < self.values().len() ==> #[trigger] self.values()[i] <= r),
    {
        if self.vals.len() == 0 {
            return 0;
        }
        let mut r = self.vals[0];
        proof {
            assert(self.values()[0] == r);
        }
        let mut i: usize = 1;
        while i < self.vals.len()
            invariant
                1 <= i <= self.values().len(),
                exists|k: int| 0 <= k < i && self.values()[k] == r,
                forall|k: int| 0 <= k < i ==> #[trigger] self.values()[k] <= r,
            decreases self.values().len() - i,
        {
            if self.vals[i] > r {
                r = self.vals[i];
                proof {
                    assert(self.values()[i as int] == r);
                }
            }
            i = i + 1;
        }
        r
    }

    /// The number of values associated with `doc`: exactly the width of
    /// `range(doc)`.
    pub fn num_vals(&self, doc: DocId) -> (r: usize)
        requires
            self.wf(),
            doc + 1 < self.offsets().len(),
        ensures
            r == self.offsets()[doc as int + 1] - self.offsets()[doc as int],
    {
        let range = self.range(doc);
        let total = self.vals.len();
        proof {
            assert(range.1 - range.0 <= total);
        }
        (range.1 - range.0) as usize
    }

    /// The overall number of values in this field: the last offset.
    pub fn total_num_vals(&self) -> (r: u64)
        requires
            self.wf(),
        ensures
            r == self.values().len(),
            r == self.offsets().last(),
    {
        self.idx[self.idx.len() - 1]
    }

    /// The value stored at one position of the flat column; `None` past
    /// its end.  Together with `total_num_vals` this walks every element
    /// of the fast field, one position at a time.
    pub fn get_val(&self, pos: u64) -> (r: Option<u64>)
        ensures
            pos < self.values().len() ==> r == Some(self.values()[pos as int]),
            pos >= self.values().len() ==> r is None,
    {
        if pos < self.vals.len() as u64 {
            Some(self.vals[pos as usize])
        } else {
            None
        }
    }

    /// The first value associated with `doc`, if it has any.
    pub fn get_first_val(&self, doc: DocId) -> (r: Option<u64>)
        requires
            self.wf(),
            doc + 1 < self.offsets().len(),
        ensures
            self.offsets()[doc as int] == self.offsets()[doc as int + 1] ==> r is None,
            self.offsets()[doc as int] < self.offsets()[doc as int + 1] ==> r == Some(
                self.values()[self.offsets()[doc as int] as int],
            ),
    {
        let range = self.range(doc);
        if range.0 == range.1 {
            return None;
        }
        self.get_val(range.0)
    }

    /// The ascending positions of the value column whose values fall in
    /// `lo..=hi`: the value column's own range scan.  Feeding the result
    /// to `positions_to_docids` gives the ids of all documents holding a
    /// value in that range, ascending and without duplicates.
    pub fn positions_in_value_range(&self, lo: u64, hi: u64) -> (positions: Vec<usize>)
        ensures
            forall|a: int, b: int|
                0 <= a <= b < positions@.len() ==> #[trigger] positions@[a]
                    <= #[trigger] positions@[b],
            forall|i: int|
                0 <= i < positions@.len() ==> #[trigger] positions@[i] < self.values().len() && lo
                    <= self.values()[positions@[i] as int] <= hi,
            forall|q: int|
                0 <= q < self.values().len() && lo <= #[trigger] self.values()[q] <= hi
                    ==> exists|i: int| 0 <= i < positions@.len() && positions@[i] == q,
    {
        let mut positions: Vec<usize> = Vec::new();
        let mut p: usize = 0;
        while p < self.vals.len()
            invariant
                p <= self.values().len(),
                forall|a: int, b: int|
                    0 <= a <= b < positions@.len() ==> #[trigger] positions@[a]
                        <= #[trigger] positions@[b],
                forall|i: int|
                    0 <= i < positions@.len() ==> #[trigger] positions@[i] < p && lo
                        <= self.values()[positions@[i] as int] <= hi,
                forall|q: int|
                    0 <= q < p && lo <= #[trigger] self.values()[q] <= hi ==> exists|i: int|
                        0 <= i < positions@.len() && positions@[i] == q,
            decreases self.values().len() - p,
        {
            if lo <= self.vals[p] && self.vals[p] <= hi {
                let ghost positions_before = positions@;
                positions.push(p);
                proof {
                    assert(positions@.last() == p);
                    assert forall|q: int|
                        0 <= q < p + 1 && lo <= #[trigger] self.values()[q] <= hi implies exists|
                        i: int,
                    | 0 <= i < positions@.len() && positions@[i] == q by {
                        if q < p {
                            let i0 = choose|i0: int|
                                0 <= i0 < positions_before.len() && positions_before[i0] == q;
                            assert(positions@[i0] == q);
                        } else {
                            assert(positions@[positions@.len() - 1] == q);
                        }
                    }
                }
            }
            p = p + 1;
        }
        positions
    }

    /// Whether `pos` falls in `doc`'s value range.
    fn contains_pos(&self, doc: DocId, pos: u64) -> (r: bool)
        requires
            self.wf(),
            doc + 1 < self.offsets().len(),
        ensures
            r == self.pos_in_doc(doc as int, pos as int),
    {
        let range = self.range(doc);
        range.0 <= pos && pos < range.1
    }
}

/// The sum of `num_vals` over documents 0 to `d` (exclusive).
pub open spec fn sum_num_vals(offsets: Seq<u64>, d: int) -> int
    decreases d,
{
    if d <= 0 {
        0
    } else {
        sum_num_vals(offsets, d - 1) + (offsets[d] - offsets[d - 1])
    }
}

/// The sum telescopes: the values of documents 0 to `d` fill the column
/// up to offset `d`.
pub proof fn lemma_sum_num_vals_prefix(r: MultiValuedFastFieldReader, d: int)
    requires
        r.wf(),
        0 <= d < r.offsets().len(),
    ensures
        sum_num_vals(r.offsets(), d) == r.offsets()[d],
    decreases d,
{
    if d > 0 {
        lemma_sum_num_vals_prefix(r, d - 1);
    }
}

/// Fast-field invariant: for every document the value count equals the
/// width of its range, and the counts of all documents together equal
/// the total number of values.
pub proof fn lemma_fast_field_totals(r: MultiValuedFastFieldReader)
    requires
        r.wf(),
    ensures
        forall|d: int|
            0 <= d < r.spec_num_docs() ==> #[trigger] sum_num_vals(r.offsets(), d + 1)
                - sum_num_vals(r.offsets(), d) == r.offsets()[d + 1] - r.offsets()[d],
        sum_num_vals(r.offsets(), r.spec_num_docs()) == r.values().len(),
{
    lemma_sum_num_vals_prefix(r, r.spec_num_docs());
    assert(r.offsets().last() == r.offsets()[r.offsets().len() - 1]);
}

/// Convert ascending positions of values in the flat column to the
/// ascending list of distinct document ids owning them: one linear merge
/// of the two sequences, scanning documents in increasing id order and
/// emitting each owning document once.  The positions must already be
/// sorted; each one must lie below the total value count.
#[verifier::rlimit(60)]
pub fn positions_to_docids(positions: &[usize], multival_idx: &MultiValuedFastFieldReader) -> (r:
    Vec<DocId>)
    requires
        multival_idx.wf(),
        multival_idx.offsets().len() <= 0x1_0000_0000,
        forall|i: int, j: int|
            0 <= i <= j < positions@.len() ==> #[trigger] positions@[i] <= #[trigger] positions@[j],
        forall|i: int|
            0 <= i < positions@.len() ==> #[trigger] positions@[i] < multival_idx.values().len(),
    ensures
        forall|a: int, b: int| 0 <= a < b < r@.len() ==> #[trigger] r@[a] < #[trigger] r@[b],
        forall|k: int| 0 <= k < r@.len() ==> #[trigger] r@[k] + 1 < multival_idx.offsets().len(),
        forall|k: int|
            0 <= k < r@.len() ==> exists|p: int|
                0 <= p < positions@.len() && multival_idx.pos_in_doc(
                    #[trigger] r@[k] as int,
                    positions@[p] as int,
                ),
        forall|p: int|
            0 <= p < positions@.len() ==> exists|k: int|
                0 <= k < r@.len() && multival_idx.pos_in_doc(
                    r@[k] as int,
                    #[trigger] positions@[p] as int,
                ),
{
    let mut docs: Vec<DocId> = Vec::new();
    if positions.len() == 0 {
        return docs;
    }
    proof {
        assert(positions@[0] < multival_idx.values().len());
        assert(multival_idx.offsets().last()
            == multival_idx.offsets()[multival_idx.offsets().len() - 1]);
        assert(multival_idx.offsets().len() >= 2);
    }
    let mut cur_doc: u32 = 0;
    let mut last_doc: Option<u32> = None;
    let mut pi: usize = 0;
    while pi < positions.len()
        invariant
            multival_idx.wf(),
            multival_idx.offsets().len() <= 0x1_0000_0000,
            forall|i: int, j: int|
                0 <= i <= j < positions@.len() ==> #[trigger] positions@[i]
                    <= #[trigger] positions@[j],
            forall|i: int|
                0 <= i < positions@.len() ==> #[trigger] positions@[i]
                    < multival_idx.values().len(),
            positions@.len() > 0,
            pi <= positions@.len(),
            cur_doc + 1 < multival_idx.offsets().len(),
            pi == 0 ==> cur_doc == 0 && docs@.len() == 0 && last_doc is None,
            pi > 0 ==> multival_idx.offsets()[cur_doc as int] <= positions@[pi - 1],
            match last_doc {
                Some(d) => docs@.len() > 0 && docs@.last() == d && d <= cur_doc,
                None => docs@.len() == 0,
            },
            forall|a: int, b: int|
                0 <= a < b < docs@.len() ==> #[trigger] docs@[a] < #[trigger] docs@[b],
            forall|k: int|
                0 <= k < docs@.len() ==> #[trigger] docs@[k] + 1 < multival_idx.offsets().len(),
            forall|k: int|
                0 <= k < docs@.len() ==> exists|p: int|
                    0 <= p < positions@.len() && multival_idx.pos_in_doc(
                        #[trigger] docs@[k] as int,
                        positions@[p] as int,
                    ),
            forall|p: int|
                0 <= p < pi ==> exists|k: int|
                    0 <= k < docs@.len() && multival_idx.pos_in_doc(
                        docs@[k] as int,
                        #[trigger] positions@[p] as int,
                    ),
        decreases positions@.len() - pi,
    {
        let pos = positions[pi] as u64;
        proof {
            if pi == 0 {
                assert(multival_idx.offsets()[0] == 0);
            } else {
                assert(positions@[pi - 1] <= positions@[pi as int]);
            }
            assert(positions@[pi as int] < multival_idx.values().len());
        }
        while !multival_idx.contains_pos(cur_doc, pos)
            invariant
                multival_idx.wf(),
                multival_idx.offsets().len() <= 0x1_0000_0000,
                pi < positions@.len(),
                pos == positions@[pi as int],
                pos < multival_idx.values().len(),
                cur_doc + 1 < multival_idx.offsets().len(),
                multival_idx.offsets()[cur_doc as int] <= pos,
            decreases multival_idx.offsets().len() - cur_doc,
        {
            proof {
                assert(multival_idx.offsets()[cur_doc as int + 1] <= pos);
                assert(multival_idx.offsets().last()
                    == multival_idx.offsets()[multival_idx.offsets().len() - 1]);
                if cur_doc as int + 2 == multival_idx.offsets().len() {
                    assert(multival_idx.offsets()[cur_doc as int + 1]
                        == multival_idx.offsets().last());
                }
                assert(cur_doc + 2 < multival_idx.offsets().len());
            }
            cur_doc = cur_doc + 1;
        }
        proof {
            assert(multival_idx.pos_in_doc(cur_doc as int, pos as int));
        }
        let is_dup = match last_doc {
            Some(d) => d == cur_doc,
            None => false,
        };
        let ghost docs_before = docs@;
        if !is_dup {
            proof {
                if docs_before.len() > 0 {
                    assert(docs_before.last() < cur_doc);
                }
            }
            docs.push(cur_doc);
            last_doc = Some(cur_doc);
            proof {
                assert(docs@ == docs_before.push(cur_doc));
                assert(docs@.last() == cur_doc);
                assert forall|a: int, b: int| 0 <= a < b < docs@.len() implies #[trigger] docs@[a]
                    < #[trigger] docs@[b] by {
                    if b < docs_before.len() {
                        assert(docs_before[a] < docs_before[b]);
                    } else {
                        assert(docs@[b] == cur_doc);
                        if docs_before.len() > 0 {
                            assert(docs_before[a] <= docs_before.last());
                        }
                    }
                }
                assert forall|k: int| 0 <= k < docs@.len() implies exists|p: int|
                    0 <= p < positions@.len() && multival_idx.pos_in_doc(
                        #[trigger] docs@[k] as int,
                        positions@[p] as int,
                    ) by {
                    if k < docs_before.len() {
                        assert(docs@[k] == docs_before[k]);
                        let p0 = choose|p0: int|
                            0 <= p0 < positions@.len() && multival_idx.pos_in_doc(
                                docs_before[k] as int,
                                positions@[p0] as int,
                            );
                        assert(multival_idx.pos_in_doc(docs@[k] as int, positions@[p0] as int));
                    } else {
                        assert(docs@[k] == cur_doc);
                        assert(multival_idx.pos_in_doc(
                            docs@[k] as int,
                            positions@[pi as int] as int,
                        ));
                    }
                }
            }
        }
        proof {
            let kk = docs@.len() - 1;
            assert(docs@[kk] == cur_doc);
            assert(multival_idx.pos_in_doc(docs@[kk] as int, positions@[pi as int] as int));
            assert forall|p: int| 0 <= p < pi + 1 implies exists|k: int|
                0 <= k < docs@.len() && multival_idx.pos_in_doc(
                    docs@[k] as int,
                    #[trigger] positions@[p] as int,
                ) by {
                if p < pi {
                    let k0 = choose|k0: int|
                        0 <= k0 < docs_before.len() && multival_idx.pos_in_doc(
                            docs_before[k0] as int,
                            positions@[p] as int,
                        );
                    assert(docs@[k0] == docs_before[k0]);
                    assert(multival_idx.pos_in_doc(docs@[k0] as int, positions@[p] as int));
                } else {
                    assert(multival_idx.pos_in_doc(docs@[kk] as int, positions@[p] as int));
                }
            }
        }
        pi = pi + 1;
    }
    docs
}


} // verus!
