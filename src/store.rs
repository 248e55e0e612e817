//! The append-only entry store: the stored vectors and their labels, kept
//! position for position.
use vstd::prelude::*;
use crate::error::IndexError;
use crate::hamming::{hamming, hamming_distance, lemma_diff_bits_bound};
use crate::result::distances_fit;

verus! {

/// Largest vector width, in bytes, for which every Hamming distance fits in an `i32`.
pub const MAX_DIMS: usize = 268435455;

/// One stored entry: its vector, its position and its label.
pub struct IndexBinaryEntry {
    pub hash: Vec<u8>,
    pub label: usize,
    pub id: String,
}

/// Stored vectors and labels. Position `i` holds the `i`-th inserted vector
/// and its label.
pub struct EntryStore {
    dims: usize,
    hashes: Vec<Vec<u8>>,
    ids: Vec<String>,
}

/// The byte contents of each vector of a list.
pub open spec fn vecs_view(v: Seq<Vec<u8>>) -> Seq<Seq<u8>> {
    Seq::new(v.len(), |i: int| v[i]@)
}

/// Every vector of `hs` has width `dims`.
pub open spec fn all_width(hs: Seq<Seq<u8>>, dims: int) -> bool {
    forall|i: int| 0 <= i < hs.len() ==> (#[trigger] hs[i]).len() == dims
}

/// Hamming distance from `q` to each stored vector, by position.
pub open spec fn distances_to(hs: Seq<Seq<u8>>, q: Seq<u8>) -> Seq<u32> {
    Seq::new(hs.len(), |p: int| hamming(q, hs[p]) as u32)
}

/// The vector at position `i` of a concatenated buffer of `dims`-byte vectors.
pub open spec fn chunk(raw: Seq<u8>, dims: int, i: int) -> Seq<u8> {
    raw.subrange(i * dims, i * dims + dims)
}

/// `raw` is the concatenation of the vectors `hs`, each `dims` bytes wide.
pub open spec fn is_concat(hs: Seq<Seq<u8>>, dims: int, raw: Seq<u8>) -> bool {
    &&& raw.len() == hs.len() * dims
    &&& forall|i: int| 0 <= i < hs.len() ==> #[trigger] chunk(raw, dims, i) == hs[i]
}

/// Copies a byte vector.
pub fn copy_bytes(v: &Vec<u8>) -> (r: Vec<u8>)
    ensures
        r@ == v@,
{
    let mut r: Vec<u8> = Vec::with_capacity(v.len());
    let mut i: usize = 0;
    while i < v.len()
        invariant
            i <= v@.len(),
            r@ == v@.subrange(0, i as int),
        decreases v@.len() - i,
    {
        r.push(v[i]);
        i = i + 1;
        assert(r@ =~= v@.subrange(0, i as int));
    }
    assert(r@ =~= v@);
    r
}

/// Copies a list of labels.
pub fn copy_labels(v: &Vec<String>) -> (r: Vec<String>)
    ensures
        r@ == v@,
{
    let mut r: Vec<String> = Vec::with_capacity(v.len());
    let mut i: usize = 0;
    while i < v.len()
        invariant
            i <= v@.len(),
            r@ == v@.subrange(0, i as int),
        decreases v@.len() - i,
    {
        r.push(v[i].clone());
        i = i + 1;
        assert(r@ =~= v@.subrange(0, i as int));
    }
    assert(r@ =~= v@);
    r
}

/// Every vector of `data` is `dims` bytes wide.
pub fn widths_match(data: &Vec<Vec<u8>>, dims: usize) -> (r: bool)
    ensures
        r == all_width(vecs_view(data@), dims as int),
{
    let mut i: usize = 0;
    while i < data.len()
        invariant
            i <= data@.len(),
            forall|j: int| 0 <= j < i ==> (#[trigger] data@[j])@.len() == dims,
        decreases data@.len() - i,
    {
        if data[i].len() != dims {
            assert(vecs_view(data@)[i as int].len() != dims);
            return false;
        }
        i = i + 1;
    }
    true
}

/// The first `n` vectors of a concatenated buffer of `dims`-byte vectors.
pub open spec fn split_raw(raw: Seq<u8>, dims: int, n: int) -> Seq<Seq<u8>> {
    Seq::new(n as nat, |i: int| chunk(raw, dims, i))
}

/// Where `get_batch(offset, len)` starts and ends among `n` entries: both
/// ends clamped to `[0, n]`.
pub open spec fn batch_start(n: int, offset: int) -> int {
    if offset < n { offset } else { n }
}

pub open spec fn batch_end(n: int, offset: int, len: int) -> int {
    if len < n - batch_start(n, offset) { batch_start(n, offset) + len } else { n }
}

/// Distances to vectors of width at most `MAX_DIMS` fit in an `i32`, and
/// each is the exact Hamming distance.
pub proof fn lemma_distances_fit(hs: Seq<Seq<u8>>, q: Seq<u8>, dims: int)
    requires
        0 <= dims <= MAX_DIMS,
        q.len() == dims,
        all_width(hs, dims),
    ensures
        distances_fit(distances_to(hs, q)),
        forall|p: int| 0 <= p < hs.len() ==> #[trigger] distances_to(hs, q)[p] == hamming(q, hs[p]),
{
    assert forall|p: int| 0 <= p < hs.len() implies #[trigger] distances_to(hs, q)[p] == hamming(q, hs[p]) && hamming(q, hs[p]) <= i32::MAX by {
        lemma_diff_bits_bound(q, hs[p], 0, 8 * dims);
    }
}

/// Splits a buffer of `n` concatenated `dims`-byte vectors.
pub fn split_vectors(data: &Vec<u8>, dims: usize, n: usize) -> (r: Vec<Vec<u8>>)
    requires
        data@.len() == n * dims,
    ensures
        vecs_view(r@) == split_raw(data@, dims as int, n as int),
        all_width(vecs_view(r@), dims as int),
{
    let total = data.len();
    let mut r: Vec<Vec<u8>> = Vec::with_capacity(n);
    let mut i: usize = 0;
    while i < n
        invariant
            i <= n,
            total == data@.len(),
            data@.len() == n * dims,
            vecs_view(r@) == split_raw(data@, dims as int, n as int).subrange(0, i as int),
        decreases n - i,
    {
        assert(i * dims + dims <= n * dims) by (nonlinear_arith)
            requires
                i < n,
        ;
        let base: usize = i * dims;
        let mut v: Vec<u8> = Vec::with_capacity(dims);
        let mut j: usize = 0;
        while j < dims
            invariant
                j <= dims,
                total == data@.len(),
                base == i * dims,
                base + dims <= data@.len(),
                v@ == data@.subrange(base as int, base + j),
            decreases dims - j,
        {
            v.push(data[base + j]);
            j = j + 1;
            assert(v@ =~= data@.subrange(base as int, base + j));
        }
        let ghost before = r@;
        r.push(v);
        i = i + 1;
        assert(vecs_view(r@) =~= vecs_view(before).push(v@));
        assert(vecs_view(r@) =~= split_raw(data@, dims as int, n as int).subrange(0, i as int));
    }
    assert(vecs_view(r@) =~= split_raw(data@, dims as int, n as int));
    assert forall|i: int| 0 <= i < n implies (#[trigger] split_raw(data@, dims as int, n as int)[i]).len() == dims by {
        assert(0 <= i * dims && i * dims + dims <= n * dims) by (nonlinear_arith)
            requires
                0 <= i < n,
        ;
    }
    r
}

impl EntryStore {
    pub closed spec fn spec_dims(&self) -> nat {
        self.dims as nat
    }

    /// The stored vectors, by position.
    pub closed spec fn spec_hashes(&self) -> Seq<Seq<u8>> {
        vecs_view(self.hashes@)
    }

    /// The stored labels, by position.
    pub closed spec fn spec_ids(&self) -> Seq<String> {
        self.ids@
    }

    /// One label per vector, every vector of the store's width.
    pub open spec fn wf(&self) -> bool {
        &&& self.spec_dims() <= MAX_DIMS
        &&& self.spec_hashes().len() <= i64::MAX
        &&& self.spec_hashes().len() == self.spec_ids().len()
        &&& all_width(self.spec_hashes(), self.spec_dims() as int)
    }

    pub fn new(dims: usize) -> (r: Self)
        requires
            dims <= MAX_DIMS,
        ensures
            r.wf(),
            r.spec_dims() == dims,
            r.spec_hashes() == Seq::<Seq<u8>>::empty(),
            r.spec_ids() == Seq::<String>::empty(),
    {
        let r = EntryStore { dims, hashes: Vec::new(), ids: Vec::new() };
        assert(r.spec_hashes() =~= Seq::<Seq<u8>>::empty());
        r
    }

    pub fn dims(&self) -> (r: usize)
        ensures
            r == self.spec_dims(),
    {
        self.dims
    }

    pub fn len(&self) -> (r: usize)
        requires
            self.wf(),
        ensures
            r == self.spec_hashes().len(),
    {
        self.hashes.len()
    }

    /// Appends a batch of vectors with their labels, all or nothing: on
    /// `DimensionMismatch` neither the store nor `ids` changes. On success
    /// `ids` is emptied into the store.
    pub fn append_batch(&mut self, data: &Vec<Vec<u8>>, ids: &mut Vec<String>) -> (r: Result<(), IndexError>)
        requires
            old(self).wf(),
            data@.len() == old(ids)@.len(),
            old(self).spec_hashes().len() + data@.len() <= i64::MAX,
        ensures
            final(self).wf(),
            final(self).spec_dims() == old(self).spec_dims(),
            r is Ok <==> all_width(vecs_view(data@), old(self).spec_dims() as int),
            r is Err ==> r == Err::<(), IndexError>(IndexError::DimensionMismatch),
            r is Ok ==> final(self).spec_hashes() == old(self).spec_hashes() + vecs_view(data@),
            r is Ok ==> final(self).spec_ids() == old(self).spec_ids() + old(ids)@,
            r is Ok ==> final(ids)@ == Seq::<String>::empty(),
            r is Err ==> *final(self) == *old(self) && final(ids)@ == old(ids)@,
    {
        if !widths_match(data, self.dims) {
            return Err(IndexError::DimensionMismatch);
        }
        let ghost old_hashes = self.spec_hashes();
        let mut i: usize = 0;
        while i < data.len()
            invariant
                i <= data@.len(),
                self.dims == old(self).dims,
                self.ids == old(self).ids,
                all_width(vecs_view(data@), self.dims as int),
                self.spec_hashes() == old_hashes + vecs_view(data@).subrange(0, i as int),
            decreases data@.len() - i,
        {
            let v = copy_bytes(&data[i]);
            let ghost before = self.hashes@;
            self.hashes.push(v);
            i = i + 1;
            assert(self.hashes@ == before.push(v));
            assert(vecs_view(self.hashes@) =~= vecs_view(before).push(v@));
            assert(vecs_view(data@).subrange(0, i as int) =~= vecs_view(data@).subrange(
                0,
                i - 1,
            ).push(v@));
            assert(self.spec_hashes() =~= old_hashes + vecs_view(data@).subrange(0, i as int));
        }
        self.ids.append(ids);
        assert(vecs_view(data@).subrange(0, data@.len() as int) =~= vecs_view(data@));
        Ok(())
    }

    /// Hamming distance from `q` to each stored vector.
    pub fn distances(&self, q: &Vec<u8>) -> (r: Vec<u32>)
        requires
            self.wf(),
            q@.len() == self.spec_dims(),
        ensures
            r@ == distances_to(self.spec_hashes(), q@),
    {
        let mut r: Vec<u32> = Vec::with_capacity(self.hashes.len());
        let mut p: usize = 0;
        while p < self.hashes.len()
            invariant
                self.wf(),
                q@.len() == self.spec_dims(),
                p <= self.hashes@.len(),
                r@ == distances_to(self.spec_hashes(), q@).subrange(0, p as int),
            decreases self.hashes@.len() - p,
        {
            assert(self.spec_hashes()[p as int] == self.hashes@[p as int]@);
            let d = hamming_distance(q, &self.hashes[p]);
            r.push(d);
            p = p + 1;
            assert(r@ =~= distances_to(self.spec_hashes(), q@).subrange(0, p as int));
        }
        assert(r@ =~= distances_to(self.spec_hashes(), q@));
        r
    }

    /// The stored vectors concatenated in position order.
    pub fn extract_raw(&self) -> (r: Vec<u8>)
        requires
            self.wf(),
        ensures
            is_concat(self.spec_hashes(), self.spec_dims() as int, r@),
    {
        let d = self.dims;
        let mut r: Vec<u8> = Vec::new();
        let mut i: usize = 0;
        while i < self.hashes.len()
            invariant
                self.wf(),
                d == self.spec_dims(),
                i <= self.hashes@.len(),
                r@.len() == i * d,
                forall|m: int| 0 <= m < i ==> #[trigger] chunk(r@, d as int, m) == self.spec_hashes()[m],
            decreases self.hashes@.len() - i,
        {
            let v = &self.hashes[i];
            assert(v@ == self.spec_hashes()[i as int]);
            let ghost before = r@;
            let mut j: usize = 0;
            while j < d
                invariant
                    j <= d,
                    v@.len() == d,
                    r@.len() == before.len() + j,
                    r@.subrange(0, before.len() as int) == before,
                    r@.subrange(before.len() as int, before.len() + j) == v@.subrange(0, j as int),
                decreases d - j,
            {
                r.push(v[j]);
                j = j + 1;
                assert(r@.subrange(0, before.len() as int) =~= before);
                assert(r@.subrange(before.len() as int, before.len() + j) =~= v@.subrange(0, j as int));
            }
            assert((i + 1) * d == i * d + d) by (nonlinear_arith);
            assert forall|m: int| 0 <= m <= i implies #[trigger] chunk(r@, d as int, m) == self.spec_hashes()[m] by {
                if m < i {
                    assert(m * d + d <= i * d) by (nonlinear_arith)
                        requires
                            m < i,
                    ;
                    assert(chunk(r@, d as int, m) =~= chunk(before, d as int, m));
                } else {
                    assert(v@.subrange(0, d as int) =~= v@);
                }
            }
            i = i + 1;
        }
        r
    }

    /// A store rebuilt from a concatenated buffer and its labels.
    pub fn from_raw(dims: usize, data: &Vec<u8>, ids: Vec<String>) -> (r: Self)
        requires
            dims <= MAX_DIMS,
            ids@.len() <= i64::MAX,
            data@.len() == ids@.len() * dims,
        ensures
            r.wf(),
            r.spec_dims() == dims,
            r.spec_hashes() == split_raw(data@, dims as int, ids@.len() as int),
            r.spec_ids() == ids@,
    {
        let hashes = split_vectors(data, dims, ids.len());
        EntryStore { dims, hashes, ids }
    }

    /// The entries at positions `[start, end)`, both clamped to the store.
    pub fn get_batch(&self, offset: usize, len: usize) -> (r: Vec<IndexBinaryEntry>)
        requires
            self.wf(),
        ensures
            r@.len() == batch_end(self.spec_hashes().len() as int, offset as int, len as int)
                - batch_start(self.spec_hashes().len() as int, offset as int),
            forall|i: int|
                0 <= i < r@.len() ==> {
                    let p = batch_start(self.spec_hashes().len() as int, offset as int) + i;
                    &&& (#[trigger] r@[i]).hash@ == self.spec_hashes()[p]
                    &&& r@[i].label == p
                    &&& r@[i].id == self.spec_ids()[p]
                },
    {
        let n = self.hashes.len();
        let start: usize = if offset < n { offset } else { n };
        let end: usize = if len < n - start { start + len } else { n };
        let mut r: Vec<IndexBinaryEntry> = Vec::new();
        let mut x: usize = start;
        while x < end
            invariant
                self.wf(),
                n == self.hashes@.len(),
                start <= x <= end <= n,
                start == batch_start(n as int, offset as int),
                end == batch_end(n as int, offset as int, len as int),
                r@.len() == x - start,
                forall|i: int|
                    0 <= i < r@.len() ==> {
                        let p = start + i;
                        &&& (#[trigger] r@[i]).hash@ == self.spec_hashes()[p]
                        &&& r@[i].label == p
                        &&& r@[i].id == self.spec_ids()[p]
                    },
            decreases end - x,
        {
            let hash = copy_bytes(&self.hashes[x]);
            r.push(IndexBinaryEntry { hash, label: x, id: self.ids[x].clone() });
            x = x + 1;
        }
        r
    }

    pub fn hash_at(&self, p: usize) -> (r: &Vec<u8>)
        requires
            self.wf(),
            p < self.spec_hashes().len(),
        ensures
            r@ == self.spec_hashes()[p as int],
    {
        &self.hashes[p]
    }

    pub fn ids(&self) -> (r: &Vec<String>)
        ensures
            r@ == self.spec_ids(),
    {
        &self.ids
    }
}

} // verus!
