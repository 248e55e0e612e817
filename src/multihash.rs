//! The approximate multi-hash index. Each vector is cut into `nhash`
//! sub-keys of `bucket_bits` bits; a query reaches a stored vector only
//! where, in at least one table, their sub-keys differ in at most `nflip`
//! bits, which is the set of buckets that probing with up to `nflip` bit
//! flips visits. Only those candidates are ranked by true distance, so a
//! true neighbour that shares no probed bucket is not returned: recall is
//! traded for speed.
use vstd::prelude::*;
use crate::error::IndexError;
use crate::hamming::{count_diff_bits, diff_bits};
use crate::ranking::{is_top_k, lemma_radius_prefix, within_radius};
use crate::result::{
    is_knn_row, is_match_within, is_ordered_row, is_range_row, knn_row, lemma_knn_row_ordered,
    lemma_knn_row_unique, lemma_padded_filter, lemma_range_row_ordered, padded_row, range_row,
    trimmed_row, IndexBinarySearchQueryResult, IndexBinarySearchResult,
};
use crate::store::{
    all_width, batch_end, batch_start, chunk, copy_labels, distances_to, is_concat,
    lemma_distances_fit, split_raw, split_vectors, vecs_view, widths_match, EntryStore,
    IndexBinaryEntry, MAX_DIMS,
};

verus! {

/// Approximate Hamming-distance index over vectors of a fixed width, with a
/// label for each vector.
pub struct IndexBinaryMultiHash {
    store: EntryStore,
    nhash: usize,
    bucket_bits: usize,
    nflip: usize,
}

/// The persisted form of a multi-hash index: its width, its hash
/// parameters, its labels, and its vectors concatenated in position order.
pub struct MultiHashSnapshot {
    pub dims: usize,
    pub nhash: usize,
    pub bucket_bits: usize,
    pub nflip: usize,
    pub ids: Vec<String>,
    pub data: Vec<u8>,
}

impl MultiHashSnapshot {
    /// The snapshot describes an index: a supported width, sub-keys that fit
    /// in a vector, and one vector per label.
    pub open spec fn is_valid(&self) -> bool {
        &&& self.dims <= MAX_DIMS
        &&& self.nhash * self.bucket_bits <= 8 * self.dims
        &&& self.ids@.len() <= i64::MAX
        &&& self.data@.len() == self.ids@.len() * self.dims
    }
}

/// In at least one of the `nhash` tables, the sub-keys of `q` and `v`
/// (bits `[h * b, h * b + b)`) differ in at most `nflip` bits.
pub open spec fn shares_bucket(q: Seq<u8>, v: Seq<u8>, nhash: int, b: int, nflip: int) -> bool {
    exists|h: int| 0 <= h < nhash && #[trigger] diff_bits(q, v, h * b, h * b + b) <= nflip
}

/// For each stored position, whether a query reaches it through a probed
/// bucket.
pub open spec fn bucket_candidates(hs: Seq<Seq<u8>>, q: Seq<u8>, nhash: int, b: int, nflip: int) -> Seq<bool> {
    Seq::new(hs.len(), |p: int| shares_bucket(q, hs[p], nhash, b, nflip))
}

impl IndexBinaryMultiHash {
    /// Width of every stored vector, in bytes.
    pub closed spec fn spec_dims(&self) -> nat {
        self.store.spec_dims()
    }

    /// The stored vectors, by position.
    pub closed spec fn spec_hashes(&self) -> Seq<Seq<u8>> {
        self.store.spec_hashes()
    }

    /// The labels, by position.
    pub closed spec fn spec_ids(&self) -> Seq<String> {
        self.store.spec_ids()
    }

    pub closed spec fn spec_nhash(&self) -> nat {
        self.nhash as nat
    }

    pub closed spec fn spec_bucket_bits(&self) -> nat {
        self.bucket_bits as nat
    }

    pub closed spec fn spec_nflip(&self) -> nat {
        self.nflip as nat
    }

    /// The stored positions that a query reaches through its probed buckets.
    pub open spec fn candidates(&self, q: Seq<u8>) -> Seq<bool> {
        bucket_candidates(
            self.spec_hashes(),
            q,
            self.spec_nhash() as int,
            self.spec_bucket_bits() as int,
            self.spec_nflip() as int,
        )
    }

    /// One label per vector, every vector of the index's width, and the
    /// sub-keys within a vector.
    pub open spec fn wf(&self) -> bool {
        &&& self.spec_dims() <= MAX_DIMS
        &&& self.spec_hashes().len() <= i64::MAX
        &&& self.spec_nhash() * self.spec_bucket_bits() <= 8 * self.spec_dims()
        &&& self.spec_hashes().len() == self.spec_ids().len()
        &&& all_width(self.spec_hashes(), self.spec_dims() as int)
    }

    /// Same width, hash parameters, vectors and labels.
    pub open spec fn same_contents(&self, other: &Self) -> bool {
        &&& self.spec_dims() == other.spec_dims()
        &&& self.spec_nhash() == other.spec_nhash()
        &&& self.spec_bucket_bits() == other.spec_bucket_bits()
        &&& self.spec_nflip() == other.spec_nflip()
        &&& self.spec_hashes() == other.spec_hashes()
        &&& self.spec_ids() == other.spec_ids()
    }

    /// `res` answers the k-nearest-neighbour `queries` against this index.
    pub open spec fn is_search_answer(&self, queries: Seq<Seq<u8>>, k: nat, res: IndexBinarySearchResult) -> bool {
        &&& res.queries@.len() == queries.len()
        &&& forall|i: int|
            0 <= i < queries.len() ==> is_knn_row(
                distances_to(self.spec_hashes(), queries[i]),
                self.candidates(queries[i]),
                self.spec_ids(),
                k,
                (#[trigger] res.queries@[i])@,
            )
    }

    /// `res` answers the range `queries` against this index.
    pub open spec fn is_range_answer(
        &self,
        queries: Seq<Seq<u8>>,
        k: nat,
        radius: int,
        res: IndexBinarySearchResult,
    ) -> bool {
        &&& res.queries@.len() == queries.len()
        &&& forall|i: int|
            0 <= i < queries.len() ==> is_range_row(
                distances_to(self.spec_hashes(), queries[i]),
                self.candidates(queries[i]),
                self.spec_ids(),
                k,
                radius,
                (#[trigger] res.queries@[i])@,
            )
    }

    /// `snap` holds this index's width, hash parameters, labels and
    /// concatenated vectors.
    pub open spec fn is_snapshot(&self, snap: MultiHashSnapshot) -> bool {
        &&& snap.dims == self.spec_dims()
        &&& snap.nhash == self.spec_nhash()
        &&& snap.bucket_bits == self.spec_bucket_bits()
        &&& snap.nflip == self.spec_nflip()
        &&& snap.ids@ == self.spec_ids()
        &&& is_concat(self.spec_hashes(), self.spec_dims() as int, snap.data@)
    }

    /// This index is the one that `snap` describes.
    pub open spec fn is_restored(&self, snap: MultiHashSnapshot) -> bool {
        &&& self.spec_dims() == snap.dims
        &&& self.spec_nhash() == snap.nhash
        &&& self.spec_bucket_bits() == snap.bucket_bits
        &&& self.spec_nflip() == snap.nflip
        &&& self.spec_hashes() == split_raw(snap.data@, snap.dims as int, snap.ids@.len() as int)
        &&& self.spec_ids() == snap.ids@
    }

    /// An empty index over vectors of `dims` bytes, with `nhash` hash tables
    /// keyed by `bucket_bits` bits each, probed with up to `nflip` flipped bits.
    pub fn new(dims: usize, nhash: usize, bucket_bits: usize, nflip: usize) -> (r: Self)
        requires
            dims <= MAX_DIMS,
            nhash * bucket_bits <= 8 * dims,
        ensures
            r.wf(),
            r.spec_dims() == dims,
            r.spec_nhash() == nhash,
            r.spec_bucket_bits() == bucket_bits,
            r.spec_nflip() == nflip,
            r.spec_hashes() == Seq::<Seq<u8>>::empty(),
            r.spec_ids() == Seq::<String>::empty(),
    {
        IndexBinaryMultiHash { store: EntryStore::new(dims), nhash, bucket_bits, nflip }
    }

    /// Number of stored vectors.
    pub fn len(&self) -> (r: usize)
        requires
            self.wf(),
        ensures
            r == self.spec_hashes().len(),
    {
        self.store.len()
    }

    /// Width of every stored vector, in bytes.
    pub fn dims(&self) -> (r: usize)
        ensures
            r == self.spec_dims(),
    {
        self.store.dims()
    }

    /// Every stored entry, in position order.
    pub fn get_all(&self) -> (r: Vec<IndexBinaryEntry>)
        requires
            self.wf(),
        ensures
            r@.len() == self.spec_hashes().len(),
            forall|i: int|
                0 <= i < r@.len() ==> {
                    &&& (#[trigger] r@[i]).hash@ == self.spec_hashes()[i]
                    &&& r@[i].label == i
                    &&& r@[i].id == self.spec_ids()[i]
                },
    {
        let n = self.store.len();
        self.store.get_batch(0, n)
    }

    /// The entries at positions `[offset, offset + len)`, clamped to the
    /// stored ones.
    pub fn get_batch(&self, offset: usize, len: usize) -> (r: Vec<IndexBinaryEntry>)
        requires
            self.wf(),
        ensures
            r@.len() == batch_end(self.spec_hashes().len() as int, offset as int, len as int)
                - batch_start(self.spec_hashes().len() as int, offset as int),
            forall|i: int|
                0 <= i < r@.len() ==> {
                    let p = batch_start(self.spec_hashes().len() as int, offset as int) + i;
                    &&& (#[trigger] r@[i]).hash@ == self.spec_hashes()[p]
                    &&& r@[i].label == p
                    &&& r@[i].id == self.spec_ids()[p]
                },
    {
        self.store.get_batch(offset, len)
    }

    /// Appends one vector with its label.
    pub fn add(&mut self, data: Vec<u8>, id: String) -> (r: Result<(), IndexError>)
        requires
            old(self).wf(),
            old(self).spec_hashes().len() < i64::MAX,
        ensures
            final(self).wf(),
            final(self).spec_dims() == old(self).spec_dims(),
            final(self).spec_nhash() == old(self).spec_nhash(),
            final(self).spec_bucket_bits() == old(self).spec_bucket_bits(),
            final(self).spec_nflip() == old(self).spec_nflip(),
            r is Ok <==> data@.len() == old(self).spec_dims(),
            r is Err ==> r == Err::<(), IndexError>(IndexError::DimensionMismatch) && *final(self) == *old(self),
            r is Ok ==> final(self).spec_hashes() == old(self).spec_hashes().push(data@),
            r is Ok ==> final(self).spec_ids() == old(self).spec_ids().push(id),
    {
        let mut batch: Vec<Vec<u8>> = Vec::new();
        batch.push(data);
        let mut ids: Vec<String> = Vec::new();
        ids.push(id);
        assert(vecs_view(batch@) =~= seq![data@]);
        assert(vecs_view(batch@)[0] == data@);
        let r = self.store.append_batch(&batch, &mut ids);
        assert(old(self).spec_hashes().push(data@) =~= old(self).spec_hashes() + seq![data@]);
        assert(old(self).spec_ids().push(id) =~= old(self).spec_ids() + seq![id]);
        r
    }

    /// Appends a batch of vectors with their labels, all or nothing. An empty
    /// batch changes nothing. On success `ids` is emptied into the index.
    pub fn add_all(&mut self, data: &Vec<Vec<u8>>, ids: &mut Vec<String>) -> (r: Result<(), IndexError>)
        requires
            old(self).wf(),
            data@.len() == old(ids)@.len(),
            old(self).spec_hashes().len() + data@.len() <= i64::MAX,
        ensures
            final(self).wf(),
            final(self).spec_dims() == old(self).spec_dims(),
            final(self).spec_nhash() == old(self).spec_nhash(),
            final(self).spec_bucket_bits() == old(self).spec_bucket_bits(),
            final(self).spec_nflip() == old(self).spec_nflip(),
            r is Ok <==> all_width(vecs_view(data@), old(self).spec_dims() as int),
            r is Err ==> r == Err::<(), IndexError>(IndexError::DimensionMismatch),
            r is Ok ==> final(self).spec_hashes() == old(self).spec_hashes() + vecs_view(data@),
            r is Ok ==> final(self).spec_ids() == old(self).spec_ids() + old(ids)@,
            r is Ok ==> final(ids)@ == Seq::<String>::empty(),
            r is Err ==> *final(self) == *old(self) && final(ids)@ == old(ids)@,
            r is Ok ==> final(self).spec_hashes().len() == old(self).spec_hashes().len() + data@.len(),
            data@.len() == 0 ==> r is Ok && final(self).spec_hashes() == old(self).spec_hashes()
                && final(self).spec_ids() == old(self).spec_ids(),
    {
        let r = self.store.append_batch(data, ids);
        assert(data@.len() == 0 ==> vecs_view(data@) =~= Seq::<Seq<u8>>::empty());
        assert(old(ids)@.len() == 0 ==> old(ids)@ =~= Seq::<String>::empty());
        assert(old(self).spec_hashes() + Seq::<Seq<u8>>::empty() =~= old(self).spec_hashes());
        assert(old(self).spec_ids() + Seq::<String>::empty() =~= old(self).spec_ids());
        r
    }

    /// Appends `ids.len()` vectors given as one concatenated buffer. Fails
    /// with `DimensionMismatch`, changing nothing, where the buffer does not
    /// hold exactly one vector per label.
    pub fn add_all_raw(&mut self, data: &Vec<u8>, ids: &mut Vec<String>) -> (r: Result<(), IndexError>)
        requires
            old(self).wf(),
            old(self).spec_hashes().len() + old(ids)@.len() <= i64::MAX,
        ensures
            final(self).wf(),
            final(self).spec_dims() == old(self).spec_dims(),
            final(self).spec_nhash() == old(self).spec_nhash(),
            final(self).spec_bucket_bits() == old(self).spec_bucket_bits(),
            final(self).spec_nflip() == old(self).spec_nflip(),
            r is Ok <==> data@.len() == old(ids)@.len() * old(self).spec_dims(),
            r is Err ==> r == Err::<(), IndexError>(IndexError::DimensionMismatch),
            r is Ok ==> final(self).spec_hashes() == old(self).spec_hashes() + split_raw(
                data@,
                old(self).spec_dims() as int,
                old(ids)@.len() as int,
            ),
            r is Ok ==> final(self).spec_ids() == old(self).spec_ids() + old(ids)@,
            r is Ok ==> final(ids)@ == Seq::<String>::empty(),
            r is Err ==> *final(self) == *old(self) && final(ids)@ == old(ids)@,
    {
        let dims = self.store.dims();
        let total_len = data.len();
        match ids.len().checked_mul(dims) {
            Some(total) => {
                if total != data.len() {
                    return Err(IndexError::DimensionMismatch);
                }
            },
            None => {
                return Err(IndexError::DimensionMismatch);
            },
        }
        let batch = split_vectors(data, dims, ids.len());
        assert(batch@.len() == vecs_view(batch@).len());
        self.store.append_batch(&batch, ids)
    }

    /// For each query, the `k` candidates nearest to it by Hamming distance,
    /// nearest first and earlier positions first among equal distances,
    /// padded with sentinels where fewer than `k` are reached. A stored
    /// vector that shares no probed bucket with the query is not a
    /// candidate, so fewer than `k` may come back though more are stored.
    pub fn search(&self, queries: &Vec<Vec<u8>>, k: usize) -> (r: Result<IndexBinarySearchResult, IndexError>)
        requires
            self.wf(),
        ensures
            r is Ok <==> all_width(vecs_view(queries@), self.spec_dims() as int),
            r is Err ==> r->Err_0 == IndexError::DimensionMismatch,
            r is Ok ==> self.is_search_answer(vecs_view(queries@), k as nat, r->Ok_0),
    {
        if !widths_match(queries, self.store.dims()) {
            return Err(IndexError::DimensionMismatch);
        }
        let n = self.store.len();
        let mut rows: Vec<Vec<IndexBinarySearchQueryResult>> = Vec::with_capacity(queries.len());
        let mut i: usize = 0;
        while i < queries.len()
            invariant
                self.wf(),
                n == self.spec_hashes().len(),
                all_width(vecs_view(queries@), self.spec_dims() as int),
                i <= queries@.len(),
                rows@.len() == i,
                forall|j: int|
                    0 <= j < i ==> is_knn_row(
                        distances_to(self.spec_hashes(), vecs_view(queries@)[j]),
                        self.candidates(vecs_view(queries@)[j]),
                        self.spec_ids(),
                        k as nat,
                        (#[trigger] rows@[j])@,
                    ),
            decreases queries@.len() - i,
        {
            assert(vecs_view(queries@)[i as int] == queries@[i as int]@);
            let dist = self.store.distances(&queries[i]);
            proof {
                lemma_distances_fit(self.spec_hashes(), queries@[i as int]@, self.spec_dims() as int);
            }
            let cand = self.bucket_mask(&queries[i]);
            let row = knn_row(&dist, &cand, self.store.ids(), k);
            rows.push(row);
            i = i + 1;
        }
        Ok(IndexBinarySearchResult { queries: rows })
    }

    /// For each query, the candidates within Hamming distance `radius`,
    /// nearest first and earlier positions first among equal distances, at
    /// most `k` of them.
    pub fn range_search(&self, queries: &Vec<Vec<u8>>, k: usize, radius: usize) -> (r: Result<
        IndexBinarySearchResult,
        IndexError,
    >)
        requires
            self.wf(),
        ensures
            r is Ok <==> all_width(vecs_view(queries@), self.spec_dims() as int),
            r is Err ==> r->Err_0 == IndexError::DimensionMismatch,
            r is Ok ==> self.is_range_answer(vecs_view(queries@), k as nat, radius as int, r->Ok_0),
    {
        if !widths_match(queries, self.store.dims()) {
            return Err(IndexError::DimensionMismatch);
        }
        let n = self.store.len();
        let mut rows: Vec<Vec<IndexBinarySearchQueryResult>> = Vec::with_capacity(queries.len());
        let mut i: usize = 0;
        while i < queries.len()
            invariant
                self.wf(),
                n == self.spec_hashes().len(),
                all_width(vecs_view(queries@), self.spec_dims() as int),
                i <= queries@.len(),
                rows@.len() == i,
                forall|j: int|
                    0 <= j < i ==> is_range_row(
                        distances_to(self.spec_hashes(), vecs_view(queries@)[j]),
                        self.candidates(vecs_view(queries@)[j]),
                        self.spec_ids(),
                        k as nat,
                        radius as int,
                        (#[trigger] rows@[j])@,
                    ),
            decreases queries@.len() - i,
        {
            assert(vecs_view(queries@)[i as int] == queries@[i as int]@);
            let dist = self.store.distances(&queries[i]);
            proof {
                lemma_distances_fit(self.spec_hashes(), queries@[i as int]@, self.spec_dims() as int);
            }
            let cand = self.bucket_mask(&queries[i]);
            let row = range_row(&dist, &cand, self.store.ids(), k, radius);
            rows.push(row);
            i = i + 1;
        }
        Ok(IndexBinarySearchResult { queries: rows })
    }

    /// Whether `q` and `v` share a probed bucket.
    fn shares_bucket(&self, q: &Vec<u8>, v: &Vec<u8>) -> (r: bool)
        requires
            self.wf(),
            q@.len() == self.spec_dims(),
            v@.len() == self.spec_dims(),
        ensures
            r == shares_bucket(
                q@,
                v@,
                self.spec_nhash() as int,
                self.spec_bucket_bits() as int,
                self.spec_nflip() as int,
            ),
    {
        let b = self.bucket_bits;
        let mut h: usize = 0;
        while h < self.nhash
            invariant
                self.wf(),
                q@.len() == self.spec_dims(),
                v@.len() == self.spec_dims(),
                b == self.spec_bucket_bits(),
                h <= self.nhash,
                forall|g: int| 0 <= g < h ==> #[trigger] diff_bits(q@, v@, g * b, g * b + b) > self.nflip,
            decreases self.nhash - h,
        {
            assert(h * b + b <= self.nhash * b) by (nonlinear_arith)
                requires
                    h < self.nhash,
            ;
            let lo: usize = h * b;
            let d = count_diff_bits(q, v, lo, lo + b);
            if d as usize <= self.nflip {
                assert(diff_bits(q@, v@, h * b, h * b + b) <= self.nflip);
                return true;
            }
            h = h + 1;
        }
        false
    }

    /// For each stored position, whether `q` reaches it through a probed
    /// bucket.
    fn bucket_mask(&self, q: &Vec<u8>) -> (r: Vec<bool>)
        requires
            self.wf(),
            q@.len() == self.spec_dims(),
        ensures
            r@ == self.candidates(q@),
    {
        let n = self.store.len();
        let mut r: Vec<bool> = Vec::with_capacity(n);
        let mut p: usize = 0;
        while p < n
            invariant
                self.wf(),
                q@.len() == self.spec_dims(),
                n == self.spec_hashes().len(),
                p <= n,
                r@ == self.candidates(q@).subrange(0, p as int),
            decreases n - p,
        {
            let v = self.store.hash_at(p);
            let c = self.shares_bucket(q, v);
            r.push(c);
            p = p + 1;
            assert(r@ =~= self.candidates(q@).subrange(0, p as int));
        }
        assert(r@ =~= self.candidates(q@));
        r
    }

    /// The index's width, hash parameters, labels and concatenated vectors.
    pub fn serialize(&self) -> (r: MultiHashSnapshot)
        requires
            self.wf(),
        ensures
            self.is_snapshot(r),
    {
        MultiHashSnapshot {
            dims: self.store.dims(),
            nhash: self.nhash,
            bucket_bits: self.bucket_bits,
            nflip: self.nflip,
            ids: copy_labels(self.store.ids()),
            data: self.store.extract_raw(),
        }
    }

    /// Rebuilds an index from a snapshot, replaying its vectors and labels in
    /// stored order. Fails with `SerializationFormatError` exactly where the
    /// snapshot is not valid.
    pub fn deserialize(snap: MultiHashSnapshot) -> (r: Result<Self, IndexError>)
        ensures
            r is Ok <==> snap.is_valid(),
            r is Err ==> r->Err_0 == IndexError::SerializationFormatError,
            r is Ok ==> r->Ok_0.wf() && r->Ok_0.is_restored(snap),
    {
        if snap.dims > MAX_DIMS || snap.ids.len() as u64 > i64::MAX as u64 {
            return Err(IndexError::SerializationFormatError);
        }
        match snap.nhash.checked_mul(snap.bucket_bits) {
            Some(key_bits) => {
                if key_bits > 8 * snap.dims {
                    return Err(IndexError::SerializationFormatError);
                }
            },
            None => {
                return Err(IndexError::SerializationFormatError);
            },
        }
        let total_len = snap.data.len();
        match snap.ids.len().checked_mul(snap.dims) {
            Some(total) => {
                if total != snap.data.len() {
                    return Err(IndexError::SerializationFormatError);
                }
            },
            None => {
                return Err(IndexError::SerializationFormatError);
            },
        }
        let ghost s = snap;
        let MultiHashSnapshot { dims, nhash, bucket_bits, nflip, ids, data } = snap;
        let store = EntryStore::from_raw(dims, &data, ids);
        let r = IndexBinaryMultiHash { store, nhash, bucket_bits, nflip };
        assert(r.is_restored(s));
        Ok(r)
    }
    /// Search answers come nearest first, earlier positions first among
    /// equal distances, with sentinels only after every match.
    pub proof fn lemma_search_ordered(&self, queries: Seq<Seq<u8>>, k: nat, res: IndexBinarySearchResult)
        requires
            self.wf(),
            all_width(queries, self.spec_dims() as int),
            self.is_search_answer(queries, k, res),
        ensures
            forall|i: int| 0 <= i < queries.len() ==> is_ordered_row((#[trigger] res.queries@[i])@),
    {
        assert forall|i: int| 0 <= i < queries.len() implies is_ordered_row((#[trigger] res.queries@[i])@) by {
            lemma_distances_fit(self.spec_hashes(), queries[i], self.spec_dims() as int);
            lemma_knn_row_ordered(
                distances_to(self.spec_hashes(), queries[i]),
                self.candidates(queries[i]),
                self.spec_ids(),
                k,
                res.queries@[i]@,
            );
        }
    }

    /// A range answer holds only matches within `radius`, and is a prefix of
    /// the search answer for `max(k, size)` neighbours with the matches
    /// beyond `radius` and the sentinels removed.
    pub proof fn lemma_range_prefix_of_search(
        &self,
        queries: Seq<Seq<u8>>,
        k: nat,
        radius: int,
        all: IndexBinarySearchResult,
        near: IndexBinarySearchResult,
    )
        requires
            self.wf(),
            all_width(queries, self.spec_dims() as int),
            self.is_search_answer(
                queries,
                if k >= self.spec_hashes().len() { k } else { self.spec_hashes().len() },
                all,
            ),
            self.is_range_answer(queries, k, radius, near),
        ensures
            forall|i: int|
                0 <= i < queries.len() ==> {
                    &&& forall|j: int|
                        0 <= j < near.queries@[i]@.len() ==> is_match_within(
                            #[trigger] near.queries@[i]@[j],
                            radius,
                        )
                    &&& (#[trigger] near.queries@[i])@ == all.queries@[i]@.filter(
                        |e: IndexBinarySearchQueryResult| is_match_within(e, radius),
                    ).take(near.queries@[i]@.len() as int)
                },
    {
        let n = self.spec_hashes().len();
        let kk: nat = if k >= n { k } else { n };
        assert forall|i: int| 0 <= i < queries.len() implies {
            &&& forall|j: int|
                0 <= j < near.queries@[i]@.len() ==> is_match_within(#[trigger] near.queries@[i]@[j], radius)
            &&& (#[trigger] near.queries@[i])@ == all.queries@[i]@.filter(
                |e: IndexBinarySearchQueryResult| is_match_within(e, radius),
            ).take(near.queries@[i]@.len() as int)
        } by {
            let q = queries[i];
            let dist = distances_to(self.spec_hashes(), q);
            let cand = self.candidates(queries[i]);
            let ids = self.spec_ids();
            lemma_distances_fit(self.spec_hashes(), q, self.spec_dims() as int);
            lemma_range_row_ordered(dist, cand, ids, k, radius, near.queries@[i]@);
            let ta = choose|t: Seq<usize>| #[trigger] is_top_k(dist, cand, t, kk as int) && all.queries@[i]@ == padded_row(dist, ids, t, kk);
            let w = within_radius(dist, cand, radius);
            let tn = choose|t: Seq<usize>| #[trigger] is_top_k(dist, w, t, k as int) && near.queries@[i]@ == trimmed_row(dist, ids, t);
            lemma_radius_prefix(dist, cand, ta, tn, k as int, radius);
            lemma_padded_filter(dist, ids, ta, kk, radius);
            let f = ta.filter(|p: usize| dist[p as int] <= radius);
            assert(trimmed_row(dist, ids, f.take(tn.len() as int)) =~= trimmed_row(dist, ids, f).take(tn.len() as int));
        }
    }

    /// Two indexes with the same width, parameters, vectors and labels give
    /// the same search answers.
    pub proof fn lemma_same_contents_same_answers(
        &self,
        other: &Self,
        queries: Seq<Seq<u8>>,
        k: nat,
        ra: IndexBinarySearchResult,
        rb: IndexBinarySearchResult,
    )
        requires
            self.same_contents(other),
            self.is_search_answer(queries, k, ra),
            other.is_search_answer(queries, k, rb),
        ensures
            forall|i: int| 0 <= i < queries.len() ==> (#[trigger] ra.queries@[i])@ == rb.queries@[i]@,
    {
        assert forall|i: int| 0 <= i < queries.len() implies (#[trigger] ra.queries@[i])@ == rb.queries@[i]@ by {
            lemma_knn_row_unique(
                distances_to(self.spec_hashes(), queries[i]),
                self.candidates(queries[i]),
                self.spec_ids(),
                k,
                ra.queries@[i]@,
                rb.queries@[i]@,
            );
        }
    }

    /// Restoring a snapshot succeeds, gives back the same contents, and so
    /// the same search answers as the index the snapshot was taken from.
    pub proof fn lemma_snapshot_round_trip(
        &self,
        snap: MultiHashSnapshot,
        restored: &Self,
        queries: Seq<Seq<u8>>,
        k: nat,
        ra: IndexBinarySearchResult,
        rb: IndexBinarySearchResult,
    )
        requires
            self.wf(),
            self.is_snapshot(snap),
            restored.is_restored(snap),
            self.is_search_answer(queries, k, ra),
            restored.is_search_answer(queries, k, rb),
        ensures
            snap.is_valid(),
            self.same_contents(restored),
            forall|i: int| 0 <= i < queries.len() ==> (#[trigger] ra.queries@[i])@ == rb.queries@[i]@,
    {
        let d = self.spec_dims() as int;
        let hs = self.spec_hashes();
        assert(split_raw(snap.data@, d, hs.len() as int) =~= hs) by {
            assert forall|i: int| 0 <= i < hs.len() implies split_raw(snap.data@, d, hs.len() as int)[i] == hs[i] by {
                assert(chunk(snap.data@, d, i) == hs[i]);
            }
        }
        self.lemma_same_contents_same_answers(restored, queries, k, ra, rb);
    }
}

} // verus!
