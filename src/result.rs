//! Search results: per-query lists of (distance, position, label) records
//! built from ranked positions.
use vstd::prelude::*;
use crate::ranking::{is_top_k, lemma_top_k_unique, select_top_k, strictly_ranked, within_radius};

verus! {

/// One ranked match. A sentinel (distance -1, index -1, no label) fills a
/// rank for which no entry exists.
pub struct IndexBinarySearchQueryResult {
    pub distance: i32,
    pub index: i64,
    pub label: Option<String>,
}

/// The result lists of a batch of queries, one list per query.
pub struct IndexBinarySearchResult {
    pub queries: Vec<Vec<IndexBinarySearchQueryResult>>,
}

/// The "no result" record.
pub open spec fn sentinel() -> IndexBinarySearchQueryResult {
    IndexBinarySearchQueryResult { distance: -1i32, index: -1i64, label: None }
}

/// The record of stored position `p`.
pub open spec fn hit(dist: Seq<u32>, ids: Seq<String>, p: usize) -> IndexBinarySearchQueryResult {
    IndexBinarySearchQueryResult {
        distance: dist[p as int] as i32,
        index: p as i64,
        label: Some(ids[p as int]),
    }
}

/// The records of `top`, padded with sentinels to exactly `k` records.
pub open spec fn padded_row(dist: Seq<u32>, ids: Seq<String>, top: Seq<usize>, k: nat) -> Seq<
    IndexBinarySearchQueryResult,
> {
    Seq::new(k, |i: int| if i < top.len() { hit(dist, ids, top[i]) } else { sentinel() })
}

/// The records of `top`, without padding.
pub open spec fn trimmed_row(dist: Seq<u32>, ids: Seq<String>, top: Seq<usize>) -> Seq<
    IndexBinarySearchQueryResult,
> {
    Seq::new(top.len(), |i: int| hit(dist, ids, top[i]))
}

/// `row` is the k-nearest-neighbour answer among the candidates: the best
/// `k` candidates by (distance, position), padded with sentinels.
pub open spec fn is_knn_row(
    dist: Seq<u32>,
    cand: Seq<bool>,
    ids: Seq<String>,
    k: nat,
    row: Seq<IndexBinarySearchQueryResult>,
) -> bool {
    exists|top: Seq<usize>| #[trigger] is_top_k(dist, cand, top, k as int) && row == padded_row(dist, ids, top, k)
}

/// `row` is the range answer among the candidates: those within `radius`,
/// ranked by (distance, position) and capped at `k`.
pub open spec fn is_range_row(
    dist: Seq<u32>,
    cand: Seq<bool>,
    ids: Seq<String>,
    k: nat,
    radius: int,
    row: Seq<IndexBinarySearchQueryResult>,
) -> bool {
    exists|top: Seq<usize>|
        #[trigger] is_top_k(dist, within_radius(dist, cand, radius), top, k as int) && row
            == trimmed_row(dist, ids, top)
}

/// Every distance fits in an `i32`.
pub open spec fn distances_fit(dist: Seq<u32>) -> bool {
    forall|p: int| 0 <= p < dist.len() ==> #[trigger] dist[p] <= i32::MAX
}

impl IndexBinarySearchQueryResult {
    /// The sentinel record.
    pub fn new() -> (r: Self)
        ensures
            r == sentinel(),
    {
        IndexBinarySearchQueryResult { distance: -1, index: -1, label: None }
    }
}

impl IndexBinarySearchResult {
    /// `results` empty lists, each with room for `k` records.
    pub fn new(k: usize, results: usize) -> (r: Self)
        ensures
            r.queries@.len() == results,
            forall|i: int| 0 <= i < results ==> (#[trigger] r.queries@[i])@.len() == 0,
    {
        let mut queries: Vec<Vec<IndexBinarySearchQueryResult>> = Vec::with_capacity(results);
        let mut i: usize = 0;
        while i < results
            invariant
                i <= results,
                queries@.len() == i,
                forall|j: int| 0 <= j < i ==> (#[trigger] queries@[j])@.len() == 0,
            decreases results - i,
        {
            queries.push(Vec::with_capacity(k));
            i = i + 1;
        }
        IndexBinarySearchResult { queries }
    }
}

/// Builds the records of the ranked positions `top`; with `pad`, fills the
/// list up to `k` records with sentinels.
pub fn build_row(dist: &Vec<u32>, ids: &Vec<String>, top: &Vec<usize>, k: usize, pad: bool) -> (r: Vec<
    IndexBinarySearchQueryResult,
>)
    requires
        dist@.len() == ids@.len(),
        distances_fit(dist@),
        top@.len() <= k,
        forall|i: int| 0 <= i < top@.len() ==> (#[trigger] top@[i]) < dist@.len(),
    ensures
        pad ==> r@ == padded_row(dist@, ids@, top@, k as nat),
        !pad ==> r@ == trimmed_row(dist@, ids@, top@),
{
    let mut row: Vec<IndexBinarySearchQueryResult> = Vec::with_capacity(k);
    let mut i: usize = 0;
    while i < top.len()
        invariant
            i <= top@.len(),
            top@.len() <= k,
            dist@.len() == ids@.len(),
            distances_fit(dist@),
            forall|j: int| 0 <= j < top@.len() ==> (#[trigger] top@[j]) < dist@.len(),
            row@ == trimmed_row(dist@, ids@, top@).subrange(0, i as int),
        decreases top@.len() - i,
    {
        let p = top[i];
        assert(dist@[p as int] <= i32::MAX);
        let rec = IndexBinarySearchQueryResult {
            distance: dist[p] as i32,
            index: p as i64,
            label: Some(ids[p].clone()),
        };
        row.push(rec);
        i = i + 1;
        assert(row@ =~= trimmed_row(dist@, ids@, top@).subrange(0, i as int));
    }
    assert(row@ =~= trimmed_row(dist@, ids@, top@));
    if pad {
        while i < k
            invariant
                top@.len() <= i <= k,
                row@ == padded_row(dist@, ids@, top@, k as nat).subrange(0, i as int),
            decreases k - i,
        {
            row.push(IndexBinarySearchQueryResult::new());
            i = i + 1;
            assert(row@ =~= padded_row(dist@, ids@, top@, k as nat).subrange(0, i as int));
        }
        assert(row@ =~= padded_row(dist@, ids@, top@, k as nat));
    }
    row
}

/// The k-nearest-neighbour list among the candidates.
pub fn knn_row(dist: &Vec<u32>, cand: &Vec<bool>, ids: &Vec<String>, k: usize) -> (r: Vec<
    IndexBinarySearchQueryResult,
>)
    requires
        dist@.len() == cand@.len() == ids@.len(),
        distances_fit(dist@),
    ensures
        is_knn_row(dist@, cand@, ids@, k as nat, r@),
{
    let top = select_top_k(dist, cand, k);
    let r = build_row(dist, ids, &top, k, true);
    assert(is_top_k(dist@, cand@, top@, k as int));
    r
}

/// The candidates whose distance is at most `radius`.
pub fn within(dist: &Vec<u32>, cand: &Vec<bool>, radius: usize) -> (r: Vec<bool>)
    requires
        dist@.len() == cand@.len(),
    ensures
        r@ == within_radius(dist@, cand@, radius as int),
{
    let mut r: Vec<bool> = Vec::with_capacity(cand.len());
    let mut p: usize = 0;
    while p < cand.len()
        invariant
            dist@.len() == cand@.len(),
            p <= cand@.len(),
            r@ == within_radius(dist@, cand@, radius as int).subrange(0, p as int),
        decreases cand@.len() - p,
    {
        r.push(cand[p] && (dist[p] as usize) <= radius);
        p = p + 1;
        assert(r@ =~= within_radius(dist@, cand@, radius as int).subrange(0, p as int));
    }
    assert(r@ =~= within_radius(dist@, cand@, radius as int));
    r
}

/// The range list among the candidates: within `radius`, capped at `k`.
pub fn range_row(dist: &Vec<u32>, cand: &Vec<bool>, ids: &Vec<String>, k: usize, radius: usize) -> (r: Vec<
    IndexBinarySearchQueryResult,
>)
    requires
        dist@.len() == cand@.len() == ids@.len(),
        distances_fit(dist@),
    ensures
        is_range_row(dist@, cand@, ids@, k as nat, radius as int, r@),
{
    let near = within(dist, cand, radius);
    let top = select_top_k(dist, &near, k);
    let r = build_row(dist, ids, &top, k, false);
    assert(is_top_k(dist@, within_radius(dist@, cand@, radius as int), top@, k as int));
    r
}

/// Records that are ordered nearest first, earlier positions first among
/// equal distances, with any sentinels after every match.
pub open spec fn is_ordered_row(row: Seq<IndexBinarySearchQueryResult>) -> bool {
    forall|i: int, j: int|
        0 <= i < j < row.len() && (#[trigger] row[j]).label is Some ==> {
            &&& (#[trigger] row[i]).label is Some
            &&& row[i].distance < row[j].distance || (row[i].distance == row[j].distance
                && row[i].index < row[j].index)
        }
}

/// A match whose distance is at most `radius`.
pub open spec fn is_match_within(e: IndexBinarySearchQueryResult, radius: int) -> bool {
    e.label is Some && e.distance <= radius
}

/// The k-nearest-neighbour answer is determined by the distances, the
/// candidates, the labels and `k`.
pub proof fn lemma_knn_row_unique(
    dist: Seq<u32>,
    cand: Seq<bool>,
    ids: Seq<String>,
    k: nat,
    r1: Seq<IndexBinarySearchQueryResult>,
    r2: Seq<IndexBinarySearchQueryResult>,
)
    requires
        dist.len() == cand.len(),
        is_knn_row(dist, cand, ids, k, r1),
        is_knn_row(dist, cand, ids, k, r2),
    ensures
        r1 == r2,
{
    let t1 = choose|t: Seq<usize>| #[trigger] is_top_k(dist, cand, t, k as int) && r1 == padded_row(dist, ids, t, k);
    let t2 = choose|t: Seq<usize>| #[trigger] is_top_k(dist, cand, t, k as int) && r2 == padded_row(dist, ids, t, k);
    lemma_top_k_unique(dist, cand, t1, t2, k as int);
}

/// The range answer is determined by the distances, the candidates, the
/// labels, `k` and `radius`.
pub proof fn lemma_range_row_unique(
    dist: Seq<u32>,
    cand: Seq<bool>,
    ids: Seq<String>,
    k: nat,
    radius: int,
    r1: Seq<IndexBinarySearchQueryResult>,
    r2: Seq<IndexBinarySearchQueryResult>,
)
    requires
        dist.len() == cand.len(),
        is_range_row(dist, cand, ids, k, radius, r1),
        is_range_row(dist, cand, ids, k, radius, r2),
    ensures
        r1 == r2,
{
    let w = within_radius(dist, cand, radius);
    let t1 = choose|t: Seq<usize>| #[trigger] is_top_k(dist, w, t, k as int) && r1 == trimmed_row(dist, ids, t);
    let t2 = choose|t: Seq<usize>| #[trigger] is_top_k(dist, w, t, k as int) && r2 == trimmed_row(dist, ids, t);
    lemma_top_k_unique(dist, w, t1, t2, k as int);
}

proof fn lemma_ranked_records_ordered(dist: Seq<u32>, ids: Seq<String>, top: Seq<usize>, row: Seq<IndexBinarySearchQueryResult>)
    requires
        distances_fit(dist),
        dist.len() <= i64::MAX,
        strictly_ranked(dist, top),
        forall|i: int| 0 <= i < top.len() ==> (#[trigger] top[i]) < dist.len(),
        top.len() <= row.len(),
        forall|i: int| 0 <= i < top.len() ==> #[trigger] row[i] == hit(dist, ids, top[i]),
        forall|i: int| top.len() <= i < row.len() ==> #[trigger] row[i] == sentinel(),
    ensures
        is_ordered_row(row),
{
    assert forall|i: int, j: int| 0 <= i < j < row.len() && (#[trigger] row[j]).label is Some implies {
        &&& (#[trigger] row[i]).label is Some
        &&& row[i].distance < row[j].distance || (row[i].distance == row[j].distance
            && row[i].index < row[j].index)
    } by {
        if j >= top.len() {
            assert(row[j] == sentinel());
        }
        assert(row[i] == hit(dist, ids, top[i]));
        assert(row[j] == hit(dist, ids, top[j]));
        assert(dist[top[i] as int] <= i32::MAX && dist[top[j] as int] <= i32::MAX);
    }
}

/// A k-nearest-neighbour answer is ordered nearest first, earlier positions
/// first among equal distances.
pub proof fn lemma_knn_row_ordered(dist: Seq<u32>, cand: Seq<bool>, ids: Seq<String>, k: nat, row: Seq<IndexBinarySearchQueryResult>)
    requires
        dist.len() == cand.len(),
        dist.len() <= i64::MAX,
        distances_fit(dist),
        is_knn_row(dist, cand, ids, k, row),
    ensures
        is_ordered_row(row),
{
    let t = choose|t: Seq<usize>| #[trigger] is_top_k(dist, cand, t, k as int) && row == padded_row(dist, ids, t, k);
    lemma_ranked_records_ordered(dist, ids, t, row);
}

/// A range answer is ordered nearest first, earlier positions first among
/// equal distances, and holds matches within `radius` only.
pub proof fn lemma_range_row_ordered(
    dist: Seq<u32>,
    cand: Seq<bool>,
    ids: Seq<String>,
    k: nat,
    radius: int,
    row: Seq<IndexBinarySearchQueryResult>,
)
    requires
        dist.len() == cand.len(),
        dist.len() <= i64::MAX,
        distances_fit(dist),
        is_range_row(dist, cand, ids, k, radius, row),
    ensures
        is_ordered_row(row),
        row.len() <= k,
        forall|i: int| 0 <= i < row.len() ==> is_match_within(#[trigger] row[i], radius),
{
    let w = within_radius(dist, cand, radius);
    let t = choose|t: Seq<usize>| #[trigger] is_top_k(dist, w, t, k as int) && row == trimmed_row(dist, ids, t);
    lemma_ranked_records_ordered(dist, ids, t, row);
    assert forall|i: int| 0 <= i < row.len() implies is_match_within(#[trigger] row[i], radius) by {
        assert(w[t[i] as int]);
        assert(dist[t[i] as int] <= i32::MAX);
    }
}

/// Keeping the matches within `radius` of the records of `top` keeps the
/// records of the positions within `radius`.
pub proof fn lemma_trimmed_filter(dist: Seq<u32>, ids: Seq<String>, top: Seq<usize>, radius: int)
    requires
        distances_fit(dist),
        forall|i: int| 0 <= i < top.len() ==> (#[trigger] top[i]) < dist.len(),
    ensures
        trimmed_row(dist, ids, top).filter(|e: IndexBinarySearchQueryResult| is_match_within(e, radius))
            == trimmed_row(dist, ids, top.filter(|p: usize| dist[p as int] <= radius)),
    decreases top.len(),
{
    let rp = |e: IndexBinarySearchQueryResult| is_match_within(e, radius);
    let pp = |p: usize| dist[p as int] <= radius;
    reveal(Seq::filter);
    if top.len() == 0 {
        assert(trimmed_row(dist, ids, top) =~= Seq::<IndexBinarySearchQueryResult>::empty());
        assert(trimmed_row(dist, ids, top.filter(pp)) =~= Seq::<IndexBinarySearchQueryResult>::empty());
    } else {
        let rest = top.drop_last();
        lemma_trimmed_filter(dist, ids, rest, radius);
        let row = trimmed_row(dist, ids, top);
        assert(row.drop_last() =~= trimmed_row(dist, ids, rest));
        let p = top.last();
        assert(row.last() == hit(dist, ids, p));
        assert(dist[p as int] <= i32::MAX);
        assert(rp(row.last()) == pp(p));
        if pp(p) {
            assert(trimmed_row(dist, ids, rest.filter(pp).push(p)) =~= trimmed_row(dist, ids, rest.filter(pp)).push(hit(dist, ids, p)));
        }
    }
}

/// Keeping the matches within `radius` of a padded list drops its sentinels.
pub proof fn lemma_padded_filter(dist: Seq<u32>, ids: Seq<String>, top: Seq<usize>, k: nat, radius: int)
    requires
        distances_fit(dist),
        top.len() <= k,
        forall|i: int| 0 <= i < top.len() ==> (#[trigger] top[i]) < dist.len(),
    ensures
        padded_row(dist, ids, top, k).filter(|e: IndexBinarySearchQueryResult| is_match_within(e, radius))
            == trimmed_row(dist, ids, top.filter(|p: usize| dist[p as int] <= radius)),
{
    let rp = |e: IndexBinarySearchQueryResult| is_match_within(e, radius);
    let pads = Seq::new((k - top.len()) as nat, |i: int| sentinel());
    assert(padded_row(dist, ids, top, k) =~= trimmed_row(dist, ids, top) + pads);
    Seq::filter_distributes_over_add(trimmed_row(dist, ids, top), pads, rp);
    pads.lemma_all_neg_filter_empty(rp);
    assert(pads.filter(rp) =~= Seq::<IndexBinarySearchQueryResult>::empty());
    lemma_trimmed_filter(dist, ids, top, radius);
    assert(trimmed_row(dist, ids, top).filter(rp) + Seq::<IndexBinarySearchQueryResult>::empty() =~= trimmed_row(dist, ids, top).filter(rp));
}

} // verus!
