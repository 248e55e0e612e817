//! Ranking of stored positions by (distance, position), and selection of the
//! best `k` among a set of candidates.
use vstd::prelude::*;
use vstd::set_lib::{lemma_int_range, lemma_len_subset, set_int_range};

verus! {

/// Position `p` ranks before position `q`: a smaller distance, or the same
/// distance and an earlier insertion.
pub open spec fn ranks_before(dist: Seq<u32>, p: int, q: int) -> bool {
    dist[p] < dist[q] || (dist[p] == dist[q] && p < q)
}

/// `p` occurs in `top`.
pub open spec fn listed(top: Seq<usize>, p: int) -> bool {
    exists|i: int| 0 <= i < top.len() && top[i] == p
}

/// Positions in `top` are strictly increasing in rank.
pub open spec fn strictly_ranked(dist: Seq<u32>, top: Seq<usize>) -> bool {
    forall|i: int, j: int|
        0 <= i < j < top.len() ==> ranks_before(dist, #[trigger] top[i] as int, #[trigger] top[j] as int)
}

/// `top` lists the best `k` candidate positions in rank order: every listed
/// position is a candidate, the list is strictly ranked, and a candidate that
/// is left out means the list is full and ranks after all of it.
pub open spec fn is_top_k(dist: Seq<u32>, cand: Seq<bool>, top: Seq<usize>, k: int) -> bool {
    &&& top.len() <= k
    &&& forall|i: int| 0 <= i < top.len() ==> (#[trigger] top[i]) < dist.len() && cand[top[i] as int]
    &&& strictly_ranked(dist, top)
    &&& forall|p: int|
        0 <= p < dist.len() && #[trigger] cand[p] && !listed(top, p) ==> {
            &&& top.len() == k
            &&& forall|i: int| 0 <= i < top.len() ==> ranks_before(dist, #[trigger] top[i] as int, p)
        }
}

/// Every one of `n` positions is a candidate.
pub open spec fn all_candidates(n: nat) -> Seq<bool> {
    Seq::new(n, |p: int| true)
}

/// The mask of `n` positions that are all candidates.
pub fn every_position(n: usize) -> (r: Vec<bool>)
    ensures
        r@ == all_candidates(n as nat),
{
    let mut r: Vec<bool> = Vec::with_capacity(n);
    let mut p: usize = 0;
    while p < n
        invariant
            p <= n,
            r@ == all_candidates(n as nat).subrange(0, p as int),
        decreases n - p,
    {
        r.push(true);
        p = p + 1;
        assert(r@ =~= all_candidates(n as nat).subrange(0, p as int));
    }
    assert(r@ =~= all_candidates(n as nat));
    r
}

/// Selects the best `k` candidates by (distance, position).
pub fn select_top_k(dist: &Vec<u32>, cand: &Vec<bool>, k: usize) -> (top: Vec<usize>)
    requires
        dist@.len() == cand@.len(),
    ensures
        is_top_k(dist@, cand@, top@, k as int),
{
    let n = dist.len();
    let mut top: Vec<usize> = Vec::new();
    let mut exhausted: bool = false;
    while !exhausted && top.len() < k
        invariant
            n == dist@.len() == cand@.len(),
            top@.len() <= k,
            forall|i: int| 0 <= i < top@.len() ==> (#[trigger] top@[i]) < n && cand@[top@[i] as int],
            strictly_ranked(dist@, top@),
            forall|p: int|
                0 <= p < n && #[trigger] cand@[p] && !listed(top@, p) ==> forall|i: int|
                    0 <= i < top@.len() ==> ranks_before(dist@, #[trigger] top@[i] as int, p),
            exhausted ==> forall|p: int| 0 <= p < n && #[trigger] cand@[p] ==> listed(top@, p),
        decreases k - top@.len(), if exhausted { 0int } else { 1int },
    {
        let mut found: bool = false;
        let mut best: usize = 0;
        let mut p: usize = 0;
        while p < n
            invariant
                n == dist@.len() == cand@.len(),
                p <= n,
                found ==> best < p && cand@[best as int] && !listed(top@, best as int),
                found ==> forall|q: int|
                    0 <= q < p && #[trigger] cand@[q] && !listed(top@, q) ==> q == best
                        || ranks_before(dist@, best as int, q),
                !found ==> forall|q: int| 0 <= q < p && #[trigger] cand@[q] ==> listed(top@, q),
                forall|i: int| 0 <= i < top@.len() ==> (#[trigger] top@[i]) < n && cand@[top@[i] as int],
                strictly_ranked(dist@, top@),
                forall|q: int|
                    0 <= q < n && #[trigger] cand@[q] && !listed(top@, q) ==> forall|i: int|
                        0 <= i < top@.len() ==> ranks_before(dist@, #[trigger] top@[i] as int, q),
            decreases n - p,
        {
            if cand[p] {
                let mut fresh: bool = true;
                if top.len() > 0 {
                    let last = top[top.len() - 1];
                    fresh = dist[last] < dist[p] || (dist[last] == dist[p] && last < p);
                }
                proof {
                    if fresh {
                        assert forall|i: int| 0 <= i < top@.len() implies top@[i] != p by {
                            let m = top@.len() - 1;
                            if i < m {
                                assert(ranks_before(dist@, top@[i] as int, top@[m] as int));
                            }
                        }
                    } else {
                        let m = top@.len() - 1;
                        if !listed(top@, p as int) {
                            assert(ranks_before(dist@, top@[m] as int, p as int));
                        }
                    }
                }
                if fresh && (!found || dist[p] < dist[best] || (dist[p] == dist[best] && p < best)) {
                    found = true;
                    best = p;
                }
            }
            p = p + 1;
        }
        if found {
            let ghost old_top = top@;
            proof {
                assert forall|i: int| 0 <= i < old_top.len() implies ranks_before(
                    dist@,
                    old_top[i] as int,
                    best as int,
                ) by {}
            }
            top.push(best);
            proof {
                assert(top@.last() == best);
                assert forall|q: int|
                    0 <= q < n && #[trigger] cand@[q] && !listed(top@, q) implies forall|i: int|
                    0 <= i < top@.len() ==> ranks_before(dist@, #[trigger] top@[i] as int, q) by {
                    assert(!listed(top@.drop_last(), q)) by {
                        if listed(top@.drop_last(), q) {
                            let j = choose|j: int| 0 <= j < top@.drop_last().len() && top@.drop_last()[j] == q;
                            assert(top@[j] == q);
                        }
                    }
                    assert(top@.drop_last() =~= old_top);
                }
            }
        } else {
            exhausted = true;
        }
    }
    top
}

/// The ranked list of the best `k` candidates is unique: the selection is a
/// function of the distances, the candidates and `k` alone.
pub proof fn lemma_top_k_unique(dist: Seq<u32>, cand: Seq<bool>, t1: Seq<usize>, t2: Seq<usize>, k: int)
    requires
        dist.len() == cand.len(),
        is_top_k(dist, cand, t1, k),
        is_top_k(dist, cand, t2, k),
    ensures
        t1 == t2,
{
    lemma_top_k_agree(dist, cand, t1, t2, k);
    lemma_top_k_agree(dist, cand, t2, t1, k);
    if t1.len() < t2.len() {
        lemma_top_k_length(dist, cand, t1, t2, k);
    } else if t2.len() < t1.len() {
        lemma_top_k_length(dist, cand, t2, t1, k);
    }
    assert(t1 =~= t2);
}

proof fn lemma_top_k_length(dist: Seq<u32>, cand: Seq<bool>, t1: Seq<usize>, t2: Seq<usize>, k: int)
    requires
        dist.len() == cand.len(),
        is_top_k(dist, cand, t1, k),
        is_top_k(dist, cand, t2, k),
        forall|i: int| 0 <= i < t1.len() && i < t2.len() ==> t1[i] == t2[i],
    ensures
        t1.len() >= t2.len(),
{
    if t1.len() < t2.len() {
        let m = t1.len() as int;
        let b = t2[m] as int;
        assert(cand[b]);
        if listed(t1, b) {
            let j = choose|j: int| 0 <= j < t1.len() && t1[j] == b;
            assert(ranks_before(dist, t2[j] as int, t2[m] as int));
        }
    }
}

proof fn lemma_top_k_agree(dist: Seq<u32>, cand: Seq<bool>, t1: Seq<usize>, t2: Seq<usize>, k: int)
    requires
        dist.len() == cand.len(),
        is_top_k(dist, cand, t1, k),
        is_top_k(dist, cand, t2, k),
    ensures
        forall|i: int| 0 <= i < t1.len() && i < t2.len() ==> t1[i] == t2[i],
{
    assert forall|i: int| 0 <= i < t1.len() && i < t2.len() implies t1[i] == t2[i] by {
        lemma_top_k_agree_upto(dist, cand, t1, t2, k, i + 1);
    }
}

proof fn lemma_top_k_agree_upto(
    dist: Seq<u32>,
    cand: Seq<bool>,
    t1: Seq<usize>,
    t2: Seq<usize>,
    k: int,
    m: int,
)
    requires
        dist.len() == cand.len(),
        is_top_k(dist, cand, t1, k),
        is_top_k(dist, cand, t2, k),
        0 <= m <= t1.len(),
        m <= t2.len(),
    ensures
        forall|i: int| 0 <= i < m ==> t1[i] == t2[i],
    decreases m,
{
    if m > 0 {
        lemma_top_k_agree_upto(dist, cand, t1, t2, k, m - 1);
        let i = m - 1;
        lemma_first_missing(dist, cand, t1, t2, k, i);
        lemma_first_missing(dist, cand, t2, t1, k, i);
    }
}

proof fn lemma_first_missing(
    dist: Seq<u32>,
    cand: Seq<bool>,
    t1: Seq<usize>,
    t2: Seq<usize>,
    k: int,
    i: int,
)
    requires
        dist.len() == cand.len(),
        is_top_k(dist, cand, t1, k),
        is_top_k(dist, cand, t2, k),
        0 <= i < t1.len(),
        i < t2.len(),
        forall|j: int| 0 <= j < i ==> t1[j] == t2[j],
    ensures
        !ranks_before(dist, t1[i] as int, t2[i] as int),
{
    let a = t1[i] as int;
    if ranks_before(dist, t1[i] as int, t2[i] as int) {
        assert(cand[a]);
        if listed(t2, a) {
            let j = choose|j: int| 0 <= j < t2.len() && t2[j] == a;
            if j < i {
                assert(ranks_before(dist, t1[j] as int, t1[i] as int));
            } else if j > i {
                assert(ranks_before(dist, t2[i] as int, t2[j] as int));
            }
        } else {
            assert(ranks_before(dist, t2[i] as int, a));
        }
    }
}

/// A ranked list that may hold every position holds every candidate.
pub proof fn lemma_top_k_lists_all(dist: Seq<u32>, cand: Seq<bool>, t: Seq<usize>, k: int, p: int)
    requires
        dist.len() == cand.len(),
        is_top_k(dist, cand, t, k),
        k >= dist.len(),
        0 <= p < dist.len(),
        cand[p],
    ensures
        listed(t, p),
{
    if !listed(t, p) {
        let n = dist.len() as int;
        let ints = t.map_values(|x: usize| x as int);
        assert(ints.no_duplicates()) by {
            assert forall|i: int, j: int| 0 <= i < ints.len() && 0 <= j < ints.len() && i != j
                implies ints[i] != ints[j] by {
                if i < j {
                    assert(ranks_before(dist, t[i] as int, t[j] as int));
                } else {
                    assert(ranks_before(dist, t[j] as int, t[i] as int));
                }
            }
        }
        ints.unique_seq_to_set();
        let s = ints.to_set().insert(p);
        assert(!ints.to_set().contains(p)) by {
            if ints.to_set().contains(p) {
                let j = choose|j: int| 0 <= j < ints.len() && ints[j] == p;
                assert(t[j] == p);
            }
        }
        assert(s.subset_of(set_int_range(0, n))) by {
            assert forall|x: int| s.contains(x) implies set_int_range(0, n).contains(x) by {
                if x != p {
                    let j = choose|j: int| 0 <= j < ints.len() && ints[j] == x;
                    assert(t[j] < n);
                }
            }
        }
        lemma_int_range(0, n);
        lemma_len_subset(s, set_int_range(0, n));
    }
}

/// Filtering a strictly ranked list keeps it strictly ranked.
pub proof fn lemma_filter_ranked(dist: Seq<u32>, t: Seq<usize>, pred: spec_fn(usize) -> bool)
    requires
        strictly_ranked(dist, t),
    ensures
        strictly_ranked(dist, t.filter(pred)),
    decreases t.len(),
{
    reveal(Seq::filter);
    if t.len() > 0 {
        let rest = t.drop_last();
        assert(strictly_ranked(dist, rest)) by {
            assert forall|i: int, j: int| 0 <= i < j < rest.len() implies ranks_before(
                dist,
                #[trigger] rest[i] as int,
                #[trigger] rest[j] as int,
            ) by {
                assert(rest[i] == t[i] && rest[j] == t[j]);
            }
        }
        lemma_filter_ranked(dist, rest, pred);
        let sub = rest.filter(pred);
        if pred(t.last()) {
            let f = sub.push(t.last());
            assert forall|i: int, j: int| 0 <= i < j < f.len() implies ranks_before(
                dist,
                #[trigger] f[i] as int,
                #[trigger] f[j] as int,
            ) by {
                if j == f.len() - 1 {
                    assert(sub.contains(f[i]));
                    rest.lemma_filter_contains_rev(pred, f[i]);
                    let m = choose|m: int| 0 <= m < rest.len() && rest[m] == f[i];
                    assert(ranks_before(dist, t[m] as int, t[t.len() - 1] as int));
                } else {
                    assert(f[i] == sub[i] && f[j] == sub[j]);
                }
            }
        }
    }
}

/// Positions of `cand` whose distance is at most `radius`.
pub open spec fn within_radius(dist: Seq<u32>, cand: Seq<bool>, radius: int) -> Seq<bool> {
    Seq::new(cand.len(), |p: int| cand[p] && dist[p] <= radius)
}

/// The candidates within `radius`, ranked and capped at `k`, are a prefix of
/// the full ranking of all candidates with the positions beyond `radius`
/// removed.
pub proof fn lemma_radius_prefix(
    dist: Seq<u32>,
    cand: Seq<bool>,
    all: Seq<usize>,
    near: Seq<usize>,
    k: int,
    radius: int,
)
    requires
        dist.len() == cand.len(),
        0 <= k,
        is_top_k(dist, cand, all, if k >= dist.len() { k } else { dist.len() as int }),
        is_top_k(dist, within_radius(dist, cand, radius), near, k),
    ensures
        near == all.filter(|p: usize| dist[p as int] <= radius).take(near.len() as int),
        near.len() == if k <= all.filter(|p: usize| dist[p as int] <= radius).len() {
            k
        } else {
            all.filter(|p: usize| dist[p as int] <= radius).len() as int
        },
{
    broadcast use Seq::lemma_filter_len, Seq::lemma_filter_pred, Seq::lemma_filter_contains_rev;

    let pred = |p: usize| dist[p as int] <= radius;
    let f = all.filter(pred);
    let kk = if k >= dist.len() { k } else { dist.len() as int };
    let m = if k <= f.len() { k } else { f.len() as int };
    let g = f.take(m);
    let w = within_radius(dist, cand, radius);
    lemma_filter_ranked(dist, all, pred);
    assert forall|i: int| 0 <= i < g.len() implies (#[trigger] g[i]) < dist.len() && w[g[i] as int] by {
        assert(g[i] == f[i]);
        assert(f.contains(f[i]));
        let j = choose|j: int| 0 <= j < all.len() && all[j] == f[i];
        assert(all[j] < dist.len());
    }
    assert(strictly_ranked(dist, g)) by {
        assert forall|i: int, j: int| 0 <= i < j < g.len() implies ranks_before(
            dist,
            #[trigger] g[i] as int,
            #[trigger] g[j] as int,
        ) by {
            assert(g[i] == f[i] && g[j] == f[j]);
        }
    }
    assert forall|p: int| 0 <= p < dist.len() && #[trigger] w[p] && !listed(g, p) implies {
        &&& g.len() == k
        &&& forall|i: int| 0 <= i < g.len() ==> ranks_before(dist, #[trigger] g[i] as int, p)
    } by {
        lemma_top_k_lists_all(dist, cand, all, kk, p);
        let j = choose|j: int| 0 <= j < all.len() && all[j] == p;
        all.lemma_filter_contains(pred, j);
        let fi = choose|fi: int| 0 <= fi < f.len() && f[fi] == all[j];
        if fi < m {
            assert(g[fi] == p);
        }
        assert forall|i: int| 0 <= i < g.len() implies ranks_before(dist, #[trigger] g[i] as int, p) by {
            assert(g[i] == f[i]);
        }
    }
    lemma_top_k_unique(dist, w, near, g, k);
}

} // verus!
