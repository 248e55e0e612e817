use faiss_rust::error::IndexError;
use faiss_rust::flat::{FlatSnapshot, IndexBinaryFlat};
use faiss_rust::hamming::hamming_distance;
use faiss_rust::multihash::{IndexBinaryMultiHash, MultiHashSnapshot};
use faiss_rust::result::{IndexBinarySearchQueryResult, IndexBinarySearchResult};

fn labels(names: &[&str]) -> Vec<String> {
    names.iter().map(|s| s.to_string()).collect()
}

fn abc_flat() -> IndexBinaryFlat {
    let mut idx = IndexBinaryFlat::new(1);
    let data = vec![vec![0b0000_0000u8], vec![0b1111_1111u8], vec![0b1111_0000u8]];
    let mut ids = labels(&["a", "b", "c"]);
    idx.add_all(&data, &mut ids).unwrap();
    idx
}

fn abc_multihash(nhash: usize, bits: usize, nflip: usize) -> IndexBinaryMultiHash {
    let mut idx = IndexBinaryMultiHash::new(1, nhash, bits, nflip);
    let data = vec![vec![0b0000_0000u8], vec![0b1111_1111u8], vec![0b1111_0000u8]];
    let mut ids = labels(&["a", "b", "c"]);
    idx.add_all(&data, &mut ids).unwrap();
    idx
}

fn summary(row: &[IndexBinarySearchQueryResult]) -> Vec<(i32, i64, Option<String>)> {
    row.iter().map(|e| (e.distance, e.index, e.label.clone())).collect()
}

fn hit(d: i32, p: i64, l: &str) -> (i32, i64, Option<String>) {
    (d, p, Some(l.to_string()))
}

const SENTINEL: (i32, i64, Option<String>) = (-1, -1, None);

#[test]
fn flat_search_nearest_two() {
    let idx = abc_flat();
    let res = idx.search(&vec![vec![0b0000_0000u8]], 2).unwrap();
    assert_eq!(res.queries.len(), 1);
    assert_eq!(summary(&res.queries[0]), vec![hit(0, 0, "a"), hit(4, 2, "c")]);
}

#[test]
fn flat_range_search_excludes_far() {
    let idx = abc_flat();
    let res = idx.range_search(&vec![vec![0b0000_0000u8]], 3, 4).unwrap();
    assert_eq!(summary(&res.queries[0]), vec![hit(0, 0, "a"), hit(4, 2, "c")]);
}

#[test]
fn flat_search_pads_with_sentinels() {
    let idx = abc_flat();
    let res = idx.search(&vec![vec![0b1111_1111u8]], 5).unwrap();
    assert_eq!(
        summary(&res.queries[0]),
        vec![hit(0, 1, "b"), hit(4, 2, "c"), hit(8, 0, "a"), SENTINEL, SENTINEL]
    );
}

#[test]
fn flat_search_ties_by_position() {
    let mut idx = IndexBinaryFlat::new(1);
    let data = vec![vec![0b0000_0011u8], vec![0b0000_0001u8], vec![0b0000_0010u8], vec![0b1000_0000u8]];
    let mut ids = labels(&["w", "x", "y", "z"]);
    idx.add_all(&data, &mut ids).unwrap();
    let res = idx.search(&vec![vec![0u8]], 4).unwrap();
    assert_eq!(
        summary(&res.queries[0]),
        vec![hit(1, 1, "x"), hit(1, 2, "y"), hit(1, 3, "z"), hit(2, 0, "w")]
    );
    let row = &res.queries[0];
    for w in row.windows(2) {
        assert!(w[0].distance < w[1].distance || (w[0].distance == w[1].distance && w[0].index < w[1].index));
    }
}

#[test]
fn flat_range_is_prefix_of_full_search() {
    let mut idx = IndexBinaryFlat::new(2);
    let data = vec![
        vec![0xFFu8, 0x00],
        vec![0x01u8, 0x00],
        vec![0x00u8, 0x00],
        vec![0x0Fu8, 0x01],
        vec![0x03u8, 0x00],
    ];
    let mut ids = labels(&["p0", "p1", "p2", "p3", "p4"]);
    idx.add_all(&data, &mut ids).unwrap();
    let q = vec![vec![0x00u8, 0x00]];
    let all = idx.search(&q, 5).unwrap();
    for radius in 0..10usize {
        for k in 0..6usize {
            let near = idx.range_search(&q, k, radius).unwrap();
            let expected: Vec<_> = summary(&all.queries[0])
                .into_iter()
                .filter(|e| e.2.is_some() && e.0 as usize <= radius)
                .take(k)
                .collect();
            assert_eq!(summary(&near.queries[0]), expected);
        }
    }
}

#[test]
fn flat_add_grows_size_by_batch_length() {
    let mut idx = abc_flat();
    assert_eq!(idx.len(), 3);
    let mut ids = labels(&["d", "e"]);
    idx.add_all(&vec![vec![1u8], vec![2u8]], &mut ids).unwrap();
    assert_eq!(idx.len(), 5);
    assert!(ids.is_empty());
    assert_eq!(idx.get_all().len(), 5);
    idx.add(vec![3u8], "f".to_string()).unwrap();
    assert_eq!(idx.len(), 6);
}

#[test]
fn flat_empty_batch_changes_nothing() {
    let mut idx = abc_flat();
    let q = vec![vec![0b0000_1111u8]];
    let before = summary(&idx.search(&q, 3).unwrap().queries[0]);
    let mut ids: Vec<String> = Vec::new();
    idx.add_all(&Vec::new(), &mut ids).unwrap();
    assert_eq!(idx.len(), 3);
    assert_eq!(summary(&idx.search(&q, 3).unwrap().queries[0]), before);
}

#[test]
fn flat_rejects_wrong_width() {
    let mut idx = abc_flat();
    let mut ids = labels(&["x", "y"]);
    let r = idx.add_all(&vec![vec![1u8], vec![1u8, 2u8]], &mut ids);
    assert_eq!(r, Err(IndexError::DimensionMismatch));
    assert_eq!(idx.len(), 3);
    assert_eq!(ids.len(), 2);
    assert_eq!(idx.add(vec![], "z".to_string()), Err(IndexError::DimensionMismatch));
    assert!(matches!(idx.search(&vec![vec![1u8, 2u8]], 1), Err(IndexError::DimensionMismatch)));
    assert!(matches!(idx.range_search(&vec![vec![]], 1, 3), Err(IndexError::DimensionMismatch)));
}

#[test]
fn flat_add_all_raw_splits_buffer() {
    let mut idx = IndexBinaryFlat::new(2);
    let mut ids = labels(&["a", "b"]);
    idx.add_all_raw(&vec![1u8, 2, 3, 4], &mut ids).unwrap();
    let all = idx.get_all();
    assert_eq!(all.len(), 2);
    assert_eq!(all[0].hash, vec![1u8, 2]);
    assert_eq!(all[1].hash, vec![3u8, 4]);
    assert_eq!(all[1].label, 1);
    assert_eq!(all[1].id, "b");
    let mut bad = labels(&["c"]);
    assert_eq!(idx.add_all_raw(&vec![1u8, 2, 3], &mut bad), Err(IndexError::DimensionMismatch));
    assert_eq!(idx.len(), 2);
}

#[test]
fn flat_get_batch_clamps() {
    let idx = abc_flat();
    let b = idx.get_batch(1, 10);
    assert_eq!(b.len(), 2);
    assert_eq!(b[0].label, 1);
    assert_eq!(b[0].hash, vec![0b1111_1111u8]);
    assert_eq!(b[0].id, "b");
    assert_eq!(b[1].id, "c");
    assert_eq!(idx.get_batch(7, 2).len(), 0);
    assert_eq!(idx.get_batch(0, usize::MAX).len(), 3);
    assert_eq!(idx.get_batch(usize::MAX, usize::MAX).len(), 0);
}

#[test]
fn flat_snapshot_round_trip() {
    let idx = abc_flat();
    let snap = idx.serialize();
    assert_eq!(snap.dims, 1);
    assert_eq!(snap.data, vec![0b0000_0000u8, 0b1111_1111, 0b1111_0000]);
    assert_eq!(snap.ids, labels(&["a", "b", "c"]));
    let back = IndexBinaryFlat::deserialize(snap).unwrap();
    let probes = vec![vec![0u8], vec![0x0Fu8], vec![0xF1u8], vec![0xFFu8]];
    for k in 0..5usize {
        let a = idx.search(&probes, k).unwrap();
        let b = back.search(&probes, k).unwrap();
        for i in 0..probes.len() {
            assert_eq!(summary(&a.queries[i]), summary(&b.queries[i]));
        }
    }
}

#[test]
fn flat_snapshot_rejects_malformed() {
    let snap = FlatSnapshot { dims: 2, ids: labels(&["a", "b"]), data: vec![1u8, 2, 3] };
    assert!(matches!(IndexBinaryFlat::deserialize(snap), Err(IndexError::SerializationFormatError)));
    let snap = FlatSnapshot { dims: usize::MAX, ids: Vec::new(), data: Vec::new() };
    assert!(matches!(IndexBinaryFlat::deserialize(snap), Err(IndexError::SerializationFormatError)));
}

#[test]
fn multihash_exact_bucket_only() {
    let idx = abc_multihash(1, 8, 0);
    let res = idx.search(&vec![vec![0b0000_0001u8]], 2).unwrap();
    assert_eq!(summary(&res.queries[0]), vec![SENTINEL, SENTINEL]);
    let res = idx.search(&vec![vec![0b1111_0000u8]], 2).unwrap();
    assert_eq!(summary(&res.queries[0]), vec![hit(0, 2, "c"), SENTINEL]);
}

#[test]
fn multihash_flips_and_tables_widen_candidates() {
    let idx = abc_multihash(1, 8, 1);
    let res = idx.search(&vec![vec![0b0000_0001u8]], 3).unwrap();
    assert_eq!(summary(&res.queries[0]), vec![hit(1, 0, "a"), SENTINEL, SENTINEL]);
    // two tables of four bits: low nibble and high nibble
    let idx = abc_multihash(2, 4, 0);
    let res = idx.search(&vec![vec![0b1111_0001u8]], 3).unwrap();
    assert_eq!(summary(&res.queries[0]), vec![hit(1, 2, "c"), hit(3, 1, "b"), SENTINEL]);
    let res = idx.range_search(&vec![vec![0b1111_0001u8]], 3, 2).unwrap();
    assert_eq!(summary(&res.queries[0]), vec![hit(1, 2, "c")]);
}

#[test]
fn multihash_full_probe_matches_flat() {
    let idx = abc_multihash(1, 8, 8);
    let res = idx.search(&vec![vec![0u8]], 2).unwrap();
    assert_eq!(summary(&res.queries[0]), vec![hit(0, 0, "a"), hit(4, 2, "c")]);
    let res = idx.range_search(&vec![vec![0u8]], 3, 4).unwrap();
    assert_eq!(summary(&res.queries[0]), vec![hit(0, 0, "a"), hit(4, 2, "c")]);
}

#[test]
fn multihash_add_and_snapshot_round_trip() {
    let mut idx = IndexBinaryMultiHash::new(2, 2, 4, 1);
    idx.add(vec![1u8, 2], "one".to_string()).unwrap();
    let mut ids = labels(&["two", "three"]);
    idx.add_all(&vec![vec![3u8, 4], vec![5u8, 6]], &mut ids).unwrap();
    assert_eq!(idx.len(), 3);
    let snap = idx.serialize();
    assert_eq!((snap.dims, snap.nhash, snap.bucket_bits, snap.nflip), (2, 2, 4, 1));
    assert_eq!(snap.data, vec![1u8, 2, 3, 4, 5, 6]);
    let back = IndexBinaryMultiHash::deserialize(snap).unwrap();
    assert_eq!(back.get_all().len(), 3);
    let probes = vec![vec![0u8, 0], vec![1u8, 2], vec![7u8, 7]];
    for k in 0..4usize {
        let a = idx.search(&probes, k).unwrap();
        let b = back.search(&probes, k).unwrap();
        for i in 0..probes.len() {
            assert_eq!(summary(&a.queries[i]), summary(&b.queries[i]));
        }
    }
}

#[test]
fn multihash_snapshot_rejects_bad_parameters() {
    let snap = MultiHashSnapshot { dims: 1, nhash: 2, bucket_bits: 8, nflip: 0, ids: Vec::new(), data: Vec::new() };
    assert!(matches!(IndexBinaryMultiHash::deserialize(snap), Err(IndexError::SerializationFormatError)));
    let snap = MultiHashSnapshot { dims: 1, nhash: 1, bucket_bits: 8, nflip: 0, ids: labels(&["a"]), data: Vec::new() };
    assert!(matches!(IndexBinaryMultiHash::deserialize(snap), Err(IndexError::SerializationFormatError)));
}

#[test]
fn multihash_rejects_wrong_width() {
    let mut idx = abc_multihash(1, 8, 0);
    assert_eq!(idx.add(vec![1u8, 2u8], "x".to_string()), Err(IndexError::DimensionMismatch));
    assert!(matches!(idx.search(&vec![vec![]], 1), Err(IndexError::DimensionMismatch)));
    assert_eq!(idx.len(), 3);
}

#[test]
fn hamming_distance_counts_bits() {
    assert_eq!(hamming_distance(&vec![0xFFu8, 0x0F], &vec![0u8, 0]), 12);
    assert_eq!(hamming_distance(&vec![0b1010_1010u8], &vec![0b0101_0101u8]), 8);
    assert_eq!(hamming_distance(&vec![], &vec![]), 0);
}

#[test]
fn result_constructors() {
    let s = IndexBinarySearchQueryResult::new();
    assert_eq!((s.distance, s.index, s.label), SENTINEL);
    let r = IndexBinarySearchResult::new(4, 3);
    assert_eq!(r.queries.len(), 3);
    assert!(r.queries.iter().all(|q| q.is_empty()));
}
