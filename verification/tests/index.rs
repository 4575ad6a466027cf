use rinha::builder::{
    build_index, cluster_offsets, cluster_order, nearest_centroid, write_empty_index, write_index,
};
use rinha::distance::dist_sq;
use rinha::index::IvfIndex;
use rinha::layout::{is_index, read_i16, read_u32, read_u64, read_vector};
use rinha::responses::fraud_score_handler;

fn open(bytes: Vec<u8>) -> IvfIndex {
    let data: &'static [u8] = Box::leak(bytes.into_boxed_slice());
    assert!(is_index(data));
    IvfIndex::from_static_bytes(data)
}

fn point(x: i16, y: i16) -> [i16; 16] {
    let mut v = [0i16; 16];
    v[0] = x;
    v[1] = y;
    v
}

/// Twenty points round two centroids; the points near the second are frauds.
fn sample() -> (Vec<[i16; 16]>, Vec<[i16; 16]>, Vec<u8>) {
    let centroids = vec![point(0, 0), point(10000, 10000)];
    let mut vectors = Vec::new();
    let mut labels = Vec::new();
    for i in 0..10 {
        vectors.push(point(10000 + 7 * i, 10000 - 3 * i));
        labels.push(1);
        vectors.push(point(5 * i, 11 * i));
        labels.push(0);
    }
    (centroids, vectors, labels)
}

fn sample_bytes() -> Vec<u8> {
    let (centroids, vectors, labels) = sample();
    let assignments: Vec<u32> = vectors.iter().map(|v| nearest_centroid(v, &centroids)).collect();
    let offsets = cluster_offsets(&assignments, 2);
    let order = cluster_order(&assignments, &offsets);
    write_index(&centroids, &offsets, &vectors, &labels, &order)
}

fn brute_force(q: &[i16; 16], vectors: &[[i16; 16]], labels: &[u8]) -> u8 {
    let mut all: Vec<(i64, u8)> =
        vectors.iter().zip(labels).map(|(v, l)| (dist_sq(q, v), *l)).collect();
    all.sort();
    all.iter().take(5).map(|x| x.1).sum()
}

#[test]
fn the_parts_of_an_index_are_where_they_belong() {
    let bytes = sample_bytes();
    assert_eq!(bytes.len(), 32 + 2 * 32 + 3 * 4 + 20 * 33);
    assert_eq!(read_u64(&bytes, 0), 0x52_4E_48_41_32_30_32_36);
    assert_eq!(read_u32(&bytes, 8), 2);
    assert_eq!(read_u32(&bytes, 12), 50);
    assert_eq!(read_u32(&bytes, 16), 20);
    assert_eq!(read_u32(&bytes, 20), 16);
    assert_eq!(&bytes[24..32], &[0; 8]);
    assert_eq!(read_vector(&bytes, 64), point(10000, 10000));
    assert_eq!(
        [read_u32(&bytes, 96), read_u32(&bytes, 100), read_u32(&bytes, 104)],
        [0, 10, 20]
    );
    assert_eq!(read_i16(&bytes, 108 + 10 * 32) / 10000, 1);
    assert_eq!(&bytes[108 + 20 * 32..108 + 20 * 32 + 10], &[0; 10]);
    assert_eq!(&bytes[108 + 20 * 32 + 10..], &[1; 10]);
}

#[test]
fn negative_lanes_are_read_back() {
    let vectors = vec![point(-16000, -1)];
    let bytes = write_index(&[point(-16000, 16000)], &vec![0, 1], &vectors, &[1], &vec![0]);
    assert_eq!(read_vector(&bytes, 32), point(-16000, 16000));
    assert_eq!(read_vector(&bytes, 32 + 32 + 8), point(-16000, -1));
}

#[test]
fn bytes_that_hold_no_index_are_told_apart() {
    let bytes = sample_bytes();
    assert!(is_index(&bytes));
    assert!(!is_index(&bytes[..bytes.len() - 1]));
    assert!(!is_index(&bytes[..31]));
    assert!(!is_index(&[0; 64]));
    assert!(is_index(&write_empty_index()));
}

#[test]
fn an_empty_index_finds_nothing() {
    let index = open(write_empty_index());
    assert!(index.is_empty());
    assert!(index.is_sound());
    assert_eq!(index.query(&[0; 16], 50), 0);
    assert_eq!(index.query(&[0; 16], 0), 0);
    index.warmup();
    assert_eq!(index.sum_pages(), 0);
}

#[test]
fn queries_find_the_nearest() {
    let index = open(sample_bytes());
    assert!(!index.is_empty());
    assert!(index.is_sound());
    assert_eq!(index.query(&point(9000, 9000), 1), 5);
    assert_eq!(index.query(&point(100, 100), 1), 0);
    let (_, vectors, labels) = sample();
    for x in 0..10i16 {
        let q = point(1000 * x, 1100 * x);
        assert_eq!(index.query(&q, 2), brute_force(&q, &vectors, &labels));
        assert_eq!(index.query(&q, 1000), brute_force(&q, &vectors, &labels));
    }
}

#[test]
fn only_probed_clusters_are_scanned() {
    // One vector alone in its cluster, and four in the other.
    let centroids = vec![point(0, 0), point(100, 0)];
    let vectors = vec![point(0, 0), point(60, 0), point(70, 0), point(80, 0), point(90, 0)];
    let labels = vec![0, 1, 1, 1, 1];
    let bytes = write_index(&centroids, &vec![0, 1, 5], &vectors, &labels, &vec![0, 1, 2, 3, 4]);
    let index = open(bytes);
    assert_eq!(index.query(&point(10, 0), 1), 0);
    assert_eq!(index.query(&point(10, 0), 2), 4);
    assert_eq!(index.query(&point(90, 0), 1), 4);
}

#[test]
fn no_more_than_256_clusters_are_scanned() {
    // Three hundred clusters of one vector each; only the farthest are frauds.
    let centroids: Vec<[i16; 16]> = (0..300).map(|i| point(i, 0)).collect();
    let vectors: Vec<[i16; 16]> = (0..300).map(|i| point(0, 300 - i)).collect();
    let labels: Vec<u8> = (0..300).map(|i| if i >= 256 { 1 } else { 0 }).collect();
    let offsets: Vec<u32> = (0..301).collect();
    let order: Vec<usize> = (0..300).collect();
    let index = open(write_index(&centroids, &offsets, &vectors, &labels, &order));
    assert_eq!(index.query(&point(0, 0), 300), 0);
    assert_eq!(index.query(&point(299, 0), 300), 5);
}

#[test]
fn a_later_vector_wins_a_tie_unless_the_five_are_full() {
    let centroids = vec![point(0, 0)];
    // Six vectors at the same distance: the sixth is turned away.
    let vectors = vec![point(1, 0); 6];
    let order: Vec<usize> = (0..6).collect();
    let index = open(write_index(&centroids, &vec![0, 6], &vectors, &[0, 0, 0, 0, 0, 1], &order));
    assert_eq!(index.query(&point(0, 0), 1), 0);
    // A nearer sixth pushes out the first, which stands last.
    let mut vectors = vec![point(1, 0); 5];
    vectors.push(point(0, 0));
    let index = open(write_index(&centroids, &vec![0, 6], &vectors, &[1, 0, 0, 0, 0, 0], &order));
    assert_eq!(index.query(&point(0, 0), 1), 0);
}

#[test]
fn unsound_indexes_are_told_apart() {
    let vectors = vec![point(1, 0); 2];
    let wide = open(write_index(&[point(0, 0)], &vec![0, 3], &vectors, &[0, 1], &vec![0, 1]));
    assert!(!wide.is_sound());
    let marked = open(write_index(&[point(0, 0)], &vec![0, 2], &vectors, &[0, 2], &vec![0, 1]));
    assert!(!marked.is_sound());
    let backward = open(write_index(&[point(0, 0)], &vec![9, 2], &vectors, &[0, 1], &vec![0, 1]));
    assert!(backward.is_sound());
    assert_eq!(backward.query(&point(0, 0), 1), 0);
}

#[test]
fn pages_add_up() {
    let centroids = vec![point(7, 0), point(-2, 0)];
    let vectors: Vec<[i16; 16]> = (0..300).map(|i| point(i + 1, 0)).collect();
    let labels = vec![1u8; 300];
    let order: Vec<usize> = (0..300).collect();
    let index = open(write_index(&centroids, &vec![0, 100, 300], &vectors, &labels, &order));
    assert_eq!(index.sum_pages(), 5 + (1 + 129 + 257) + 1);
    index.warmup();
}

#[test]
fn a_built_index_agrees_with_a_full_search() {
    let vectors: Vec<[i16; 16]> = (0..2048i32).map(|i| point((7 * i) as i16, 0)).collect();
    let labels: Vec<u8> = (0..2048u32).map(|i| if i * i % 7 < 3 { 1 } else { 0 }).collect();
    let bytes = build_index(&vectors, &labels);
    assert_eq!(bytes.len(), 32 + 1024 * 32 + 1025 * 4 + 2048 * 33);
    let index = open(bytes);
    assert!(index.is_sound());
    for x in 0..40i16 {
        let q = point(300 * x + 2, 0);
        assert_eq!(index.query(&q, 256), brute_force(&q, &vectors, &labels));
    }
    let count = brute_force(&point(7000, 0), &vectors, &labels);
    let reply = fraud_score_handler(&index, Ok(point(7000, 0)), 256);
    assert_eq!(reply.body, rinha::responses::score_resp(count).body);
}

#[test]
fn more_probes_find_nearer_neighbours() {
    // The query lies nearer to the first centroid, and the nearest vectors in the other cluster.
    let centroids = vec![point(0, 0), point(100, 0)];
    let mut vectors: Vec<[i16; 16]> = (0..5).map(|i| point(-200 - i, 0)).collect();
    vectors.extend((0..4).map(|i| point(55 + i, 0)));
    let labels = vec![1, 1, 1, 1, 1, 0, 0, 0, 0];
    let order: Vec<usize> = (0..9).collect();
    let index = open(write_index(&centroids, &vec![0, 5, 9], &vectors, &labels, &order));
    assert_eq!(index.query(&point(45, 0), 1), 5);
    assert_eq!(index.query(&point(45, 0), 2), 1);
}

#[test]
fn a_query_needs_a_probe_where_there_are_clusters() {
    let index = open(sample_bytes());
    assert!(!index.can_probe(0));
    assert!(index.can_probe(1));
    assert!(open(write_empty_index()).can_probe(0));
    // Vectors without clusters are never found.
    let lost = open(write_index(&[], &vec![0], &[point(1, 0)], &[1], &vec![0]));
    assert!(!lost.is_empty());
    assert!(lost.can_probe(0));
    assert_eq!(lost.query(&point(1, 0), 0), 0);
}

#[test]
fn two_clusterings_of_the_same_vectors_answer_alike() {
    let vectors: Vec<[i16; 16]> = (0..60i16).map(|i| point(i * i, 3 * i)).collect();
    let labels: Vec<u8> = (0..60).map(|i| if i * i % 7 < 3 { 1 } else { 0 }).collect();
    let forward: Vec<usize> = (0..60).collect();
    let backward: Vec<usize> = (0..60).rev().collect();
    let one = [point(0, 0), point(900, 0)];
    let other = [point(7, 7), point(8, 8), point(9, 9)];
    let a = open(write_index(&one, &vec![0, 20, 60], &vectors, &labels, &forward));
    let b = open(write_index(&other, &vec![0, 1, 30, 60], &vectors, &labels, &backward));
    for x in 0..30i16 {
        let q = point(97 * x + 13, 5);
        assert_eq!(a.query(&q, 3), b.query(&q, 3));
        assert_eq!(a.query(&q, 3), brute_force(&q, &vectors, &labels));
    }
}
