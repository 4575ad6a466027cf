use rinha::builder::{
    cluster_offsets, cluster_order, count_changes, initial_centroids, kmeans_parallel, label_of,
    lcg, nearest_centroid, recenter, SEED,
};

fn point(x: i16) -> [i16; 16] {
    let mut v = [0i16; 16];
    v[0] = x;
    v
}

#[test]
fn random_numbers_follow_their_rule() {
    let mut s = 0u64;
    assert_eq!(lcg(&mut s), 1442695040888963407);
    assert_eq!(s, 1442695040888963407);
    let mut t = SEED;
    let next = SEED.wrapping_mul(6364136223846793005).wrapping_add(1442695040888963407);
    assert_eq!(lcg(&mut t), next);
}

#[test]
fn seeds_come_from_their_stretches() {
    let vectors: Vec<[i16; 16]> = (0..100).map(point).collect();
    let seeds = initial_centroids(&vectors, 10);
    assert_eq!(seeds.len(), 10);
    for (i, s) in seeds.iter().enumerate().skip(1) {
        assert_eq!(s[0] as usize / 10, i);
    }
    // With more clusters than vectors, all but the first start from the first vector.
    let many = initial_centroids(&vectors[..3], 5);
    assert_eq!(&many[1..], &[point(0); 4]);
}

#[test]
fn the_first_of_equally_near_centroids_wins() {
    let centroids = vec![point(10), point(-10), point(30)];
    assert_eq!(nearest_centroid(&point(0), &centroids), 0);
    assert_eq!(nearest_centroid(&point(-1), &centroids), 1);
    assert_eq!(nearest_centroid(&point(20), &centroids), 0);
    assert_eq!(nearest_centroid(&point(21), &centroids), 2);
    assert_eq!(nearest_centroid(&point(21), &[]), 0);
}

#[test]
fn centroids_move_to_the_means() {
    let vectors = vec![point(1), point(2), point(-1), point(-2), point(50)];
    let mut centroids = vec![point(7), point(8), point(9)];
    centroids[0][15] = 3;
    recenter(&vectors, &vec![0, 0, 1, 1, 1], &mut centroids);
    assert_eq!(centroids[0][0], 1);
    assert_eq!(centroids[0][15], 3);
    assert_eq!(centroids[1][0], 15);
    assert_eq!(centroids[2][0], 9);
    // The mean of -1 and -2 rounds toward zero.
    recenter(&vectors[2..4], &vec![0, 0], &mut centroids);
    assert_eq!(centroids[0][0], -1);
}

#[test]
fn changes_are_counted() {
    assert_eq!(count_changes(&[1, 2, 3], &[1, 2, 3]), 0);
    assert_eq!(count_changes(&[1, 2, 3], &[1, 0, 0]), 2);
    assert_eq!(count_changes(&[], &[]), 0);
}

#[test]
fn one_cluster_has_the_mean_of_all() {
    let vectors: Vec<[i16; 16]> = (0..100).map(point).collect();
    assert_eq!(kmeans_parallel(&vectors, 1, 15), vec![point(49)]);
}

#[test]
fn settled_centroids_are_the_means_of_their_clusters() {
    let vectors: Vec<[i16; 16]> = (0..100).map(|i| point(37 * i % 101)).collect();
    let centroids = kmeans_parallel(&vectors, 4, 1000);
    let assignments: Vec<u32> = vectors.iter().map(|v| nearest_centroid(v, &centroids)).collect();
    let mut moved = centroids.clone();
    recenter(&vectors, &assignments, &mut moved);
    assert_eq!(moved, centroids);
}

#[test]
fn no_round_leaves_the_seeds() {
    let vectors: Vec<[i16; 16]> = (0..100).map(point).collect();
    assert_eq!(kmeans_parallel(&vectors, 10, 0), initial_centroids(&vectors, 10));
}

#[test]
fn rounds_stop_when_nothing_changes() {
    let vectors: Vec<[i16; 16]> = (0..100).map(point).collect();
    let settled = kmeans_parallel(&vectors, 4, 1000);
    assert_eq!(settled, kmeans_parallel(&vectors, 4, 2000));
}

#[test]
fn clusters_begin_behind_each_other() {
    let assignments = vec![2, 0, 2, 0, 0];
    let offsets = cluster_offsets(&assignments, 4);
    assert_eq!(offsets, vec![0, 3, 3, 5, 5]);
    let order = cluster_order(&assignments, &offsets);
    let grouped: Vec<u32> = order.iter().map(|i| assignments[*i]).collect();
    assert_eq!(grouped, vec![0, 0, 0, 2, 2]);
    let mut sorted = order.clone();
    sorted.sort();
    assert_eq!(sorted, vec![0, 1, 2, 3, 4]);
}

#[test]
fn labels_are_told_apart() {
    assert_eq!(label_of(b"fraud"), 1);
    assert_eq!(label_of(b"legit"), 0);
    assert_eq!(label_of(b"fraudulent"), 0);
    assert_eq!(label_of(b""), 0);
}

#[test]
fn the_shares_of_the_threads_make_up_the_whole() {
    let vectors: Vec<[i16; 16]> = (0..1001).map(|i| point(i - 300)).collect();
    let assignments: Vec<u32> = (0..1001).map(|i| i % 3).collect();
    let mut centroids = vec![point(0); 4];
    recenter(&vectors, &assignments, &mut centroids);
    for c in 0..3 {
        let own: Vec<i64> =
            (0..1001).filter(|i| i % 3 == c).map(|i| vectors[i][0] as i64).collect();
        let mean = own.iter().sum::<i64>() / own.len() as i64;
        assert_eq!(centroids[c][0] as i64, mean);
    }
    assert_eq!(centroids[3], point(0));
    assert_eq!(centroids[0][0], 199);
}
