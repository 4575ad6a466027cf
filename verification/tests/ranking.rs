use rinha::ranking::{insert_heap5, insert_top};

#[test]
fn test_insert_heap5() {
    let mut dists = [i64::MAX; 5];
    let mut frauds = [0u8; 5];
    insert_heap5(&mut dists, &mut frauds, 100, 1);
    insert_heap5(&mut dists, &mut frauds, 50, 0);
    insert_heap5(&mut dists, &mut frauds, 200, 1);
    insert_heap5(&mut dists, &mut frauds, 10, 1);
    insert_heap5(&mut dists, &mut frauds, 75, 0);
    assert_eq!(dists, [10, 50, 75, 100, 200]);
    assert_eq!(frauds[0], 1);
}

#[test]
fn labels_move_with_their_distances() {
    let mut dists = [10, 20, 30, 40, 50];
    let mut frauds = [1, 2, 3, 4, 5];
    insert_heap5(&mut dists, &mut frauds, 25, 9);
    assert_eq!(dists, [10, 20, 25, 30, 40]);
    assert_eq!(frauds, [1, 2, 9, 3, 4]);
}

#[test]
fn a_distance_like_the_fifth_is_turned_away() {
    let mut dists = [10, 20, 30, 40, 50];
    let mut frauds = [1, 2, 3, 4, 5];
    insert_heap5(&mut dists, &mut frauds, 50, 9);
    assert_eq!(dists, [10, 20, 30, 40, 50]);
    assert_eq!(frauds, [1, 2, 3, 4, 5]);
}

#[test]
fn an_equal_distance_goes_in_front() {
    let mut dists = [10, 20, 20, 40, 50];
    let mut frauds = [1, 2, 3, 4, 5];
    insert_heap5(&mut dists, &mut frauds, 20, 9);
    assert_eq!(dists, [10, 20, 20, 20, 40]);
    assert_eq!(frauds, [1, 9, 2, 3, 4]);
}

#[test]
fn the_nearest_clusters_come_first() {
    let mut dists = vec![i64::MAX; 3];
    let mut ids = vec![0u32; 3];
    for (id, d) in [70i64, 30, 50, 90, 30, 10].iter().enumerate() {
        insert_top(&mut dists, &mut ids, *d, id as u32);
    }
    assert_eq!(dists, vec![10, 30, 30]);
    assert_eq!(ids, vec![5, 4, 1]);
}

#[test]
fn the_smallest_distances_stay_in_whatever_order_they_come() {
    let offers: [(i64, u8); 7] = [(70, 1), (10, 0), (40, 1), (90, 0), (20, 1), (60, 0), (30, 1)];
    for start in 0..7 {
        for step in 1..7 {
            let mut dists = [i64::MAX; 5];
            let mut frauds = [0u8; 5];
            for k in 0..7 {
                let (d, f) = offers[(start + step * k) % 7];
                insert_heap5(&mut dists, &mut frauds, d, f);
            }
            assert_eq!(dists, [10, 20, 30, 40, 60]);
            assert_eq!(frauds, [0, 1, 1, 1, 0]);
        }
    }
    let mut dists = [i64::MAX; 5];
    let mut frauds = [0u8; 5];
    insert_heap5(&mut dists, &mut frauds, 5, 1);
    insert_heap5(&mut dists, &mut frauds, 3, 1);
    assert_eq!(dists, [3, 5, i64::MAX, i64::MAX, i64::MAX]);
    assert_eq!(frauds, [1, 1, 0, 0, 0]);
}
