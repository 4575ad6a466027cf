use rinha::distance::{dist_sq, dist_sq_avx2, hsum_epi32_to_i64};

#[test]
fn test_dist_sq_consistency() {
    let a: [i16; 16] = [100, 200, 300, 0, 0, 0, 0, 0, 0, 0, 0, 0, 0, 0, 0, 0];
    let b: [i16; 16] = [110, 190, 310, 0, 0, 0, 0, 0, 0, 0, 0, 0, 0, 0, 0, 0];
    let scalar = dist_sq(&a, &b);
    let avx2 = dist_sq_avx2(&a, &b);
    assert_eq!(scalar, avx2);
    let a3: [i16; 16] = [-16000, -16000, 0, 0, 0, 0, 0, 0, 0, 0, 0, 0, 0, 0, 0, 0];
    let b3: [i16; 16] = [16000, 16000, 0, 0, 0, 0, 0, 0, 0, 0, 0, 0, 0, 0, 0, 0];
    let scalar3 = dist_sq(&a3, &b3);
    let avx2_3 = dist_sq_avx2(&a3, &b3);
    assert_eq!(scalar3, avx2_3);
}

#[test]
fn distances_have_exact_values() {
    let a: [i16; 16] = [100, 200, 300, 0, 0, 0, 0, 0, 0, 0, 0, 0, 0, 0, 0, 0];
    let b: [i16; 16] = [110, 190, 310, 0, 0, 0, 0, 0, 0, 0, 0, 0, 0, 0, 0, 0];
    assert_eq!(dist_sq(&a, &b), 300);
    assert_eq!(dist_sq_avx2(&a, &b), 300);
    assert_eq!(dist_sq(&[-16000; 16], &[16000; 16]), 14 * 32000 * 32000);
}

#[test]
fn lanes_are_exact_up_to_the_largest_component() {
    let mut a = [16383i16; 16];
    let mut b = [-16383i16; 16];
    a[14] = 0;
    a[15] = 0;
    b[14] = 0;
    b[15] = 0;
    assert_eq!(dist_sq(&a, &b), dist_sq_avx2(&a, &b));
    assert_eq!(dist_sq_avx2(&a, &b), 14 * 32766 * 32766);
}

#[test]
fn lanes_wrap_beyond_the_largest_component() {
    let mut a = [0i16; 16];
    let mut b = [0i16; 16];
    a[0] = 20000;
    b[0] = -20000;
    assert_eq!(dist_sq(&a, &b), 1_600_000_000);
    // The difference of 40000 comes out as -25536.
    assert_eq!(dist_sq_avx2(&a, &b), 25536 * 25536);
    a[0] = -16384;
    b[0] = 16384;
    a[1] = -16384;
    b[1] = 16384;
    // Two squares of the least lane value wrap round together.
    assert_eq!(dist_sq_avx2(&a, &b), i32::MIN as i64);
}

#[test]
fn lanes_see_the_padding() {
    let a = [0i16; 16];
    let mut b = [0i16; 16];
    b[15] = 3;
    assert_eq!(dist_sq(&a, &b), 0);
    assert_eq!(dist_sq_avx2(&a, &b), 9);
}

#[test]
fn eight_lanes_add_up_in_sixty_four_bits() {
    assert_eq!(hsum_epi32_to_i64(&[i32::MAX; 8]), 8 * i32::MAX as i64);
    assert_eq!(hsum_epi32_to_i64(&[1, -2, 3, -4, 5, -6, 7, -8]), -4);
}
