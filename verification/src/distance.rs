//! Squared distances between quantised vectors of fourteen features and two lanes of
//! padding.
use vstd::prelude::*;

verus! {

/// The number of features of a vector.
pub const DIM: usize = 14;

/// The number of lanes of a vector, padding included.
pub const DIM_PAD: usize = 16;

/// The largest component for which no lane difference leaves sixteen bits.
pub const MAX_COMPONENT: i16 = 16383;

/// The square of an integer.
pub open spec fn square(x: int) -> int {
    x * x
}

/// The squared Euclidean distance over the first `n` components.
pub open spec fn euclidean(a: Seq<i16>, b: Seq<i16>, n: nat) -> int
    decreases n,
{
    if n == 0 {
        0
    } else {
        euclidean(a, b, (n - 1) as nat) + square(a[n - 1] - b[n - 1])
    }
}

/// The sum of the first `n` entries of `v`.
pub open spec fn total(v: Seq<i32>, n: nat) -> int
    decreases n,
{
    if n == 0 {
        0
    } else {
        total(v, (n - 1) as nat) + v[n - 1]
    }
}

/// The squares of two lane differences, added in thirty-two bits. Each difference is
/// taken in sixteen bits and wraps round; the sum wraps round only where both
/// differences are the least sixteen-bit number.
pub open spec fn lane_pair(a: Seq<i16>, b: Seq<i16>, j: int) -> i32 {
    let lo = a[2 * j].wrapping_sub(b[2 * j]);
    let hi = a[2 * j + 1].wrapping_sub(b[2 * j + 1]);
    if lo == i16::MIN && hi == i16::MIN {
        i32::MIN
    } else {
        (square(lo as int) + square(hi as int)) as i32
    }
}

/// The eight pair sums of two vectors.
pub open spec fn lane_pairs(a: Seq<i16>, b: Seq<i16>) -> Seq<i32> {
    Seq::new(8, |j: int| lane_pair(a, b, j))
}

/// The distance that the sixteen lanes give: the total of the eight pair sums.
pub open spec fn lane_distance(a: Seq<i16>, b: Seq<i16>) -> i64 {
    total(lane_pairs(a, b), 8) as i64
}

/// A whole vector, every component of which lies within the range that the lanes
/// subtract exactly.
pub open spec fn in_range(a: Seq<i16>) -> bool {
    &&& a.len() == DIM_PAD
    &&& forall|i: int| 0 <= i < a.len() ==> -MAX_COMPONENT <= #[trigger] a[i] <= MAX_COMPONENT
}

/// The square of a sixteen-bit lane difference is at most two to the thirtieth.
proof fn lemma_square_bound(x: int)
    requires
        -0x8000 <= x <= 0x7fff,
    ensures
        0 <= square(x) <= 0x4000_0000,
        x > -0x8000 ==> square(x) < 0x4000_0000,
{
    assert(0 <= x * x <= 0x4000_0000) by (nonlinear_arith)
        requires
            -0x8000 <= x <= 0x7fff,
    ;
    if x > -0x8000 {
        assert(x * x < 0x4000_0000) by (nonlinear_arith)
            requires
                -0x8000 < x <= 0x7fff,
        ;
    }
}

/// A total of `n` numbers of thirty-two bits stays within `n` times their range.
proof fn lemma_total_bound(v: Seq<i32>, n: nat)
    ensures
        -0x8000_0000 * n <= total(v, n) <= 0x7fff_ffff * n,
    decreases n,
{
    if n > 0 {
        lemma_total_bound(v, (n - 1) as nat);
    }
}

/// A lane distance is the total of the pair sums themselves, and is far below the
/// largest number of sixty-four bits.
pub proof fn lemma_lane_distance_bound(a: Seq<i16>, b: Seq<i16>)
    ensures
        lane_distance(a, b) == total(lane_pairs(a, b), 8),
        lane_distance(a, b) < i64::MAX,
{
    lemma_total_bound(lane_pairs(a, b), 8);
}

/// On vectors whose components are in range and whose padding agrees, the lanes give
/// the squared Euclidean distance over the features.
pub proof fn lemma_lanes_are_euclidean(a: Seq<i16>, b: Seq<i16>)
    requires
        in_range(a),
        in_range(b),
        a[14] == b[14],
        a[15] == b[15],
    ensures
        lane_distance(a, b) == euclidean(a, b, DIM as nat),
{
    let pairs = lane_pairs(a, b);
    assert forall|j: int| 0 <= j < 8 implies #[trigger] pairs[j] == square(a[2 * j] - b[2 * j])
        + square(a[2 * j + 1] - b[2 * j + 1]) by {
        let lo = a[2 * j] - b[2 * j];
        let hi = a[2 * j + 1] - b[2 * j + 1];
        assert(-MAX_COMPONENT <= a[2 * j] <= MAX_COMPONENT);
        assert(-MAX_COMPONENT <= b[2 * j] <= MAX_COMPONENT);
        assert(-MAX_COMPONENT <= a[2 * j + 1] <= MAX_COMPONENT);
        assert(-MAX_COMPONENT <= b[2 * j + 1] <= MAX_COMPONENT);
        lemma_square_bound(lo);
        lemma_square_bound(hi);
    }
    lemma_lane_distance_bound(a, b);
    reveal_with_fuel(total, 9);
    reveal_with_fuel(euclidean, 15);
    assert(pairs[0] == square(a[0] - b[0]) + square(a[1] - b[1]));
    assert(pairs[1] == square(a[2] - b[2]) + square(a[3] - b[3]));
    assert(pairs[2] == square(a[4] - b[4]) + square(a[5] - b[5]));
    assert(pairs[3] == square(a[6] - b[6]) + square(a[7] - b[7]));
    assert(pairs[4] == square(a[8] - b[8]) + square(a[9] - b[9]));
    assert(pairs[5] == square(a[10] - b[10]) + square(a[11] - b[11]));
    assert(pairs[6] == square(a[12] - b[12]) + square(a[13] - b[13]));
    assert(pairs[7] == square(a[14] - b[14]) + square(a[15] - b[15]));
    assert(square(0) == 0) by (nonlinear_arith);
}

/// What the squares of the first `n` components add up to where only component `i` differs.
proof fn lemma_one_component(a: Seq<i16>, b: Seq<i16>, i: int, n: nat)
    requires
        0 <= i,
        forall|j: int| 0 <= j < n && j != i ==> a[j] == b[j],
    ensures
        euclidean(a, b, n) == if i < n {
            (a[i] - b[i]) * (a[i] - b[i])
        } else {
            0
        },
    decreases n,
{
    if n > 0 {
        lemma_one_component(a, b, i, (n - 1) as nat);
        assert(square(0) == 0) by (nonlinear_arith);
    }
}

/// A squared distance is not below zero, and is zero only between equal components.
proof fn lemma_zero_components(a: Seq<i16>, b: Seq<i16>, n: nat)
    ensures
        euclidean(a, b, n) >= 0,
        euclidean(a, b, n) == 0 <==> forall|j: int| 0 <= j < n ==> a[j] == b[j],
    decreases n,
{
    if n > 0 {
        lemma_zero_components(a, b, (n - 1) as nat);
        let x = a[n - 1] - b[n - 1];
        assert(x * x >= 0 && (x * x == 0 <==> x == 0)) by (nonlinear_arith);
        if euclidean(a, b, n) == 0 {
            assert forall|j: int| 0 <= j < n implies a[j] == b[j] by {}
        }
    }
}

/// A corner between two vectors, each component of which is that of one of them, splits their
/// squared distance.
proof fn lemma_corner(a: Seq<i16>, b: Seq<i16>, c: Seq<i16>, n: nat)
    requires
        forall|j: int| 0 <= j < n ==> c[j] == a[j] || c[j] == b[j],
    ensures
        euclidean(a, b, n) == euclidean(a, c, n) + euclidean(c, b, n),
    decreases n,
{
    if n > 0 {
        lemma_corner(a, b, c, (n - 1) as nat);
        assert(square(0) == 0) by (nonlinear_arith);
    }
}

/// Vectors that differ in one of the fourteen features alone, whichever it is, are apart by the
/// square of that difference; what the padding holds does not matter.
pub proof fn lemma_distance_of_one_feature(a: Seq<i16>, b: Seq<i16>, i: int)
    requires
        0 <= i < 14,
        forall|j: int| 0 <= j < 14 && j != i ==> a[j] == b[j],
    ensures
        euclidean(a, b, DIM as nat) == (a[i] - b[i]) * (a[i] - b[i]),
{
    lemma_one_component(a, b, i, DIM as nat);
}

/// A distance is zero exactly where all fourteen features agree, and never below zero.
pub proof fn lemma_distance_zero(a: Seq<i16>, b: Seq<i16>)
    ensures
        euclidean(a, b, DIM as nat) >= 0,
        euclidean(a, b, DIM as nat) == 0 <==> forall|j: int| 0 <= j < 14 ==> a[j] == b[j],
{
    lemma_zero_components(a, b, DIM as nat);
}

/// A distance is the same in both directions.
pub proof fn lemma_distance_symmetric(a: Seq<i16>, b: Seq<i16>, n: nat)
    ensures
        euclidean(a, b, n) == euclidean(b, a, n),
    decreases n,
{
    if n > 0 {
        lemma_distance_symmetric(a, b, (n - 1) as nat);
        let x = a[n - 1] - b[n - 1];
        assert((-x) * (-x) == x * x) by (nonlinear_arith);
        assert(b[n - 1] - a[n - 1] == -x);
    }
}

/// Features count separately: a vector that takes each feature from one of two others splits
/// their distance.
pub proof fn lemma_distance_splits(a: Seq<i16>, b: Seq<i16>, c: Seq<i16>)
    requires
        forall|j: int| 0 <= j < 14 ==> c[j] == a[j] || c[j] == b[j],
    ensures
        euclidean(a, b, DIM as nat) == euclidean(a, c, DIM as nat) + euclidean(c, b, DIM as nat),
{
    lemma_corner(a, b, c, DIM as nat);
}

/// Where components are in range, the lanes see every feature: vectors that differ in feature
/// `i` alone are apart by the square of that difference, and a distance is zero exactly where
/// all features agree.
pub proof fn lemma_lanes_see_every_feature(a: Seq<i16>, b: Seq<i16>)
    requires
        a.len() == 16,
        b.len() == 16,
        forall|j: int| 0 <= j < 16 ==> -16383 <= #[trigger] a[j] <= 16383,
        forall|j: int| 0 <= j < 16 ==> -16383 <= #[trigger] b[j] <= 16383,
        a[14] == b[14],
        a[15] == b[15],
    ensures
        lane_distance(a, b) >= 0,
        lane_distance(a, b) == 0 <==> forall|j: int| 0 <= j < 14 ==> a[j] == b[j],
        forall|i: int|
            0 <= i < 14 && (forall|j: int| 0 <= j < 14 && j != i ==> a[j] == b[j])
                ==> lane_distance(a, b) == (#[trigger] a[i] - b[i]) * (a[i] - b[i]),
{
    lemma_lanes_are_euclidean(a, b);
    lemma_distance_zero(a, b);
    assert forall|i: int|
        0 <= i < 14 && (forall|j: int| 0 <= j < 14 && j != i ==> a[j] == b[j]) implies lane_distance(
        a,
        b,
    ) == (#[trigger] a[i] - b[i]) * (a[i] - b[i]) by {
        lemma_distance_of_one_feature(a, b, i);
    }
}

/// The lanes, padding included, work in pairs: where all other lanes agree, a pair gives the
/// squares of its two differences, each taken in sixteen bits. Only two differences of -32768
/// wrap round to the least number of thirty-two bits.
pub proof fn lemma_lanes_of_one_pair(a: Seq<i16>, b: Seq<i16>, j: int, lo: int, hi: int)
    requires
        0 <= j < 8,
        forall|i: int| 0 <= i < 16 && i != 2 * j && i != 2 * j + 1 ==> a[i] == b[i],
        -32768 <= lo <= 32767,
        -32768 <= hi <= 32767,
        (a[2 * j] - b[2 * j] - lo) % 65536 == 0,
        (a[2 * j + 1] - b[2 * j + 1] - hi) % 65536 == 0,
    ensures
        lane_distance(a, b) == if lo == -32768 && hi == -32768 {
            -2147483648
        } else {
            lo * lo + hi * hi
        },
{
    let pairs = lane_pairs(a, b);
    assert(square(0) == 0) by (nonlinear_arith);
    assert forall|k: int| 0 <= k < 8 && k != j implies #[trigger] pairs[k] == 0 by {
        assert(a[2 * k] == b[2 * k] && a[2 * k + 1] == b[2 * k + 1]);
    }
    assert(a[2 * j].wrapping_sub(b[2 * j]) == lo);
    assert(a[2 * j + 1].wrapping_sub(b[2 * j + 1]) == hi);
    lemma_square_bound(lo);
    lemma_square_bound(hi);
    assert(pairs[j] == lane_pair(a, b, j));
    lemma_lane_distance_bound(a, b);
    reveal_with_fuel(total, 9);
    assert(total(pairs, 8) == pairs[0] + pairs[1] + pairs[2] + pairs[3] + pairs[4] + pairs[5]
        + pairs[6] + pairs[7]);
}

/// Pairs of lanes count separately: a vector that takes each pair from one of two others splits
/// their lane distance.
pub proof fn lemma_lanes_split(a: Seq<i16>, b: Seq<i16>, c: Seq<i16>)
    requires
        forall|j: int|
            #![trigger c[2 * j]]
            0 <= j < 8 ==> (c[2 * j] == a[2 * j] && c[2 * j + 1] == a[2 * j + 1]) || (c[2 * j]
                == b[2 * j] && c[2 * j + 1] == b[2 * j + 1]),
    ensures
        lane_distance(a, b) == lane_distance(a, c) + lane_distance(c, b),
{
    let ab = lane_pairs(a, b);
    let ac = lane_pairs(a, c);
    let cb = lane_pairs(c, b);
    assert(square(0) == 0) by (nonlinear_arith);
    assert forall|j: int| 0 <= j < 8 implies #[trigger] ab[j] == ac[j] + cb[j] by {
        assert(c[2 * j] == c[2 * j]);
    }
    lemma_lane_distance_bound(a, b);
    lemma_lane_distance_bound(a, c);
    lemma_lane_distance_bound(c, b);
    reveal_with_fuel(total, 9);
    assert(ab[0] == ac[0] + cb[0] && ab[1] == ac[1] + cb[1] && ab[2] == ac[2] + cb[2] && ab[3]
        == ac[3] + cb[3]);
    assert(ab[4] == ac[4] + cb[4] && ab[5] == ac[5] + cb[5] && ab[6] == ac[6] + cb[6] && ab[7]
        == ac[7] + cb[7]);
}

/// The squared Euclidean distance over the fourteen features.
pub fn dist_sq(a: &[i16; 16], b: &[i16; 16]) -> (s: i64)
    ensures
        s == euclidean(a@, b@, DIM as nat),
{
    let mut s: i64 = 0;
    let mut i: usize = 0;
    while i < DIM
        invariant
            i <= DIM,
            s == euclidean(a@, b@, i as nat),
            0 <= s <= 0x1_0000_0000 * i,
        decreases DIM - i,
    {
        let d: i64 = a[i] as i64 - b[i] as i64;
        assert(0 <= d * d <= 0x1_0000_0000) by (nonlinear_arith)
            requires
                -0xffff <= d <= 0xffff,
        ;
        s += d * d;
        i += 1;
    }
    s
}

/// Adds eight thirty-two-bit lanes in sixty-four bits.
pub fn hsum_epi32_to_i64(v: &[i32; 8]) -> (sum: i64)
    ensures
        sum == total(v@, 8),
        sum == v@[0] + v@[1] + v@[2] + v@[3] + v@[4] + v@[5] + v@[6] + v@[7],
{
    let mut sum: i64 = 0;
    let mut i: usize = 0;
    while i < 8
        invariant
            i <= 8,
            sum == total(v@, i as nat),
            -0x8000_0000 * i <= sum <= 0x7fff_ffff * i,
        decreases 8 - i,
    {
        sum += v[i] as i64;
        i += 1;
    }
    proof {
        reveal_with_fuel(total, 9);
    }
    sum
}

/// The distance of two vectors as the sixteen lanes of a vector unit compute it:
/// sixteen-bit differences, pairs of squares in thirty-two bits, a total in
/// sixty-four.
pub fn dist_sq_avx2(a: &[i16; 16], b: &[i16; 16]) -> (s: i64)
    ensures
        s == lane_distance(a@, b@),
{
    let mut sq: [i32; 8] = [0; 8];
    let mut j: usize = 0;
    while j < 8
        invariant
            j <= 8,
            forall|i: int| 0 <= i < j ==> sq@[i] == lane_pair(a@, b@, i),
        decreases 8 - j,
    {
        let lo: i32 = a[2 * j].wrapping_sub(b[2 * j]) as i32;
        let hi: i32 = a[2 * j + 1].wrapping_sub(b[2 * j + 1]) as i32;
        proof {
            lemma_square_bound(lo as int);
            lemma_square_bound(hi as int);
            assert(square(lo as int) == lo * lo);
            assert(square(hi as int) == hi * hi);
            assert(square(-0x8000) == 0x4000_0000) by (nonlinear_arith);
        }
        sq[j] = (lo * lo).wrapping_add(hi * hi);
        j += 1;
    }
    proof {
        assert(sq@ =~= lane_pairs(a@, b@));
        lemma_lane_distance_bound(a@, b@);
    }
    hsum_epi32_to_i64(&sq)
}

} // verus!
