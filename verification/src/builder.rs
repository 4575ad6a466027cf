//! Builds an index: groups the vectors into clusters by k-means and writes them cluster by
//! cluster.
use crate::distance;
use crate::division;
use crate::layout;
use crate::layout::Contents;
use crate::ranking;
use crate::search;
use rayon::iter::{IntoParallelIterator, IntoParallelRefIterator, ParallelIterator};
use vstd::prelude::*;
use vstd::string::*;

verus! {

/// The number of clusters.
pub const NLIST: usize = 1024;

/// The number of probes that the header of an index asks for.
pub const DEFAULT_PROBES: u32 = 50;

/// The largest number of rounds of k-means.
pub const KMEANS_ITERS: usize = 15;

/// The number that the random numbers start from.
pub const SEED: u64 = 0xdeadbeef_cafebabe;

/// The factor of the random numbers.
pub const MULTIPLIER: u64 = 6364136223846793005;

/// The summand of the random numbers.
pub const INCREMENT: u64 = 1442695040888963407;

/// The vectors as sequences of lanes.
pub open spec fn rows(v: Seq<[i16; 16]>) -> Seq<Seq<i16>> {
    Seq::new(v.len(), |i: int| v[i]@)
}

/// The random number behind `s`.
pub open spec fn lcg_next(s: u64) -> u64 {
    s.wrapping_mul(MULTIPLIER).wrapping_add(INCREMENT)
}

/// The random number that is drawn in turn `j`, counted from one.
pub open spec fn draw(j: int) -> u64
    decreases j,
{
    if j <= 0 {
        SEED
    } else {
        lcg_next(draw(j - 1))
    }
}

/// The vector among `n` that cluster `i` of `k` starts from: the first is any, and each other
/// one is any of its own stretch of vectors.
pub open spec fn seed_place(n: int, k: int, i: int) -> int {
    let any = draw(i + 1) as usize as int;
    let stride = n / k;
    if i == 0 {
        any % n
    } else {
        (any % (if stride > 0 {
            stride
        } else {
            1
        }) + i * stride) % n
    }
}

/// The centroids that k-means starts from.
pub open spec fn seeds(vectors: Seq<Seq<i16>>, k: int) -> Seq<Seq<i16>> {
    Seq::new(k as nat, |i: int| vectors[seed_place(vectors.len() as int, k, i)])
}

/// The squared Euclidean distance of two vectors.
pub open spec fn apart(a: Seq<i16>, b: Seq<i16>) -> int {
    distance::euclidean(a, b, distance::DIM as nat)
}

/// The centroid nearest to `v`, the first of them where several are.
pub open spec fn closest(v: Seq<i16>, centroids: Seq<Seq<i16>>) -> int
    decreases centroids.len(),
{
    if centroids.len() <= 1 {
        0
    } else {
        let best = closest(v, centroids.drop_last());
        if apart(v, centroids.last()) < apart(v, centroids[best]) {
            centroids.len() - 1
        } else {
            best
        }
    }
}

/// The cluster of each vector.
pub open spec fn assigned(vectors: Seq<Seq<i16>>, centroids: Seq<Seq<i16>>) -> Seq<u32> {
    Seq::new(vectors.len(), |i: int| closest(vectors[i], centroids) as u32)
}

/// How many of the first `n` vectors are in cluster `c`.
pub open spec fn cluster_size(assignments: Seq<u32>, c: int, n: int) -> int
    decreases n,
{
    if n <= 0 {
        0
    } else {
        cluster_size(assignments, c, n - 1) + if assignments[n - 1] == c {
            1int
        } else {
            0
        }
    }
}

/// Lane `d` added up over those of the first `n` vectors that are in cluster `c`.
pub open spec fn cluster_sum(
    vectors: Seq<Seq<i16>>,
    assignments: Seq<u32>,
    c: int,
    d: int,
    n: int,
) -> int
    decreases n,
{
    if n <= 0 {
        0
    } else {
        cluster_sum(vectors, assignments, c, d, n - 1) + if assignments[n - 1] == c {
            vectors[n - 1][d] as int
        } else {
            0
        }
    }
}

/// The mean of cluster `c`, rounded toward zero. The padding keeps the lanes of `old`, and a
/// cluster without vectors keeps all of them.
pub open spec fn mean(vectors: Seq<Seq<i16>>, assignments: Seq<u32>, old: Seq<i16>, c: int) -> Seq<
    i16,
> {
    let n = vectors.len() as int;
    let size = cluster_size(assignments, c, n);
    Seq::new(
        16,
        |d: int|
            if size > 0 && d < distance::DIM {
                division::quotient(cluster_sum(vectors, assignments, c, d, n), size) as i16
            } else {
                old[d]
            },
    )
}

/// The means of all clusters.
pub open spec fn means(
    vectors: Seq<Seq<i16>>,
    assignments: Seq<u32>,
    centroids: Seq<Seq<i16>>,
) -> Seq<Seq<i16>> {
    Seq::new(centroids.len(), |c: int| mean(vectors, assignments, centroids[c], c))
}

/// In how many of their first `n` places two assignments differ.
pub open spec fn differences(a: Seq<u32>, b: Seq<u32>, n: int) -> int
    decreases n,
{
    if n <= 0 {
        0
    } else {
        differences(a, b, n - 1) + if a[n - 1] != b[n - 1] {
            1int
        } else {
            0
        }
    }
}

/// Fewer than one vector in two thousand changed its cluster.
pub open spec fn settled(changes: int, n: int) -> bool {
    changes * 2000 < n
}

/// The centroids after at most `iters` rounds of k-means: each round assigns every vector to
/// its nearest centroid and moves each centroid to the mean of its cluster, and the last is
/// the first that settles.
pub open spec fn kmeans(
    vectors: Seq<Seq<i16>>,
    centroids: Seq<Seq<i16>>,
    before: Seq<u32>,
    iters: nat,
) -> Seq<Seq<i16>>
    decreases iters,
{
    if iters == 0 {
        centroids
    } else {
        let after = assigned(vectors, centroids);
        let moved = means(vectors, after, centroids);
        if settled(differences(before, after, vectors.len() as int), vectors.len() as int) {
            moved
        } else {
            kmeans(vectors, moved, after, (iters - 1) as nat)
        }
    }
}

/// `closest` is the first of the nearest centroids.
pub proof fn lemma_closest(v: Seq<i16>, centroids: Seq<Seq<i16>>)
    requires
        centroids.len() > 0,
    ensures
        ({
            let best = closest(v, centroids);
            &&& 0 <= best < centroids.len()
            &&& forall|c: int|
                0 <= c < centroids.len() ==> apart(v, centroids[best]) <= apart(
                    v,
                    #[trigger] centroids[c],
                )
            &&& forall|c: int|
                0 <= c < best ==> apart(v, centroids[best]) < apart(v, #[trigger] centroids[c])
        }),
    decreases centroids.len(),
{
    if centroids.len() > 1 {
        let init = centroids.drop_last();
        lemma_closest(v, init);
        assert forall|c: int| 0 <= c < init.len() implies init[c] == #[trigger] centroids[c] by {}
    }
}

/// Draws a random number.
pub fn lcg(s: &mut u64) -> (r: u64)
    ensures
        *final(s) == lcg_next(*old(s)),
        r == *final(s),
{
    *s = s.wrapping_mul(MULTIPLIER).wrapping_add(INCREMENT);
    *s
}

/// Picks the centroids that k-means starts from.
pub fn initial_centroids(vectors: &[[i16; 16]], k: usize) -> (centroids: Vec<[i16; 16]>)
    requires
        vectors@.len() > 0,
        k > 0,
    ensures
        rows(centroids@) == seeds(rows(vectors@), k as int),
{
    let n = vectors.len();
    let mut rng: u64 = SEED;
    let mut centroids: Vec<[i16; 16]> = Vec::new();
    let first = lcg(&mut rng) as usize % n;
    assert(draw(1) == rng) by {
        reveal_with_fuel(draw, 2);
    }
    centroids.push(vectors[first]);
    let stride = n / k;
    let mut i: usize = 1;
    while i < k
        invariant
            1 <= i <= k,
            n == vectors@.len(),
            n > 0,
            stride == n / k,
            rng == draw(i as int),
            centroids@.len() == i,
            forall|j: int|
                0 <= j < i ==> #[trigger] centroids@[j] == vectors@[seed_place(
                    n as int,
                    k as int,
                    j,
                )],
        decreases k - i,
    {
        assert(i * stride + stride <= n) by (nonlinear_arith)
            requires
                i < k,
                stride == n / k,
                0 < k,
        ;
        let any = lcg(&mut rng) as usize;
        let step = if stride > 0 {
            stride
        } else {
            1
        };
        let offset = any % step + i * stride;
        centroids.push(vectors[offset % n]);
        i += 1;
    }
    proof {
        assert forall|j: int| 0 <= j < k implies 0 <= #[trigger] seed_place(
            n as int,
            k as int,
            j,
        ) < n by {}
        assert(rows(centroids@) =~= seeds(rows(vectors@), k as int));
    }
    centroids
}

/// The centroid nearest to `v`.
pub fn nearest_centroid(v: &[i16; 16], centroids: &[[i16; 16]]) -> (best: u32)
    requires
        centroids@.len() <= u32::MAX,
    ensures
        best == closest(v@, rows(centroids@)),
{
    let mut best: usize = 0;
    let mut c: usize = 1;
    if centroids.len() == 0 {
        return 0;
    }
    let mut best_d: i64 = distance::dist_sq(v, &centroids[0]);
    let ghost all = rows(centroids@);
    assert(all.take(1).len() == 1);
    while c < centroids.len()
        invariant
            1 <= c <= centroids@.len(),
            all == rows(centroids@),
            best < c,
            best == closest(v@, all.take(c as int)),
            best_d == apart(v@, all[best as int]),
        decreases centroids@.len() - c,
    {
        let d = distance::dist_sq(v, &centroids[c]);
        proof {
            let more = all.take(c + 1);
            assert(more.drop_last() =~= all.take(c as int));
            assert(more[best as int] == all[best as int]);
        }
        if d < best_d {
            best_d = d;
            best = c;
        }
        c += 1;
    }
    assert(all.take(c as int) =~= all);
    best as u32
}

/// Assigns every vector to its nearest centroid, with all threads of `rayon`:
/// `IntoParallelRefIterator::par_iter`, `ParallelIterator::map` and
/// `ParallelIterator::collect` into a `Vec` hand each item to the closure once and keep the
/// results in the order of the items.
#[verifier::external_body]
fn assign_all(vectors: &[[i16; 16]], centroids: &[[i16; 16]]) -> (assignments: Vec<u32>)
    requires
        centroids@.len() <= u32::MAX,
    ensures
        assignments@ == assigned(rows(vectors@), rows(centroids@)),
{
    vectors.par_iter().map(|v| nearest_centroid(v, centroids)).collect()
}

/// Counts the places in which two assignments of the same length differ.
pub fn count_changes(a: &[u32], b: &[u32]) -> (changes: usize)
    requires
        a@.len() == b@.len(),
    ensures
        changes == differences(a@, b@, a@.len() as int),
{
    let mut changes: usize = 0;
    let mut i: usize = 0;
    while i < a.len()
        invariant
            i <= a@.len() == b@.len(),
            changes == differences(a@, b@, i as int),
            changes <= i,
        decreases a@.len() - i,
    {
        if a[i] != b[i] {
            changes += 1;
        }
        i += 1;
    }
    changes
}

/// The sum of a lane over a cluster stays within the range of a lane times its size.
proof fn lemma_sum_bound(vectors: Seq<Seq<i16>>, assignments: Seq<u32>, c: int, d: int, n: int)
    requires
        n >= 0,
    ensures
        0 <= cluster_size(assignments, c, n) <= n,
        -0x8000 * cluster_size(assignments, c, n) <= cluster_sum(vectors, assignments, c, d, n)
            <= 0x7fff * cluster_size(assignments, c, n),
    decreases n,
{
    if n > 0 {
        lemma_sum_bound(vectors, assignments, c, d, n - 1);
    }
}

/// The mean of numbers of sixteen bits is one too.
proof fn lemma_mean_bound(sum: int, size: int)
    requires
        size > 0,
        -0x8000 * size <= sum <= 0x7fff * size,
    ensures
        -0x8000 <= division::quotient(sum, size) <= 0x7fff,
{
    if sum >= 0 {
        assert(0 <= sum / size <= 0x7fff) by (nonlinear_arith)
            requires
                size > 0,
                0 <= sum <= 0x7fff * size,
        ;
    } else {
        assert(0 <= (-sum) / size <= 0x8000) by (nonlinear_arith)
            requires
                size > 0,
                0 <= -sum <= 0x8000 * size,
        ;
    }
}

/// The sums and sizes of the clusters over the vectors from place `from` up to place `to`.
spec fn tallied(
    vectors: Seq<Seq<i16>>,
    assignments: Seq<u32>,
    from: int,
    to: int,
    sums: Seq<[i64; 16]>,
    counts: Seq<u32>,
) -> bool {
    &&& sums.len() == counts.len()
    &&& forall|c: int|
        0 <= c < counts.len() ==> #[trigger] counts[c] == cluster_size(assignments, c, to)
            - cluster_size(assignments, c, from)
    &&& forall|c: int, d: int|
        0 <= c < sums.len() && 0 <= d < distance::DIM ==> #[trigger] sums[c]@[d] == cluster_sum(
            vectors,
            assignments,
            c,
            d,
            to,
        ) - cluster_sum(vectors, assignments, c, d, from)
}

/// How many of `n` vectors each of so many threads takes at most.
pub open spec fn chunk_len(n: int, threads: int) -> int {
    (n + threads - 1) / threads
}

/// Where the vectors of thread `t` begin, and those of the thread before it end.
pub open spec fn chunk_start(n: int, threads: int, t: int) -> int {
    let start = t * chunk_len(n, threads);
    if start < n {
        start
    } else {
        n
    }
}

/// The vectors of the threads lie one behind the other and make up all vectors.
proof fn lemma_chunks(n: int, threads: int, t: int)
    requires
        0 <= n,
        0 <= t < threads,
    ensures
        chunk_start(n, threads, 0) == 0,
        chunk_start(n, threads, threads) == n,
        0 <= chunk_start(n, threads, t) <= chunk_start(n, threads, t + 1) <= n,
{
    let len = chunk_len(n, threads);
    assert(0 * len == 0);
    assert(threads * len >= n && len >= 0) by (nonlinear_arith)
        requires
            0 <= n,
            0 < threads,
            len == (n + threads - 1) / threads,
    ;
    assert((t + 1) * len == t * len + len && t * len >= 0) by (nonlinear_arith)
        requires
            0 <= t,
            0 <= len,
    ;
}

/// Where the vectors of thread `t` begin.
fn chunk_at(n: usize, threads: usize, t: usize) -> (at: usize)
    requires
        0 < threads,
        t <= threads,
    ensures
        at == chunk_start(n as int, threads as int, t as int),
{
    let len: u128 = (n as u128 + threads as u128 - 1) / threads as u128;
    assert(len <= n) by (nonlinear_arith)
        requires
            0 <= n,
            0 < threads,
            len == (n + threads - 1) / threads as int,
    ;
    assert(t * len <= u128::MAX) by (nonlinear_arith)
        requires
            0 <= t <= u64::MAX,
            0 <= len <= u64::MAX,
    ;
    let start: u128 = t as u128 * len;
    if start < n as u128 {
        start as usize
    } else {
        n
    }
}

/// Adds the vectors of each of `k` clusters up, and counts them, over those vectors that
/// thread `t` takes.
fn tally_chunk(
    vectors: &[[i16; 16]],
    assignments: &Vec<u32>,
    k: usize,
    threads: usize,
    t: usize,
) -> (part: (Vec<[i64; 16]>, Vec<u32>))
    requires
        assignments@.len() == vectors@.len(),
        vectors@.len() <= u32::MAX,
        forall|i: int| 0 <= i < assignments@.len() ==> #[trigger] assignments@[i] < k,
        t < threads,
    ensures
        part.1@.len() == k,
        tallied(
            rows(vectors@),
            assignments@,
            chunk_start(vectors@.len() as int, threads as int, t as int),
            chunk_start(vectors@.len() as int, threads as int, t + 1),
            part.0@,
            part.1@,
        ),
{
    let n = vectors.len();
    let ghost all = rows(vectors@);
    let start = chunk_at(n, threads, t);
    let end = chunk_at(n, threads, t + 1);
    proof {
        lemma_chunks(n as int, threads as int, t as int);
    }
    let mut sums: Vec<[i64; 16]> = vec![[0; 16]; k];
    let mut counts: Vec<u32> = vec![0; k];
    let mut i: usize = start;
    while i < end
        invariant
            start <= i <= end <= n == vectors@.len(),
            n <= u32::MAX,
            all == rows(vectors@),
            assignments@.len() == n,
            forall|i: int| 0 <= i < assignments@.len() ==> #[trigger] assignments@[i] < k,
            counts@.len() == k,
            tallied(all, assignments@, start as int, i as int, sums@, counts@),
        decreases end - i,
    {
        let c = assignments[i] as usize;
        proof {
            lemma_sum_bound(all, assignments@, c as int, 0, i as int);
            lemma_sum_bound(all, assignments@, c as int, 0, start as int);
        }
        let ghost sums0 = sums@;
        counts[c] = counts[c] + 1;
        let v = vectors[i];
        let mut d: usize = 0;
        while d < distance::DIM
            invariant
                d <= distance::DIM,
                start <= i < n == vectors@.len(),
                n <= u32::MAX,
                all == rows(vectors@),
                v == vectors@[i as int],
                c < k,
                c == assignments@[i as int],
                sums@.len() == sums0.len() == k,
                forall|b: int, e: int|
                    0 <= b < sums0.len() && 0 <= e < distance::DIM ==> #[trigger] sums0[b]@[e]
                        == cluster_sum(all, assignments@, b, e, i as int) - cluster_sum(
                        all,
                        assignments@,
                        b,
                        e,
                        start as int,
                    ),
                forall|b: int| 0 <= b < k && b != c ==> #[trigger] sums@[b] == sums0[b],
                forall|e: int|
                    0 <= e < d ==> #[trigger] sums@[c as int]@[e] == sums0[c as int]@[e]
                        + all[i as int][e],
                forall|e: int|
                    d <= e < 16 ==> #[trigger] sums@[c as int]@[e] == sums0[c as int]@[e],
            decreases distance::DIM - d,
        {
            proof {
                lemma_sum_bound(all, assignments@, c as int, d as int, i as int);
                lemma_sum_bound(all, assignments@, c as int, d as int, start as int);
                assert(sums0[c as int]@[d as int] == cluster_sum(
                    all,
                    assignments@,
                    c as int,
                    d as int,
                    i as int,
                ) - cluster_sum(all, assignments@, c as int, d as int, start as int));
            }
            sums[c][d] = sums[c][d] + v[d] as i64;
            d += 1;
        }
        i += 1;
    }
    (sums, counts)
}

/// `rayon::current_num_threads` gives the number of threads of the pool, which depends on the
/// machine and is never zero.
pub assume_specification[ rayon::current_num_threads ]() -> (threads: usize)
    ensures
        threads > 0,
;

/// Tallies the vectors of each thread, with all threads of `rayon`:
/// `IntoParallelIterator::into_par_iter` on a range, `ParallelIterator::map` and
/// `ParallelIterator::collect` into a `Vec` hand each number of the range to the closure once
/// and keep the results in the order of the numbers.
#[verifier::external_body]
fn tally_chunks(
    vectors: &[[i16; 16]],
    assignments: &Vec<u32>,
    k: usize,
    threads: usize,
) -> (parts: Vec<(Vec<[i64; 16]>, Vec<u32>)>)
    requires
        assignments@.len() == vectors@.len(),
        vectors@.len() <= u32::MAX,
        forall|i: int| 0 <= i < assignments@.len() ==> #[trigger] assignments@[i] < k,
    ensures
        parts@.len() == threads,
        forall|t: int|
            0 <= t < threads ==> (#[trigger] parts@[t]).1@.len() == k && tallied(
                rows(vectors@),
                assignments@,
                chunk_start(vectors@.len() as int, threads as int, t),
                chunk_start(vectors@.len() as int, threads as int, t + 1),
                parts@[t].0@,
                parts@[t].1@,
            ),
{
    (0..threads)
        .into_par_iter()
        .map(|t| tally_chunk(vectors, assignments, k, threads, t))
        .collect()
}

/// Adds the tally of the vectors up to place `to` to that of the vectors before them.
fn add_part(
    sums: &mut Vec<[i64; 16]>,
    counts: &mut Vec<u32>,
    part: &(Vec<[i64; 16]>, Vec<u32>),
    Ghost(vectors): Ghost<Seq<Seq<i16>>>,
    Ghost(assignments): Ghost<Seq<u32>>,
    Ghost(from): Ghost<int>,
    Ghost(to): Ghost<int>,
)
    requires
        0 <= from <= to <= u32::MAX,
        part.1@.len() == old(counts)@.len(),
        tallied(vectors, assignments, 0, from, old(sums)@, old(counts)@),
        tallied(vectors, assignments, from, to, part.0@, part.1@),
    ensures
        final(counts)@.len() == old(counts)@.len(),
        tallied(vectors, assignments, 0, to, final(sums)@, final(counts)@),
{
    let k = counts.len();
    let ghost sums0 = sums@;
    let ghost counts0 = counts@;
    let mut c: usize = 0;
    while c < k
        invariant
            c <= k == counts@.len() == sums@.len() == counts0.len() == sums0.len(),
            k == part.0@.len() == part.1@.len(),
            0 <= from <= to <= u32::MAX,
            tallied(vectors, assignments, 0, from, sums0, counts0),
            tallied(vectors, assignments, from, to, part.0@, part.1@),
            forall|b: int|
                0 <= b < c ==> #[trigger] counts@[b] == cluster_size(assignments, b, to),
            forall|b: int, e: int|
                0 <= b < c && 0 <= e < distance::DIM ==> #[trigger] sums@[b]@[e] == cluster_sum(
                    vectors,
                    assignments,
                    b,
                    e,
                    to,
                ),
            forall|b: int| c <= b < k ==> #[trigger] counts@[b] == counts0[b],
            forall|b: int| c <= b < k ==> #[trigger] sums@[b] == sums0[b],
        decreases k - c,
    {
        proof {
            lemma_sum_bound(vectors, assignments, c as int, 0, to);
        }
        counts[c] = counts[c] + part.1[c];
        let more = part.0[c];
        let mut row = sums[c];
        let mut d: usize = 0;
        while d < distance::DIM
            invariant
                d <= distance::DIM,
                c < k == sums0.len() == part.0@.len(),
                more == part.0@[c as int],
                0 <= from <= to <= u32::MAX,
                tallied(vectors, assignments, 0, from, sums0, counts0),
                tallied(vectors, assignments, from, to, part.0@, part.1@),
                forall|e: int|
                    0 <= e < d ==> #[trigger] row@[e] == cluster_sum(
                        vectors,
                        assignments,
                        c as int,
                        e,
                        to,
                    ),
                forall|e: int| d <= e < 16 ==> #[trigger] row@[e] == sums0[c as int]@[e],
            decreases distance::DIM - d,
        {
            proof {
                lemma_sum_bound(vectors, assignments, c as int, d as int, to);
                assert(part.0@[c as int]@[d as int] == cluster_sum(
                    vectors,
                    assignments,
                    c as int,
                    d as int,
                    to,
                ) - cluster_sum(vectors, assignments, c as int, d as int, from));
                assert(sums0[c as int]@[d as int] == cluster_sum(
                    vectors,
                    assignments,
                    c as int,
                    d as int,
                    from,
                ));
            }
            row[d] = row[d] + more[d];
            d += 1;
        }
        sums[c] = row;
        c += 1;
    }
}

/// Adds the vectors of each of `k` clusters up, and counts them: each thread tallies its
/// share, and the shares are added.
fn tally(vectors: &[[i16; 16]], assignments: &Vec<u32>, k: usize) -> (r: (Vec<[i64; 16]>, Vec<u32>))
    requires
        assignments@.len() == vectors@.len(),
        vectors@.len() <= u32::MAX,
        forall|i: int| 0 <= i < assignments@.len() ==> #[trigger] assignments@[i] < k,
    ensures
        r.1@.len() == k,
        tallied(rows(vectors@), assignments@, 0, vectors@.len() as int, r.0@, r.1@),
{
    let ghost n = vectors@.len() as int;
    let ghost all = rows(vectors@);
    let threads = rayon::current_num_threads();
    let parts = tally_chunks(vectors, assignments, k, threads);
    let mut sums: Vec<[i64; 16]> = vec![[0; 16]; k];
    let mut counts: Vec<u32> = vec![0; k];
    let mut t: usize = 0;
    proof {
        lemma_chunks(n, threads as int, 0);
    }
    while t < threads
        invariant
            t <= threads == parts@.len(),
            0 <= n <= u32::MAX,
            counts@.len() == k,
            forall|t: int|
                0 <= t < threads ==> (#[trigger] parts@[t]).1@.len() == k && tallied(
                    all,
                    assignments@,
                    chunk_start(n, threads as int, t),
                    chunk_start(n, threads as int, t + 1),
                    parts@[t].0@,
                    parts@[t].1@,
                ),
            tallied(
                all,
                assignments@,
                0,
                chunk_start(n, threads as int, t as int),
                sums@,
                counts@,
            ),
        decreases threads - t,
    {
        proof {
            lemma_chunks(n, threads as int, t as int);
        }
        add_part(
            &mut sums,
            &mut counts,
            &parts[t],
            Ghost(all),
            Ghost(assignments@),
            Ghost(chunk_start(n, threads as int, t as int)),
            Ghost(chunk_start(n, threads as int, t + 1)),
        );
        t += 1;
    }
    (sums, counts)
}

/// Moves each centroid to the mean of its cluster.
pub fn recenter(vectors: &[[i16; 16]], assignments: &Vec<u32>, centroids: &mut Vec<[i16; 16]>)
    requires
        assignments@.len() == vectors@.len(),
        vectors@.len() <= u32::MAX,
        forall|i: int|
            0 <= i < assignments@.len() ==> #[trigger] assignments@[i] < old(centroids)@.len(),
    ensures
        rows(final(centroids)@) == means(rows(vectors@), assignments@, rows(old(centroids)@)),
{
    let k = centroids.len();
    let (sums, counts) = tally(vectors, assignments, k);
    let ghost all = rows(vectors@);
    let ghost n = vectors@.len() as int;
    let ghost cents0 = centroids@;
    let mut c: usize = 0;
    while c < k
        invariant
            c <= k == centroids@.len() == cents0.len(),
            counts@.len() == k,
            all == rows(vectors@),
            n == all.len(),
            tallied(all, assignments@, 0, n, sums@, counts@),
            forall|b: int|
                0 <= b < c ==> (#[trigger] centroids@[b])@ == mean(
                    all,
                    assignments@,
                    cents0[b]@,
                    b,
                ),
            forall|b: int| c <= b < k ==> #[trigger] centroids@[b] == cents0[b],
        decreases k - c,
    {
        let count = counts[c];
        let mut cent = centroids[c];
        if count > 0 {
            let mut d: usize = 0;
            while d < distance::DIM
                invariant
                    d <= distance::DIM,
                    c < k == counts@.len(),
                    count == counts@[c as int],
                    count > 0,
                    n == all.len(),
                    tallied(all, assignments@, 0, n, sums@, counts@),
                    forall|e: int|
                        0 <= e < d ==> #[trigger] cent@[e] == mean(
                            all,
                            assignments@,
                            cents0[c as int]@,
                            c as int,
                        )[e],
                    forall|e: int| d <= e < 16 ==> #[trigger] cent@[e] == cents0[c as int]@[e],
                decreases distance::DIM - d,
            {
                let sum = sums[c][d];
                proof {
                    lemma_sum_bound(all, assignments@, c as int, d as int, n);
                    assert(sum == cluster_sum(all, assignments@, c as int, d as int, n));
                    lemma_mean_bound(sum as int, count as int);
                }
                cent[d] = (sum / count as i64) as i16;
                d += 1;
            }
        }
        assert(cent@ =~= mean(all, assignments@, cents0[c as int]@, c as int));
        centroids[c] = cent;
        c += 1;
    }
    assert(rows(centroids@) =~= means(all, assignments@, rows(cents0)));
}

/// Groups the vectors into `k` clusters, in at most `iters` rounds of k-means, and returns the
/// centroids.
pub fn kmeans_parallel(vectors: &[[i16; 16]], k: usize, iters: usize) -> (centroids: Vec<[i16; 16]>)
    requires
        0 < vectors@.len() <= u32::MAX,
        0 < k <= u32::MAX,
    ensures
        rows(centroids@) == kmeans(
            rows(vectors@),
            seeds(rows(vectors@), k as int),
            Seq::new(vectors@.len(), |i: int| 0u32),
            iters as nat,
        ),
        centroids@.len() == k,
{
    let n = vectors.len();
    let ghost all = rows(vectors@);
    let mut centroids = initial_centroids(vectors, k);
    let mut assignments: Vec<u32> = vec![0; n];
    let ghost goal = kmeans(
        all,
        seeds(all, k as int),
        Seq::new(vectors@.len(), |i: int| 0u32),
        iters as nat,
    );
    assert(rows(centroids@).len() == k);
    assert(assignments@ =~= Seq::new(vectors@.len(), |i: int| 0u32));
    let mut iter: usize = 0;
    while iter < iters
        invariant
            iter <= iters,
            n == vectors@.len(),
            0 < n <= u32::MAX,
            0 < k <= u32::MAX,
            all == rows(vectors@),
            centroids@.len() == k,
            assignments@.len() == n,
            goal == kmeans(
                all,
                seeds(all, k as int),
                Seq::new(vectors@.len(), |i: int| 0u32),
                iters as nat,
            ),
            goal == kmeans(all, rows(centroids@), assignments@, (iters - iter) as nat),
        decreases iters - iter,
    {
        let new_assignments = assign_all(vectors, centroids.as_slice());
        let changes = count_changes(assignments.as_slice(), new_assignments.as_slice());
        let ghost before = rows(centroids@);
        assignments = new_assignments;
        proof {
            assert forall|i: int| 0 <= i < n implies #[trigger] assignments@[i] < k by {
                lemma_closest(all[i], before);
            }
        }
        recenter(vectors, &assignments, &mut centroids);
        assert(rows(centroids@).len() == k);
        if (changes as u128) * 2000 < n as u128 {
            return centroids;
        }
        iter += 1;
    }
    centroids
}

/// How many of the first `n` vectors are in clusters before `c`.
pub open spec fn below(assignments: Seq<u32>, c: int, n: int) -> int
    decreases n,
{
    if n <= 0 {
        0
    } else {
        below(assignments, c, n - 1) + if assignments[n - 1] < c {
            1int
        } else {
            0
        }
    }
}

/// `order` lists all vectors, each once, cluster by cluster: every vector stands in the
/// stretch that its cluster takes up.
pub open spec fn grouped(order: Seq<int>, assignments: Seq<u32>) -> bool {
    let n = assignments.len() as int;
    &&& ranking::permutes(order, n)
    &&& forall|p: int|
        0 <= p < n ==> {
            let c = assignments[#[trigger] order[p]] as int;
            below(assignments, c, n) <= p < below(assignments, c + 1, n)
        }
}

/// Each cluster takes up as many places as it has vectors.
proof fn lemma_below_step(assignments: Seq<u32>, c: int, n: int)
    ensures
        below(assignments, c + 1, n) == below(assignments, c, n) + cluster_size(assignments, c, n),
        cluster_size(assignments, c, n) >= 0,
    decreases n,
{
    if n > 0 {
        lemma_below_step(assignments, c, n - 1);
    }
}

/// Later clusters come behind earlier ones.
proof fn lemma_below_grows(assignments: Seq<u32>, c: int, d: int, n: int)
    requires
        c <= d,
        n >= 0,
    ensures
        0 <= below(assignments, c, n) <= below(assignments, d, n) <= n,
    decreases n,
{
    if n > 0 {
        lemma_below_grows(assignments, c, d, n - 1);
    }
}

/// No cluster comes before the first, and all vectors come before the place behind the last.
proof fn lemma_below_ends(assignments: Seq<u32>, k: int, n: int)
    requires
        0 <= n <= assignments.len(),
        forall|i: int| 0 <= i < n ==> #[trigger] assignments[i] < k,
    ensures
        below(assignments, 0, n) == 0,
        below(assignments, k, n) == n,
    decreases n,
{
    if n > 0 {
        lemma_below_ends(assignments, k, n - 1);
        assert(assignments[n - 1] < k);
    }
}

/// A cluster only grows with the vectors.
proof fn lemma_size_grows(assignments: Seq<u32>, c: int, m: int, n: int)
    requires
        0 <= m <= n,
    ensures
        0 <= cluster_size(assignments, c, m) <= cluster_size(assignments, c, n),
    decreases n,
{
    if m < n {
        lemma_size_grows(assignments, c, m, n - 1);
    } else if n > 0 {
        lemma_size_grows(assignments, c, m - 1, n - 1);
    }
}

/// The place at which each cluster begins and, last, the number of vectors.
pub fn cluster_offsets(assignments: &Vec<u32>, nlist: usize) -> (offsets: Vec<u32>)
    requires
        assignments@.len() <= u32::MAX,
        nlist < usize::MAX,
        forall|i: int| 0 <= i < assignments@.len() ==> #[trigger] assignments@[i] < nlist,
    ensures
        offsets@.len() == nlist + 1,
        forall|c: int|
            0 <= c <= nlist ==> #[trigger] offsets@[c] == below(
                assignments@,
                c,
                assignments@.len() as int,
            ),
{
    let n = assignments.len();
    let mut offsets: Vec<u32> = vec![0; nlist + 1];
    let mut i: usize = 0;
    while i < n
        invariant
            i <= n == assignments@.len(),
            n <= u32::MAX,
            nlist < usize::MAX,
            offsets@.len() == nlist + 1,
            offsets@[0] == 0,
            forall|i: int| 0 <= i < assignments@.len() ==> #[trigger] assignments@[i] < nlist,
            forall|c: int|
                1 <= c <= nlist ==> #[trigger] offsets@[c] == cluster_size(
                    assignments@,
                    c - 1,
                    i as int,
                ),
        decreases n - i,
    {
        let c = assignments[i] as usize;
        proof {
            lemma_sum_bound(Seq::empty(), assignments@, c as int, 0, i as int);
        }
        offsets[c + 1] = offsets[c + 1] + 1;
        i += 1;
    }
    let mut c: usize = 1;
    proof {
        lemma_below_ends(assignments@, nlist as int, n as int);
    }
    while c <= nlist
        invariant
            1 <= c <= nlist + 1,
            n == assignments@.len(),
            n <= u32::MAX,
            nlist < usize::MAX,
            offsets@.len() == nlist + 1,
            forall|b: int|
                0 <= b < c ==> #[trigger] offsets@[b] == below(assignments@, b, n as int),
            forall|b: int|
                c <= b <= nlist ==> #[trigger] offsets@[b] == cluster_size(
                    assignments@,
                    b - 1,
                    n as int,
                ),
        decreases nlist + 1 - c,
    {
        proof {
            lemma_below_step(assignments@, c - 1, n as int);
            lemma_below_grows(assignments@, c as int, c as int, n as int);
        }
        offsets[c] = offsets[c] + offsets[c - 1];
        c += 1;
    }
    offsets
}

/// The places of the vectors as integers.
pub open spec fn places(order: Seq<usize>) -> Seq<int> {
    Seq::new(order.len(), |p: int| order[p] as int)
}

/// The place that vector `j` takes: behind the earlier vectors of its cluster.
spec fn slot(assignments: Seq<u32>, j: int) -> int {
    let c = assignments[j] as int;
    below(assignments, c, assignments.len() as int) + cluster_size(assignments, c, j)
}

/// A vector takes a place in the stretch of its cluster.
proof fn lemma_slot_in_stretch(assignments: Seq<u32>, j: int)
    requires
        0 <= j < assignments.len(),
    ensures
        ({
            let c = assignments[j] as int;
            let n = assignments.len() as int;
            &&& 0 <= below(assignments, c, n) <= slot(assignments, j)
            &&& slot(assignments, j) < below(assignments, c + 1, n) <= n
        }),
{
    let c = assignments[j] as int;
    let n = assignments.len() as int;
    lemma_below_step(assignments, c, n);
    lemma_below_grows(assignments, c, c + 1, n);
    lemma_size_grows(assignments, c, j, j);
    lemma_size_grows(assignments, c, j + 1, n);
}

/// Different vectors take different places.
proof fn lemma_slots_differ(assignments: Seq<u32>, i: int, j: int)
    requires
        0 <= i < assignments.len(),
        0 <= j < assignments.len(),
        i != j,
    ensures
        slot(assignments, i) != slot(assignments, j),
{
    let c = assignments[i] as int;
    let d = assignments[j] as int;
    let n = assignments.len() as int;
    lemma_slot_in_stretch(assignments, i);
    lemma_slot_in_stretch(assignments, j);
    if c < d {
        lemma_below_grows(assignments, c + 1, d, n);
    } else if d < c {
        lemma_below_grows(assignments, d + 1, c, n);
    } else if i < j {
        lemma_size_grows(assignments, c, i + 1, j);
    } else {
        lemma_size_grows(assignments, c, j + 1, i);
    }
}

/// Putting every vector in its place groups them.
proof fn lemma_slots_group(assignments: Seq<u32>, order: Seq<int>)
    requires
        order.len() == assignments.len(),
        forall|j: int| 0 <= j < order.len() ==> order[#[trigger] slot(assignments, j)] == j,
    ensures
        grouped(order, assignments),
{
    let n = assignments.len() as int;
    let slots = Seq::new(n as nat, |j: int| slot(assignments, j));
    assert forall|i: int, j: int| 0 <= i < n && 0 <= j < n && i != j implies slots[i]
        != slots[j] by {
        lemma_slots_differ(assignments, i, j);
    }
    assert forall|j: int| 0 <= j < n implies 0 <= #[trigger] slots[j] < n by {
        lemma_slot_in_stretch(assignments, j);
    }
    // Every place is taken, so a place holds the vector that takes it.
    assert forall|p: int| 0 <= p < n implies 0 <= #[trigger] order[p] < n && slot(
        assignments,
        order[p],
    ) == p by {
        ranking::lemma_pigeonhole(slots, p);
        let j = choose|j: int| 0 <= j < n && slots[j] == p;
        assert(order[slot(assignments, j)] == j);
    }
    assert forall|p: int, q: int| 0 <= p < n && 0 <= q < n && p != q implies order[p]
        != order[q] by {
        assert(slot(assignments, order[p]) == p);
        assert(slot(assignments, order[q]) == q);
    }
    assert forall|p: int| 0 <= p < n implies ({
        let c = assignments[#[trigger] order[p]] as int;
        below(assignments, c, n) <= p < below(assignments, c + 1, n)
    }) by {
        lemma_slot_in_stretch(assignments, order[p]);
    }
}

/// Orders the vectors cluster by cluster.
pub fn cluster_order(assignments: &Vec<u32>, offsets: &Vec<u32>) -> (order: Vec<usize>)
    requires
        assignments@.len() <= u32::MAX,
        offsets@.len() > 0,
        forall|i: int|
            0 <= i < assignments@.len() ==> #[trigger] assignments@[i] < offsets@.len() - 1,
        forall|c: int|
            0 <= c < offsets@.len() ==> #[trigger] offsets@[c] == below(
                assignments@,
                c,
                assignments@.len() as int,
            ),
    ensures
        grouped(places(order@), assignments@),
{
    let n = assignments.len();
    let mut next: Vec<u32> = Vec::new();
    let mut c: usize = 0;
    while c < offsets.len()
        invariant
            c <= offsets@.len(),
            next@ == offsets@.take(c as int),
        decreases offsets@.len() - c,
    {
        next.push(offsets[c]);
        assert(offsets@.take(c + 1) =~= offsets@.take(c as int).push(offsets@[c as int]));
        c += 1;
    }
    assert(next@ =~= offsets@);
    let mut order: Vec<usize> = vec![0; n];
    let mut i: usize = 0;
    while i < n
        invariant
            i <= n == assignments@.len(),
            n <= u32::MAX,
            order@.len() == n,
            next@.len() == offsets@.len(),
            forall|i: int|
                0 <= i < assignments@.len() ==> #[trigger] assignments@[i] < offsets@.len() - 1,
            forall|c: int|
                0 <= c < next@.len() ==> #[trigger] next@[c] == below(assignments@, c, n as int)
                    + cluster_size(assignments@, c, i as int),
            forall|j: int|
                0 <= j < i ==> order@[#[trigger] slot(assignments@, j)] == j,
        decreases n - i,
    {
        let c = assignments[i] as usize;
        proof {
            lemma_slot_in_stretch(assignments@, i as int);
            assert forall|j: int| 0 <= j < i implies slot(assignments@, i as int)
                != #[trigger] slot(assignments@, j) && 0 <= slot(assignments@, j) < n by {
                lemma_slots_differ(assignments@, i as int, j);
                lemma_slot_in_stretch(assignments@, j);
            }
        }
        let at = next[c] as usize;
        assert(at == slot(assignments@, i as int));
        order[at] = i;
        next[c] = next[c] + 1;
        i += 1;
    }
    proof {
        let list = places(order@);
        assert forall|j: int| 0 <= j < list.len() implies list[#[trigger] slot(assignments@, j)]
            == j by {
            lemma_slot_in_stretch(assignments@, j);
        }
        lemma_slots_group(assignments@, list);
    }
    order
}

/// Appends vectors.
fn push_vectors(out: &mut Vec<u8>, vectors: &[[i16; 16]])
    ensures
        layout::extends(old(out)@, final(out)@),
        final(out)@.len() == old(out)@.len() + 32 * vectors@.len(),
        layout::has_vectors(final(out)@, old(out)@.len() as int, rows(vectors@)),
{
    let ghost start = out@.len() as int;
    let ghost all = rows(vectors@);
    let mut i: usize = 0;
    while i < vectors.len()
        invariant
            i <= vectors@.len(),
            all == rows(vectors@),
            start == old(out)@.len(),
            out@.len() == start + 32 * i,
            layout::extends(old(out)@, out@),
            layout::has_vectors(out@, start, all.take(i as int)),
        decreases vectors@.len() - i,
    {
        let ghost before = out@;
        layout::push_vector(out, &vectors[i]);
        proof {
            layout::lemma_vectors_stay(before, out@, start, all.take(i as int));
            let more = all.take(i + 1);
            assert forall|j: int| 0 <= j < more.len() implies layout::vector_at(
                out@,
                start + 32 * j,
            ) == #[trigger] more[j] by {
                if j < i {
                    assert(all.take(i as int)[j] == more[j]);
                }
            }
        }
        i += 1;
    }
    assert(all.take(i as int) =~= all);
}

/// Appends the offsets.
fn push_offsets(out: &mut Vec<u8>, offsets: &Vec<u32>)
    ensures
        layout::extends(old(out)@, final(out)@),
        final(out)@.len() == old(out)@.len() + 4 * offsets@.len(),
        layout::has_u32s(final(out)@, old(out)@.len() as int, offsets@),
{
    let ghost start = out@.len() as int;
    let mut i: usize = 0;
    while i < offsets.len()
        invariant
            i <= offsets@.len(),
            start == old(out)@.len(),
            out@.len() == start + 4 * i,
            layout::extends(old(out)@, out@),
            layout::has_u32s(out@, start, offsets@.take(i as int)),
        decreases offsets@.len() - i,
    {
        let ghost before = out@;
        layout::push_u32(out, offsets[i]);
        proof {
            layout::lemma_u32s_stay(before, out@, start, offsets@.take(i as int));
            let more = offsets@.take(i + 1);
            assert forall|j: int| 0 <= j < more.len() implies layout::u32_at(out@, start + 4 * j)
                == #[trigger] more[j] by {
                if j < i {
                    assert(offsets@.take(i as int)[j] == more[j]);
                }
            }
        }
        i += 1;
    }
    assert(offsets@.take(i as int) =~= offsets@);
}

/// Appends the vectors, and then the labels, in the given order.
fn push_ordered(out: &mut Vec<u8>, vectors: &[[i16; 16]], labels: &[u8], order: &Vec<usize>)
    requires
        labels@.len() == vectors@.len(),
        forall|p: int| 0 <= p < order@.len() ==> #[trigger] order@[p] < vectors@.len(),
    ensures
        layout::extends(old(out)@, final(out)@),
        final(out)@.len() == old(out)@.len() + 33 * order@.len(),
        layout::has_vectors(
            final(out)@,
            old(out)@.len() as int,
            ranking::reordered(rows(vectors@), places(order@)),
        ),
        layout::has_bytes(
            final(out)@,
            (old(out)@.len() + 32 * order@.len()) as int,
            ranking::reordered(labels@, places(order@)),
        ),
{
    let ghost start = out@.len() as int;
    let ghost all = ranking::reordered(rows(vectors@), places(order@));
    let mut i: usize = 0;
    while i < order.len()
        invariant
            i <= order@.len(),
            forall|p: int| 0 <= p < order@.len() ==> #[trigger] order@[p] < vectors@.len(),
            all == ranking::reordered(rows(vectors@), places(order@)),
            start == old(out)@.len(),
            out@.len() == start + 32 * i,
            layout::extends(old(out)@, out@),
            layout::has_vectors(out@, start, all.take(i as int)),
        decreases order@.len() - i,
    {
        let ghost before = out@;
        layout::push_vector(out, &vectors[order[i]]);
        proof {
            layout::lemma_vectors_stay(before, out@, start, all.take(i as int));
            let more = all.take(i + 1);
            assert forall|j: int| 0 <= j < more.len() implies layout::vector_at(
                out@,
                start + 32 * j,
            ) == #[trigger] more[j] by {
                if j < i {
                    assert(all.take(i as int)[j] == more[j]);
                }
            }
        }
        i += 1;
    }
    assert(all.take(i as int) =~= all);
    let ghost middle = out@.len() as int;
    let ghost marks = ranking::reordered(labels@, places(order@));
    let mut j: usize = 0;
    while j < order.len()
        invariant
            j <= order@.len(),
            labels@.len() == vectors@.len(),
            forall|p: int| 0 <= p < order@.len() ==> #[trigger] order@[p] < vectors@.len(),
            0 <= start,
            middle == start + 32 * order@.len(),
            marks == ranking::reordered(labels@, places(order@)),
            out@.len() == middle + j,
            layout::extends(old(out)@, out@),
            layout::has_vectors(out@, start, all),
            forall|p: int| 0 <= p < j ==> out@[middle + p] == #[trigger] marks[p],
        decreases order@.len() - j,
    {
        let ghost before = out@;
        out.push(labels[order[j]]);
        proof {
            layout::lemma_vectors_stay(before, out@, start, all);
        }
        j += 1;
    }
}

/// Writes an index.
pub fn write_index(
    centroids: &[[i16; 16]],
    offsets: &Vec<u32>,
    vectors: &[[i16; 16]],
    labels: &[u8],
    order: &Vec<usize>,
) -> (out: Vec<u8>)
    requires
        centroids@.len() <= u32::MAX,
        0 < vectors@.len() <= u32::MAX,
        offsets@.len() == centroids@.len() + 1,
        labels@.len() == vectors@.len(),
        order@.len() == vectors@.len(),
        forall|p: int| 0 <= p < order@.len() ==> #[trigger] order@[p] < vectors@.len(),
    ensures
        out@.len() == layout::index_len(centroids@.len() as int, vectors@.len() as int),
        layout::is_header(
            out@,
            centroids@.len() as int,
            DEFAULT_PROBES as int,
            vectors@.len() as int,
        ),
        layout::u32_at(out@, 12) == 50,
        layout::holds_index(out@),
        layout::contents(out@) == (Contents {
            centroids: rows(centroids@),
            offsets: offsets@,
            vectors: ranking::reordered(rows(vectors@), places(order@)),
            labels: ranking::reordered(labels@, places(order@)),
        }),
{
    let nlist = centroids.len() as u32;
    let n = vectors.len() as u32;
    let mut out = layout::header(nlist, DEFAULT_PROBES, n);
    let ghost part0 = out@;
    push_vectors(&mut out, centroids);
    let ghost part1 = out@;
    push_offsets(&mut out, offsets);
    let ghost part2 = out@;
    push_ordered(&mut out, vectors, labels, order);
    proof {
        let start = part0.len() as int;
        layout::lemma_header_stays(part0, out@, nlist as int, DEFAULT_PROBES as int, n as int);
        layout::lemma_vectors_stay(part1, out@, start, rows(centroids@));
        layout::lemma_u32s_stay(part2, out@, part1.len() as int, offsets@);
        let read = layout::contents(out@);
        assert(read.centroids =~= rows(centroids@));
        assert(read.offsets =~= offsets@);
        assert(read.vectors =~= ranking::reordered(rows(vectors@), places(order@)));
        assert(read.labels =~= ranking::reordered(labels@, places(order@)));
    }
    out
}

/// Writes an index without vectors.
pub fn write_empty_index() -> (out: Vec<u8>)
    ensures
        out@.len() == layout::HEADER_LEN,
        layout::is_header(out@, NLIST as int, DEFAULT_PROBES as int, 0),
        layout::u32_at(out@, 8) == 1024,
        layout::u32_at(out@, 12) == 50,
        layout::holds_index(out@),
        layout::contents(out@).vectors.len() == 0,
{
    layout::header(NLIST as u32, DEFAULT_PROBES, 0)
}

/// `c` holds the given vectors and labels, grouped by the nearest centroid in the given order.
pub open spec fn built(
    c: Contents,
    vectors: Seq<Seq<i16>>,
    labels: Seq<u8>,
    order: Seq<int>,
) -> bool {
    let assignments = assigned(vectors, c.centroids);
    &&& c.offsets == Seq::new(
        c.centroids.len() + 1,
        |b: int| below(assignments, b, vectors.len() as int) as u32,
    )
    &&& grouped(order, assignments)
    &&& c.vectors == ranking::reordered(vectors, order)
    &&& c.labels == ranking::reordered(labels, order)
}

/// The centroids of an index over the given vectors.
pub open spec fn index_centroids(vectors: Seq<Seq<i16>>) -> Seq<Seq<i16>> {
    kmeans(
        vectors,
        seeds(vectors, NLIST as int),
        Seq::new(vectors.len(), |i: int| 0u32),
        KMEANS_ITERS as nat,
    )
}

/// Each vector is assigned to one of the clusters.
proof fn lemma_assigned(vectors: Seq<Seq<i16>>, centroids: Seq<Seq<i16>>)
    requires
        0 < centroids.len() <= u32::MAX,
    ensures
        forall|i: int|
            0 <= i < vectors.len() ==> (#[trigger] assigned(vectors, centroids)[i])
                < centroids.len() && assigned(vectors, centroids)[i] == closest(
                vectors[i],
                centroids,
            ),
{
    assert forall|i: int| 0 <= i < vectors.len() implies (#[trigger] assigned(
        vectors,
        centroids,
    )[i]) < centroids.len() && assigned(vectors, centroids)[i] == closest(
        vectors[i],
        centroids,
    ) by {
        lemma_closest(vectors[i], centroids);
    }
}

/// The clusters of a built index cover all its vectors, each once; and where labels are zero
/// or one, the index is sound.
pub proof fn lemma_built_is_partitioned(
    c: Contents,
    vectors: Seq<Seq<i16>>,
    labels: Seq<u8>,
    order: Seq<int>,
)
    requires
        built(c, vectors, labels, order),
        labels.len() == vectors.len() <= u32::MAX,
        0 < c.centroids.len() <= u32::MAX,
    ensures
        c.consistent(),
        c.partitioned(),
        (forall|i: int| 0 <= i < labels.len() ==> #[trigger] labels[i] <= 1) ==> c.sound(),
{
    let assignments = assigned(vectors, c.centroids);
    let n = vectors.len() as int;
    let k = c.centroids.len() as int;
    lemma_assigned(vectors, c.centroids);
    lemma_below_ends(assignments, k, n);
    assert forall|a: int, b: int| 0 <= a <= b < c.offsets.len() implies c.offsets[a]
        <= c.offsets[b] by {
        lemma_below_grows(assignments, a, b, n);
    }
    assert(c.offsets.last() == c.offsets[k]);
    assert(c.partitioned());
    assert forall|b: int| 0 <= b < k implies #[trigger] c.in_bounds(b) by {
        lemma_below_grows(assignments, b + 1, b + 1, n);
    }
}

/// Each vector of a built index stands in the cluster of its nearest centroid.
pub proof fn lemma_built_by_nearest(
    c: Contents,
    vectors: Seq<Seq<i16>>,
    labels: Seq<u8>,
    order: Seq<int>,
    cluster: int,
    p: int,
)
    requires
        built(c, vectors, labels, order),
        labels.len() == vectors.len() <= u32::MAX,
        0 <= cluster < c.centroids.len() <= u32::MAX,
        c.members(cluster).contains(p),
    ensures
        0 <= p < c.vectors.len(),
        cluster == closest(c.vectors[p], c.centroids),
{
    let assignments = assigned(vectors, c.centroids);
    let n = vectors.len() as int;
    lemma_assigned(vectors, c.centroids);
    lemma_below_grows(assignments, cluster, cluster + 1, n);
    let own = assignments[order[p]] as int;
    assert(0 <= order[p] < n);
    assert(below(assignments, own, n) <= p < below(assignments, own + 1, n));
    if own < cluster {
        lemma_below_grows(assignments, own + 1, cluster, n);
    } else if cluster < own {
        lemma_below_grows(assignments, cluster + 1, own, n);
    }
}

/// The vectors as sequences of lanes are the vectors, lane by lane.
pub proof fn lemma_rows(v: Seq<[i16; 16]>, order: Seq<usize>)
    ensures
        rows(v).len() == v.len(),
        forall|i: int, l: int|
            0 <= i < v.len() && 0 <= l < 16 ==> #[trigger] rows(v)[i][l] == v[i]@[l],
        forall|i: int| 0 <= i < v.len() ==> (#[trigger] rows(v)[i]).len() == 16,
        places(order).len() == order.len(),
        forall|p: int| 0 <= p < order.len() ==> #[trigger] places(order)[p] == order[p],
{
}

/// What follows a random number: its product with the factor and the summand on top, in
/// sixty-four bits. The first is drawn from 0xdeadbeef_cafebabe.
pub proof fn lemma_random_numbers(s: u64, j: int)
    ensures
        (lcg_next(s) - (6364136223846793005 * s + 1442695040888963407)) % 0x1_0000_0000_0000_0000
            == 0,
        draw(0) == 0xdeadbeef_cafebabe,
        j >= 0 ==> draw(j + 1) == lcg_next(draw(j)),
{
    let x = 6364136223846793005 * s;
    let p = s.wrapping_mul(MULTIPLIER);
    assert(s * MULTIPLIER == x);
    assert((p - x) % 0x1_0000_0000_0000_0000 == 0);
    assert((lcg_next(s) - p - 1442695040888963407) % 0x1_0000_0000_0000_0000 == 0);
}

/// K-means starts from vectors that it is given: the first from any, by the first random number;
/// each other one, where there are vectors enough, from the stretch of vectors that belongs to
/// it, by the next random number; and from the first vector where there are too few.
pub proof fn lemma_seeds(vectors: Seq<Seq<i16>>, k: int, i: int, stride: int)
    requires
        vectors.len() > 0,
        0 <= i < k,
        stride * k <= vectors.len() < (stride + 1) * k,
        stride >= 0,
    ensures
        seeds(vectors, k).len() == k,
        ({
            let p = seed_place(vectors.len() as int, k, i);
            let any = draw(i + 1) as usize;
            &&& 0 <= p < vectors.len()
            &&& seeds(vectors, k)[i] == vectors[p]
            &&& i == 0 ==> p == any as int % vectors.len() as int
            &&& i > 0 && stride > 0 ==> p == i * stride + any as int % stride
            &&& i > 0 && stride == 0 ==> p == 0
        }),
{
    let n = vectors.len() as int;
    let any = draw(i + 1) as usize as int;
    assert(n / k == stride) by {
        assert((stride + 1) * k == stride * k + k) by (nonlinear_arith);
        vstd::arithmetic::div_mod::lemma_fundamental_div_mod_converse(n, k, stride, n - stride * k);
    }
    if i > 0 && stride > 0 {
        let p = any % stride + i * stride;
        assert(0 <= i * stride && i * stride + stride <= n) by (nonlinear_arith)
            requires
                0 <= i < k,
                0 < stride,
                stride * k <= n,
        ;
        vstd::arithmetic::div_mod::lemma_small_mod(p as nat, n as nat);
    } else if i > 0 {
        assert(i * stride == 0) by (nonlinear_arith)
            requires
                stride == 0,
        ;
        assert(any % 1 == 0);
        assert(0int % n == 0) by {
            vstd::arithmetic::div_mod::lemma_small_mod(0, n as nat);
        }
    }
}

/// A vector is assigned to the centroid from which its fourteen features are the least squared
/// Euclidean distance away, and to the first of several.
pub proof fn lemma_assigned_to_nearest(vectors: Seq<Seq<i16>>, centroids: Seq<Seq<i16>>, i: int)
    requires
        0 <= i < vectors.len(),
        0 < centroids.len() <= u32::MAX,
    ensures
        assigned(vectors, centroids).len() == vectors.len(),
        assigned(vectors, centroids)[i] == closest(vectors[i], centroids),
        ({
            let best = assigned(vectors, centroids)[i] as int;
            &&& 0 <= best < centroids.len()
            &&& forall|c: int|
                0 <= c < centroids.len() ==> distance::euclidean(vectors[i], centroids[best], 14)
                    <= distance::euclidean(vectors[i], #[trigger] centroids[c], 14)
            &&& forall|c: int|
                0 <= c < best ==> distance::euclidean(vectors[i], centroids[best], 14)
                    < distance::euclidean(vectors[i], #[trigger] centroids[c], 14)
        }),
{
    lemma_closest(vectors[i], centroids);
    let best = closest(vectors[i], centroids);
    assert forall|c: int| 0 <= c < centroids.len() implies distance::euclidean(
        vectors[i],
        centroids[best],
        14,
    ) <= distance::euclidean(vectors[i], #[trigger] centroids[c], 14) by {
        assert(apart(vectors[i], centroids[best]) <= apart(vectors[i], centroids[c]));
    }
    assert forall|c: int| 0 <= c < best implies distance::euclidean(
        vectors[i],
        centroids[best],
        14,
    ) < distance::euclidean(vectors[i], #[trigger] centroids[c], 14) by {
        assert(apart(vectors[i], centroids[best]) < apart(vectors[i], centroids[c]));
    }
}

/// A cluster is as large as the vectors that are assigned to it are many.
pub proof fn lemma_cluster_size_counts(assignments: Seq<u32>, c: int, n: int)
    requires
        0 <= n <= assignments.len(),
    ensures
        cluster_size(assignments, c, n) == assignments.take(n).filter(|a: u32| a == c).len(),
        below(assignments, c, n) == assignments.take(n).filter(|a: u32| a < c).len(),
    decreases n,
{
    reveal(Seq::filter);
    if n > 0 {
        lemma_cluster_size_counts(assignments, c, n - 1);
        assert(assignments.take(n).drop_last() =~= assignments.take(n - 1));
        assert(assignments.take(n).last() == assignments[n - 1]);
    }
}

/// A lane of a cluster adds up to the fold of that lane over the vectors, with zero for those
/// that are in other clusters.
proof fn lemma_cluster_sum_folds(
    vectors: Seq<Seq<i16>>,
    assignments: Seq<u32>,
    c: int,
    d: int,
    n: nat,
)
    ensures
        cluster_sum(vectors, assignments, c, d, n as int) == Seq::new(
            n,
            |i: int|
                if assignments[i] == c {
                    vectors[i][d] as int
                } else {
                    0int
                },
        ).fold_left(0int, |s: int, x: int| s + x),
    decreases n,
{
    reveal(Seq::fold_left);
    let all = Seq::new(
        n,
        |i: int|
            if assignments[i] == c {
                vectors[i][d] as int
            } else {
                0int
            },
    );
    if n > 0 {
        lemma_cluster_sum_folds(vectors, assignments, c, d, (n - 1) as nat);
        assert(all.drop_last() =~= Seq::new(
            (n - 1) as nat,
            |i: int|
                if assignments[i] == c {
                    vectors[i][d] as int
                } else {
                    0int
                },
        ));
    }
}

/// A centroid moves to the mean of its cluster, in every one of the fourteen features: the new
/// lane times the number of vectors is less than that number away from their sum, and no
/// farther from zero than the sum. The padding keeps its lanes, and so does the centroid of a
/// cluster without vectors.
pub proof fn lemma_centroid_is_mean(
    vectors: Seq<Seq<i16>>,
    assignments: Seq<u32>,
    centroids: Seq<Seq<i16>>,
    c: int,
    d: int,
)
    requires
        assignments.len() == vectors.len(),
        0 <= c < centroids.len(),
        0 <= d < 16,
    ensures
        means(vectors, assignments, centroids).len() == centroids.len(),
        means(vectors, assignments, centroids)[c].len() == 16,
        ({
            let lane = means(vectors, assignments, centroids)[c][d] as int;
            let size = assignments.filter(|a: u32| a == c).len() as int;
            let sum = Seq::new(
                vectors.len(),
                |i: int|
                    if assignments[i] == c {
                        vectors[i][d] as int
                    } else {
                        0int
                    },
            ).fold_left(0int, |s: int, x: int| s + x);
            &&& size > 0 && d < 14 ==> -size < sum - lane * size < size
            &&& size > 0 && d < 14 && sum >= 0 ==> 0 <= lane * size <= sum
            &&& size > 0 && d < 14 && sum <= 0 ==> sum <= lane * size <= 0
            &&& size == 0 || d >= 14 ==> lane == centroids[c][d]
        }),
{
    let n = vectors.len() as int;
    let size = cluster_size(assignments, c, n);
    let sum = cluster_sum(vectors, assignments, c, d, n);
    lemma_cluster_size_counts(assignments, c, n);
    assert(assignments.take(n) =~= assignments);
    lemma_cluster_sum_folds(vectors, assignments, c, d, vectors.len());
    lemma_sum_bound(vectors, assignments, c, d, n);
    if size > 0 && d < 14 {
        lemma_mean_bound(sum, size);
        let lane = division::quotient(sum, size);
        if sum >= 0 {
            vstd::arithmetic::div_mod::lemma_fundamental_div_mod(sum, size);
            vstd::arithmetic::mul::lemma_mul_is_commutative(size, sum / size);
            vstd::arithmetic::div_mod::lemma_mod_bound(sum, size);
            assert(lane * size >= 0) by (nonlinear_arith)
                requires
                    lane >= 0,
                    size > 0,
            ;
        } else {
            let q = (-sum) / size;
            vstd::arithmetic::div_mod::lemma_fundamental_div_mod(-sum, size);
            vstd::arithmetic::mul::lemma_mul_is_commutative(size, q);
            vstd::arithmetic::div_mod::lemma_mod_bound(-sum, size);
            assert((-q) * size == -(q * size)) by (nonlinear_arith);
            assert(q * size >= 0) by (nonlinear_arith)
                requires
                    q >= 0,
                    size > 0,
            ;
        }
    }
}

/// Assignments differ in as many places as hold different clusters.
pub proof fn lemma_differences_count(a: Seq<u32>, b: Seq<u32>, n: nat)
    ensures
        differences(a, b, n as int) == Seq::new(n, |i: int| i).filter(|i: int| a[i] != b[i]).len(),
    decreases n,
{
    reveal(Seq::filter);
    if n > 0 {
        lemma_differences_count(a, b, (n - 1) as nat);
        assert(Seq::new(n, |i: int| i).drop_last() =~= Seq::new((n - 1) as nat, |i: int| i));
    }
}

/// One round of k-means: every vector goes to its nearest centroid and every centroid to the
/// mean of its vectors. It is the last where fewer than one vector in two thousand changed its
/// cluster; otherwise the rounds that are left go on from there.
pub proof fn lemma_kmeans_round(
    vectors: Seq<Seq<i16>>,
    centroids: Seq<Seq<i16>>,
    before: Seq<u32>,
    iters: nat,
)
    ensures
        kmeans(vectors, centroids, before, 0) == centroids,
        ({
            let after = assigned(vectors, centroids);
            let moved = means(vectors, after, centroids);
            let changed = differences(before, after, vectors.len() as int);
            kmeans(vectors, centroids, before, iters + 1) == if 2000 * changed < vectors.len() {
                moved
            } else {
                kmeans(vectors, moved, after, iters)
            }
        }),
{
}

/// An order that groups vectors lists each of them once, and clusters in ascending order.
pub proof fn lemma_grouped_is_sorted(order: Seq<int>, assignments: Seq<u32>)
    requires
        grouped(order, assignments),
    ensures
        order.len() == assignments.len(),
        order.no_duplicates(),
        forall|p: int| 0 <= p < order.len() ==> 0 <= #[trigger] order[p] < assignments.len(),
        forall|i: int| 0 <= i < assignments.len() ==> #[trigger] order.contains(i),
        forall|p: int, r: int|
            0 <= p <= r < order.len() ==> assignments[#[trigger] order[p]]
                <= assignments[#[trigger] order[r]],
{
    let n = assignments.len() as int;
    assert forall|i: int| 0 <= i < n implies #[trigger] order.contains(i) by {
        ranking::lemma_pigeonhole(order, i);
    }
    assert forall|p: int, r: int| 0 <= p <= r < n implies assignments[#[trigger] order[p]]
        <= assignments[#[trigger] order[r]] by {
        let a = assignments[order[p]] as int;
        let b = assignments[order[r]] as int;
        if b < a {
            lemma_below_grows(assignments, b + 1, a, n);
        }
    }
}

/// What a built index holds: the vectors that it was built from, each once and with its own
/// label, cluster by cluster; and for each cluster, how many of them have a nearest centroid
/// that comes before its own.
pub proof fn lemma_built_holds(
    c: Contents,
    vectors: Seq<Seq<i16>>,
    labels: Seq<u8>,
    order: Seq<int>,
)
    requires
        built(c, vectors, labels, order),
        labels.len() == vectors.len() <= u32::MAX,
        0 < c.centroids.len() <= u32::MAX,
    ensures
        c.vectors.len() == vectors.len() && c.labels.len() == vectors.len(),
        order.len() == vectors.len() && order.no_duplicates(),
        forall|p: int|
            0 <= p < order.len() ==> 0 <= #[trigger] order[p] < vectors.len() && c.vectors[p]
                == vectors[order[p]] && c.labels[p] == labels[order[p]],
        forall|p: int, r: int|
            0 <= p <= r < order.len() ==> closest(vectors[#[trigger] order[p]], c.centroids)
                <= closest(vectors[#[trigger] order[r]], c.centroids),
        c.offsets.len() == c.centroids.len() + 1,
        forall|b: int|
            0 <= b < c.offsets.len() ==> #[trigger] c.offsets[b] == assigned(
                vectors,
                c.centroids,
            ).filter(|a: u32| a < b).len(),
{
    let assignments = assigned(vectors, c.centroids);
    let n = vectors.len() as int;
    lemma_assigned(vectors, c.centroids);
    lemma_grouped_is_sorted(order, assignments);
    assert forall|p: int, r: int| 0 <= p <= r < order.len() implies closest(
        vectors[#[trigger] order[p]],
        c.centroids,
    ) <= closest(vectors[#[trigger] order[r]], c.centroids) by {
        assert(assignments[order[p]] <= assignments[order[r]]);
        assert(assignments[order[p]] == closest(vectors[order[p]], c.centroids));
        assert(assignments[order[r]] == closest(vectors[order[r]], c.centroids));
    }
    assert forall|b: int| 0 <= b < c.offsets.len() implies #[trigger] c.offsets[b]
        == assignments.filter(|a: u32| a < b).len() by {
        lemma_cluster_size_counts(assignments, b, n);
        assert(assignments.take(n) =~= assignments);
        lemma_below_grows(assignments, b, b, n);
    }
}

/// The vectors that an index was built from, at the places in it that `list` names.
pub open spec fn sources(list: Seq<int>, order: Seq<int>) -> Seq<int> {
    Seq::new(list.len(), |j: int| order[list[j]])
}

/// As many places of an index are labelled as fraud as vectors that they come from.
proof fn lemma_frauds_at_sources(c: Contents, labels: Seq<u8>, order: Seq<int>, list: Seq<int>)
    requires
        forall|j: int|
            0 <= j < list.len() ==> c.labels[#[trigger] list[j]] == labels[order[list[j]]],
    ensures
        c.frauds(list).len() == sources(list, order).filter(|i: int| labels[i] == 1).len(),
    decreases list.len(),
{
    reveal(Seq::filter);
    if list.len() > 0 {
        let init = list.drop_last();
        assert forall|j: int| 0 <= j < init.len() implies c.labels[#[trigger] init[j]]
            == labels[order[init[j]]] by {
            assert(c.labels[list[j]] == labels[order[list[j]]]);
        }
        assert(c.labels[list[list.len() - 1]] == labels[order[list[list.len() - 1]]]);
        lemma_frauds_at_sources(c, labels, order, init);
        assert(sources(list, order).drop_last() =~= sources(init, order));
    }
}

/// A query of a built index, whatever number of clusters it probes, counts the frauds among
/// at most five different ones of the vectors that the index was built from; no vector of a
/// probed cluster that is left out is nearer than any of them.
pub proof fn lemma_built_answers(
    c: Contents,
    vectors: Seq<Seq<i16>>,
    labels: Seq<u8>,
    order: Seq<int>,
    q: Seq<i16>,
    nprobe: int,
)
    requires
        built(c, vectors, labels, order),
        0 < labels.len() == vectors.len() <= u32::MAX,
        forall|i: int| 0 <= i < labels.len() ==> #[trigger] labels[i] <= 1,
        0 < c.centroids.len() <= u32::MAX,
        nprobe > 0,
    ensures
        c.answers(q, nprobe),
        ({
            let list = c.neighbours(q, nprobe);
            let found = sources(list, order);
            let seen = c.scanned(c.probes(q, nprobe));
            &&& found.len() <= 5
            &&& found.no_duplicates()
            &&& forall|j: int| 0 <= j < found.len() ==> 0 <= #[trigger] found[j] < vectors.len()
            &&& forall|j: int|
                0 <= j < found.len() ==> c.vectors[list[j]] == vectors[#[trigger] found[j]]
            &&& c.fraud_count(q, nprobe) == found.filter(|i: int| labels[i] == 1).len()
            &&& forall|p: int, j: int|
                seen.contains(p) && !list.contains(p) && 0 <= j < found.len()
                    ==> distance::lane_distance(q, #[trigger] c.vectors[p])
                    >= distance::lane_distance(q, vectors[#[trigger] found[j]])
        }),
{
    let list = c.neighbours(q, nprobe);
    let found = sources(list, order);
    let seen = c.scanned(c.probes(q, nprobe));
    let d = c.vector_distance(q);
    lemma_built_is_partitioned(c, vectors, labels, order);
    c.lemma_sound_answers(q, nprobe);
    c.lemma_neighbours(q, nprobe);
    c.lemma_neighbours_distinct(q, nprobe);
    assert forall|i: int, j: int|
        0 <= i < found.len() && 0 <= j < found.len() && i != j implies found[i] != found[j] by {
        assert(list[i] != list[j]);
        assert(order[list[i]] != order[list[j]]);
    }
    assert forall|j: int| 0 <= j < found.len() implies 0 <= #[trigger] found[j]
        < vectors.len() && c.vectors[list[j]] == vectors[found[j]] by {
        assert(0 <= list[j] < c.vectors.len());
        assert(0 <= order[list[j]] < vectors.len());
    }
    assert forall|p: int, j: int|
        seen.contains(p) && !list.contains(p) && 0 <= j
            < found.len() implies distance::lane_distance(q, #[trigger] c.vectors[p])
        >= distance::lane_distance(q, vectors[#[trigger] found[j]]) by {
        assert(d(p) >= d(list[j]));
        assert(c.vectors[list[j]] == vectors[found[j]]);
    }
    lemma_frauds_at_sources(c, labels, order, list);
}

/// Builds the index over `vectors`, which have the given labels.
pub fn build_index(vectors: &[[i16; 16]], labels: &[u8]) -> (out: Vec<u8>)
    requires
        0 < vectors@.len() <= u32::MAX,
        labels@.len() == vectors@.len(),
    ensures
        out@.len() == layout::index_len(NLIST as int, vectors@.len() as int),
        layout::is_header(out@, NLIST as int, DEFAULT_PROBES as int, vectors@.len() as int),
        layout::holds_index(out@),
        layout::contents(out@).centroids == index_centroids(rows(vectors@)),
        layout::contents(out@).centroids == kmeans(
            rows(vectors@),
            seeds(rows(vectors@), 1024),
            Seq::new(vectors@.len(), |i: int| 0u32),
            15,
        ),
        out@.len() == 36 + 36 * 1024 + 33 * vectors@.len(),
        layout::u32_at(out@, 12) == 50,
        exists|order: Seq<int>|
            built(layout::contents(out@), rows(vectors@), labels@, order),
{
    let centroids = kmeans_parallel(vectors, NLIST, KMEANS_ITERS);
    let assignments = assign_all(vectors, centroids.as_slice());
    proof {
        assert(rows(centroids@).len() == NLIST);
        lemma_assigned(rows(vectors@), rows(centroids@));
    }
    let offsets = cluster_offsets(&assignments, NLIST);
    let order = cluster_order(&assignments, &offsets);
    proof {
        assert forall|p: int| 0 <= p < order@.len() implies #[trigger] order@[p]
            < vectors@.len() by {
            assert(places(order@)[p] == order@[p]);
        }
    }
    let out = write_index(centroids.as_slice(), &offsets, vectors, labels, &order);
    proof {
        let n = vectors@.len() as int;
        assert forall|b: int| 0 <= b <= NLIST implies #[trigger] offsets@[b] == below(
            assignments@,
            b,
            n,
        ) as u32 by {
            lemma_below_grows(assignments@, b, b, n);
        }
        assert(offsets@ =~= Seq::new(
            (NLIST + 1) as nat,
            |b: int| below(assignments@, b, n) as u32,
        ));
        assert(built(layout::contents(out@), rows(vectors@), labels@, places(order@)));
    }
    out
}

/// The label of a reference: one for fraud, zero for anything else.
pub fn label_of(name: &[u8]) -> (label: u8)
    ensures
        label == if name@ == "fraud".spec_bytes() { 1int } else { 0 },
{
    if search::same_bytes(name, "fraud".as_bytes()) {
        1
    } else {
        0
    }
}

/// Every lane lies between `-bound` and `bound`, and the padding is zero.
pub open spec fn within(v: Seq<i16>, bound: int) -> bool {
    &&& v.len() == distance::DIM_PAD
    &&& forall|d: int| 0 <= d < v.len() ==> -bound <= #[trigger] v[d] <= bound
    &&& v[14] == 0 && v[15] == 0
}

/// A sum over a cluster stays within its size times the bound of its lanes.
proof fn lemma_sum_within(
    vectors: Seq<Seq<i16>>,
    assignments: Seq<u32>,
    c: int,
    d: int,
    n: int,
    bound: int,
)
    requires
        0 <= n <= vectors.len(),
        0 <= d < 16,
        0 <= bound,
        forall|i: int| 0 <= i < vectors.len() ==> within(#[trigger] vectors[i], bound),
    ensures
        cluster_size(assignments, c, n) >= 0,
        -(bound * cluster_size(assignments, c, n)) <= cluster_sum(vectors, assignments, c, d, n)
            <= bound * cluster_size(assignments, c, n),
    decreases n,
{
    if n > 0 {
        lemma_sum_within(vectors, assignments, c, d, n - 1, bound);
        let size = cluster_size(assignments, c, n - 1);
        assert(within(vectors[n - 1], bound));
        assert(bound * (size + 1) == bound * size + bound) by (nonlinear_arith);
    }
}

/// A mean stays within the bound of what it is the mean of.
proof fn lemma_quotient_within(sum: int, size: int, bound: int)
    requires
        size > 0,
        0 <= bound,
        -(bound * size) <= sum <= bound * size,
    ensures
        -bound <= division::quotient(sum, size) <= bound,
{
    if sum >= 0 {
        assert(0 <= sum / size <= bound) by (nonlinear_arith)
            requires
                size > 0,
                0 <= sum <= bound * size,
        ;
    } else {
        assert(0 <= (-sum) / size <= bound) by (nonlinear_arith)
            requires
                size > 0,
                0 <= -sum <= bound * size,
        ;
    }
}

/// K-means keeps the centroids within the bound of the vectors, with zeros for padding.
pub proof fn lemma_kmeans_within(
    vectors: Seq<Seq<i16>>,
    centroids: Seq<Seq<i16>>,
    before: Seq<u32>,
    iters: nat,
    bound: int,
)
    requires
        0 <= bound <= i16::MAX,
        forall|i: int| 0 <= i < vectors.len() ==> within(#[trigger] vectors[i], bound),
        forall|c: int| 0 <= c < centroids.len() ==> within(#[trigger] centroids[c], bound),
    ensures
        ({
            let result = kmeans(vectors, centroids, before, iters);
            &&& result.len() == centroids.len()
            &&& forall|c: int| 0 <= c < result.len() ==> within(#[trigger] result[c], bound)
        }),
    decreases iters,
{
    if iters > 0 {
        let after = assigned(vectors, centroids);
        let moved = means(vectors, after, centroids);
        let n = vectors.len() as int;
        assert forall|c: int| 0 <= c < moved.len() implies within(#[trigger] moved[c], bound) by {
            let size = cluster_size(after, c, n);
            assert(within(centroids[c], bound));
            assert forall|d: int| 0 <= d < 16 implies -bound <= #[trigger] moved[c][d] <= bound by {
                if size > 0 && d < distance::DIM {
                    lemma_sum_within(vectors, after, c, d, n, bound);
                    lemma_quotient_within(cluster_sum(vectors, after, c, d, n), size, bound);
                }
            }
        }
        lemma_kmeans_within(vectors, moved, after, (iters - 1) as nat, bound);
    }
}

} // verus!
