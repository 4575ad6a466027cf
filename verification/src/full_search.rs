//! A search of all vectors, one by one, and what an index owes to it.
use crate::distance;
use crate::index::{MAX_PROBES, NEIGHBOURS};
use crate::layout::Contents;
use crate::ranking;
use vstd::prelude::*;

verus! {

/// The squared Euclidean distance of each vector to `q`.
pub open spec fn distances(vectors: Seq<Seq<i16>>, q: Seq<i16>) -> Seq<int> {
    Seq::new(vectors.len(), |i: int| distance::euclidean(q, vectors[i], distance::DIM as nat))
}

/// No two distances are equal.
pub open spec fn distinct(dists: Seq<int>) -> bool {
    forall|i: int, j: int|
        0 <= i < j < dists.len() ==> #[trigger] dists[i] != #[trigger] dists[j]
}

/// The vectors that are nearer than vector `i`.
pub open spec fn nearer(dists: Seq<int>, i: int) -> Set<int> {
    Set::new(|j: int| 0 <= j < dists.len() && dists[j] < dists[i])
}

/// The vectors labelled as fraud that fewer than five others are nearer than.
pub open spec fn near_frauds(dists: Seq<int>, labels: Seq<u8>) -> Set<int> {
    Set::new(
        |i: int|
            0 <= i < dists.len() && labels[i] == 1 && nearer(dists, i).len() < NEIGHBOURS,
    )
}

/// How many of the five nearest of all vectors are labelled as fraud.
pub open spec fn brute_force(vectors: Seq<Seq<i16>>, labels: Seq<u8>, q: Seq<i16>) -> nat {
    near_frauds(distances(vectors, q), labels).len()
}

/// A vector of features: every component is in range and the padding is zero.
pub open spec fn is_feature_vector(v: Seq<i16>) -> bool {
    &&& distance::in_range(v)
    &&& v[14] == 0 && v[15] == 0
}

/// An index that can be searched in full for `q`: its clusters, at least one and no more than a
/// query can probe, cover all vectors; labels are zero or one; and no two vectors are equally
/// far from `q`.
pub open spec fn searchable(c: Contents, q: Seq<i16>) -> bool {
    &&& c.consistent()
    &&& c.partitioned()
    &&& c.vectors.len() > 0
    &&& 0 < c.centroids.len() <= MAX_PROBES
    &&& forall|i: int| 0 <= i < c.labels.len() ==> #[trigger] c.labels[i] <= 1
    &&& is_feature_vector(q)
    &&& forall|i: int| 0 <= i < c.vectors.len() ==> is_feature_vector(#[trigger] c.vectors[i])
    &&& distinct(distances(c.vectors, q))
}

/// The numbers below `n` are finitely many, and so are any of them.
proof fn lemma_below_finite(s: Set<int>, n: int)
    requires
        0 <= n,
        forall|i: int| s.contains(i) ==> 0 <= i < n,
    ensures
        s.finite(),
{
    vstd::set_lib::lemma_int_range(0, n);
    let range = vstd::set_lib::set_int_range(0, n);
    assert(s.subset_of(range));
    vstd::set_lib::lemma_len_subset(s, range);
}

/// A set of places and the set of where an order puts them have the same size.
proof fn lemma_permuted_size(a: Set<int>, b: Set<int>, order: Seq<int>, n: int)
    requires
        ranking::permutes(order, n),
        forall|i: int| a.contains(i) ==> 0 <= i < n,
        forall|p: int| b.contains(p) ==> 0 <= p < n,
        forall|p: int| 0 <= p < n ==> (b.contains(p) <==> a.contains(#[trigger] order[p])),
    ensures
        a.len() == b.len(),
{
    let f = |p: int| order[p];
    lemma_below_finite(b, n);
    assert forall|i: int| a.contains(i) implies #[trigger] b.map(f).contains(i) by {
        ranking::lemma_pigeonhole(order, i);
        let p = choose|p: int| 0 <= p < order.len() && order[p] == i;
        assert(b.contains(p) && f(p) == i);
    }
    assert forall|i: int| #[trigger] b.map(f).contains(i) implies a.contains(i) by {
        let p = choose|p: int| b.contains(p) && f(p) == i;
        assert(a.contains(order[p]));
    }
    assert(b.map(f) =~= a);
    assert(vstd::relations::injective_on(f, b)) by {
        assert forall|x: int, y: int|
            b.contains(x) && b.contains(y) && #[trigger] f(x) == #[trigger] f(y) implies x == y by {
            if x != y {
                assert(order[x] != order[y]);
            }
        }
    }
    vstd::set_lib::lemma_map_size(b, a, f);
}

/// A search of all vectors finds the same number of frauds in whatever order they stand.
pub proof fn lemma_brute_force_in_any_order(
    vectors: Seq<Seq<i16>>,
    labels: Seq<u8>,
    order: Seq<int>,
    q: Seq<i16>,
)
    requires
        labels.len() == vectors.len(),
        ranking::permutes(order, vectors.len() as int),
    ensures
        brute_force(ranking::reordered(vectors, order), ranking::reordered(labels, order), q)
            == brute_force(vectors, labels, q),
{
    let n = vectors.len() as int;
    let da = distances(vectors, q);
    let db = distances(ranking::reordered(vectors, order), q);
    let lb = ranking::reordered(labels, order);
    assert forall|p: int| 0 <= p < n implies db[p] == da[#[trigger] order[p]] by {}
    assert forall|p: int| 0 <= p < n implies nearer(db, p).len() == nearer(
        da,
        #[trigger] order[p],
    ).len() by {
        lemma_permuted_size(nearer(da, order[p]), nearer(db, p), order, n);
    }
    lemma_permuted_size(near_frauds(da, labels), near_frauds(db, lb), order, n);
}

/// A list without repetitions keeps as many entries as the set of them does.
proof fn lemma_filter_size(list: Seq<int>, pred: spec_fn(int) -> bool)
    requires
        list.no_duplicates(),
    ensures
        list.to_set().filter(pred).finite(),
        list.filter(pred).len() == list.to_set().filter(pred).len(),
    decreases list.len(),
{
    reveal(Seq::filter);
    if list.len() == 0 {
        assert(list.to_set().filter(pred) =~= Set::empty());
    } else {
        let init = list.drop_last();
        let x = list.last();
        assert(init.no_duplicates()) by {
            assert forall|i: int, j: int|
                0 <= i < init.len() && 0 <= j < init.len() && i != j implies init[i]
                != init[j] by {
                assert(list[i] != list[j]);
            }
        }
        lemma_filter_size(init, pred);
        assert(!init.contains(x)) by {
            if init.contains(x) {
                let i = choose|i: int| 0 <= i < init.len() && init[i] == x;
                assert(list[i] != list[list.len() - 1]);
            }
        }
        assert forall|y: int| list.contains(y) <==> #[trigger] init.contains(y) || y == x by {
            if init.contains(y) {
                let i = choose|i: int| 0 <= i < init.len() && init[i] == y;
                assert(list[i] == y);
            }
            if y == x {
                assert(list[list.len() - 1] == y);
            }
            if list.contains(y) && y != x {
                let i = choose|i: int| 0 <= i < list.len() && list[i] == y;
                assert(init[i] == y);
            }
        }
        let small = init.to_set().filter(pred);
        let large = list.to_set().filter(pred);
        if pred(x) {
            assert(large =~= small.insert(x));
        } else {
            assert(large =~= small);
        }
    }
}

/// The neighbours that a full search of an index finds are the vectors that fewer than five
/// others are nearer than.
proof fn lemma_neighbours_are_nearest(c: Contents, q: Seq<i16>, nprobe: int, i: int)
    requires
        searchable(c, q),
        nprobe >= c.centroids.len(),
        0 <= i < c.vectors.len(),
    ensures
        c.neighbours(q, nprobe).contains(i) <==> nearer(distances(c.vectors, q), i).len()
            < NEIGHBOURS,
{
    let n = c.vectors.len() as int;
    let list = c.neighbours(q, nprobe);
    let d = c.vector_distance(q);
    let dists = distances(c.vectors, q);
    let set = nearer(dists, i);
    c.lemma_exhaustive(q, nprobe);
    assert forall|j: int| 0 <= j < n implies d(j) == #[trigger] dists[j] by {
        assert(is_feature_vector(c.vectors[j]));
        c.lemma_distances_are_euclidean(q, j);
    }
    lemma_below_finite(set, n);
    list.unique_seq_to_set();
    if list.contains(i) {
        let others = list.to_set().remove(i);
        let p = choose|p: int| 0 <= p < list.len() && list[p] == i;
        assert forall|j: int| set.contains(j) implies others.contains(j) by {
            assert(d(j) == dists[j] && d(i) == dists[i]);
            if !list.contains(j) {
                assert(d(j) >= d(list[p]));
            }
        }
        assert(set.subset_of(others));
        vstd::set_lib::lemma_len_subset(set, others);
    } else {
        if list.len() < NEIGHBOURS {
            ranking::lemma_pigeonhole(list, i);
        }
        assert forall|j: int| list.to_set().contains(j) implies set.contains(j) by {
            let p = choose|p: int| 0 <= p < list.len() && list[p] == j;
            assert(0 <= list[p] < n);
            assert(d(i) >= d(list[p]));
            assert(d(j) == dists[j] && d(i) == dists[i]);
            if i < j {
                assert(dists[i] != dists[j]);
            } else if j < i {
                assert(dists[j] != dists[i]);
            } else {
                assert(list.contains(i));
            }
        }
        assert(list.to_set().subset_of(set));
        vstd::set_lib::lemma_len_subset(list.to_set(), set);
    }
}

/// A query that probes every cluster of an index counts as a search of all vectors does: the
/// frauds among the five nearest.
pub proof fn lemma_full_query_is_brute_force(c: Contents, q: Seq<i16>, nprobe: int)
    requires
        searchable(c, q),
        nprobe >= c.centroids.len(),
    ensures
        c.answers(q, nprobe),
        c.fraud_count(q, nprobe) == brute_force(c.vectors, c.labels, q),
        c.fraud_count(q, nprobe) <= NEIGHBOURS,
{
    let n = c.vectors.len() as int;
    let list = c.neighbours(q, nprobe);
    let pred = |i: int| c.labels[i] == 1;
    let dists = distances(c.vectors, q);
    assert(c.sound()) by {
        assert forall|b: int| 0 <= b < c.centroids.len() implies #[trigger] c.in_bounds(b) by {
            assert(c.offsets[b + 1] <= c.offsets[c.offsets.len() - 1]);
        }
    }
    c.lemma_sound_answers(q, nprobe);
    c.lemma_exhaustive(q, nprobe);
    lemma_filter_size(list, pred);
    assert forall|i: int| list.to_set().filter(pred).contains(i) <==> near_frauds(
        dists,
        c.labels,
    ).contains(i) by {
        if 0 <= i < n {
            lemma_neighbours_are_nearest(c, q, nprobe, i);
        } else if list.contains(i) {
            let p = choose|p: int| 0 <= p < list.len() && list[p] == i;
            assert(0 <= list[p] < n);
        }
    }
    assert(list.to_set().filter(pred) =~= near_frauds(dists, c.labels));
}

/// Two indexes over the same labelled vectors, however ordered and clustered, give the same
/// answer to a query that probes every cluster.
pub proof fn lemma_same_vectors_same_answer(
    a: Contents,
    b: Contents,
    order: Seq<int>,
    q: Seq<i16>,
    nprobe: int,
)
    requires
        searchable(a, q),
        searchable(b, q),
        ranking::permutes(order, a.vectors.len() as int),
        b.vectors == ranking::reordered(a.vectors, order),
        b.labels == ranking::reordered(a.labels, order),
        nprobe >= a.centroids.len(),
        nprobe >= b.centroids.len(),
    ensures
        a.fraud_count(q, nprobe) == b.fraud_count(q, nprobe),
        a.fraud_count(q, nprobe) == brute_force(a.vectors, a.labels, q),
{
    lemma_full_query_is_brute_force(a, q, nprobe);
    lemma_full_query_is_brute_force(b, q, nprobe);
    lemma_brute_force_in_any_order(a.vectors, a.labels, order, q);
}

} // verus!
