//! An inverted-file index: vectors grouped into clusters, of which a query scans only
//! those with the nearest centroids.
use crate::distance;
use crate::layout;
use crate::layout::{Contents, HEADER_LEN};
use crate::ranking;
use vstd::prelude::*;

verus! {

/// The number of neighbours that a query looks at.
pub const NEIGHBOURS: usize = 5;

/// The largest number of clusters that a query scans.
pub const MAX_PROBES: usize = 256;

impl Contents {
    /// The distance of `q` to each centroid.
    pub open spec fn centroid_distance(self, q: Seq<i16>) -> spec_fn(int) -> i64 {
        |c: int| distance::lane_distance(q, self.centroids[c])
    }

    /// The distance of `q` to each vector.
    pub open spec fn vector_distance(self, q: Seq<i16>) -> spec_fn(int) -> i64 {
        |i: int| distance::lane_distance(q, self.vectors[i])
    }

    /// How many clusters a query that asks for `nprobe` scans.
    pub open spec fn probe_count(self, nprobe: int) -> int {
        let asked = if nprobe < self.centroids.len() {
            nprobe
        } else {
            self.centroids.len() as int
        };
        if asked < MAX_PROBES {
            asked
        } else {
            MAX_PROBES as int
        }
    }

    /// The clusters that a query scans, those with the nearest centroids first.
    pub open spec fn probes(self, q: Seq<i16>, nprobe: int) -> Seq<int> {
        ranking::nearest(
            self.centroid_distance(q),
            Seq::new(self.centroids.len(), |c: int| c),
            self.probe_count(nprobe) as nat,
        )
    }

    /// The vectors of cluster `c`, by their places.
    pub open spec fn members(self, c: int) -> Seq<int> {
        let start = self.offsets[c] as int;
        let end = self.offsets[c + 1] as int;
        Seq::new(if start < end { (end - start) as nat } else { 0 }, |i: int| start + i)
    }

    /// The vectors of the clusters `probes`, in the order in which they are scanned.
    pub open spec fn scanned(self, probes: Seq<int>) -> Seq<int>
        decreases probes.len(),
    {
        if probes.len() == 0 {
            Seq::empty()
        } else {
            self.scanned(probes.drop_last()) + self.members(probes.last())
        }
    }

    /// The nearest vectors that a query finds, by their places.
    pub open spec fn neighbours(self, q: Seq<i16>, nprobe: int) -> Seq<int> {
        ranking::nearest(
            self.vector_distance(q),
            self.scanned(self.probes(q, nprobe)),
            NEIGHBOURS as nat,
        )
    }

    /// The vectors among `list` that are labelled as fraud.
    pub open spec fn frauds(self, list: Seq<int>) -> Seq<int> {
        list.filter(|i: int| self.labels[i] == 1)
    }

    /// How many of the neighbours that a query finds are labelled as fraud.
    pub open spec fn fraud_count(self, q: Seq<i16>, nprobe: int) -> int {
        if self.vectors.len() == 0 {
            0
        } else {
            self.frauds(self.neighbours(q, nprobe)).len() as int
        }
    }

    /// One number out of every page of the index: the first lane of each centroid and of
    /// every 128th vector, and every 4096th label, added up.
    pub open spec fn page_sum(self) -> int {
        strided(|c: int| self.centroids[c][0] as int, 1, self.centroids.len() as int) + strided(
            |i: int| self.vectors[i][0] as int,
            128,
            self.vectors.len() as int,
        ) + strided(|i: int| self.labels[i] as int, 4096, self.vectors.len() as int)
    }

    /// Cluster `c` holds nothing but vectors of the index.
    pub open spec fn in_bounds(self, c: int) -> bool {
        self.offsets[c] < self.offsets[c + 1] ==> self.offsets[c + 1] <= self.vectors.len()
    }

    /// A query that asks for `nprobe` clusters probes one at least, if there are any.
    pub open spec fn can_probe(self, nprobe: int) -> bool {
        self.vectors.len() == 0 || self.centroids.len() == 0 || nprobe > 0
    }

    /// A query can be answered: it probes a cluster where there are any, the probed clusters lie
    /// within the index, and the labels of the neighbours are zero or one.
    pub open spec fn answers(self, q: Seq<i16>, nprobe: int) -> bool {
        ||| self.vectors.len() == 0
        ||| {
            &&& self.can_probe(nprobe)
            &&& forall|j: int|
                0 <= j < self.probes(q, nprobe).len() ==> self.in_bounds(
                    #[trigger] self.probes(q, nprobe)[j],
                )
            &&& forall|j: int|
                0 <= j < self.neighbours(q, nprobe).len() ==> self.labels[#[trigger] self.neighbours(
                    q,
                    nprobe,
                )[j]] <= 1
        }
    }
}

impl Contents {
    /// The tables `dists` and `frauds` stand for the five nearest of the vectors `seen`.
    spec fn tabulated(self, q: Seq<i16>, seen: Seq<int>, dists: Seq<i64>, frauds: Seq<u8>) -> bool {
        &&& ranking::ascending(dists)
        &&& dists.len() == 5
        &&& ranking::tabulates(
            self.vector_distance(q),
            |i: int| self.labels[i],
            0u8,
            ranking::nearest(self.vector_distance(q), seen, 5),
            dists,
            frauds,
        )
    }

    /// The labels of the vectors `list`, added up.
    spec fn label_sum(self, list: Seq<int>) -> int
        decreases list.len(),
    {
        if list.len() == 0 {
            0
        } else {
            self.label_sum(list.drop_last()) + self.labels[list.last()]
        }
    }

    /// A sum of labels only grows with the list.
    proof fn lemma_label_sum_grows(self, list: Seq<int>, n: int)
        requires
            0 <= n <= list.len(),
        ensures
            0 <= self.label_sum(list.take(n)) <= self.label_sum(list),
        decreases list.len(),
    {
        if n == list.len() {
            assert(list.take(n) =~= list);
            if n > 0 {
                self.lemma_label_sum_grows(list.drop_last(), n - 1);
                assert(list.drop_last().take(n - 1) =~= list.drop_last());
            }
        } else {
            self.lemma_label_sum_grows(list.drop_last(), n);
            assert(list.drop_last().take(n) =~= list.take(n));
        }
    }
}

impl Contents {
    /// The parts have the sizes that belong together.
    pub open spec fn consistent(self) -> bool {
        &&& self.labels.len() == self.vectors.len()
        &&& self.vectors.len() > 0 ==> self.offsets.len() == self.centroids.len() + 1
    }

    /// Every cluster lies within the index, and every label is zero or one.
    pub open spec fn sound(self) -> bool {
        &&& forall|c: int| 0 <= c < self.centroids.len() ==> #[trigger] self.in_bounds(c)
        &&& forall|i: int| 0 <= i < self.labels.len() ==> #[trigger] self.labels[i] <= 1
    }

    /// The clusters cover all vectors, each vector once.
    pub open spec fn partitioned(self) -> bool {
        &&& self.offsets.len() == self.centroids.len() + 1
        &&& self.offsets[0] == 0
        &&& self.offsets.last() == self.vectors.len()
        &&& forall|c: int, d: int|
            0 <= c <= d < self.offsets.len() ==> self.offsets[c] <= self.offsets[d]
    }

    /// The probed clusters are as many as asked for, or all, or the largest number allowed;
    /// none comes twice, and no cluster left out has a nearer centroid than any of them.
    pub proof fn lemma_probes(self, q: Seq<i16>, nprobe: int)
        requires
            nprobe >= 0,
            nprobe > 0 || self.centroids.len() == 0,
        ensures
            ({
                let probes = self.probes(q, nprobe);
                let d = self.centroid_distance(q);
                &&& probes.len() == self.probe_count(nprobe)
                &&& probes.no_duplicates()
                &&& forall|p: int|
                    0 <= p < probes.len() ==> 0 <= #[trigger] probes[p] < self.centroids.len()
                &&& forall|c: int, p: int|
                    0 <= c < self.centroids.len() && !probes.contains(c) && 0 <= p < probes.len()
                        ==> #[trigger] d(c) >= d(#[trigger] probes[p])
            }),
    {
        let all = Seq::new(self.centroids.len(), |c: int| c);
        let probes = self.probes(q, nprobe);
        let d = self.centroid_distance(q);
        let k = self.probe_count(nprobe) as nat;
        if self.centroids.len() > 0 {
            ranking::lemma_nearest(d, all, k);
            assert forall|p: int| 0 <= p < probes.len() implies 0 <= #[trigger] probes[p]
                < self.centroids.len() by {
                assert(probes.contains(probes[p]));
            }
            assert forall|c: int, p: int|
                0 <= c < self.centroids.len() && !probes.contains(c) && 0 <= p
                    < probes.len() implies #[trigger] d(c) >= d(#[trigger] probes[p]) by {
                assert(all[c] == c);
                let keys = probes.map_values(d);
                assert(keys[p] <= keys[probes.len() - 1]);
            }
        } else {
            assert(all =~= Seq::empty());
        }
    }

    /// What is scanned are the vectors of the probed clusters.
    pub proof fn lemma_scanned(self, probes: Seq<int>, i: int)
        ensures
            self.scanned(probes).contains(i) <==> exists|p: int|
                0 <= p < probes.len() && self.members(#[trigger] probes[p]).contains(i),
        decreases probes.len(),
    {
        if probes.len() > 0 {
            let init = probes.drop_last();
            let c = probes.last();
            self.lemma_scanned(init, i);
            let head = self.scanned(init);
            let tail = self.members(c);
            if head.contains(i) {
                let p = choose|p: int|
                    0 <= p < init.len() && self.members(#[trigger] init[p]).contains(i);
                assert(self.members(probes[p]).contains(i));
                let j = choose|j: int| 0 <= j < head.len() && head[j] == i;
                assert((head + tail)[j] == i);
            }
            if tail.contains(i) {
                let j = choose|j: int| 0 <= j < tail.len() && tail[j] == i;
                assert((head + tail)[head.len() + j] == i);
                assert(self.members(probes[probes.len() - 1]).contains(i));
            }
            if self.scanned(probes).contains(i) {
                let j = choose|j: int| 0 <= j < (head + tail).len() && (head + tail)[j] == i;
                if j < head.len() {
                    assert(head[j] == i);
                } else {
                    assert(tail[j - head.len()] == i);
                }
            }
            if exists|p: int|
                0 <= p < probes.len() && self.members(#[trigger] probes[p]).contains(i) {
                let p = choose|p: int|
                    0 <= p < probes.len() && self.members(#[trigger] probes[p]).contains(i);
                if p < init.len() {
                    assert(self.members(init[p]).contains(i));
                }
            }
        }
    }

    /// The neighbours lie in probed clusters, at most five of them, in ascending order of
    /// distance, and no vector of a probed cluster that is left out is nearer than any of
    /// them; fewer than five means that nothing was left out.
    pub proof fn lemma_neighbours(self, q: Seq<i16>, nprobe: int)
        ensures
            ({
                let list = self.neighbours(q, nprobe);
                let seen = self.scanned(self.probes(q, nprobe));
                let d = self.vector_distance(q);
                &&& list.len() == if seen.len() < NEIGHBOURS {
                    seen.len()
                } else {
                    NEIGHBOURS as nat
                }
                &&& ranking::ascending(list.map_values(d))
                &&& forall|j: int| 0 <= j < list.len() ==> seen.contains(#[trigger] list[j])
                &&& forall|i: int, j: int|
                    seen.contains(i) && !list.contains(i) && 0 <= j < list.len()
                        ==> #[trigger] d(i) >= d(#[trigger] list[j])
                &&& forall|i: int|
                    seen.contains(i) && !list.contains(i) ==> list.len() == NEIGHBOURS
            }),
    {
        let list = self.neighbours(q, nprobe);
        let seen = self.scanned(self.probes(q, nprobe));
        let d = self.vector_distance(q);
        ranking::lemma_nearest(d, seen, NEIGHBOURS as nat);
        assert forall|j: int| 0 <= j < list.len() implies seen.contains(#[trigger] list[j]) by {
            assert(list.contains(list[j]));
        }
        assert forall|i: int, j: int|
            seen.contains(i) && !list.contains(i) && 0 <= j < list.len() implies #[trigger] d(i)
            >= d(#[trigger] list[j]) by {
            let keys = list.map_values(d);
            assert(keys[j] <= keys[list.len() - 1]);
        }
    }

    /// Where labels are zero or one, their sum over a list counts the frauds in it.
    proof fn lemma_label_sum_counts(self, list: Seq<int>)
        requires
            forall|j: int| 0 <= j < list.len() ==> self.labels[#[trigger] list[j]] <= 1,
        ensures
            self.label_sum(list) == self.frauds(list).len(),
            0 <= self.label_sum(list) <= list.len(),
        decreases list.len(),
    {
        reveal(Seq::filter);
        if list.len() > 0 {
            let init = list.drop_last();
            assert forall|j: int| 0 <= j < init.len() implies self.labels[#[trigger] init[j]]
                <= 1 by {
                assert(self.labels[list[j]] <= 1);
            }
            assert(self.labels[list[list.len() - 1]] <= 1);
            self.lemma_label_sum_counts(init);
        }
    }

    /// A sound index answers every query that probes a cluster where there are any, and the
    /// answer is the number of neighbours labelled as fraud: a number from zero to five.
    pub proof fn lemma_sound_answers(self, q: Seq<i16>, nprobe: int)
        requires
            self.consistent(),
            self.sound(),
            nprobe >= 0,
            self.can_probe(nprobe),
        ensures
            self.answers(q, nprobe),
            0 <= self.fraud_count(q, nprobe) <= NEIGHBOURS,
            self.vectors.len() > 0 ==> self.fraud_count(q, nprobe) == self.frauds(
                self.neighbours(q, nprobe),
            ).len(),
    {
        if self.vectors.len() > 0 {
            let probes = self.probes(q, nprobe);
            let list = self.neighbours(q, nprobe);
            self.lemma_probes(q, nprobe);
            self.lemma_neighbours(q, nprobe);
            assert forall|j: int| 0 <= j < list.len() implies self.labels[#[trigger] list[j]]
                <= 1 by {
                self.lemma_scanned(probes, list[j]);
                let p = choose|p: int|
                    0 <= p < probes.len() && self.members(#[trigger] probes[p]).contains(list[j]);
                assert(self.in_bounds(probes[p]));
            }
            self.lemma_label_sum_counts(list);
        }
    }

    /// Clusters that cover all vectors are within bounds, and each vector is in one of them.
    proof fn lemma_member_of(self, i: int, c: int) -> (m: int)
        requires
            self.partitioned(),
            0 <= i < self.offsets[c],
            0 <= c <= self.centroids.len(),
        ensures
            0 <= m < c,
            self.members(m).contains(i),
        decreases c,
    {
        assert(self.offsets[0] == 0);
        if self.offsets[c - 1] <= i {
            assert(self.members(c - 1)[i - self.offsets[c - 1]] == i);
            c - 1
        } else {
            self.lemma_member_of(i, c - 1)
        }
    }

    /// Different clusters of a partitioned index share no vector.
    proof fn lemma_scanned_distinct(self, probes: Seq<int>)
        requires
            self.partitioned(),
            probes.no_duplicates(),
            forall|p: int|
                0 <= p < probes.len() ==> 0 <= #[trigger] probes[p] < self.centroids.len(),
        ensures
            self.scanned(probes).no_duplicates(),
        decreases probes.len(),
    {
        if probes.len() > 0 {
            let init = probes.drop_last();
            let c = probes.last();
            assert(0 <= probes[probes.len() - 1] < self.centroids.len());
            assert forall|p: int| 0 <= p < init.len() implies 0 <= #[trigger] init[p]
                < self.centroids.len() by {
                assert(0 <= probes[p] < self.centroids.len());
            }
            assert(init.no_duplicates()) by {
                assert forall|a: int, b: int|
                    0 <= a < init.len() && 0 <= b < init.len() && a != b implies init[a]
                    != init[b] by {
                    assert(probes[a] != probes[b]);
                }
            }
            self.lemma_scanned_distinct(init);
            let head = self.scanned(init);
            let tail = self.members(c);
            assert forall|j: int| 0 <= j < tail.len() implies !head.contains(
                #[trigger] tail[j],
            ) by {
                if head.contains(tail[j]) {
                    self.lemma_scanned(init, tail[j]);
                    let p = choose|p: int|
                        0 <= p < init.len() && self.members(#[trigger] init[p]).contains(tail[j]);
                    let m = probes[p];
                    assert(probes[p] != probes[probes.len() - 1]);
                    assert(init[p] == m);
                    if m < c {
                        assert(self.offsets[m + 1] <= self.offsets[c]);
                    } else {
                        assert(self.offsets[c + 1] <= self.offsets[m]);
                    }
                }
            }
            let all = head + tail;
            assert forall|a: int, b: int|
                0 <= a < all.len() && 0 <= b < all.len() && a != b implies all[a] != all[b] by {
                if a < head.len() && b < head.len() {
                    assert(head[a] != head[b]);
                } else if a < head.len() {
                    assert(head.contains(head[a]));
                    assert(!head.contains(tail[b - head.len()]));
                } else if b < head.len() {
                    assert(head.contains(head[b]));
                    assert(!head.contains(tail[a - head.len()]));
                }
            }
        }
    }

    /// The neighbours that a partitioned index finds are different vectors of it.
    pub proof fn lemma_neighbours_distinct(self, q: Seq<i16>, nprobe: int)
        requires
            self.partitioned(),
            nprobe > 0,
        ensures
            self.scanned(self.probes(q, nprobe)).no_duplicates(),
            self.neighbours(q, nprobe).no_duplicates(),
            forall|j: int|
                0 <= j < self.neighbours(q, nprobe).len() ==> 0 <= #[trigger] self.neighbours(
                    q,
                    nprobe,
                )[j] < self.vectors.len(),
    {
        let probes = self.probes(q, nprobe);
        let list = self.neighbours(q, nprobe);
        self.lemma_probes(q, nprobe);
        self.lemma_scanned_distinct(probes);
        ranking::lemma_nearest(self.vector_distance(q), self.scanned(probes), NEIGHBOURS as nat);
        self.lemma_neighbours(q, nprobe);
        assert forall|j: int| 0 <= j < list.len() implies 0 <= #[trigger] list[j]
            < self.vectors.len() by {
            self.lemma_scanned(probes, list[j]);
            let p = choose|p: int|
                0 <= p < probes.len() && self.members(#[trigger] probes[p]).contains(list[j]);
            assert(self.offsets[probes[p] + 1] <= self.offsets[self.offsets.len() - 1]);
        }
    }

    /// A query that probes more clusters of a partitioned index finds neighbours that are, one
    /// by one, at least as near, and finds no fewer.
    pub proof fn lemma_more_probes(self, q: Seq<i16>, nprobe: int, more: int, j: int)
        requires
            self.partitioned(),
            0 < nprobe <= more,
            0 <= j < self.neighbours(q, nprobe).len(),
        ensures
            j < self.neighbours(q, more).len(),
            self.vector_distance(q)(self.neighbours(q, more)[j]) <= self.vector_distance(q)(
                self.neighbours(q, nprobe)[j],
            ),
    {
        let few = self.probes(q, nprobe);
        let many = self.probes(q, more);
        let all = Seq::new(self.centroids.len(), |c: int| c);
        self.lemma_neighbours_distinct(q, nprobe);
        self.lemma_neighbours_distinct(q, more);
        if self.centroids.len() == 0 {
            assert(all =~= Seq::empty());
        } else {
            ranking::lemma_nearest_grows(
                self.centroid_distance(q),
                all,
                self.probe_count(nprobe) as nat,
                self.probe_count(more) as nat,
            );
        }
        assert forall|i: int| self.scanned(few).contains(i) implies #[trigger] self.scanned(
            many,
        ).contains(i) by {
            self.lemma_scanned(few, i);
            let p = choose|p: int|
                0 <= p < few.len() && self.members(#[trigger] few[p]).contains(i);
            assert(few.contains(few[p]));
            assert(many.contains(few[p]));
            let r = choose|r: int| 0 <= r < many.len() && many[r] == few[p];
            assert(self.members(many[r]).contains(i));
            self.lemma_scanned(many, i);
        }
        ranking::lemma_more_candidates(
            self.vector_distance(q),
            self.scanned(few),
            self.scanned(many),
            NEIGHBOURS as nat,
            j,
        );
    }

    /// A query that probes every cluster of a partitioned index searches the whole of it: the
    /// neighbours are the nearest of all vectors, five different ones or as many as there are.
    pub proof fn lemma_exhaustive(self, q: Seq<i16>, nprobe: int)
        requires
            self.consistent(),
            self.partitioned(),
            0 < self.centroids.len() <= MAX_PROBES,
            nprobe >= self.centroids.len(),
        ensures
            ({
                let list = self.neighbours(q, nprobe);
                let d = self.vector_distance(q);
                let n = self.vectors.len();
                &&& list.len() == if n < NEIGHBOURS { n } else { NEIGHBOURS as nat }
                &&& list.no_duplicates()
                &&& forall|j: int| 0 <= j < list.len() ==> 0 <= #[trigger] list[j] < n
                &&& forall|i: int, j: int|
                    0 <= i < n && !list.contains(i) && 0 <= j < list.len() ==> #[trigger] d(i) >= d(
                        #[trigger] list[j],
                    )
            }),
    {
        let probes = self.probes(q, nprobe);
        let list = self.neighbours(q, nprobe);
        let seen = self.scanned(probes);
        self.lemma_probes(q, nprobe);
        self.lemma_neighbours(q, nprobe);
        assert forall|c: int| 0 <= c < self.centroids.len() implies probes.contains(c) by {
            ranking::lemma_pigeonhole(probes, c);
        }
        assert forall|i: int| 0 <= i < self.vectors.len() implies #[trigger] seen.contains(i) by {
            let m = self.lemma_member_of(i, self.centroids.len() as int);
            assert(probes.contains(m));
            let p = choose|p: int| 0 <= p < probes.len() && probes[p] == m;
            assert(self.members(probes[p]).contains(i));
            self.lemma_scanned(probes, i);
        }
        self.lemma_neighbours_distinct(q, nprobe);
        assert(seen.len() == self.vectors.len()) by {
            let range = vstd::set_lib::set_int_range(0, self.vectors.len() as int);
            vstd::set_lib::lemma_int_range(0, self.vectors.len() as int);
            assert forall|i: int| seen.contains(i) implies range.contains(i) by {
                self.lemma_scanned(probes, i);
                let p = choose|p: int|
                    0 <= p < probes.len() && self.members(#[trigger] probes[p]).contains(i);
                assert(self.offsets[probes[p] + 1] <= self.offsets[self.offsets.len() - 1]);
            }
            assert(seen.to_set() =~= range);
            seen.unique_seq_to_set();
        }
    }

    /// A query scans as many clusters as it asks for, but no more than there are and no more
    /// than 256: different ones, and none that is left out has a nearer centroid.
    pub proof fn lemma_clusters_scanned(self, q: Seq<i16>, nprobe: int)
        requires
            nprobe >= 1,
            self.centroids.len() >= 1,
        ensures
            ({
                let probes = self.probes(q, nprobe);
                let n = self.centroids.len();
                &&& nprobe <= n && nprobe <= 256 ==> probes.len() == nprobe
                &&& n <= nprobe && n <= 256 ==> probes.len() == n
                &&& 256 <= nprobe && 256 <= n ==> probes.len() == 256
                &&& forall|p: int| 0 <= p < probes.len() ==> 0 <= #[trigger] probes[p] < n
                &&& forall|p: int, r: int|
                    0 <= p < r < probes.len() ==> #[trigger] probes[p] != #[trigger] probes[r]
                &&& forall|p: int, r: int|
                    0 <= p <= r < probes.len() ==> distance::lane_distance(
                        q,
                        self.centroids[#[trigger] probes[p]],
                    ) <= distance::lane_distance(q, self.centroids[#[trigger] probes[r]])
                &&& forall|c: int, p: int|
                    0 <= c < n && !probes.contains(c) && 0 <= p < probes.len()
                        ==> distance::lane_distance(q, #[trigger] self.centroids[c])
                        >= distance::lane_distance(q, self.centroids[#[trigger] probes[p]])
            }),
    {
        let probes = self.probes(q, nprobe);
        let d = self.centroid_distance(q);
        let all = Seq::new(self.centroids.len(), |c: int| c);
        self.lemma_probes(q, nprobe);
        ranking::lemma_nearest(d, all, self.probe_count(nprobe) as nat);
        let keys = probes.map_values(d);
        assert forall|p: int, r: int|
            0 <= p <= r < probes.len() implies distance::lane_distance(
            q,
            self.centroids[#[trigger] probes[p]],
        ) <= distance::lane_distance(q, self.centroids[#[trigger] probes[r]]) by {
            assert(keys[p] <= keys[r]);
        }
        assert forall|c: int, p: int|
            0 <= c < self.centroids.len() && !probes.contains(c) && 0 <= p
                < probes.len() implies distance::lane_distance(q, #[trigger] self.centroids[c])
            >= distance::lane_distance(q, self.centroids[#[trigger] probes[p]]) by {
            assert(d(c) >= d(probes[p]));
        }
    }

    /// A cluster is scanned if fewer clusters than the query asks for, up to 256, have a
    /// centroid that is nearer or as near.
    pub proof fn lemma_near_cluster_is_scanned(self, q: Seq<i16>, nprobe: int, c: int)
        requires
            1 <= nprobe <= 256,
            0 <= c < self.centroids.len(),
            Set::new(
                |b: int|
                    0 <= b < self.centroids.len() && b != c && distance::lane_distance(
                        q,
                        self.centroids[b],
                    ) <= distance::lane_distance(q, self.centroids[c]),
            ).len() < nprobe,
        ensures
            self.probes(q, nprobe).contains(c),
    {
        let probes = self.probes(q, nprobe);
        let near = Set::new(
            |b: int|
                0 <= b < self.centroids.len() && b != c && distance::lane_distance(
                    q,
                    self.centroids[b],
                ) <= distance::lane_distance(q, self.centroids[c]),
        );
        let n = self.centroids.len() as int;
        self.lemma_clusters_scanned(q, nprobe);
        if !probes.contains(c) {
            assert(probes.no_duplicates());
            if n <= nprobe {
                ranking::lemma_pigeonhole(probes, c);
            }
            probes.unique_seq_to_set();
            let range = vstd::set_lib::set_int_range(0, n);
            vstd::set_lib::lemma_int_range(0, n);
            assert(near.subset_of(range));
            vstd::set_lib::lemma_len_subset(near, range);
            assert forall|b: int| probes.to_set().contains(b) implies near.contains(b) by {
                let p = choose|p: int| 0 <= p < probes.len() && probes[p] == b;
                assert(0 <= probes[p] < n);
                assert(distance::lane_distance(q, self.centroids[c]) >= distance::lane_distance(
                    q,
                    self.centroids[probes[p]],
                ));
            }
            assert(probes.to_set().subset_of(near));
            vstd::set_lib::lemma_len_subset(probes.to_set(), near);
        }
    }

    /// The scan goes through the probed clusters in their order, and through each from its first
    /// place to its last.
    pub proof fn lemma_scan_order(self, probes: Seq<int>, c: int)
        ensures
            self.scanned(Seq::empty()).len() == 0,
            self.members(c).len() == if self.offsets[c] < self.offsets[c + 1] {
                self.offsets[c + 1] - self.offsets[c]
            } else {
                0
            },
            ({
                let before = self.scanned(probes);
                let after = self.scanned(probes.push(c));
                &&& after.len() == before.len() + self.members(c).len()
                &&& forall|i: int| 0 <= i < before.len() ==> after[i] == before[i]
                &&& forall|i: int|
                    before.len() <= i < after.len() ==> #[trigger] after[i] == self.offsets[c] + (i
                        - before.len())
            }),
    {
        assert(probes.push(c).drop_last() =~= probes);
    }

    /// What a query counts. The neighbours that it looks at are at most five, in ascending order
    /// of distance, and lie in scanned clusters; a vector of a scanned cluster is left out only
    /// if the neighbours are five and none of them is farther away; and the count is that of the
    /// neighbours with the label one.
    pub proof fn lemma_query_counts(self, q: Seq<i16>, nprobe: int)
        requires
            self.vectors.len() > 0,
        ensures
            ({
                let probes = self.probes(q, nprobe);
                let list = self.neighbours(q, nprobe);
                &&& list.len() <= 5
                &&& forall|i: int, j: int|
                    0 <= i <= j < list.len() ==> distance::lane_distance(
                        q,
                        self.vectors[#[trigger] list[i]],
                    ) <= distance::lane_distance(q, self.vectors[#[trigger] list[j]])
                &&& forall|j: int|
                    0 <= j < list.len() ==> exists|p: int|
                        0 <= p < probes.len() && self.offsets[#[trigger] probes[p]]
                            <= #[trigger] list[j] < self.offsets[probes[p] + 1]
                &&& forall|i: int, p: int|
                    0 <= p < probes.len() && self.offsets[#[trigger] probes[p]] <= i
                        < self.offsets[probes[p] + 1] && !#[trigger] list.contains(i)
                        ==> list.len() == 5 && distance::lane_distance(q, self.vectors[i])
                        >= distance::lane_distance(q, self.vectors[list[4]])
                &&& self.fraud_count(q, nprobe) == list.filter(|i: int| self.labels[i] == 1).len()
            }),
    {
        let probes = self.probes(q, nprobe);
        let list = self.neighbours(q, nprobe);
        let seen = self.scanned(probes);
        let d = self.vector_distance(q);
        ranking::lemma_nearest(d, seen, NEIGHBOURS as nat);
        let keys = list.map_values(d);
        assert forall|i: int, j: int| 0 <= i <= j < list.len() implies distance::lane_distance(
            q,
            self.vectors[#[trigger] list[i]],
        ) <= distance::lane_distance(q, self.vectors[#[trigger] list[j]]) by {
            assert(keys[i] <= keys[j]);
        }
        assert forall|j: int| 0 <= j < list.len() implies exists|p: int|
            0 <= p < probes.len() && self.offsets[#[trigger] probes[p]] <= #[trigger] list[j]
                < self.offsets[probes[p] + 1] by {
            assert(list.contains(list[j]));
            self.lemma_scanned(probes, list[j]);
            let p = choose|p: int|
                0 <= p < probes.len() && self.members(#[trigger] probes[p]).contains(list[j]);
            let m = self.members(probes[p]);
            let k = choose|k: int| 0 <= k < m.len() && m[k] == list[j];
            assert(self.offsets[probes[p]] <= list[j] < self.offsets[probes[p] + 1]);
        }
        assert forall|i: int, p: int|
            0 <= p < probes.len() && self.offsets[#[trigger] probes[p]] <= i < self.offsets[probes[p]
                + 1] && !#[trigger] list.contains(i) implies list.len() == 5
            && distance::lane_distance(q, self.vectors[i]) >= distance::lane_distance(
            q,
            self.vectors[list[4]],
        ) by {
            let m = self.members(probes[p]);
            assert(m[i - self.offsets[probes[p]]] == i);
            assert(m.contains(i));
            self.lemma_scanned(probes, i);
            assert(d(i) >= d(list.last()));
        }
    }

    /// A query of a partitioned index finds five different neighbours, unless the scanned
    /// clusters hold fewer vectors; then it finds those.
    pub proof fn lemma_neighbours_counted(self, q: Seq<i16>, nprobe: int)
        requires
            self.offsets.len() == self.centroids.len() + 1,
            self.offsets[0] == 0,
            self.offsets[self.centroids.len() as int] == self.vectors.len(),
            forall|c: int, d: int|
                0 <= c <= d < self.offsets.len() ==> self.offsets[c] <= self.offsets[d],
            nprobe > 0,
        ensures
            ({
                let probes = self.probes(q, nprobe);
                let list = self.neighbours(q, nprobe);
                let reached = Set::new(
                    |i: int|
                        exists|p: int|
                            0 <= p < probes.len() && self.offsets[#[trigger] probes[p]] <= i
                                < self.offsets[probes[p] + 1],
                );
                &&& list.len() == if reached.len() < 5 { reached.len() } else { 5 }
                &&& forall|i: int, j: int|
                    0 <= i < j < list.len() ==> #[trigger] list[i] != #[trigger] list[j]
            }),
    {
        let probes = self.probes(q, nprobe);
        let list = self.neighbours(q, nprobe);
        let seen = self.scanned(probes);
        let reached = Set::new(
            |i: int|
                exists|p: int|
                    0 <= p < probes.len() && self.offsets[#[trigger] probes[p]] <= i
                        < self.offsets[probes[p] + 1],
        );
        self.lemma_neighbours_distinct(q, nprobe);
        self.lemma_neighbours(q, nprobe);
        assert forall|i: int| seen.contains(i) <==> reached.contains(i) by {
            self.lemma_scanned(probes, i);
            if seen.contains(i) {
                let p = choose|p: int|
                    0 <= p < probes.len() && self.members(#[trigger] probes[p]).contains(i);
                let m = self.members(probes[p]);
                let k = choose|k: int| 0 <= k < m.len() && m[k] == i;
                assert(self.offsets[probes[p]] <= i < self.offsets[probes[p] + 1]);
            }
            if reached.contains(i) {
                let p = choose|p: int|
                    0 <= p < probes.len() && self.offsets[#[trigger] probes[p]] <= i
                        < self.offsets[probes[p] + 1];
                let m = self.members(probes[p]);
                assert(m[i - self.offsets[probes[p]]] == i);
                assert(m.contains(i));
            }
        }
        seen.unique_seq_to_set();
        assert(seen.to_set() =~= reached);
    }

    /// A query is answered wherever every cluster lies within the index and every label is zero
    /// or one, if it asks for a cluster or there are none.
    pub proof fn lemma_when_answered(self, q: Seq<i16>, nprobe: int)
        requires
            self.labels.len() == self.vectors.len(),
            self.offsets.len() == self.centroids.len() + 1,
            forall|c: int|
                0 <= c < self.centroids.len() && self.offsets[c] < self.offsets[c + 1]
                    ==> #[trigger] self.offsets[c + 1] <= self.vectors.len(),
            forall|i: int| 0 <= i < self.labels.len() ==> #[trigger] self.labels[i] <= 1,
            nprobe > 0 || (nprobe == 0 && self.centroids.len() == 0),
        ensures
            self.answers(q, nprobe),
            0 <= self.fraud_count(q, nprobe) <= 5,
    {
        assert forall|c: int| 0 <= c < self.centroids.len() implies #[trigger] self.in_bounds(
            c,
        ) by {
            assert(self.offsets[c] < self.offsets[c + 1] ==> self.offsets[c + 1]
                <= self.vectors.len());
        }
        self.lemma_sound_answers(q, nprobe);
    }

    /// The sum over the pages counts the first lane of every centroid and of the vectors at the
    /// multiples of 128, and the labels at the multiples of 4096; one page more adds its number.
    pub proof fn lemma_pages_counted(self)
        ensures
            self.vectors.len() == 0 && self.centroids.len() == 0 ==> self.page_sum() == 0,
            self.page_sum() == strided(
                |c: int| self.centroids[c][0] as int,
                1,
                self.centroids.len() as int,
            ) + strided(|i: int| self.vectors[i][0] as int, 128, self.vectors.len() as int)
                + strided(|i: int| self.labels[i] as int, 4096, self.vectors.len() as int),
    {
    }

    /// An index is sound exactly where no cluster that holds anything reaches beyond the vectors
    /// and no label is above one; and a query can probe exactly where it asks for a cluster, or
    /// there are no clusters, or no vectors.
    pub proof fn lemma_sound_means(self, nprobe: int)
        ensures
            self.sound() <==> (forall|c: int|
                0 <= c < self.centroids.len() && self.offsets[c] < self.offsets[c + 1]
                    ==> #[trigger] self.offsets[c + 1] <= self.vectors.len()) && (forall|i: int|
                0 <= i < self.labels.len() ==> #[trigger] self.labels[i] <= 1),
            self.can_probe(nprobe) <==> nprobe > 0 || self.centroids.len() == 0
                || self.vectors.len() == 0,
    {
        if forall|c: int|
            0 <= c < self.centroids.len() && self.offsets[c] < self.offsets[c + 1]
                ==> #[trigger] self.offsets[c + 1] <= self.vectors.len() {
            assert forall|c: int| 0 <= c < self.centroids.len() implies #[trigger] self.in_bounds(
                c,
            ) by {
                assert(self.offsets[c] < self.offsets[c + 1] ==> self.offsets[c + 1]
                    <= self.vectors.len());
            }
        }
        if self.sound() {
            assert forall|c: int|
                0 <= c < self.centroids.len() && self.offsets[c] < self.offsets[c
                    + 1] implies #[trigger] self.offsets[c + 1] <= self.vectors.len() by {
                assert(self.in_bounds(c));
            }
        }
    }

    /// Which of several equally near clusters and vectors a query takes: clusters are offered in
    /// the order of their numbers and vectors in the order of the scan, and what is offered
    /// later goes in front, unless the list is full of what is as near. Without vectors nothing
    /// is found.
    pub proof fn lemma_ties(self, q: Seq<i16>, nprobe: int)
        ensures
            self.neighbours(q, nprobe) == ranking::nearest(
                |i: int| distance::lane_distance(q, self.vectors[i]),
                self.scanned(self.probes(q, nprobe)),
                5,
            ),
            self.probes(q, nprobe) == ranking::nearest(
                |c: int| distance::lane_distance(q, self.centroids[c]),
                Seq::new(self.centroids.len(), |c: int| c),
                self.probe_count(nprobe) as nat,
            ),
            self.vectors.len() == 0 ==> self.fraud_count(q, nprobe) == 0,
    {
        assert(self.vector_distance(q) =~= (|i: int| distance::lane_distance(q, self.vectors[i])));
        assert(self.centroid_distance(q) =~= (|c: int|
            distance::lane_distance(q, self.centroids[c])));
    }

    /// Between vectors whose components are in range and whose padding is zero, the distances
    /// that a query compares are squared Euclidean distances over the features.
    pub proof fn lemma_distances_are_euclidean(self, q: Seq<i16>, i: int)
        requires
            0 <= i < self.vectors.len(),
            distance::in_range(q),
            distance::in_range(self.vectors[i]),
            q[14] == 0 && q[15] == 0,
            self.vectors[i][14] == 0 && self.vectors[i][15] == 0,
        ensures
            self.vector_distance(q)(i) == distance::euclidean(
                q,
                self.vectors[i],
                distance::DIM as nat,
            ),
    {
        distance::lemma_lanes_are_euclidean(q, self.vectors[i]);
    }
}

/// The sum of `f` over the multiples of `step` below `n`.
pub open spec fn strided(f: spec_fn(int) -> int, step: int, n: int) -> int
    decreases n,
{
    if n <= 0 {
        0
    } else {
        strided(f, step, n - 1) + if (n - 1) % step == 0 {
            f(n - 1)
        } else {
            0
        }
    }
}

/// From one multiple of `step` up to the next, only the first counts.
proof fn lemma_strided_step(f: spec_fn(int) -> int, step: int, i: int, n: int)
    requires
        0 < step,
        0 <= i < n <= i + step,
        i % step == 0,
    ensures
        strided(f, step, n) == strided(f, step, i) + f(i),
    decreases n - i,
{
    if n > i + 1 {
        lemma_strided_step(f, step, i, n - 1);
        assert((n - 1) % step == n - 1 - i) by {
            vstd::arithmetic::div_mod::lemma_fundamental_div_mod(i, step);
            vstd::arithmetic::mul::lemma_mul_is_commutative(step, i / step);
            vstd::arithmetic::div_mod::lemma_fundamental_div_mod_converse(
                n - 1,
                step,
                i / step,
                n - 1 - i,
            );
        }
    }
}

/// A sum over the multiples of `step` has one summand for each: it is the summand of the last
/// multiple more than the sum before that multiple, and the numbers in between add nothing.
pub proof fn lemma_strided(f: spec_fn(int) -> int, step: int, k: int, n: int)
    requires
        0 < step,
        0 <= k,
        k * step < n <= (k + 1) * step,
    ensures
        strided(f, step, 0) == 0,
        strided(f, step, n) == strided(f, step, k * step) + f(k * step),
{
    assert(k * step % step == 0 && k * step >= 0 && (k + 1) * step == k * step + step) by {
        vstd::arithmetic::div_mod::lemma_mod_multiples_basic(k, step);
        assert(k * step >= 0 && (k + 1) * step == k * step + step) by (nonlinear_arith)
            requires
                0 <= k,
                0 < step,
        ;
    }
    lemma_strided_step(f, step, k * step, n);
}

/// `acc` is `sum` in thirty-two bits, wrapped round.
#[verifier::opaque]
pub open spec fn wraps_to(sum: int, acc: i32) -> bool {
    (sum - acc) % 0x1_0000_0000 == 0
}

/// Nothing adds up to zero.
proof fn lemma_wraps_zero()
    ensures
        wraps_to(0, 0),
{
    reveal(wraps_to);
}

/// A sum wraps round in steps as it does at once.
proof fn lemma_wraps_add(sum: int, acc: i32, x: i32)
    requires
        wraps_to(sum, acc),
    ensures
        wraps_to(sum + x, acc.wrapping_add(x)),
{
    reveal(wraps_to);
}

/// `std::hint::black_box` hands its argument back. That it also keeps the compiler from
/// leaving out the computation of the argument is not stated.
pub assume_specification<T>[ std::hint::black_box::<T> ](dummy: T) -> (r: T)
    ensures
        r == dummy,
;

/// Cluster numbers as integers.
spec fn named(ids: Seq<u32>) -> Seq<int> {
    Seq::new(ids.len(), |p: int| ids[p] as int)
}

/// An index over bytes that live as long as the program.
pub struct IvfIndex {
    nlist: usize,
    n_vectors: usize,
    data: &'static [u8],
}

impl View for IvfIndex {
    type V = Contents;

    closed spec fn view(&self) -> Contents {
        layout::contents(self.data@)
    }
}

impl IvfIndex {
    #[verifier::type_invariant]
    spec fn inv(self) -> bool {
        &&& layout::holds_index(self.data@)
        &&& self.n_vectors == layout::header_vectors(self.data@)
        &&& self.nlist == if self.n_vectors == 0 {
            0
        } else {
            layout::header_nlist(self.data@)
        }
    }

    /// Opens the index in `data`.
    pub fn from_static_bytes(data: &'static [u8]) -> (index: Self)
        requires
            layout::holds_index(data@),
        ensures
            index@ == layout::contents(data@),
            index@.consistent(),
    {
        let n_vectors = layout::read_u32(data, 16) as usize;
        if n_vectors == 0 {
            // Nothing to search, whatever number of clusters the header gives.
            return IvfIndex { nlist: 0, n_vectors: 0, data };
        }
        let nlist = layout::read_u32(data, 8) as usize;
        IvfIndex { nlist, n_vectors, data }
    }

    /// Tells whether the index holds no vectors.
    pub fn is_empty(&self) -> (r: bool)
        ensures
            r == (self@.vectors.len() == 0),
    {
        proof {
            use_type_invariant(self);
        }
        self.n_vectors == 0
    }

    /// The centroid of cluster `c`.
    fn centroid(&self, c: usize) -> (v: [i16; 16])
        requires
            c < self@.centroids.len(),
        ensures
            v@ == self@.centroids[c as int],
    {
        proof {
            use_type_invariant(self);
            assert(self.data.len() == self.data@.len());
        }
        layout::read_vector(self.data, HEADER_LEN + 32 * c)
    }

    /// Entry `c` of the offsets.
    fn offset(&self, c: usize) -> (o: u32)
        requires
            c < self@.offsets.len(),
        ensures
            o == self@.offsets[c as int],
    {
        proof {
            use_type_invariant(self);
            assert(self.data.len() == self.data@.len());
        }
        layout::read_u32(self.data, HEADER_LEN + 32 * self.nlist + 4 * c)
    }

    /// Vector `i`.
    fn vector(&self, i: usize) -> (v: [i16; 16])
        requires
            i < self@.vectors.len(),
        ensures
            v@ == self@.vectors[i as int],
    {
        proof {
            use_type_invariant(self);
            assert(self.data.len() == self.data@.len());
        }
        layout::read_vector(self.data, HEADER_LEN + 32 * self.nlist + 4 * (self.nlist + 1) + 32 * i)
    }

    /// The label of vector `i`.
    fn label(&self, i: usize) -> (l: u8)
        requires
            i < self@.labels.len(),
        ensures
            l == self@.labels[i as int],
    {
        proof {
            use_type_invariant(self);
            assert(self.data.len() == self.data@.len());
        }
        self.data[HEADER_LEN + 32 * self.nlist + 4 * (self.nlist + 1) + 32 * self.n_vectors + i]
    }

    /// Tells whether a query that asks for `nprobe` clusters probes one, if there are any.
    pub fn can_probe(&self, nprobe: usize) -> (r: bool)
        ensures
            r == self@.can_probe(nprobe as int),
    {
        proof {
            use_type_invariant(self);
        }
        self.n_vectors == 0 || self.nlist == 0 || nprobe > 0
    }

    /// Tells whether every cluster lies within the index and every label is zero or one.
    pub fn is_sound(&self) -> (r: bool)
        ensures
            r == self@.sound(),
    {
        proof {
            use_type_invariant(self);
        }
        let n = self.n_vectors;
        let nlist = self.nlist;
        let mut c: usize = 0;
        while c < nlist
            invariant
                c <= nlist == self@.centroids.len(),
                nlist <= u32::MAX,
                n == self@.vectors.len(),
                self@.offsets.len() == nlist + 1 || nlist == 0,
                forall|b: int| 0 <= b < c ==> #[trigger] self@.in_bounds(b),
            decreases nlist - c,
        {
            let start = self.offset(c);
            let end = self.offset(c + 1);
            if start < end && end as usize > n {
                assert(!self@.in_bounds(c as int));
                return false;
            }
            c += 1;
        }
        let mut i: usize = 0;
        while i < n
            invariant
                i <= n == self@.labels.len(),
                forall|j: int| 0 <= j < i ==> #[trigger] self@.labels[j] <= 1,
            decreases n - i,
        {
            if self.label(i) > 1 {
                return false;
            }
            i += 1;
        }
        true
    }

    /// The `k` clusters with the nearest centroids, nearest first.
    fn nearest_clusters(&self, q: &[i16; 16], k: usize) -> (ids: Vec<u32>)
        requires
            0 < k <= self@.centroids.len(),
        ensures
            named(ids@) == ranking::nearest(
                self@.centroid_distance(q@),
                Seq::new(self@.centroids.len(), |c: int| c),
                k as nat,
            ),
    {
        proof {
            use_type_invariant(self);
        }
        let ghost key = self@.centroid_distance(q@);
        let ghost name = |c: int| c as u32;
        let mut dists: Vec<i64> = vec![i64::MAX; k];
        let mut ids: Vec<u32> = vec![0; k];
        let nlist = self.nlist;
        let mut c: usize = 0;
        while c < nlist
            invariant
                c <= nlist == self@.centroids.len(),
                nlist <= u32::MAX,
                0 < k,
                dists@.len() == k,
                key == self@.centroid_distance(q@),
                name == (|c: int| c as u32),
                ranking::ascending(dists@),
                ranking::tabulates(
                    key,
                    name,
                    0u32,
                    ranking::nearest(key, Seq::new(c as nat, |i: int| i), k as nat),
                    dists@,
                    ids@,
                ),
            decreases nlist - c,
        {
            let cent = self.centroid(c);
            let d = distance::dist_sq_avx2(q, &cent);
            proof {
                let seen = Seq::new(c as nat, |i: int| i);
                let more = Seq::new((c + 1) as nat, |i: int| i);
                let list = ranking::nearest(key, seen, k as nat);
                assert(more.drop_last() =~= seen);
                assert(more.last() == c);
                assert(d == key(c as int));
                distance::lemma_lane_distance_bound(q@, cent@);
                ranking::lemma_nearest(key, seen, k as nat);
                ranking::lemma_tabulates_place(key, name, 0u32, list, dists@, ids@, c as int);
                ranking::lemma_rank(dists@, d);
            }
            ranking::insert_top(dists.as_mut_slice(), ids.as_mut_slice(), d, c as u32);
            c += 1;
        }
        proof {
            let all = Seq::new(self@.centroids.len(), |c: int| c);
            ranking::lemma_nearest(key, all, k as nat);
            let list = ranking::nearest(key, all, k as nat);
            assert forall|j: int| 0 <= j < k implies ids@[j] == #[trigger] list[j] by {
                assert(list.contains(list[j]));
                let i = choose|i: int| 0 <= i < all.len() && all[i] == list[j];
                assert(ids@[j] == name(list[j]));
            }
            assert(named(ids@) =~= list);
        }
        ids
    }

    /// Offers the vectors of cluster `c`, one after the other, to the five nearest.
    fn scan_cluster(
        &self,
        q: &[i16; 16],
        c: usize,
        dists: &mut [i64; 5],
        frauds: &mut [u8; 5],
        Ghost(before): Ghost<Seq<int>>,
    )
        requires
            c < self@.centroids.len(),
            self@.in_bounds(c as int),
            self@.tabulated(q@, before, old(dists)@, old(frauds)@),
        ensures
            self@.tabulated(q@, before + self@.members(c as int), final(dists)@, final(frauds)@),
    {
        proof {
            use_type_invariant(self);
        }
        let start = self.offset(c) as usize;
        let end = self.offset(c + 1) as usize;
        let ghost key = self@.vector_distance(q@);
        let mut idx = start;
        assert(before + Seq::new(0, |i: int| start + i) =~= before);
        while idx < end
            invariant
                start <= idx,
                idx <= end || idx == start,
                start < end ==> end <= self@.vectors.len(),
                self@.labels.len() == self@.vectors.len(),
                key == self@.vector_distance(q@),
                self@.tabulated(
                    q@,
                    before + Seq::new((idx - start) as nat, |i: int| start + i),
                    dists@,
                    frauds@,
                ),
            decreases end - idx,
        {
            let v = self.vector(idx);
            let d = distance::dist_sq_avx2(q, &v);
            proof {
                let seen = before + Seq::new((idx - start) as nat, |i: int| start + i);
                let more = before + Seq::new((idx + 1 - start) as nat, |i: int| start + i);
                assert(more.drop_last() =~= seen);
                assert(more.last() == idx);
                assert(d == key(idx as int));
                distance::lemma_lane_distance_bound(q@, v@);
                ranking::lemma_nearest(key, seen, 5);
                ranking::lemma_tabulates_place(
                    key,
                    |i: int| self@.labels[i],
                    0u8,
                    ranking::nearest(key, seen, 5),
                    dists@,
                    frauds@,
                    idx as int,
                );
            }
            ranking::insert_heap5(dists, frauds, d, self.label(idx));
            idx += 1;
        }
        proof {
            assert(self@.members(c as int) =~= Seq::new((idx - start) as nat, |i: int| start + i));
        }
    }

    /// The labels of the neighbours found in the clusters `ids`, five places in all, the
    /// unused ones zero.
    fn nearest_labels(&self, q: &[i16; 16], ids: &Vec<u32>) -> (frauds: [u8; 5])
        requires
            forall|p: int| 0 <= p < ids@.len() ==> #[trigger] ids@[p] < self@.centroids.len(),
            forall|p: int| 0 <= p < ids@.len() ==> self@.in_bounds(#[trigger] ids@[p] as int),
        ensures
            ({
                let list = ranking::nearest(
                    self@.vector_distance(q@),
                    self@.scanned(named(ids@)),
                    NEIGHBOURS as nat,
                );
                &&& list.len() <= 5
                &&& forall|j: int|
                    0 <= j < list.len() ==> frauds@[j] == self@.labels[#[trigger] list[j]]
                &&& forall|j: int| list.len() <= j < 5 ==> frauds@[j] == 0
            }),
    {
        let mut dists: [i64; 5] = [i64::MAX; 5];
        let mut frauds: [u8; 5] = [0; 5];
        let ghost probes = named(ids@);
        let mut p: usize = 0;
        assert(probes.take(0) =~= Seq::empty());
        while p < ids.len()
            invariant
                p <= ids@.len(),
                probes == named(ids@),
                forall|p: int| 0 <= p < ids@.len() ==> #[trigger] ids@[p] < self@.centroids.len(),
                forall|p: int| 0 <= p < ids@.len() ==> self@.in_bounds(#[trigger] ids@[p] as int),
                self@.tabulated(q@, self@.scanned(probes.take(p as int)), dists@, frauds@),
            decreases ids@.len() - p,
        {
            let c = ids[p] as usize;
            let ghost before = self@.scanned(probes.take(p as int));
            self.scan_cluster(q, c, &mut dists, &mut frauds, Ghost(before));
            proof {
                let more = probes.take(p + 1);
                assert(more.drop_last() =~= probes.take(p as int));
                assert(more.last() == c);
            }
            p += 1;
        }
        assert(probes.take(p as int) =~= probes);
        frauds
    }

    /// Adds up one number out of every page of the index, wrapping round.
    pub fn sum_pages(&self) -> (acc: i32)
        ensures
            wraps_to(self@.page_sum(), acc),
            (self@.page_sum() - acc) % 0x1_0000_0000 == 0,
    {
        proof {
            use_type_invariant(self);
            assert(self.data.len() == self.data@.len());
        }
        let n = self.n_vectors;
        let nlist = self.nlist;
        let ghost first = |c: int| self@.centroids[c][0] as int;
        let ghost second = |i: int| self@.vectors[i][0] as int;
        let ghost third = |i: int| self@.labels[i] as int;
        let mut acc: i32 = 0;
        let mut c: usize = 0;
        proof {
            lemma_wraps_zero();
        }
        while c < nlist
            invariant
                c <= nlist == self@.centroids.len(),
                first == (|c: int| self@.centroids[c][0] as int),
                wraps_to(strided(first, 1, c as int), acc),
            decreases nlist - c,
        {
            let cent = self.centroid(c);
            proof {
                lemma_strided_step(first, 1, c as int, c + 1);
                lemma_wraps_add(strided(first, 1, c as int), acc, cent[0] as i32);
            }
            acc = acc.wrapping_add(cent[0] as i32);
            c += 1;
        }
        let ghost sum1 = strided(first, 1, nlist as int);
        let mut i: usize = 0;
        while i < n
            invariant
                i % 128 == 0,
                n == self@.vectors.len(),
                n <= usize::MAX / 32,
                i < n + 128,
                second == (|i: int| self@.vectors[i][0] as int),
                wraps_to(sum1 + strided(second, 128, if i < n { i as int } else { n as int }), acc),
            decreases n + 128 - i,
        {
            let v = self.vector(i);
            proof {
                lemma_strided_step(
                    second,
                    128,
                    i as int,
                    if i + 128 < n {
                        i + 128
                    } else {
                        n as int
                    },
                );
                lemma_wraps_add(sum1 + strided(second, 128, i as int), acc, v[0] as i32);
            }
            acc = acc.wrapping_add(v[0] as i32);
            i += 128;
        }
        let ghost sum2 = sum1 + strided(second, 128, n as int);
        let mut j: usize = 0;
        while j < n
            invariant
                j % 4096 == 0,
                n == self@.labels.len(),
                n <= usize::MAX / 32,
                j < n + 4096,
                third == (|i: int| self@.labels[i] as int),
                wraps_to(sum2 + strided(third, 4096, if j < n { j as int } else { n as int }), acc),
            decreases n + 4096 - j,
        {
            let l = self.label(j);
            proof {
                lemma_strided_step(
                    third,
                    4096,
                    j as int,
                    if j + 4096 < n {
                        j + 4096
                    } else {
                        n as int
                    },
                );
                lemma_wraps_add(sum2 + strided(third, 4096, j as int), acc, l as i32);
            }
            acc = acc.wrapping_add(l as i32);
            j += 4096;
        }
        proof {
            reveal(wraps_to);
        }
        acc
    }

    /// Touches every page of the index, so that all of it is in memory before the first
    /// query. The index itself stays as it is.
    pub fn warmup(&self) {
        if self.is_empty() {
            return ;
        }
        std::hint::black_box(self.sum_pages());
    }

    /// Returns the number of fraud labels among the five nearest neighbours that the
    /// `nprobe` nearest clusters hold.
    pub fn query(&self, q: &[i16; 16], nprobe: usize) -> (count: u8)
        requires
            self@.answers(q@, nprobe as int),
        ensures
            count == self@.fraud_count(q@, nprobe as int),
            count <= NEIGHBOURS,
    {
        proof {
            use_type_invariant(self);
        }
        if self.is_empty() {
            return 0;
        }
        let asked = if nprobe < self.nlist {
            nprobe
        } else {
            self.nlist
        };
        let k = if asked < MAX_PROBES {
            asked
        } else {
            MAX_PROBES
        };
        let ghost probes = self@.probes(q@, nprobe as int);
        let ids: Vec<u32> = if k == 0 {
            Vec::new()
        } else {
            self.nearest_clusters(q, k)
        };
        proof {
            let all = Seq::new(self@.centroids.len(), |c: int| c);
            if k == 0 {
                assert(all =~= Seq::empty());
                assert(named(ids@) =~= probes);
            } else {
                ranking::lemma_nearest(self@.centroid_distance(q@), all, k as nat);
            }
            assert forall|p: int| 0 <= p < ids@.len() implies #[trigger] ids@[p]
                < self@.centroids.len() && self@.in_bounds(ids@[p] as int) by {
                assert(probes.contains(probes[p]));
                assert(probes[p] == ids@[p]);
            }
        }
        let frauds = self.nearest_labels(q, &ids);
        let ghost list = self@.neighbours(q@, nprobe as int);
        proof {
            self@.lemma_label_sum_counts(list);
        }
        let mut count: u8 = 0;
        let mut j: usize = 0;
        assert(list.take(0) =~= Seq::empty());
        while j < 5
            invariant
                j <= 5,
                list.len() <= 5,
                forall|j: int|
                    0 <= j < list.len() ==> frauds@[j] == self@.labels[#[trigger] list[j]],
                forall|j: int| list.len() <= j < 5 ==> frauds@[j] == 0,
                self@.label_sum(list) <= NEIGHBOURS,
                count == self@.label_sum(
                    list.take(
                        if j < list.len() {
                            j as int
                        } else {
                            list.len() as int
                        },
                    ),
                ),
            decreases 5 - j,
        {
            proof {
                if j < list.len() {
                    let more = list.take(j + 1);
                    assert(more.drop_last() =~= list.take(j as int));
                    assert(more.last() == list[j as int]);
                    self@.lemma_label_sum_grows(list, j + 1);
                }
            }
            count += frauds[j];
            j += 1;
        }
        assert(list.take(list.len() as int) =~= list);
        count
    }
}

} // verus!
