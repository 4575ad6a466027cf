//! Bounded lists of nearest candidates, kept in ascending order of distance.
use vstd::prelude::*;

verus! {

/// `s` never decreases.
pub open spec fn ascending(s: Seq<i64>) -> bool {
    forall|i: int, j: int| 0 <= i <= j < s.len() ==> s[i] <= s[j]
}

/// The number of leading entries of `s` that are smaller than `d`: the place of
/// `d` in an ascending `s`, in front of the entries that equal it.
pub open spec fn rank(s: Seq<i64>, d: i64) -> int
    decreases s.len(),
{
    if s.len() == 0 || s[0] >= d {
        0
    } else {
        1 + rank(s.drop_first(), d)
    }
}

/// `s` with `t` put in at `pos` and the last entry pushed out.
pub open spec fn shifted<T>(s: Seq<T>, pos: int, t: T) -> Seq<T> {
    s.insert(pos, t).drop_last()
}

/// Offers candidate `id` to a list of at most `k` candidates that is ordered by
/// `key`. A full list turns away a candidate that is not nearer than its last
/// entry; any other candidate goes in front of the entries that are as near, and
/// a full list loses its last entry to it.
pub open spec fn place(key: spec_fn(int) -> i64, list: Seq<int>, k: nat, id: int) -> Seq<int> {
    let at = rank(list.map_values(key), key(id));
    if list.len() < k {
        list.insert(at, id)
    } else if k > 0 && key(id) < key(list.last()) {
        shifted(list, at, id)
    } else {
        list
    }
}

/// The list that is left when the candidates `ids` are offered one after the other.
pub open spec fn nearest(key: spec_fn(int) -> i64, ids: Seq<int>, k: nat) -> Seq<int>
    decreases ids.len(),
{
    if ids.len() == 0 {
        Seq::empty()
    } else {
        place(key, nearest(key, ids.drop_last(), k), k, ids.last())
    }
}

/// What `rank` counts.
pub proof fn lemma_rank(s: Seq<i64>, d: i64)
    ensures
        0 <= rank(s, d) <= s.len(),
        forall|i: int| 0 <= i < rank(s, d) ==> s[i] < d,
        rank(s, d) < s.len() ==> s[rank(s, d)] >= d,
    decreases s.len(),
{
    if s.len() > 0 && s[0] < d {
        lemma_rank(s.drop_first(), d);
        assert forall|i: int| 0 <= i < rank(s, d) implies s[i] < d by {
            if i > 0 {
                assert(s.drop_first()[i - 1] < d);
            }
        }
    }
}

/// `rank` is the only place with smaller entries before it and none at it.
pub proof fn lemma_rank_is(s: Seq<i64>, d: i64, p: int)
    requires
        0 <= p <= s.len(),
        forall|i: int| 0 <= i < p ==> s[i] < d,
        p < s.len() ==> s[p] >= d,
    ensures
        rank(s, d) == p,
{
    lemma_rank(s, d);
    let r = rank(s, d);
    if r < p {
        assert(s[r] < d);
    }
    if p < r {
        assert(s[p] < d);
    }
}

/// One offer keeps a list ordered, within its bound and free of repetitions, loses
/// no candidate to a farther one, and takes nothing but the candidate offered.
proof fn lemma_place(key: spec_fn(int) -> i64, list: Seq<int>, k: nat, id: int)
    requires
        ascending(list.map_values(key)),
        list.len() <= k,
        k > 0,
    ensures
        ({
            let next = place(key, list, k, id);
            &&& ascending(next.map_values(key))
            &&& next.len() == if list.len() < k { list.len() + 1 } else { k }
            &&& forall|x: int| next.contains(x) ==> list.contains(x) || x == id
            &&& forall|x: int|
                (list.contains(x) || x == id) && !next.contains(x) ==> next.len() == k && key(
                    x,
                ) >= key(next.last())
            &&& next.len() == k && list.len() == k ==> key(next.last()) <= key(list.last())
            &&& list.no_duplicates() && !list.contains(id) ==> next.no_duplicates()
        }),
{
    let keys = list.map_values(key);
    let at = rank(keys, key(id));
    let next = place(key, list, k, id);
    lemma_rank(keys, key(id));
    let grown = list.insert(at, id);
    assert(grown.map_values(key) =~= keys.insert(at, key(id)));
    assert(ascending(grown.map_values(key)));
    assert forall|x: int| list.contains(x) || x == id implies grown.contains(x) by {
        if x == id {
            assert(grown[at] == id);
        } else {
            let i = choose|i: int| 0 <= i < list.len() && list[i] == x;
            if i < at {
                assert(grown[i] == x);
            } else {
                assert(grown[i + 1] == x);
            }
        }
    }
    assert forall|x: int| grown.contains(x) implies list.contains(x) || x == id by {
        let i = choose|i: int| 0 <= i < grown.len() && grown[i] == x;
        if i < at {
            assert(list[i] == x);
        } else if i > at {
            assert(list[i - 1] == x);
        }
    }
    if list.no_duplicates() && !list.contains(id) {
        assert forall|i: int, j: int|
            0 <= i < grown.len() && 0 <= j < grown.len() && i != j implies grown[i] != grown[j] by {
            let a = if i < at { i } else { i - 1 };
            let b = if j < at { j } else { j - 1 };
            if i != at && j != at {
                assert(list[a] != list[b]);
            } else if i == at {
                assert(list.contains(list[b]));
            } else {
                assert(list.contains(list[a]));
            }
        }
    }
    if list.len() == k && key(id) < key(list.last()) {
        assert(next == grown.drop_last());
        assert(next.map_values(key) =~= grown.map_values(key).drop_last());
        assert forall|x: int|
            (list.contains(x) || x == id) && !next.contains(x) implies key(x) >= key(
            next.last(),
        ) by {
            let i = choose|i: int| 0 <= i < grown.len() && grown[i] == x;
            if i < next.len() {
                assert(next[i] == x);
            }
            assert(grown.map_values(key)[i] >= grown.map_values(key)[k - 1]);
        }
        assert forall|x: int| next.contains(x) implies list.contains(x) || x == id by {
            let i = choose|i: int| 0 <= i < next.len() && next[i] == x;
            assert(grown[i] == x);
        }
        assert(grown.map_values(key)[k - 1] <= grown.map_values(key)[k as int]);
        assert(grown[k as int] == list.last());
    } else if list.len() == k {
        assert(next == list);
    }
}

/// The list holds the nearest candidates: as many as fit, in ascending order, each
/// of them offered and none twice, and no candidate left out is nearer than any that
/// is in.
pub proof fn lemma_nearest(key: spec_fn(int) -> i64, ids: Seq<int>, k: nat)
    requires
        k > 0,
    ensures
        ({
            let list = nearest(key, ids, k);
            &&& list.len() == if ids.len() < k { ids.len() } else { k }
            &&& ascending(list.map_values(key))
            &&& forall|x: int| list.contains(x) ==> ids.contains(x)
            &&& forall|x: int|
                ids.contains(x) && !list.contains(x) ==> list.len() == k && key(x) >= key(
                    list.last(),
                )
            &&& ids.no_duplicates() ==> list.no_duplicates()
        }),
    decreases ids.len(),
{
    if ids.len() > 0 {
        let init = ids.drop_last();
        lemma_nearest(key, init, k);
        let list = nearest(key, init, k);
        let next = nearest(key, ids, k);
        lemma_place(key, list, k, ids.last());
        assert forall|x: int| next.contains(x) implies ids.contains(x) by {
            if x == ids.last() {
                assert(ids[ids.len() - 1] == x);
            } else {
                let i = choose|i: int| 0 <= i < init.len() && init[i] == x;
                assert(ids[i] == x);
            }
        }
        assert forall|x: int| ids.contains(x) && !next.contains(x) implies next.len() == k && key(x)
            >= key(next.last()) by {
            let i = choose|i: int| 0 <= i < ids.len() && ids[i] == x;
            if i < init.len() {
                assert(init[i] == x);
            }
        }
        if ids.no_duplicates() {
            assert forall|i: int, j: int|
                0 <= i < init.len() && 0 <= j < init.len() && i != j implies init[i] != init[j] by {
                assert(ids[i] != ids[j]);
            }
            assert(!init.contains(ids.last())) by {
                if init.contains(ids.last()) {
                    let i = choose|i: int| 0 <= i < init.len() && init[i] == ids.last();
                    assert(ids[i] != ids[ids.len() - 1]);
                }
            }
        }
    }
}

/// A list with room for one candidate more holds the same candidates and, once it is full, one
/// more, the place of which is returned. That one is as far away as any.
proof fn lemma_one_more(key: spec_fn(int) -> i64, ids: Seq<int>, k: nat) -> (p: int)
    requires
        k > 0,
    ensures
        ({
            let small = nearest(key, ids, k);
            let large = nearest(key, ids, k + 1);
            &&& large.len() <= k ==> large == small
            &&& large.len() > k ==> {
                &&& 0 <= p < large.len()
                &&& large.remove(p) == small
                &&& key(large[p]) >= key(small.last())
            }
        }),
    decreases ids.len(),
{
    if ids.len() == 0 {
        0
    } else {
        let init = ids.drop_last();
        let id = ids.last();
        let d = key(id);
        let p = lemma_one_more(key, init, k);
        let s = nearest(key, init, k);
        let l = nearest(key, init, k + 1);
        let small = nearest(key, ids, k);
        let large = nearest(key, ids, k + 1);
        lemma_nearest(key, init, k);
        lemma_nearest(key, init, k + 1);
        let keys = s.map_values(key);
        let at = rank(keys, d);
        lemma_rank(keys, d);
        if l.len() < k {
            assert(large == small);
            0
        } else if l.len() == k {
            let grown = l.insert(at, id);
            assert(large == grown);
            if d < key(s.last()) {
                assert(at < k) by {
                    assert(keys[k - 1] == key(s.last()));
                }
                assert(large.remove(k as int) =~= small);
                assert(large[k as int] == s.last());
                assert(key(small.last()) <= key(s.last())) by {
                    if at < k - 1 {
                        assert(small.last() == s[k - 2]);
                        assert(keys[k - 2] <= keys[k - 1]);
                    } else {
                        assert(small.last() == id);
                    }
                }
                k as int
            } else {
                assert(large.remove(at) =~= s);
                at
            }
        } else {
            let far = l.map_values(key);
            let z = key(l[p]);
            assert forall|i: int| 0 <= i < k implies l[if i < p { i } else { i + 1 }]
                == #[trigger] s[i] by {
                assert(l.remove(p)[i] == s[i]);
            }
            assert forall|i: int| 0 <= i < k implies #[trigger] keys[i] <= z by {
                assert(keys[i] <= keys[k - 1]);
            }
            if d >= key(l.last()) {
                assert(far[p] <= far[k as int]);
                assert(large == l);
                assert(key(s.last()) <= d);
                assert(small == s);
                p
            } else if d >= key(s.last()) {
                // Only the one that is more is farther away than the candidate.
                assert(p == k) by {
                    if p < k {
                        assert(s[k - 1] == l[k as int]);
                    }
                }
                assert forall|i: int| 0 <= i < at implies far[i] < d by {
                    assert(keys[i] < d);
                }
                if at < k {
                    assert(far[at] == keys[at]);
                }
                lemma_rank_is(far, d, at);
                assert(large.remove(at) =~= s);
                assert(large[at] == id);
                at
            } else {
                assert(at < k) by {
                    assert(keys[k - 1] == key(s.last()));
                }
                assert(at <= p) by {
                    if p < at {
                        assert(keys[p] < d);
                        assert(far[p] <= far[p + 1]);
                        assert(s[p] == l[p + 1]);
                    }
                }
                assert forall|i: int| 0 <= i < at implies far[i] < d by {
                    assert(keys[i] < d);
                    assert(s[i] == l[i]);
                }
                assert(far[at] >= d) by {
                    if at < p {
                        assert(s[at] == l[at]);
                    }
                }
                lemma_rank_is(far, d, at);
                assert(key(small.last()) <= key(s.last())) by {
                    if at < k - 1 {
                        assert(small.last() == s[k - 2]);
                        assert(keys[k - 2] <= keys[k - 1]);
                    } else {
                        assert(small.last() == id);
                    }
                }
                if p == k {
                    assert(large =~= s.insert(at, id));
                    assert(large.remove(k as int) =~= small);
                    assert(large[k as int] == s.last());
                    k as int
                } else {
                    assert forall|i: int| 0 <= i < k implies large.remove(p + 1)[i]
                        == #[trigger] small[i] by {
                        if i < at {
                            assert(s[i] == l[i]);
                        } else if i > at {
                            assert(small[i] == s[i - 1]);
                            if i - 1 < p {
                                assert(s[i - 1] == l[i - 1]);
                            } else {
                                assert(s[i - 1] == l[i]);
                            }
                        }
                    }
                    assert(large.remove(p + 1) =~= small);
                    assert(large[p + 1] == l[p]);
                    p + 1
                }
            }
        }
    }
}

/// With room for more candidates, none is lost.
pub proof fn lemma_nearest_grows(key: spec_fn(int) -> i64, ids: Seq<int>, k: nat, m: nat)
    requires
        0 < k <= m,
    ensures
        forall|x: int|
            nearest(key, ids, k).contains(x) ==> #[trigger] nearest(key, ids, m).contains(x),
    decreases m - k,
{
    if k < m {
        lemma_nearest_grows(key, ids, k, (m - 1) as nat);
        let small = nearest(key, ids, (m - 1) as nat);
        let large = nearest(key, ids, m);
        let p = lemma_one_more(key, ids, (m - 1) as nat);
        assert forall|x: int| small.contains(x) implies #[trigger] large.contains(x) by {
            if large.len() == m {
                let i = choose|i: int| 0 <= i < small.len() && small[i] == x;
                assert(large.remove(p)[i] == x);
                assert(large[if i < p { i } else { i + 1 }] == x);
            }
        }
    }
}

/// Among more candidates the nearest are at least as near, one by one.
pub proof fn lemma_more_candidates(
    key: spec_fn(int) -> i64,
    ids: Seq<int>,
    more: Seq<int>,
    k: nat,
    j: int,
)
    requires
        k > 0,
        ids.no_duplicates(),
        more.no_duplicates(),
        forall|x: int| ids.contains(x) ==> #[trigger] more.contains(x),
        0 <= j < nearest(key, ids, k).len(),
    ensures
        j < nearest(key, more, k).len(),
        key(nearest(key, more, k)[j]) <= key(nearest(key, ids, k)[j]),
{
    let a = nearest(key, ids, k);
    let b = nearest(key, more, k);
    lemma_nearest(key, ids, k);
    lemma_nearest(key, more, k);
    ids.unique_seq_to_set();
    more.unique_seq_to_set();
    assert(ids.to_set().subset_of(more.to_set()));
    vstd::set_lib::lemma_len_subset(ids.to_set(), more.to_set());
    if key(b[j]) > key(a[j]) {
        // The first of `a` would all stand before place `j` of `b`, and are too many for that.
        let head = a.take(j + 1);
        let room = b.take(j);
        assert forall|x: int| head.contains(x) implies #[trigger] room.contains(x) by {
            let i = choose|i: int| 0 <= i < head.len() && head[i] == x;
            assert(a[i] == x);
            assert(a.map_values(key)[i] <= a.map_values(key)[j]);
            assert(a.contains(x));
            assert(more.contains(x));
            assert(b.map_values(key)[j] <= b.map_values(key)[b.len() - 1]);
            assert(b.contains(x));
            let p = choose|p: int| 0 <= p < b.len() && b[p] == x;
            if j <= p {
                assert(b.map_values(key)[j] <= b.map_values(key)[p]);
            }
            assert(room[p] == x);
        }
        assert(head.no_duplicates());
        head.unique_seq_to_set();
        assert(head.to_set().subset_of(room.to_set()));
        room.lemma_cardinality_of_set();
        vstd::set_lib::lemma_len_subset(head.to_set(), room.to_set());
    }
}

/// A table of distances and values stands for `list`: it holds the distance and the value
/// of each candidate in the list, and behind them the largest distance and a blank value.
pub open spec fn tabulates<T>(
    key: spec_fn(int) -> i64,
    value: spec_fn(int) -> T,
    blank: T,
    list: Seq<int>,
    dists: Seq<i64>,
    values: Seq<T>,
) -> bool {
    &&& list.len() <= dists.len()
    &&& dists.len() == values.len()
    &&& forall|j: int| 0 <= j < list.len() ==> dists[j] == key(list[j])
    &&& forall|j: int| 0 <= j < list.len() ==> values[j] == value(list[j])
    &&& forall|j: int| list.len() <= j < dists.len() ==> dists[j] == i64::MAX
    &&& forall|j: int| list.len() <= j < values.len() ==> values[j] == blank
}

/// To shift a candidate into the table is to place it in the list.
pub proof fn lemma_tabulates_place<T>(
    key: spec_fn(int) -> i64,
    value: spec_fn(int) -> T,
    blank: T,
    list: Seq<int>,
    dists: Seq<i64>,
    values: Seq<T>,
    id: int,
)
    requires
        tabulates(key, value, blank, list, dists, values),
        ascending(list.map_values(key)),
        dists.len() > 0,
        key(id) < i64::MAX,
    ensures
        ({
            let d = key(id);
            let next = place(key, list, dists.len(), id);
            let pos = rank(dists, d);
            &&& d >= dists.last() ==> next == list
            &&& d < dists.last() ==> tabulates(
                key,
                value,
                blank,
                next,
                shifted(dists, pos, d),
                shifted(values, pos, value(id)),
            )
        }),
{
    let d = key(id);
    let keys = list.map_values(key);
    let at = rank(keys, d);
    lemma_rank(keys, d);
    assert forall|i: int| 0 <= i < at implies dists[i] < d by {
        assert(keys[i] < d);
    }
    if at < keys.len() {
        assert(dists[at] == keys[at]);
    }
    lemma_rank_is(dists, d, at);
    if list.len() == dists.len() {
        assert(dists.last() == key(list.last()));
    }
}

/// A list of as many different numbers below its length as it has places holds each of them.
pub proof fn lemma_pigeonhole(s: Seq<int>, x: int)
    requires
        s.no_duplicates(),
        forall|p: int| 0 <= p < s.len() ==> 0 <= #[trigger] s[p] < s.len(),
        0 <= x < s.len(),
    ensures
        s.contains(x),
{
    let n = s.len() as int;
    let range = vstd::set_lib::set_int_range(0, n);
    vstd::set_lib::lemma_int_range(0, n);
    s.unique_seq_to_set();
    assert(s.to_set().subset_of(range));
    vstd::set_lib::lemma_subset_equality(s.to_set(), range);
    assert(range.contains(x));
    assert(s.to_set().contains(x));
}

/// The rows in another order.
pub open spec fn reordered<T>(rows: Seq<T>, order: Seq<int>) -> Seq<T> {
    Seq::new(order.len(), |p: int| rows[order[p]])
}

/// `order` lists the numbers below `n`, each once.
pub open spec fn permutes(order: Seq<int>, n: int) -> bool {
    &&& order.len() == n
    &&& order.no_duplicates()
    &&& forall|p: int| 0 <= p < n ==> 0 <= #[trigger] order[p] < n
}

/// A table of distances and values after the candidate with distance `d` and value `t` was
/// offered to it: it is turned away unless it is nearer than the last.
pub open spec fn inserted<T>(dists: Seq<i64>, values: Seq<T>, d: i64, t: T) -> (Seq<i64>, Seq<T>) {
    if d >= dists.last() {
        (dists, values)
    } else {
        (shifted(dists, rank(dists, d), d), shifted(values, rank(dists, d), t))
    }
}

/// A candidate that is offered to a table goes in front of the first entry that is not nearer,
/// at `pos`, and its value with it; what stood there and behind moves back by one place, and
/// the last entry goes. A candidate that is not nearer than the last leaves the table as it is.
pub proof fn lemma_inserted<T>(dists: Seq<i64>, values: Seq<T>, d: i64, t: T, pos: int)
    requires
        dists.len() == values.len(),
        0 <= pos < dists.len(),
        forall|i: int| 0 <= i < pos ==> dists[i] < d,
        dists[pos] >= d,
    ensures
        ({
            let (new_dists, new_values) = inserted(dists, values, d, t);
            &&& new_dists.len() == dists.len() && new_values.len() == values.len()
            &&& d >= dists[dists.len() - 1] ==> new_dists == dists && new_values == values
            &&& d < dists[dists.len() - 1] ==> {
                &&& new_dists[pos] == d && new_values[pos] == t
                &&& forall|i: int|
                    0 <= i < pos ==> new_dists[i] == dists[i] && new_values[i] == values[i]
                &&& forall|i: int|
                    pos < i < dists.len() ==> new_dists[i] == dists[i - 1] && new_values[i]
                        == values[i - 1]
            }
        }),
{
    lemma_rank_is(dists, d, pos);
}

/// A candidate that is not nearer than any entry leaves the table as it is.
pub proof fn lemma_inserted_last<T>(dists: Seq<i64>, values: Seq<T>, d: i64, t: T)
    requires
        dists.len() > 0,
        d >= dists[dists.len() - 1],
    ensures
        inserted(dists, values, d, t) == (dists, values),
{
}

/// The nearest of no candidates are none. One candidate more goes in front of the first that
/// is not nearer than it, at `pos`; a full list then loses its last, and is left as it is by a
/// candidate that is not nearer than that.
pub proof fn lemma_nearest_step(
    key: spec_fn(int) -> i64,
    ids: Seq<int>,
    k: nat,
    id: int,
    pos: int,
)
    requires
        k > 0,
        0 <= pos <= nearest(key, ids, k).len(),
        forall|i: int| 0 <= i < pos ==> key(nearest(key, ids, k)[i]) < key(id),
        pos < nearest(key, ids, k).len() ==> key(nearest(key, ids, k)[pos]) >= key(id),
    ensures
        nearest(key, Seq::empty(), k).len() == 0,
        ({
            let old_list = nearest(key, ids, k);
            let list = nearest(key, ids.push(id), k);
            &&& old_list.len() < k ==> list.len() == old_list.len() + 1
            &&& old_list.len() >= k ==> list.len() == old_list.len()
            &&& old_list.len() >= k && key(id) >= key(old_list[old_list.len() - 1]) ==> list
                == old_list
            &&& old_list.len() < k || key(id) < key(old_list[old_list.len() - 1]) ==> {
                &&& list[pos] == id
                &&& forall|i: int| 0 <= i < pos ==> list[i] == old_list[i]
                &&& forall|i: int| pos < i < list.len() ==> list[i] == old_list[i - 1]
            }
        }),
{
    let old_list = nearest(key, ids, k);
    assert(ids.push(id).drop_last() =~= ids);
    lemma_nearest(key, ids, k);
    let keys = old_list.map_values(key);
    assert forall|i: int| 0 <= i < pos implies keys[i] < key(id) by {}
    lemma_rank_is(keys, key(id), pos);
    if old_list.len() == k && key(id) < key(old_list[old_list.len() - 1]) {
        assert(pos < old_list.len());
    }
}

/// The distances and labels of the five nearest after the `offers`, one after the other, were
/// made to a table without any.
pub open spec fn offered(offers: Seq<(i64, u8)>) -> (Seq<i64>, Seq<u8>)
    decreases offers.len(),
{
    if offers.len() == 0 {
        (Seq::new(5, |j: int| i64::MAX), Seq::new(5, |j: int| 0u8))
    } else {
        let before = offered(offers.drop_last());
        inserted(before.0, before.1, offers.last().0, offers.last().1)
    }
}

/// The distance of each offer.
spec fn offer_key(offers: Seq<(i64, u8)>) -> spec_fn(int) -> i64 {
    |i: int| offers[i].0
}

/// The label of each offer.
spec fn offer_label(offers: Seq<(i64, u8)>) -> spec_fn(int) -> u8 {
    |i: int| offers[i].1
}

/// The table after the offers `ids` stands for the nearest of them.
proof fn lemma_offered_tabulates(offers: Seq<(i64, u8)>, ids: Seq<int>)
    requires
        forall|i: int| 0 <= i < offers.len() ==> (#[trigger] offers[i]).0 < i64::MAX,
        forall|p: int| 0 <= p < ids.len() ==> 0 <= #[trigger] ids[p] < offers.len(),
    ensures
        ({
            let table = offered(reordered(offers, ids));
            &&& table.0.len() == 5
            &&& tabulates(
                offer_key(offers),
                offer_label(offers),
                0u8,
                nearest(offer_key(offers), ids, 5),
                table.0,
                table.1,
            )
        }),
    decreases ids.len(),
{
    let all = reordered(offers, ids);
    if ids.len() > 0 {
        let init = ids.drop_last();
        let id = ids.last();
        assert forall|p: int| 0 <= p < init.len() implies 0 <= #[trigger] init[p]
            < offers.len() by {
            assert(0 <= ids[p] < offers.len());
        }
        assert(0 <= ids[ids.len() - 1] < offers.len());
        lemma_offered_tabulates(offers, init);
        assert(all.drop_last() =~= reordered(offers, init));
        assert(all.last() == offers[id]);
        let before = offered(reordered(offers, init));
        let key = offer_key(offers);
        lemma_nearest(key, init, 5);
        lemma_tabulates_place(
            key,
            offer_label(offers),
            0u8,
            nearest(key, init, 5),
            before.0,
            before.1,
            id,
        );
        lemma_rank(before.0, key(id));
    }
}

/// A run of offers leaves the smallest distances in ascending order, at most five, each with
/// the label that it was offered with, and behind them the largest distance and zero: some
/// different ones of the offers, as many as fit, and none left out is nearer than any of them.
pub proof fn lemma_offered_smallest(offers: Seq<(i64, u8)>) -> (list: Seq<int>)
    requires
        forall|i: int| 0 <= i < offers.len() ==> (#[trigger] offers[i]).0 < i64::MAX,
    ensures
        ({
            let (dists, labels) = offered(offers);
            &&& dists.len() == 5 && labels.len() == 5
            &&& ascending(dists)
            &&& forall|i: int, j: int| 0 <= i <= j < 5 ==> dists[i] <= dists[j]
            &&& list.len() == if offers.len() < 5 { offers.len() } else { 5 }
            &&& list.no_duplicates()
            &&& forall|j: int|
                0 <= j < list.len() ==> 0 <= #[trigger] list[j] < offers.len() && dists[j]
                    == offers[list[j]].0 && labels[j] == offers[list[j]].1
            &&& forall|j: int| list.len() <= j < 5 ==> dists[j] == i64::MAX && labels[j] == 0
            &&& forall|i: int, j: int|
                0 <= i < offers.len() && !list.contains(i) && 0 <= j < list.len() ==> (
                #[trigger] offers[i]).0 >= #[trigger] dists[j]
        }),
{
    let ids = Seq::new(offers.len(), |i: int| i);
    let key = offer_key(offers);
    let list = nearest(key, ids, 5);
    assert(reordered(offers, ids) =~= offers);
    lemma_offered_tabulates(offers, ids);
    lemma_nearest(key, ids, 5);
    let dists = offered(offers).0;
    let keys = list.map_values(key);
    assert forall|j: int| 0 <= j < list.len() implies 0 <= #[trigger] list[j] < offers.len() by {
        assert(list.contains(list[j]));
    }
    assert forall|i: int, j: int| 0 <= i <= j < dists.len() implies dists[i] <= dists[j] by {
        if j < list.len() {
            assert(keys[i] <= keys[j]);
        }
    }
    assert forall|i: int, j: int|
        0 <= i < offers.len() && !list.contains(i) && 0 <= j < list.len() implies (
    #[trigger] offers[i]).0 >= #[trigger] dists[j] by {
        assert(ids[i] == i);
        assert(ids.contains(i));
        assert(keys[j] <= keys[list.len() - 1]);
    }
    list
}

/// A run of offers leaves the same distances whatever its order and, where no two distances are
/// equal, the same labels.
pub proof fn lemma_offers_in_any_order(offers: Seq<(i64, u8)>, order: Seq<int>)
    requires
        forall|i: int| 0 <= i < offers.len() ==> (#[trigger] offers[i]).0 < i64::MAX,
        permutes(order, offers.len() as int),
    ensures
        offered(reordered(offers, order)).0 == offered(offers).0,
        (forall|i: int, j: int|
            0 <= i < j < offers.len() ==> (#[trigger] offers[i]).0 != (#[trigger] offers[j]).0)
            ==> offered(reordered(offers, order)).1 == offered(offers).1,
{
    let ids = Seq::new(offers.len(), |i: int| i);
    let key = offer_key(offers);
    let a = nearest(key, ids, 5);
    let b = nearest(key, order, 5);
    let ta = offered(offers);
    let tb = offered(reordered(offers, order));
    assert(reordered(offers, ids) =~= offers);
    lemma_offered_tabulates(offers, ids);
    lemma_offered_tabulates(offers, order);
    lemma_nearest(key, ids, 5);
    lemma_nearest(key, order, 5);
    assert forall|x: int| ids.contains(x) implies #[trigger] order.contains(x) by {
        lemma_pigeonhole(order, x);
    }
    assert forall|x: int| order.contains(x) implies #[trigger] ids.contains(x) by {
        let p = choose|p: int| 0 <= p < order.len() && order[p] == x;
        assert(ids[x] == x);
    }
    assert forall|j: int| 0 <= j < a.len() implies key(#[trigger] a[j]) == key(b[j]) by {
        lemma_more_candidates(key, ids, order, 5, j);
        lemma_more_candidates(key, order, ids, 5, j);
    }
    assert(tb.0 =~= ta.0) by {
        assert forall|j: int| 0 <= j < 5 implies tb.0[j] == ta.0[j] by {
            if j < a.len() {
                assert(key(a[j]) == key(b[j]));
            }
        }
    }
    if forall|i: int, j: int|
        0 <= i < j < offers.len() ==> (#[trigger] offers[i]).0 != (#[trigger] offers[j]).0 {
        assert forall|j: int| 0 <= j < 5 implies tb.1[j] == ta.1[j] by {
            if j < a.len() {
                assert(key(a[j]) == key(b[j]));
                assert(a.contains(a[j]) && b.contains(b[j]));
                assert(ids.contains(a[j]) && ids.contains(b[j]));
                if a[j] < b[j] {
                    assert(offers[a[j]].0 != offers[b[j]].0);
                } else if b[j] < a[j] {
                    assert(offers[b[j]].0 != offers[a[j]].0);
                }
            }
        }
        assert(tb.1 =~= ta.1);
    }
}

/// Puts `t` in at `pos`, moves what stood there and behind it back by one place, and
/// drops the last entry.
fn shift_in<T: Copy>(s: &mut [T], pos: usize, t: T)
    requires
        pos < old(s)@.len(),
    ensures
        final(s)@ == shifted(old(s)@, pos as int, t),
{
    let n = s.len();
    let mut i: usize = n - 1;
    while i > pos
        invariant
            pos <= i < n,
            n == s@.len(),
            s@.len() == old(s)@.len(),
            forall|j: int| 0 <= j <= i ==> s@[j] == old(s)@[j],
            forall|j: int| i < j < n ==> s@[j] == old(s)@[j - 1],
        decreases i,
    {
        s[i] = s[i - 1];
        i -= 1;
    }
    s[pos] = t;
    assert(s@ =~= shifted(old(s)@, pos as int, t));
}

/// The place of `d` in the ascending `dists`, in front of the entries that equal it.
fn position(dists: &[i64], d: i64) -> (pos: usize)
    requires
        ascending(dists@),
    ensures
        pos == rank(dists@, d),
{
    let mut pos: usize = 0;
    while pos < dists.len() && dists[pos] < d
        invariant
            pos <= dists@.len(),
            forall|i: int| 0 <= i < pos ==> dists@[i] < d,
        decreases dists@.len() - pos,
    {
        pos += 1;
    }
    proof {
        lemma_rank_is(dists@, d, pos as int);
    }
    pos
}

/// Offers a reference with distance `d` and label `is_fraud` to the five nearest.
/// It is turned away unless it is nearer than the fifth.
pub fn insert_heap5(dists: &mut [i64; 5], frauds: &mut [u8; 5], d: i64, is_fraud: u8)
    requires
        ascending(old(dists)@),
    ensures
        (final(dists)@, final(frauds)@) == inserted(old(dists)@, old(frauds)@, d, is_fraud),
        ascending(final(dists)@),
{
    if d >= dists[4] {
        return ;
    }
    let pos = position(dists, d);
    proof {
        lemma_rank(dists@, d);
    }
    shift_in(dists, pos, d);
    shift_in(frauds, pos, is_fraud);
}

/// Offers the cluster `id`, whose centroid has distance `d`, to the nearest clusters.
/// It is turned away unless it is nearer than the last of them.
pub fn insert_top(dists: &mut [i64], ids: &mut [u32], d: i64, id: u32)
    requires
        old(dists)@.len() > 0,
        ascending(old(dists)@),
        d < old(dists)@.last() ==> rank(old(dists)@, d) < old(ids)@.len(),
    ensures
        (final(dists)@, final(ids)@) == inserted(old(dists)@, old(ids)@, d, id),
        ascending(final(dists)@),
{
    let k = dists.len();
    if d >= dists[k - 1] {
        return ;
    }
    let pos = position(dists, d);
    proof {
        lemma_rank(dists@, d);
    }
    shift_in(dists, pos, d);
    shift_in(ids, pos, id);
}

} // verus!
