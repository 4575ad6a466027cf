//! The binary form of an index, all numbers little-endian:
//!
//! | part      | bytes                                                             |
//! |-----------|-------------------------------------------------------------------|
//! | header    | magic (8), clusters (4), probes (4), vectors (4), lanes (4), zeros (8) |
//! | centroids | 32 for each cluster                                               |
//! | offsets   | 4 for each cluster, and 4 more                                    |
//! | vectors   | 32 for each vector                                                |
//! | labels    | 1 for each vector                                                 |
use vstd::prelude::*;

verus! {

/// The number that opens an index.
pub const MAGIC: u64 = 0x52_4E_48_41_32_30_32_36;

/// The length of the header.
pub const HEADER_LEN: usize = 32;

/// What an index holds: the centroid of each cluster, the place of each cluster's first
/// vector (and, last, the place behind the last vector), and the vectors with their labels.
#[verifier::ext_equal]
pub struct Contents {
    pub centroids: Seq<Seq<i16>>,
    pub offsets: Seq<u32>,
    pub vectors: Seq<Seq<i16>>,
    pub labels: Seq<u8>,
}

/// The sixteen-bit number at `at`, in two's complement.
pub open spec fn i16_at(b: Seq<u8>, at: int) -> i16 {
    let w = b[at] + 0x100 * b[at + 1];
    (if w < 0x8000 {
        w
    } else {
        w - 0x1_0000
    }) as i16
}

/// The thirty-two-bit number at `at`.
pub open spec fn u32_at(b: Seq<u8>, at: int) -> u32 {
    (b[at] + 0x100 * b[at + 1] + 0x1_0000 * b[at + 2] + 0x100_0000 * b[at + 3]) as u32
}

/// The sixty-four-bit number at `at`.
pub open spec fn u64_at(b: Seq<u8>, at: int) -> u64 {
    (u32_at(b, at) + 0x1_0000_0000 * u32_at(b, at + 4)) as u64
}

/// The vector of sixteen lanes at `at`.
pub open spec fn vector_at(b: Seq<u8>, at: int) -> Seq<i16> {
    Seq::new(16, |i: int| i16_at(b, at + 2 * i))
}

/// The number of clusters that the header gives.
pub open spec fn header_nlist(b: Seq<u8>) -> int {
    u32_at(b, 8) as int
}

/// The number of vectors that the header gives.
pub open spec fn header_vectors(b: Seq<u8>) -> int {
    u32_at(b, 16) as int
}

/// Where the offsets begin.
pub open spec fn offsets_start(nlist: int) -> int {
    HEADER_LEN + 32 * nlist
}

/// Where the vectors begin.
pub open spec fn vectors_start(nlist: int) -> int {
    offsets_start(nlist) + 4 * (nlist + 1)
}

/// Where the labels begin.
pub open spec fn labels_start(nlist: int, n: int) -> int {
    vectors_start(nlist) + 32 * n
}

/// The length of an index that is not empty.
pub open spec fn index_len(nlist: int, n: int) -> int {
    labels_start(nlist, n) + n
}

/// `b` holds an index: a header with the magic number and, unless the header gives no
/// vectors, every part that it announces.
pub open spec fn holds_index(b: Seq<u8>) -> bool {
    &&& b.len() >= HEADER_LEN
    &&& u64_at(b, 0) == MAGIC
    &&& header_vectors(b) == 0 || index_len(header_nlist(b), header_vectors(b)) <= b.len()
}

/// What the index in `b` holds. Without vectors it holds no clusters either.
pub open spec fn contents(b: Seq<u8>) -> Contents {
    let nlist = header_nlist(b);
    let n = header_vectors(b);
    if n == 0 {
        Contents {
            centroids: Seq::empty(),
            offsets: Seq::empty(),
            vectors: Seq::empty(),
            labels: Seq::empty(),
        }
    } else {
        Contents {
            centroids: Seq::new(nlist as nat, |c: int| vector_at(b, HEADER_LEN + 32 * c)),
            offsets: Seq::new((nlist + 1) as nat, |c: int| u32_at(b, offsets_start(nlist) + 4 * c)),
            vectors: Seq::new(n as nat, |i: int| vector_at(b, vectors_start(nlist) + 32 * i)),
            labels: Seq::new(n as nat, |i: int| b[labels_start(nlist, n) + i]),
        }
    }
}

/// Numbers stand with their lowest byte first; one of sixteen bits is in two's complement.
pub proof fn lemma_little_endian(b: Seq<u8>, at: int)
    ensures
        (i16_at(b, at) - (b[at] + 256 * b[at + 1])) % 65536 == 0,
        u32_at(b, at) == b[at] + 256 * b[at + 1] + 65536 * b[at + 2] + 16777216 * b[at + 3],
        u64_at(b, at) == u32_at(b, at) + 4294967296 * u32_at(b, at + 4),
        vector_at(b, at).len() == 16,
        forall|l: int|
            0 <= l < 16 ==> (#[trigger] vector_at(b, at)[l] - (b[at + 2 * l] + 256 * b[at + 2 * l
                + 1])) % 65536 == 0,
{
}

/// Bytes hold an index exactly where the first eight are those of the magic number and, unless
/// the header gives no vectors, there are as many bytes as all its parts take.
pub proof fn lemma_which_bytes_hold_an_index(b: Seq<u8>, nlist: int, n: int)
    requires
        b.len() >= 32 ==> nlist == b[8] + 256 * b[9] + 65536 * b[10] + 16777216 * b[11],
        b.len() >= 32 ==> n == b[16] + 256 * b[17] + 65536 * b[18] + 16777216 * b[19],
    ensures
        holds_index(b) <==> {
            &&& b.len() >= 32
            &&& b[0] == 0x36 && b[1] == 0x32 && b[2] == 0x30 && b[3] == 0x32
            &&& b[4] == 0x41 && b[5] == 0x48 && b[6] == 0x4E && b[7] == 0x52
            &&& n == 0 || 36 + 36 * nlist + 33 * n <= b.len()
        },
        index_len(nlist, n) == 36 + 36 * nlist + 33 * n,
{
    if b.len() >= 32 {
        assert(header_nlist(b) == nlist && header_vectors(b) == n);
        lemma_magic(b);
    }
}

/// The magic number in two halves.
proof fn lemma_halves(lo: u32, hi: u32)
    ensures
        lo + 0x1_0000_0000 * hi == MAGIC <==> lo == 0x3230_3236 && hi == 0x524E_4841,
{
}

/// The magic number in bytes.
proof fn lemma_magic(b: Seq<u8>)
    ensures
        u64_at(b, 0) == MAGIC <==> b[0] == 0x36 && b[1] == 0x32 && b[2] == 0x30 && b[3] == 0x32
            && b[4] == 0x41 && b[5] == 0x48 && b[6] == 0x4E && b[7] == 0x52,
{
    let lo = u32_at(b, 0);
    let hi = u32_at(b, 4);
    assert(u64_at(b, 0) == lo + 0x1_0000_0000 * hi);
    lemma_halves(lo, hi);
    assert(lo == 0x3230_3236 <==> b[0] == 0x36 && b[1] == 0x32 && b[2] == 0x30 && b[3]
        == 0x32) by {
        lemma_same_u32(b, 0, 0x36, 0x32, 0x30, 0x32);
    }
    assert(hi == 0x524E_4841 <==> b[4] == 0x41 && b[5] == 0x48 && b[6] == 0x4E && b[7]
        == 0x52) by {
        lemma_same_u32(b, 4, 0x41, 0x48, 0x4E, 0x52);
    }
}

/// A number of thirty-two bits has only one spelling in bytes.
proof fn lemma_same_u32(b: Seq<u8>, at: int, b0: u8, b1: u8, b2: u8, b3: u8)
    ensures
        u32_at(b, at) == b0 + 256 * b1 + 65536 * b2 + 16777216 * b3 <==> b[at] == b0 && b[at + 1]
            == b1 && b[at + 2] == b2 && b[at + 3] == b3,
{
    if u32_at(b, at) == b0 + 256 * b1 + 65536 * b2 + 16777216 * b3 {
        assert(b[at] == b0);
        assert(b[at + 1] == b1);
        assert(b[at + 2] == b2);
    }
}

/// Where the parts of an index stand: the centroids behind the 32 bytes of the header, 32 bytes
/// each; then one offset more than there are clusters, four bytes each; then the vectors, 32
/// bytes each; then the labels.
pub proof fn lemma_where_parts_stand(b: Seq<u8>, nlist: int, n: int)
    requires
        nlist == b[8] + 256 * b[9] + 65536 * b[10] + 16777216 * b[11],
        n == b[16] + 256 * b[17] + 65536 * b[18] + 16777216 * b[19],
    ensures
        n == 0 ==> contents(b).centroids.len() == 0 && contents(b).offsets.len() == 0 && contents(
            b,
        ).vectors.len() == 0 && contents(b).labels.len() == 0,
        n > 0 ==> {
            let c = contents(b);
            &&& c.centroids.len() == nlist && c.offsets.len() == nlist + 1
            &&& c.vectors.len() == n && c.labels.len() == n
            &&& forall|k: int|
                0 <= k < nlist ==> #[trigger] c.centroids[k] == vector_at(b, 32 + 32 * k)
            &&& forall|k: int|
                0 <= k <= nlist ==> #[trigger] c.offsets[k] == u32_at(b, 32 + 32 * nlist + 4 * k)
            &&& forall|i: int|
                0 <= i < n ==> #[trigger] c.vectors[i] == vector_at(b, 36 + 36 * nlist + 32 * i)
            &&& forall|i: int|
                0 <= i < n ==> #[trigger] c.labels[i] == b[36 + 36 * nlist + 32 * n + i]
        },
{
}

/// Reads the sixteen-bit number at `at`.
pub fn read_i16(b: &[u8], at: usize) -> (x: i16)
    requires
        at + 2 <= b@.len(),
    ensures
        x == i16_at(b@, at as int),
{
    let w: i32 = b[at] as i32 + 0x100 * (b[at + 1] as i32);
    if w < 0x8000 {
        w as i16
    } else {
        (w - 0x1_0000) as i16
    }
}

/// Reads the thirty-two-bit number at `at`.
pub fn read_u32(b: &[u8], at: usize) -> (x: u32)
    requires
        at + 4 <= b@.len(),
    ensures
        x == u32_at(b@, at as int),
{
    b[at] as u32 + 0x100 * (b[at + 1] as u32) + 0x1_0000 * (b[at + 2] as u32) + 0x100_0000 * (b[at
        + 3] as u32)
}

/// Reads the sixty-four-bit number at `at`.
pub fn read_u64(b: &[u8], at: usize) -> (x: u64)
    requires
        at + 8 <= b@.len(),
    ensures
        x == u64_at(b@, at as int),
{
    assert(b.len() == b@.len());
    read_u32(b, at) as u64 + 0x1_0000_0000 * (read_u32(b, at + 4) as u64)
}

/// Reads the vector at `at`.
pub fn read_vector(b: &[u8], at: usize) -> (v: [i16; 16])
    requires
        at + 32 <= b@.len(),
    ensures
        v@ == vector_at(b@, at as int),
{
    let mut v: [i16; 16] = [0; 16];
    let mut i: usize = 0;
    assert(b.len() == b@.len());
    while i < 16
        invariant
            i <= 16,
            at + 32 <= b@.len() <= usize::MAX,
            forall|j: int| 0 <= j < i ==> v@[j] == i16_at(b@, at + 2 * j),
        decreases 16 - i,
    {
        v[i] = read_i16(b, at + 2 * i);
        i += 1;
    }
    assert(v@ =~= vector_at(b@, at as int));
    v
}

/// Tells whether `b` holds an index.
pub fn is_index(b: &[u8]) -> (r: bool)
    ensures
        r == holds_index(b@),
{
    if b.len() < HEADER_LEN || read_u64(b, 0) != MAGIC {
        return false;
    }
    let nlist: u64 = read_u32(b, 8) as u64;
    let n: u64 = read_u32(b, 16) as u64;
    n == 0 || HEADER_LEN as u64 + 32 * nlist + 4 * (nlist + 1) + 32 * n + n <= b.len() as u64
}

/// `b` begins with `a`.
pub open spec fn extends(a: Seq<u8>, b: Seq<u8>) -> bool {
    &&& a.len() <= b.len()
    &&& forall|i: int| 0 <= i < a.len() ==> #[trigger] b[i] == a[i]
}

/// The `rows` stand in `b` from `start` on.
pub open spec fn has_vectors(b: Seq<u8>, start: int, rows: Seq<Seq<i16>>) -> bool {
    &&& start + 32 * rows.len() <= b.len()
    &&& forall|i: int| 0 <= i < rows.len() ==> vector_at(b, start + 32 * i) == #[trigger] rows[i]
}

/// The numbers `xs` stand in `b` from `start` on.
pub open spec fn has_u32s(b: Seq<u8>, start: int, xs: Seq<u32>) -> bool {
    &&& start + 4 * xs.len() <= b.len()
    &&& forall|i: int| 0 <= i < xs.len() ==> u32_at(b, start + 4 * i) == #[trigger] xs[i]
}

/// The bytes `xs` stand in `b` from `start` on.
pub open spec fn has_bytes(b: Seq<u8>, start: int, xs: Seq<u8>) -> bool {
    &&& start + xs.len() <= b.len()
    &&& forall|i: int| 0 <= i < xs.len() ==> b[start + i] == #[trigger] xs[i]
}

/// What is read of a vector does not depend on what follows it.
pub proof fn lemma_vector_stays(a: Seq<u8>, b: Seq<u8>, at: int)
    requires
        extends(a, b),
        0 <= at <= a.len() - 32,
    ensures
        vector_at(b, at) == vector_at(a, at),
{
    let va = vector_at(a, at);
    let vb = vector_at(b, at);
    assert forall|i: int| 0 <= i < 16 implies #[trigger] vb[i] == va[i] by {
        assert(b[at + 2 * i] == a[at + 2 * i]);
        assert(b[at + 2 * i + 1] == a[at + 2 * i + 1]);
    }
    assert(vb =~= va);
}

/// Vectors stay where they stand when more is appended.
pub proof fn lemma_vectors_stay(a: Seq<u8>, b: Seq<u8>, start: int, rows: Seq<Seq<i16>>)
    requires
        extends(a, b),
        0 <= start,
        has_vectors(a, start, rows),
    ensures
        has_vectors(b, start, rows),
{
    assert forall|i: int| 0 <= i < rows.len() implies vector_at(b, start + 32 * i)
        == #[trigger] rows[i] by {
        lemma_vector_stays(a, b, start + 32 * i);
    }
}

/// Numbers stay where they stand when more is appended.
pub proof fn lemma_u32s_stay(a: Seq<u8>, b: Seq<u8>, start: int, xs: Seq<u32>)
    requires
        extends(a, b),
        0 <= start,
        has_u32s(a, start, xs),
    ensures
        has_u32s(b, start, xs),
{
    assert forall|i: int| 0 <= i < xs.len() implies u32_at(b, start + 4 * i)
        == #[trigger] xs[i] by {
        let at = start + 4 * i;
        assert(u32_at(a, at) == xs[i]);
        assert(b[at] == a[at] && b[at + 1] == a[at + 1] && b[at + 2] == a[at + 2] && b[at + 3]
            == a[at + 3]);
    }
}

/// Appends a number of sixteen bits.
pub fn push_i16(out: &mut Vec<u8>, x: i16)
    ensures
        extends(old(out)@, final(out)@),
        final(out)@.len() == old(out)@.len() + 2,
        i16_at(final(out)@, old(out)@.len() as int) == x,
{
    let w: i32 = if x < 0 {
        x as i32 + 0x1_0000
    } else {
        x as i32
    };
    out.push((w % 0x100) as u8);
    out.push((w / 0x100) as u8);
}

/// Appends a number of thirty-two bits.
pub fn push_u32(out: &mut Vec<u8>, x: u32)
    ensures
        extends(old(out)@, final(out)@),
        final(out)@.len() == old(out)@.len() + 4,
        u32_at(final(out)@, old(out)@.len() as int) == x,
{
    out.push((x % 0x100) as u8);
    out.push((x / 0x100 % 0x100) as u8);
    out.push((x / 0x1_0000 % 0x100) as u8);
    out.push((x / 0x100_0000) as u8);
}

/// Appends a vector.
pub fn push_vector(out: &mut Vec<u8>, v: &[i16; 16])
    ensures
        extends(old(out)@, final(out)@),
        final(out)@.len() == old(out)@.len() + 32,
        vector_at(final(out)@, old(out)@.len() as int) == v@,
{
    let ghost start = out@.len() as int;
    let mut i: usize = 0;
    while i < 16
        invariant
            i <= 16,
            start == old(out)@.len(),
            out@.len() == start + 2 * i,
            extends(old(out)@, out@),
            forall|j: int| 0 <= j < i ==> i16_at(out@, start + 2 * j) == #[trigger] v@[j],
        decreases 16 - i,
    {
        let ghost before = out@;
        push_i16(out, v[i]);
        proof {
            assert forall|j: int| 0 <= j < i implies i16_at(out@, start + 2 * j)
                == #[trigger] v@[j] by {
                assert(i16_at(before, start + 2 * j) == v@[j]);
                assert(out@[start + 2 * j] == before[start + 2 * j]);
                assert(out@[start + 2 * j + 1] == before[start + 2 * j + 1]);
            }
        }
        i += 1;
    }
    assert(vector_at(out@, start) =~= v@);
}

/// The header of an index of `n` vectors in `nlist` clusters, which is asked to probe `probes`.
pub open spec fn is_header(b: Seq<u8>, nlist: int, probes: int, n: int) -> bool {
    &&& b.len() >= HEADER_LEN
    &&& u64_at(b, 0) == MAGIC
    &&& u32_at(b, 8) == nlist
    &&& u32_at(b, 12) == probes
    &&& u32_at(b, 16) == n
    &&& u32_at(b, 20) == 16
    &&& forall|i: int| 24 <= i < 32 ==> b[i] == 0
}

/// A header gives the magic number, the clusters, the probes, the vectors and the sixteen lanes
/// of a vector, one behind the other, and ends in zeros.
pub proof fn lemma_header(b: Seq<u8>, nlist: int, probes: int, n: int)
    ensures
        is_header(b, nlist, probes, n) <==> {
            &&& b.len() >= 32
            &&& b[0] == 0x36 && b[1] == 0x32 && b[2] == 0x30 && b[3] == 0x32
            &&& b[4] == 0x41 && b[5] == 0x48 && b[6] == 0x4E && b[7] == 0x52
            &&& u32_at(b, 8) == nlist
            &&& u32_at(b, 12) == probes
            &&& u32_at(b, 16) == n
            &&& u32_at(b, 20) == 16
            &&& forall|i: int| 24 <= i < 32 ==> #[trigger] b[i] == 0
        },
{
    lemma_magic(b);
}

/// A header stays one when more is appended.
pub proof fn lemma_header_stays(a: Seq<u8>, b: Seq<u8>, nlist: int, probes: int, n: int)
    requires
        extends(a, b),
        is_header(a, nlist, probes, n),
    ensures
        is_header(b, nlist, probes, n),
{
    assert forall|i: int| 0 <= i < 32 implies b[i] == a[i] by {}
}

/// The header of an index.
pub fn header(nlist: u32, probes: u32, n: u32) -> (out: Vec<u8>)
    ensures
        out@.len() == HEADER_LEN,
        is_header(out@, nlist as int, probes as int, n as int),
{
    let mut out: Vec<u8> = Vec::new();
    let lo = (MAGIC % 0x1_0000_0000) as u32;
    let hi = (MAGIC / 0x1_0000_0000) as u32;
    push_u32(&mut out, lo);
    push_u32(&mut out, hi);
    push_u32(&mut out, nlist);
    push_u32(&mut out, probes);
    push_u32(&mut out, n);
    push_u32(&mut out, 16);
    push_u32(&mut out, 0);
    push_u32(&mut out, 0);
    out
}

} // verus!
