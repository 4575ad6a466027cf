//! First occurrences in byte strings, as the `memchr` crate finds them.
use vstd::prelude::*;

verus! {

/// `needle` stands in `haystack` at `at`.
pub open spec fn occurs_at(haystack: Seq<u8>, needle: Seq<u8>, at: int) -> bool {
    &&& 0 <= at
    &&& at + needle.len() <= haystack.len()
    &&& haystack.subrange(at, at + needle.len()) == needle
}

/// `needle` stands in `haystack` at `at`, and nowhere before.
pub open spec fn occurs_first(haystack: Seq<u8>, needle: Seq<u8>, at: int) -> bool {
    &&& occurs_at(haystack, needle, at)
    &&& forall|before: int| 0 <= before < at ==> !occurs_at(haystack, needle, before)
}

/// `needle` stands somewhere in `haystack`.
pub open spec fn contains(haystack: Seq<u8>, needle: Seq<u8>) -> bool {
    exists|at: int| occurs_at(haystack, needle, at)
}

/// Where `needle` first stands in `haystack`.
pub open spec fn first_match(haystack: Seq<u8>, needle: Seq<u8>) -> Option<int> {
    if exists|at: int| occurs_first(haystack, needle, at) {
        Some(choose|at: int| occurs_first(haystack, needle, at))
    } else {
        None
    }
}

/// Where the byte `b` first stands in `haystack`.
pub open spec fn first_byte(haystack: Seq<u8>, b: u8) -> Option<int> {
    first_match(haystack, seq![b])
}

/// There is only one first occurrence.
pub proof fn lemma_first_match(haystack: Seq<u8>, needle: Seq<u8>, at: int)
    requires
        occurs_first(haystack, needle, at),
    ensures
        first_match(haystack, needle) == Some(at),
{
    let other = choose|other: int| occurs_first(haystack, needle, other);
    if other < at {
        assert(!occurs_at(haystack, needle, other));
    }
    if at < other {
        assert(!occurs_at(haystack, needle, at));
    }
}

/// A byte stands where the string of that byte alone stands.
pub proof fn lemma_byte_occurs(haystack: Seq<u8>, b: u8, at: int)
    ensures
        occurs_at(haystack, seq![b], at) <==> 0 <= at < haystack.len() && haystack[at] == b,
{
    if 0 <= at < haystack.len() {
        let part = haystack.subrange(at, at + 1);
        if haystack[at] == b {
            assert(part =~= seq![b]);
        } else {
            assert(part[0] != seq![b][0]);
        }
    }
}

/// A string stands where every byte of it does.
pub proof fn lemma_occurs(haystack: Seq<u8>, needle: Seq<u8>, at: int)
    ensures
        occurs_at(haystack, needle, at) <==> {
            &&& 0 <= at
            &&& at + needle.len() <= haystack.len()
            &&& forall|i: int| 0 <= i < needle.len() ==> haystack[at + i] == #[trigger] needle[i]
        },
{
    if 0 <= at && at + needle.len() <= haystack.len() {
        let part = haystack.subrange(at, at + needle.len());
        if forall|i: int| 0 <= i < needle.len() ==> haystack[at + i] == #[trigger] needle[i] {
            assert(part =~= needle);
        }
        if part == needle {
            assert forall|i: int| 0 <= i < needle.len() implies haystack[at + i]
                == #[trigger] needle[i] by {
                assert(part[i] == needle[i]);
            }
        }
    }
}

/// The first place of a string is a place of it with none before; there is none exactly where
/// the string stands nowhere.
pub proof fn lemma_first_place(haystack: Seq<u8>, needle: Seq<u8>, at: int)
    ensures
        first_match(haystack, needle) == Some(at) <==> occurs_at(haystack, needle, at) && forall|
            before: int,
        |
            0 <= before < at ==> !occurs_at(haystack, needle, before),
        first_match(haystack, needle) is None <==> forall|place: int|
            !occurs_at(haystack, needle, place),
        contains(haystack, needle) <==> first_match(haystack, needle) is Some,
{
    if exists|place: int| occurs_at(haystack, needle, place) {
        let place = choose|place: int| occurs_at(haystack, needle, place);
        lemma_some_first(haystack, needle, place);
    }
    if occurs_first(haystack, needle, at) {
        lemma_first_match(haystack, needle, at);
    }
}

/// Where a string stands, it stands a first time.
proof fn lemma_some_first(haystack: Seq<u8>, needle: Seq<u8>, place: int)
    requires
        occurs_at(haystack, needle, place),
    ensures
        exists|at: int| occurs_first(haystack, needle, at),
    decreases place,
{
    if exists|before: int| 0 <= before < place && occurs_at(haystack, needle, before) {
        let before = choose|before: int|
            0 <= before < place && occurs_at(haystack, needle, before);
        lemma_some_first(haystack, needle, before);
    } else {
        assert(occurs_first(haystack, needle, place));
    }
}

/// The first place of a byte holds it, and no place before does; there is none exactly where no
/// place holds it.
pub proof fn lemma_first_byte(haystack: Seq<u8>, b: u8, at: int)
    ensures
        first_byte(haystack, b) == Some(at) <==> 0 <= at < haystack.len() && haystack[at] == b
            && forall|before: int| 0 <= before < at ==> haystack[before] != b,
        first_byte(haystack, b) is None <==> forall|place: int|
            0 <= place < haystack.len() ==> haystack[place] != b,
{
    assert forall|place: int| #[trigger]
        occurs_at(haystack, seq![b], place) <==> 0 <= place < haystack.len() && haystack[place]
            == b by {
        lemma_byte_occurs(haystack, b, place);
    }
    lemma_first_place(haystack, seq![b], at);
    if forall|place: int| 0 <= place < haystack.len() ==> haystack[place] != b {
        assert forall|place: int| !occurs_at(haystack, seq![b], place) by {}
    }
    if exists|place: int| 0 <= place < haystack.len() && haystack[place] == b {
        let place = choose|place: int| 0 <= place < haystack.len() && haystack[place] == b;
        assert(occurs_at(haystack, seq![b], place));
    }
    if occurs_at(haystack, seq![b], at) && (forall|before: int|
        0 <= before < at ==> haystack[before] != b) {
        assert forall|before: int| 0 <= before < at implies !occurs_at(
            haystack,
            seq![b],
            before,
        ) by {}
    }
    if first_byte(haystack, b) == Some(at) {
        assert forall|before: int| 0 <= before < at implies haystack[before] != b by {
            assert(!occurs_at(haystack, seq![b], before));
        }
    }
}

/// `memchr::memmem::find` returns the place of the first occurrence of `needle`, or nothing
/// where there is none. An empty needle occurs at once.
pub assume_specification[ memchr::memmem::find ](haystack: &[u8], needle: &[u8]) -> (r: Option<
    usize,
>)
    ensures
        match r {
            Some(at) => occurs_first(haystack@, needle@, at as int),
            None => forall|at: int| !occurs_at(haystack@, needle@, at),
        },
;

/// `memchr::memchr` returns the place of the first byte equal to `needle`, or nothing where
/// there is none.
pub assume_specification[ memchr::memchr ](needle: u8, haystack: &[u8]) -> (r: Option<usize>)
    ensures
        match r {
            Some(at) => {
                &&& at < haystack@.len()
                &&& haystack@[at as int] == needle
                &&& forall|before: int| 0 <= before < at ==> haystack@[before] != needle
            },
            None => forall|at: int| 0 <= at < haystack@.len() ==> haystack@[at] != needle,
        },
;

/// Finds the first occurrence of `needle`.
pub fn find(haystack: &[u8], needle: &[u8]) -> (r: Option<usize>)
    ensures
        match r {
            Some(at) => first_match(haystack@, needle@) == Some(at as int) && occurs_first(
                haystack@,
                needle@,
                at as int,
            ),
            None => first_match(haystack@, needle@) is None,
        },
        r is Some <==> contains(haystack@, needle@),
{
    let r = memchr::memmem::find(haystack, needle);
    proof {
        if let Some(at) = r {
            lemma_first_match(haystack@, needle@, at as int);
        }
    }
    r
}

/// Finds the first byte equal to `b`.
pub fn find_byte(haystack: &[u8], b: u8) -> (r: Option<usize>)
    ensures
        match r {
            Some(at) => first_byte(haystack@, b) == Some(at as int) && at < haystack@.len(),
            None => first_byte(haystack@, b) is None,
        },
        r == Some(0usize) <==> haystack@.len() > 0 && haystack@[0] == b,
{
    let r = memchr::memchr(b, haystack);
    proof {
        assert forall|at: int| #[trigger]
            occurs_at(haystack@, seq![b], at) <==> 0 <= at < haystack@.len() && haystack@[at]
                == b by {
            lemma_byte_occurs(haystack@, b, at);
        }
        if let Some(at) = r {
            lemma_first_match(haystack@, seq![b], at as int);
        }
    }
    r
}

/// Tells whether `haystack` begins with `needle`.
pub fn starts_with(haystack: &[u8], needle: &[u8]) -> (r: bool)
    ensures
        r == occurs_at(haystack@, needle@, 0),
{
    if haystack.len() < needle.len() {
        return false;
    }
    let mut i: usize = 0;
    while i < needle.len()
        invariant
            i <= needle@.len() <= haystack@.len(),
            forall|j: int| 0 <= j < i ==> haystack@[j] == needle@[j],
        decreases needle@.len() - i,
    {
        if haystack[i] != needle[i] {
            assert(haystack@.subrange(0, needle@.len() as int)[i as int] != needle@[i as int]);
            return false;
        }
        i += 1;
    }
    assert(haystack@.subrange(0, needle@.len() as int) =~= needle@);
    true
}

/// Tells whether two byte strings are the same.
pub fn same_bytes(a: &[u8], b: &[u8]) -> (r: bool)
    ensures
        r == (a@ == b@),
{
    assert(a@.subrange(0, a@.len() as int) =~= a@);
    a.len() == b.len() && starts_with(a, b)
}

} // verus!
