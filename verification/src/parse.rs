//! Reads the fields of a fraud-score request straight from its JSON text.
pub use crate::calendar::{parse_decimal2, Interval, Stamp};
use crate::calendar;
use crate::search;
use vstd::prelude::*;
use vstd::string::*;

verus! {

/// White space between the tokens of a request.
pub open spec fn is_space(b: u8) -> bool {
    b == ' ' as u8 || b == '\t' as u8 || b == '\n' as u8 || b == '\r' as u8
}

/// A character that ends a number.
pub open spec fn ends_number(b: u8) -> bool {
    b == ',' as u8 || b == '}' as u8 || b == ']' as u8 || is_space(b)
}

/// `s` from its first character that is no white space.
pub open spec fn trimmed(s: Seq<u8>) -> Seq<u8>
    decreases s.len(),
{
    if s.len() > 0 && is_space(s[0]) {
        trimmed(s.drop_first())
    } else {
        s
    }
}

/// What follows a key: `s` without white space, a colon and more white space at its front.
/// The colon may be missing.
pub open spec fn value_after(s: Seq<u8>) -> Seq<u8> {
    let t = trimmed(s);
    if t.len() > 0 && t[0] == ':' as u8 {
        trimmed(t.drop_first())
    } else {
        trimmed(t)
    }
}

/// Tells whether `b` is white space.
fn is_ws(b: u8) -> (r: bool)
    ensures
        r == is_space(b),
{
    b == ' ' as u8 || b == '\t' as u8 || b == '\n' as u8 || b == '\r' as u8
}

/// Passes over white space.
fn skip_ws(buf: &[u8], from: usize) -> (to: usize)
    requires
        from <= buf@.len(),
    ensures
        from <= to <= buf@.len(),
        buf@.skip(to as int) == trimmed(buf@.skip(from as int)),
{
    let mut i = from;
    while i < buf.len() && is_ws(buf[i])
        invariant
            from <= i <= buf@.len(),
            trimmed(buf@.skip(i as int)) == trimmed(buf@.skip(from as int)),
        decreases buf@.len() - i,
    {
        assert(buf@.skip(i as int).drop_first() =~= buf@.skip(i + 1));
        i += 1;
    }
    i
}

/// What follows a key, unless nothing does.
pub fn skip_colon_ws(buf: &[u8]) -> (r: Option<&[u8]>)
    ensures
        match r {
            Some(value) => value@ == value_after(buf@) && value@.len() > 0,
            None => value_after(buf@).len() == 0,
        },
{
    let mut i = skip_ws(buf, 0);
    assert(buf@.skip(0) =~= buf@);
    if i < buf.len() && buf[i] == ':' as u8 {
        assert(buf@.skip(i as int).drop_first() =~= buf@.skip(i + 1));
        i += 1;
    }
    i = skip_ws(buf, i);
    if i < buf.len() {
        assert(buf@.skip(i as int) =~= buf@.subrange(i as int, buf@.len() as int));
        Some(&buf[i..buf.len()])
    } else {
        None
    }
}

/// What follows the `nth` place of `key` in `s`, places counted from one. A place that
/// nothing follows ends the search.
pub open spec fn nth_value(s: Seq<u8>, key: Seq<u8>, nth: nat) -> Option<Seq<u8>>
    decreases nth,
{
    match search::first_match(s, key) {
        Some(at) if nth > 0 => {
            let rest = s.skip(at + key.len());
            let value = value_after(rest);
            if value.len() == 0 {
                None
            } else if nth == 1 {
                Some(value)
            } else {
                nth_value(rest, key, (nth - 1) as nat)
            }
        },
        _ => None,
    }
}

/// The length of the number text at the front of `s`.
pub open spec fn number_len(s: Seq<u8>) -> int
    decreases s.len(),
{
    if s.len() == 0 || ends_number(s[0]) {
        0
    } else {
        1 + number_len(s.drop_first())
    }
}

/// The number text at the front of `s`.
pub open spec fn number_text(s: Seq<u8>) -> Seq<u8> {
    s.take(number_len(s))
}

/// The number text behind the `nth` place of `key`.
pub open spec fn nth_number(s: Seq<u8>, key: Seq<u8>, nth: nat) -> Option<Seq<u8>> {
    match nth_value(s, key, nth) {
        Some(value) => Some(number_text(value)),
        None => None,
    }
}

/// The characters of the string that opens with the quote at the front of `s`.
pub open spec fn quoted(s: Seq<u8>) -> Option<Seq<u8>> {
    let inner = s.drop_first();
    match search::first_byte(inner, '"' as u8) {
        Some(end) => Some(inner.take(end)),
        None => None,
    }
}

/// The `nth` string behind a place of `key`. Places that something else than a string
/// follows do not count; a place that nothing follows ends the search.
pub open spec fn nth_string(s: Seq<u8>, key: Seq<u8>, nth: int) -> Option<Seq<u8>>
    decreases s.len(),
{
    match search::first_match(s, key) {
        Some(at) if key.len() > 0 && 0 <= at <= s.len() - key.len() => {
            let rest = s.skip(at + key.len());
            let value = value_after(rest);
            if value.len() == 0 {
                None
            } else if value[0] != '"' as u8 {
                nth_string(rest, key, nth)
            } else if nth == 1 {
                quoted(value)
            } else {
                nth_string(rest, key, nth - 1)
            }
        },
        _ => None,
    }
}

/// The truth value behind the first place of `key`.
pub open spec fn truth(s: Seq<u8>, key: Seq<u8>) -> Option<bool> {
    match nth_value(s, key, 1) {
        Some(value) => if search::occurs_at(value, "true".spec_bytes(), 0) {
            Some(true)
        } else if search::occurs_at(value, "false".spec_bytes(), 0) {
            Some(false)
        } else {
            None
        },
        None => None,
    }
}

/// What stands between the brackets of the array behind the first place of `key`, up to the
/// first closing bracket.
pub open spec fn array(s: Seq<u8>, key: Seq<u8>) -> Option<Seq<u8>> {
    match nth_value(s, key, 1) {
        Some(value) => if value[0] == '[' as u8 {
            match search::first_byte(value, ']' as u8) {
                Some(end) => Some(value.subrange(1, end)),
                None => None,
            }
        } else {
            None
        },
        None => None,
    }
}

/// A part of the request, or nothing, as bytes.
pub open spec fn bytes_of(part: Option<&[u8]>) -> Option<Seq<u8>> {
    match part {
        Some(b) => Some(b@),
        None => None,
    }
}

/// What follows the first place of `key`, with the text behind that place.
fn find_value<'a>(buf: &'a [u8], key: &[u8]) -> (r: Option<(&'a [u8], &'a [u8])>)
    ensures
        match r {
            Some((value, rest)) => {
                let at = search::first_match(buf@, key@);
                &&& at matches Some(p)
                &&& 0 <= p <= buf@.len() - key@.len()
                &&& rest@ == buf@.skip(p + key@.len())
                &&& value@ == value_after(rest@)
                &&& value@.len() > 0
            },
            None => search::first_match(buf@, key@) matches Some(p) ==> value_after(
                buf@.skip(p + key@.len()),
            ).len() == 0,
        },
{
    match search::find(buf, key) {
        Some(pos) => {
            assert(buf.len() == buf@.len());
            let rest = &buf[pos + key.len()..buf.len()];
            assert(rest@ =~= buf@.skip(pos + key@.len()));
            match skip_colon_ws(rest) {
                Some(value) => Some((value, rest)),
                None => None,
            }
        },
        None => None,
    }
}

/// The number text at the front of `buf`.
pub fn number_slice(buf: &[u8]) -> (r: &[u8])
    ensures
        r@ == number_text(buf@),
{
    let mut end: usize = 0;
    assert(buf@.skip(0) =~= buf@);
    while end < buf.len() && !(buf[end] == ',' as u8 || buf[end] == '}' as u8 || buf[end]
        == ']' as u8 || is_ws(buf[end]))
        invariant
            end <= buf@.len(),
            number_len(buf@) == end + number_len(buf@.skip(end as int)),
        decreases buf@.len() - end,
    {
        assert(buf@.skip(end as int).drop_first() =~= buf@.skip(end + 1));
        end += 1;
    }
    assert(buf@.subrange(0, end as int) =~= buf@.take(end as int));
    &buf[0..end]
}

/// The number text behind the first place of `key`.
pub fn find_number<'a>(buf: &'a [u8], key: &[u8]) -> (r: Option<&'a [u8]>)
    ensures
        bytes_of(r) == nth_number(buf@, key@, 1),
{
    find_number_nth(buf, key, 1)
}

/// The number text behind the `nth` place of `key`.
pub fn find_number_nth<'a>(buf: &'a [u8], key: &[u8], nth: usize) -> (r: Option<&'a [u8]>)
    ensures
        bytes_of(r) == nth_number(buf@, key@, nth as nat),
{
    let mut remaining = buf;
    let mut left = nth;
    while left > 0
        invariant
            nth_value(remaining@, key@, left as nat) == nth_value(buf@, key@, nth as nat),
        decreases left,
    {
        match find_value(remaining, key) {
            Some((value, rest)) => {
                if left == 1 {
                    return Some(number_slice(value));
                }
                remaining = rest;
                left -= 1;
            },
            None => {
                return None;
            },
        }
    }
    None
}

/// The truth value behind the first place of `key`.
pub fn find_bool(buf: &[u8], key: &[u8]) -> (r: Option<bool>)
    ensures
        r == truth(buf@, key@),
{
    match find_value(buf, key) {
        Some((value, _)) => if search::starts_with(value, "true".as_bytes()) {
            Some(true)
        } else if search::starts_with(value, "false".as_bytes()) {
            Some(false)
        } else {
            None
        },
        None => None,
    }
}

/// The first string behind a place of `key`.
pub fn find_string_value<'a>(buf: &'a [u8], key: &[u8]) -> (r: Option<&'a [u8]>)
    requires
        key@.len() > 0,
    ensures
        bytes_of(r) == nth_string(buf@, key@, 1),
{
    find_string_value_nth(buf, key, 1)
}

/// The `nth` string behind a place of `key`.
pub fn find_string_value_nth<'a>(buf: &'a [u8], key: &[u8], nth: usize) -> (r: Option<&'a [u8]>)
    requires
        key@.len() > 0,
    ensures
        bytes_of(r) == nth_string(buf@, key@, nth as int),
{
    let mut remaining = buf;
    let mut found: usize = 0;
    assert(buf.len() == buf@.len());
    loop
        invariant
            key@.len() > 0,
            found <= buf@.len() - remaining@.len(),
            buf@.len() <= usize::MAX,
            nth_string(remaining@, key@, nth - found) == nth_string(buf@, key@, nth as int),
        decreases remaining@.len(),
    {
        match find_value(remaining, key) {
            Some((value, rest)) => {
                if value[0] == '"' as u8 {
                    found += 1;
                    if found == nth {
                        let inner = &value[1..value.len()];
                        assert(inner@ =~= value@.drop_first());
                        return match search::find_byte(inner, '"' as u8) {
                            Some(end) => {
                                assert(inner@.subrange(0, end as int) =~= inner@.take(end as int));
                                Some(&inner[0..end])
                            },
                            None => None,
                        };
                    }
                }
                remaining = rest;
            },
            None => {
                return None;
            },
        }
    }
}

/// What stands between the brackets of the array behind the first place of `key`.
pub fn find_array_start<'a>(buf: &'a [u8], key: &[u8]) -> (r: Option<&'a [u8]>)
    ensures
        bytes_of(r) == array(buf@, key@),
{
    match find_value(buf, key) {
        Some((value, _)) => if value[0] == '[' as u8 {
            match search::find_byte(value, ']' as u8) {
                Some(end) => Some(&value[1..end]),
                None => None,
            }
        } else {
            None
        },
        None => None,
    }
}

/// Tells whether `needle` stands anywhere in `haystack`.
pub fn slice_contains(haystack: &[u8], needle: &[u8]) -> (r: bool)
    ensures
        r == search::contains(haystack@, needle@),
{
    search::find(haystack, needle).is_some()
}

/// A request to score a transaction. A number is kept as the text that writes it, and is
/// missing where the request does not give it.
pub struct Transaction<'a> {
    pub amount: Option<&'a [u8]>,
    pub installments: Option<&'a [u8]>,
    /// The hour of the request, from zero to twenty-three, in UTC.
    pub hour: u8,
    /// The day of the week of the request, from zero for Monday to six for Sunday.
    pub day_of_week: u8,
    pub customer_avg_amount: Option<&'a [u8]>,
    pub tx_count_24h: Option<&'a [u8]>,
    /// The merchant is not among those known to the customer.
    pub unknown_merchant: bool,
    pub mcc: [u8; 8],
    pub mcc_len: u8,
    pub merchant_avg_amount: Option<&'a [u8]>,
    pub is_online: bool,
    pub card_present: bool,
    pub km_from_home: Option<&'a [u8]>,
    /// The time since the last transaction, if there was one.
    pub minutes_since_last: Option<Interval>,
    pub km_from_last: Option<&'a [u8]>,
}

/// The time of the request.
pub open spec fn requested_at(s: Seq<u8>) -> Option<Seq<u8>> {
    nth_string(s, "\"requested_at\"".spec_bytes(), 1)
}

/// The key of the last transaction stands at `at`, and null follows it.
pub open spec fn null_at(s: Seq<u8>, at: int) -> bool {
    let key = "\"last_transaction\"".spec_bytes();
    &&& search::occurs_at(s, key, at)
    &&& search::occurs_at(value_after(s.skip(at + key.len())), "null".spec_bytes(), 0)
}

/// The request says that there was no last transaction: its value is null.
pub open spec fn no_last(s: Seq<u8>) -> bool {
    exists|at: int| null_at(s, at)
}

/// The time of the last transaction.
pub open spec fn last_at(s: Seq<u8>) -> Option<Seq<u8>> {
    if no_last(s) {
        None
    } else {
        nth_string(s, "\"timestamp\"".spec_bytes(), 1)
    }
}

/// `id` is one of the strings in the array with the text `known`, read one after the other,
/// each from a quote to the next.
pub open spec fn listed(known: Seq<u8>, id: Seq<u8>) -> bool
    decreases known.len(),
{
    match search::first_byte(known, '"' as u8) {
        Some(open) if 0 <= open < known.len() => {
            let inner = known.skip(open + 1);
            match search::first_byte(inner, '"' as u8) {
                Some(end) if 0 <= end < inner.len() => inner.take(end) == id || listed(
                    inner.skip(end + 1),
                    id,
                ),
                _ => false,
            }
        },
        _ => false,
    }
}

/// The request names a merchant, and it does not list that merchant as known.
pub open spec fn merchant_unknown(s: Seq<u8>) -> bool {
    match nth_string(s, "\"id\"".spec_bytes(), 2) {
        Some(id) => match array(s, "\"known_merchants\"".spec_bytes()) {
            Some(known) => !listed(known, id),
            None => true,
        },
        None => false,
    }
}

/// The timestamps that the request gives can be read.
pub open spec fn timestamps_read(s: Seq<u8>) -> bool {
    &&& requested_at(s) matches Some(ts) ==> calendar::has_hour_dow(ts)
    &&& (requested_at(s) matches Some(to) && last_at(s) matches Some(from))
        ==> calendar::has_minutes(requested_at(s)->0) && calendar::has_minutes(last_at(s)->0)
}

/// The timestamps that the request gives can be read, and its hour and its day of the week are
/// in their ranges.
pub open spec fn timestamps_valid(s: Seq<u8>) -> bool {
    &&& timestamps_read(s)
    &&& hour_dow(s).0 <= calendar::LAST_HOUR
    &&& hour_dow(s).1 <= calendar::LAST_DAY
}

/// The hour and the day of the week of the request; both are zero where it gives no time or
/// one that is too short.
pub open spec fn hour_dow(s: Seq<u8>) -> (int, int) {
    match requested_at(s) {
        Some(ts) if ts.len() >= calendar::STAMP_LEN => (
            calendar::hour(ts),
            calendar::weekday(calendar::year(ts), calendar::month(ts), calendar::day(ts)),
        ),
        _ => (0, 0),
    }
}

/// The merchant category code, cut off behind eight characters.
pub open spec fn category_code(s: Seq<u8>) -> Seq<u8> {
    match nth_string(s, "\"mcc\"".spec_bytes(), 1) {
        Some(code) => code.take(
            if code.len() < 8 {
                code.len() as int
            } else {
                8
            },
        ),
        None => Seq::empty(),
    }
}

/// `interval` runs from the last transaction to the request; there is none unless the request
/// gives both times.
pub open spec fn interval_read(interval: Option<Interval>, s: Seq<u8>) -> bool {
    match (requested_at(s), last_at(s)) {
        (Some(to), Some(from)) => {
            &&& interval matches Some(i)
            &&& calendar::stamps(i.from, from)
            &&& calendar::stamps(i.to, to)
        },
        _ => interval is None,
    }
}

impl<'a> Transaction<'a> {
    /// The merchant category code.
    pub open spec fn code(self) -> Seq<u8> {
        self.mcc@.take(self.mcc_len as int)
    }

    /// Every field holds what the request `s` gives for it.
    pub open spec fn reads(self, s: Seq<u8>) -> bool {
        &&& bytes_of(self.amount) == nth_number(s, "\"amount\"".spec_bytes(), 1)
        &&& bytes_of(self.installments) == nth_number(s, "\"installments\"".spec_bytes(), 1)
        &&& (self.hour as int, self.day_of_week as int) == hour_dow(s)
        &&& bytes_of(self.customer_avg_amount) == nth_number(s, "\"avg_amount\"".spec_bytes(), 1)
        &&& bytes_of(self.tx_count_24h) == nth_number(s, "\"tx_count_24h\"".spec_bytes(), 1)
        &&& self.unknown_merchant == merchant_unknown(s)
        &&& self.mcc_len == category_code(s).len()
        &&& self.code() == category_code(s)
        &&& forall|i: int| self.mcc_len <= i < 8 ==> self.mcc@[i] == 0
        &&& bytes_of(self.merchant_avg_amount) == nth_number(s, "\"avg_amount\"".spec_bytes(), 2)
        &&& self.is_online == (truth(s, "\"is_online\"".spec_bytes()) == Some(true))
        &&& self.card_present == (truth(s, "\"card_present\"".spec_bytes()) != Some(false))
        &&& bytes_of(self.km_from_home) == nth_number(s, "\"km_from_home\"".spec_bytes(), 1)
        &&& interval_read(self.minutes_since_last, s)
        &&& bytes_of(self.km_from_last) == if no_last(s) {
            None
        } else {
            nth_number(s, "\"km_from_current\"".spec_bytes(), 1)
        }
    }
}

/// `gap` is what may stand between a key and its value: one colon, at `colon`, and spaces,
/// tabs and line ends round it.
pub open spec fn is_gap(gap: Seq<u8>, colon: int) -> bool {
    &&& 0 <= colon < gap.len()
    &&& gap[colon] == 58
    &&& forall|i: int|
        0 <= i < gap.len() && i != colon ==> #[trigger] gap[i] == 32 || gap[i] == 9 || gap[i] == 10
            || gap[i] == 13
}

/// Spaces, tabs and line ends at the front are passed over, and nothing else is.
pub proof fn lemma_trimmed(gap: Seq<u8>, t: Seq<u8>)
    requires
        forall|i: int|
            0 <= i < gap.len() ==> #[trigger] gap[i] == 32 || gap[i] == 9 || gap[i] == 10 || gap[i]
                == 13,
        t.len() > 0 ==> t[0] != 32 && t[0] != 9 && t[0] != 10 && t[0] != 13,
    ensures
        trimmed(gap + t) == t,
    decreases gap.len(),
{
    if gap.len() == 0 {
        assert(gap + t =~= t);
    } else {
        let rest = gap.drop_first();
        assert((gap + t)[0] == gap[0]);
        assert((gap + t).drop_first() =~= rest + t);
        assert forall|i: int| 0 <= i < rest.len() implies #[trigger] rest[i] == 32 || rest[i] == 9
            || rest[i] == 10 || rest[i] == 13 by {
            assert(rest[i] == gap[i + 1]);
        }
        lemma_trimmed(rest, t);
    }
}

/// What follows a key and the gap behind it is its value, up to the end of the text. The colon
/// may be missing.
pub proof fn lemma_value_after(gap: Seq<u8>, colon: int, value: Seq<u8>)
    requires
        is_gap(gap, colon) || forall|i: int|
            0 <= i < gap.len() ==> #[trigger] gap[i] == 32 || gap[i] == 9 || gap[i] == 10 || gap[i]
                == 13,
        value.len() > 0 ==> value[0] != 32 && value[0] != 9 && value[0] != 10 && value[0] != 13,
        !is_gap(gap, colon) && value.len() > 0 ==> value[0] != 58,
    ensures
        value_after(gap + value) == value,
{
    if is_gap(gap, colon) {
        let left = gap.take(colon);
        let right = gap.skip(colon + 1);
        let tail = seq![58u8] + (right + value);
        assert(gap + value =~= left + tail);
        assert forall|i: int| 0 <= i < left.len() implies #[trigger] left[i] == 32 || left[i] == 9
            || left[i] == 10 || left[i] == 13 by {
            assert(left[i] == gap[i]);
        }
        assert forall|i: int| 0 <= i < right.len() implies #[trigger] right[i] == 32 || right[i]
            == 9 || right[i] == 10 || right[i] == 13 by {
            assert(right[i] == gap[i + colon + 1]);
        }
        assert(tail[0] == 58);
        lemma_trimmed(left, tail);
        assert(tail.drop_first() =~= right + value);
        lemma_trimmed(right, value);
    } else {
        lemma_trimmed(gap, value);
        assert(Seq::<u8>::empty() + value =~= value);
        lemma_trimmed(Seq::empty(), value);
    }
}

/// A number ends at a comma, a closing bracket or brace, a space, a tab or a line end, and
/// nowhere before.
pub proof fn lemma_number_text(number: Seq<u8>, rest: Seq<u8>)
    requires
        forall|i: int|
            0 <= i < number.len() ==> #[trigger] number[i] != 44 && number[i] != 125 && number[i]
                != 93 && number[i] != 32 && number[i] != 9 && number[i] != 10 && number[i] != 13,
        rest.len() > 0 ==> rest[0] == 44 || rest[0] == 125 || rest[0] == 93 || rest[0] == 32
            || rest[0] == 9 || rest[0] == 10 || rest[0] == 13,
    ensures
        number_text(number + rest) == number,
{
    lemma_number_len(number, rest);
    assert((number + rest).take(number.len() as int) =~= number);
}

/// A number is as long as what stands before its end.
proof fn lemma_number_len(number: Seq<u8>, rest: Seq<u8>)
    requires
        forall|i: int|
            0 <= i < number.len() ==> #[trigger] number[i] != 44 && number[i] != 125 && number[i]
                != 93 && number[i] != 32 && number[i] != 9 && number[i] != 10 && number[i] != 13,
        rest.len() > 0 ==> rest[0] == 44 || rest[0] == 125 || rest[0] == 93 || rest[0] == 32
            || rest[0] == 9 || rest[0] == 10 || rest[0] == 13,
    ensures
        number_len(number + rest) == number.len(),
    decreases number.len(),
{
    if number.len() == 0 {
        assert(number + rest =~= rest);
    } else {
        let tail = number.drop_first();
        assert((number + rest)[0] == number[0]);
        assert((number + rest).drop_first() =~= tail + rest);
        assert forall|i: int| 0 <= i < tail.len() implies #[trigger] tail[i] != 44 && tail[i]
            != 125 && tail[i] != 93 && tail[i] != 32 && tail[i] != 9 && tail[i] != 10 && tail[i]
            != 13 by {
            assert(tail[i] == number[i + 1]);
        }
        lemma_number_len(tail, rest);
    }
}

/// Values are looked up place by place: with the first place of `key` at `at`, the first value
/// is what follows it, and each later value is an earlier one of the rest behind that place. A
/// place that nothing follows ends the search, and so does the end of the text.
pub proof fn lemma_nth_value(s: Seq<u8>, key: Seq<u8>, at: int, nth: nat)
    requires
        nth >= 1,
    ensures
        (forall|place: int| !search::occurs_at(s, key, place)) ==> nth_value(s, key, nth) is None,
        search::occurs_at(s, key, at) && (forall|before: int|
            0 <= before < at ==> !search::occurs_at(s, key, before)) ==> {
            let rest = s.skip(at + key.len());
            &&& value_after(rest).len() == 0 ==> nth_value(s, key, nth) is None
            &&& value_after(rest).len() > 0 ==> nth_value(s, key, 1) == Some(value_after(rest))
                && nth_value(s, key, nth + 1) == nth_value(rest, key, nth)
        },
{
    search::lemma_first_place(s, key, at);
}

/// Strings are looked up place by place too; a place that something else than a string follows
/// does not count.
pub proof fn lemma_nth_string(s: Seq<u8>, key: Seq<u8>, at: int, nth: int)
    requires
        nth >= 1,
        key.len() > 0,
    ensures
        (forall|place: int| !search::occurs_at(s, key, place)) ==> nth_string(s, key, nth) is None,
        search::occurs_at(s, key, at) && (forall|before: int|
            0 <= before < at ==> !search::occurs_at(s, key, before)) ==> {
            let rest = s.skip(at + key.len());
            let value = value_after(rest);
            &&& value.len() == 0 ==> nth_string(s, key, nth) is None
            &&& value.len() > 0 && value[0] != 34 ==> nth_string(s, key, nth) == nth_string(
                rest,
                key,
                nth,
            )
            &&& value.len() > 0 && value[0] == 34 ==> nth_string(s, key, 1) == quoted(value)
                && nth_string(s, key, nth + 1) == nth_string(rest, key, nth)
        },
{
    search::lemma_first_place(s, key, at);
    if search::occurs_at(s, key, at) {
        search::lemma_occurs(s, key, at);
    }
}

/// A string goes from its quote to the next one, and there is none without a next one.
pub proof fn lemma_quoted(name: Seq<u8>, rest: Seq<u8>)
    requires
        forall|i: int| 0 <= i < name.len() ==> #[trigger] name[i] != 34,
    ensures
        quoted(seq![34u8] + name + seq![34u8] + rest) == Some(name),
        quoted(seq![34u8] + name) is None,
{
    let s = seq![34u8] + name + seq![34u8] + rest;
    let inner = s.drop_first();
    assert(inner =~= name + seq![34u8] + rest);
    assert forall|i: int| 0 <= i < name.len() implies inner[i] != 34 by {
        assert(inner[i] == name[i]);
    }
    assert(inner[name.len() as int] == 34);
    search::lemma_first_byte(inner, 34, name.len() as int);
    assert(inner.take(name.len() as int) =~= name);
    assert((seq![34u8] + name).drop_first() =~= name);
    search::lemma_first_byte(name, 34, 0);
}

/// A truth value is told by its letters, and there is none with other letters.
pub proof fn lemma_truth(s: Seq<u8>, key: Seq<u8>)
    ensures
        truth(s, key) == match nth_value(s, key, 1) {
            Some(v) => if v.len() >= 4 && v[0] == 116 && v[1] == 114 && v[2] == 117 && v[3]
                == 101 {
                Some(true)
            } else if v.len() >= 5 && v[0] == 102 && v[1] == 97 && v[2] == 108 && v[3] == 115
                && v[4] == 101 {
                Some(false)
            } else {
                None
            },
            None => None,
        },
{
    reveal_strlit("true");
    reveal_strlit("false");
    is_ascii_spec_bytes("true");
    is_ascii_spec_bytes("false");
    if let Some(v) = nth_value(s, key, 1) {
        let yes = "true".spec_bytes();
        let no = "false".spec_bytes();
        assert(yes =~= seq![116u8, 114, 117, 101]);
        assert(no =~= seq![102u8, 97, 108, 115, 101]);
        search::lemma_occurs(v, yes, 0);
        search::lemma_occurs(v, no, 0);
        if search::occurs_at(v, yes, 0) {
            assert(v[0] == yes[0] && v[1] == yes[1] && v[2] == yes[2] && v[3]
                == yes[3]);
        }
        if search::occurs_at(v, no, 0) {
            assert(v[0] == no[0] && v[1] == no[1] && v[2] == no[2] && v[3]
                == no[3] && v[4] == no[4]);
        }
    }
}

/// An array goes from its bracket to the first closing one, and there is none without both.
pub proof fn lemma_array(s: Seq<u8>, key: Seq<u8>, inner: Seq<u8>, rest: Seq<u8>)
    requires
        forall|i: int| 0 <= i < inner.len() ==> #[trigger] inner[i] != 93,
    ensures
        nth_value(s, key, 1) == Some(seq![91u8] + inner + seq![93u8] + rest) ==> array(s, key)
            == Some(inner),
        nth_value(s, key, 1) == Some(seq![91u8] + inner) ==> array(s, key) is None,
        nth_value(s, key, 1) matches Some(v) ==> v[0] != 91 ==> array(s, key) is None,
        nth_value(s, key, 1) is None ==> array(s, key) is None,
{
    let v = seq![91u8] + inner + seq![93u8] + rest;
    let open = seq![91u8] + inner;
    assert forall|i: int| 0 <= i < 1 + inner.len() as int implies v[i] != 93 && open[i] != 93 by {
        if i > 0 {
            assert(v[i] == inner[i - 1] && open[i] == inner[i - 1]);
        }
    }
    assert(v[1 + inner.len() as int] == 93);
    search::lemma_first_byte(v, 93, 1 + inner.len() as int);
    search::lemma_first_byte(open, 93, 0);
    assert(v.subrange(1, 1 + inner.len() as int) =~= inner);
}

/// The front of an array decides, and then what follows: with a first string `name`, that one
/// is listed, and what the rest lists, and nothing else. Without a whole string nothing is.
pub proof fn lemma_listed_front(gap: Seq<u8>, name: Seq<u8>, rest: Seq<u8>, id: Seq<u8>)
    requires
        forall|i: int| 0 <= i < gap.len() ==> #[trigger] gap[i] != 34,
        forall|i: int| 0 <= i < name.len() ==> #[trigger] name[i] != 34,
    ensures
        listed(gap + seq![34u8] + name + seq![34u8] + rest, id) <==> name == id || listed(rest, id),
        !listed(gap, id),
        !listed(gap + seq![34u8] + name, id),
{
    let s = gap + seq![34u8] + name + seq![34u8] + rest;
    assert forall|i: int| 0 <= i < gap.len() implies s[i] != 34 by {
        assert(s[i] == gap[i]);
    }
    assert(s[gap.len() as int] == 34);
    search::lemma_first_byte(s, 34, gap.len() as int);
    let inner = s.skip(gap.len() as int + 1);
    assert(inner =~= name + seq![34u8] + rest);
    assert forall|i: int| 0 <= i < name.len() implies inner[i] != 34 by {
        assert(inner[i] == name[i]);
    }
    assert(inner[name.len() as int] == 34);
    search::lemma_first_byte(inner, 34, name.len() as int);
    assert(inner.take(name.len() as int) =~= name);
    assert(inner.skip(name.len() as int + 1) =~= rest);
    search::lemma_first_byte(gap, 34, 0);
    let open = gap + seq![34u8] + name;
    assert forall|i: int| 0 <= i < gap.len() implies open[i] != 34 by {
        assert(open[i] == gap[i]);
    }
    assert(open[gap.len() as int] == 34);
    search::lemma_first_byte(open, 34, gap.len() as int);
    assert(open.skip(gap.len() as int + 1) =~= name);
    search::lemma_first_byte(name, 34, 0);
}

/// Names in quotes, with a comma between each and the next.
pub open spec fn joined(names: Seq<Seq<u8>>) -> Seq<u8>
    decreases names.len(),
{
    if names.len() == 0 {
        Seq::empty()
    } else if names.len() == 1 {
        seq![34u8] + names[0] + seq![34u8]
    } else {
        seq![34u8] + names[0] + seq![34u8] + seq![44u8] + joined(names.drop_first())
    }
}

/// A comma before an array adds nothing to it.
proof fn lemma_listed_behind_comma(rest: Seq<u8>, id: Seq<u8>)
    ensures
        listed(seq![44u8] + rest, id) == listed(rest, id),
{
    let s = seq![44u8] + rest;
    if exists|i: int| 0 <= i < rest.len() && rest[i] == 34 {
        let i = choose|i: int| 0 <= i < rest.len() && rest[i] == 34;
        search::lemma_first_byte(rest, 34, i);
        let at = search::first_byte(rest, 34)->0;
        search::lemma_first_byte(rest, 34, at);
        assert forall|j: int| 0 <= j < at + 1 implies s[j] != 34 by {
            if j > 0 {
                assert(s[j] == rest[j - 1]);
            }
        }
        assert(s[at + 1] == 34);
        search::lemma_first_byte(s, 34, at + 1);
        assert(s.skip(at + 2) =~= rest.skip(at + 1));
    } else {
        assert forall|j: int| 0 <= j < s.len() implies s[j] != 34 by {
            if j > 0 {
                assert(s[j] == rest[j - 1]);
            }
        }
        search::lemma_first_byte(rest, 34, 0);
        search::lemma_first_byte(s, 34, 0);
    }
}

/// Of names in quotes with commas between them, exactly those are listed.
pub proof fn lemma_listed_names(names: Seq<Seq<u8>>, id: Seq<u8>)
    requires
        forall|n: int, i: int|
            0 <= n < names.len() && 0 <= i < names[n].len() ==> #[trigger] names[n][i] != 34,
    ensures
        listed(joined(names), id) <==> names.contains(id),
    decreases names.len(),
{
    let none = Seq::<u8>::empty();
    if names.len() == 0 {
        lemma_listed_front(none, none, none, id);
        assert(joined(names) =~= none);
    } else {
        let first = names[0];
        assert forall|i: int| 0 <= i < first.len() implies #[trigger] first[i] != 34 by {
            assert(names[0][i] != 34);
        }
        if names.len() == 1 {
            lemma_listed_front(none, first, none, id);
            assert(joined(names) =~= none + seq![34u8] + first + seq![34u8] + none);
            if names.contains(id) {
                let i = choose|i: int| 0 <= i < names.len() && names[i] == id;
                assert(i == 0);
            }
            assert(names.contains(first));
            lemma_listed_front(none, none, none, id);
        } else {
            let rest = names.drop_first();
            let tail = seq![44u8] + joined(rest);
            lemma_listed_front(none, first, tail, id);
            assert(joined(names) =~= none + seq![34u8] + first + seq![34u8] + tail);
            lemma_listed_behind_comma(joined(rest), id);
            assert forall|n: int, i: int|
                0 <= n < rest.len() && 0 <= i < rest[n].len() implies #[trigger] rest[n][i]
                != 34 by {
                assert(rest[n] == names[n + 1]);
                assert(names[n + 1][i] != 34);
            }
            lemma_listed_names(rest, id);
            if names.contains(id) {
                let i = choose|i: int| 0 <= i < names.len() && names[i] == id;
                if i > 0 {
                    assert(rest[i - 1] == id);
                }
            }
            if rest.contains(id) {
                let i = choose|i: int| 0 <= i < rest.len() && rest[i] == id;
                assert(names[i + 1] == id);
            }
            assert(names.contains(first));
        }
    }
}

/// What is listed stands in the array between two quotes, letter by letter.
pub proof fn lemma_listed_occurs(known: Seq<u8>, id: Seq<u8>)
    requires
        listed(known, id),
    ensures
        search::contains(known, seq![34u8] + id + seq![34u8]),
        search::contains(known, id),
    decreases known.len(),
{
    let open = search::first_byte(known, '"' as u8)->0;
    search::lemma_first_byte(known, 34, open);
    let inner = known.skip(open + 1);
    let end = search::first_byte(inner, '"' as u8)->0;
    search::lemma_first_byte(inner, 34, end);
    let mark = seq![34u8] + id + seq![34u8];
    if inner.take(end) == id {
        assert(known.subrange(open, open + mark.len()) =~= mark);
        assert(search::occurs_at(known, mark, open));
        assert(known.subrange(open + 1, open + 1 + id.len()) =~= id);
        assert(search::occurs_at(known, id, open + 1));
    } else {
        let rest = inner.skip(end + 1);
        let from = open + 1 + end + 1;
        lemma_listed_occurs(rest, id);
        assert(rest =~= known.subrange(from, known.len() as int));
        let a = choose|a: int| search::occurs_at(rest, mark, a);
        lemma_occurs_behind(known, mark, from, from + a);
        assert(search::occurs_at(known, mark, from + a));
        let b = choose|b: int| search::occurs_at(rest, id, b);
        lemma_occurs_behind(known, id, from, from + b);
        assert(search::occurs_at(known, id, from + b));
    }
}

/// A number behind a key is found, whatever stands before and behind it, if the key does not
/// stand before it.
pub proof fn lemma_number_behind_key(
    s: Seq<u8>,
    pre: Seq<u8>,
    key: Seq<u8>,
    gap: Seq<u8>,
    colon: int,
    number: Seq<u8>,
    post: Seq<u8>,
)
    requires
        s == pre + key + gap + number + post,
        forall|before: int| 0 <= before < pre.len() ==> !search::occurs_at(s, key, before),
        is_gap(gap, colon),
        number.len() > 0,
        forall|i: int|
            0 <= i < number.len() ==> #[trigger] number[i] != 44 && number[i] != 125 && number[i]
                != 93 && number[i] != 32 && number[i] != 9 && number[i] != 10 && number[i] != 13,
        post.len() > 0 ==> post[0] == 44 || post[0] == 125 || post[0] == 93 || post[0] == 32
            || post[0] == 9 || post[0] == 10 || post[0] == 13,
    ensures
        nth_number(s, key, 1) == Some(number),
{
    let at = pre.len() as int;
    let value = number + post;
    assert(s.subrange(at, at + key.len()) =~= key);
    assert(s.skip(at + key.len()) =~= gap + value);
    assert(value[0] == number[0]);
    lemma_value_after(gap, colon, value);
    lemma_nth_value(s, key, at, 1);
    lemma_number_text(number, post);
}

/// A string behind a key is found in the same way.
pub proof fn lemma_string_behind_key(
    s: Seq<u8>,
    pre: Seq<u8>,
    key: Seq<u8>,
    gap: Seq<u8>,
    colon: int,
    name: Seq<u8>,
    post: Seq<u8>,
)
    requires
        s == pre + key + gap + seq![34u8] + name + seq![34u8] + post,
        key.len() > 0,
        forall|before: int| 0 <= before < pre.len() ==> !search::occurs_at(s, key, before),
        is_gap(gap, colon),
        forall|i: int| 0 <= i < name.len() ==> #[trigger] name[i] != 34,
    ensures
        nth_string(s, key, 1) == Some(name),
{
    let at = pre.len() as int;
    let value = seq![34u8] + name + seq![34u8] + post;
    assert(s.subrange(at, at + key.len()) =~= key);
    assert(s.skip(at + key.len()) =~= gap + value);
    assert(value[0] == 34);
    lemma_value_after(gap, colon, value);
    lemma_nth_string(s, key, at, 1);
    lemma_quoted(name, post);
}

/// Which key each number of a request stands behind, as the request writes it. The average of
/// the merchant is behind the second place of its key, all others are behind the first.
pub proof fn lemma_numbers_of_a_request(
    tx: Transaction,
    s: Seq<u8>,
    pre: Seq<u8>,
    key: Seq<u8>,
    gap: Seq<u8>,
    colon: int,
    number: Seq<u8>,
    post: Seq<u8>,
)
    requires
        tx.reads(s),
        s == pre + key + gap + number + post,
        forall|before: int| 0 <= before < pre.len() ==> !search::occurs_at(s, key, before),
        is_gap(gap, colon),
        number.len() > 0,
        forall|i: int|
            0 <= i < number.len() ==> #[trigger] number[i] != 44 && number[i] != 125 && number[i]
                != 93 && number[i] != 32 && number[i] != 9 && number[i] != 10 && number[i] != 13,
        post.len() > 0 ==> post[0] == 44 || post[0] == 125 || post[0] == 93 || post[0] == 32
            || post[0] == 9 || post[0] == 10 || post[0] == 13,
    ensures
        key == "\"amount\"".spec_bytes() ==> tx.amount is Some && tx.amount->0@ == number,
        key == "\"installments\"".spec_bytes() ==> tx.installments is Some && tx.installments->0@
            == number,
        key == "\"avg_amount\"".spec_bytes() ==> tx.customer_avg_amount is Some
            && tx.customer_avg_amount->0@ == number,
        key == "\"tx_count_24h\"".spec_bytes() ==> tx.tx_count_24h is Some && tx.tx_count_24h->0@
            == number,
        key == "\"km_from_home\"".spec_bytes() ==> tx.km_from_home is Some && tx.km_from_home->0@
            == number,
        key == "\"km_from_current\"".spec_bytes() && !no_last(s) ==> tx.km_from_last is Some
            && tx.km_from_last->0@ == number,
        no_last(s) ==> tx.km_from_last is None,
{
    lemma_number_behind_key(s, pre, key, gap, colon, number, post);
}

/// The average of the merchant stands behind the second place of its key: where the first place
/// is at `at` and something follows it, it is the first in the rest of the request.
pub proof fn lemma_average_of_the_merchant(
    tx: Transaction,
    s: Seq<u8>,
    key: Seq<u8>,
    at: int,
    rest: Seq<u8>,
    pre: Seq<u8>,
    gap: Seq<u8>,
    colon: int,
    number: Seq<u8>,
    post: Seq<u8>,
)
    requires
        tx.reads(s),
        key == "\"avg_amount\"".spec_bytes(),
        search::occurs_at(s, key, at),
        forall|before: int| 0 <= before < at ==> !search::occurs_at(s, key, before),
        rest == s.skip(at + key.len()),
        value_after(rest).len() > 0,
        rest == pre + key + gap + number + post,
        forall|before: int| 0 <= before < pre.len() ==> !search::occurs_at(rest, key, before),
        is_gap(gap, colon),
        number.len() > 0,
        forall|i: int|
            0 <= i < number.len() ==> #[trigger] number[i] != 44 && number[i] != 125 && number[i]
                != 93 && number[i] != 32 && number[i] != 9 && number[i] != 10 && number[i] != 13,
        post.len() > 0 ==> post[0] == 44 || post[0] == 125 || post[0] == 93 || post[0] == 32
            || post[0] == 9 || post[0] == 10 || post[0] == 13,
    ensures
        tx.merchant_avg_amount is Some && tx.merchant_avg_amount->0@ == number,
{
    lemma_number_behind_key(rest, pre, key, gap, colon, number, post);
    lemma_nth_value(s, key, at, 1);
}

/// A number that a request does not name is missing from it.
pub proof fn lemma_missing_numbers(tx: Transaction, s: Seq<u8>, key: Seq<u8>)
    requires
        tx.reads(s),
        forall|place: int| !search::occurs_at(s, key, place),
    ensures
        key == "\"amount\"".spec_bytes() ==> tx.amount is None,
        key == "\"installments\"".spec_bytes() ==> tx.installments is None,
        key == "\"avg_amount\"".spec_bytes() ==> tx.customer_avg_amount is None
            && tx.merchant_avg_amount is None,
        key == "\"tx_count_24h\"".spec_bytes() ==> tx.tx_count_24h is None,
        key == "\"km_from_home\"".spec_bytes() ==> tx.km_from_home is None,
        key == "\"km_from_current\"".spec_bytes() ==> tx.km_from_last is None,
{
    lemma_nth_value(s, key, 0, 1);
    lemma_nth_value(s, key, 0, 2);
}

/// The conditions of a request: it is online only where it says true, and the card is present
/// unless it says false.
pub proof fn lemma_conditions_of_a_request(tx: Transaction, s: Seq<u8>)
    requires
        tx.reads(s),
    ensures
        tx.is_online <==> (nth_value(s, "\"is_online\"".spec_bytes(), 1) matches Some(v) && v.len()
            >= 4 && v[0] == 116 && v[1] == 114 && v[2] == 117 && v[3] == 101),
        !tx.card_present <==> (nth_value(s, "\"card_present\"".spec_bytes(), 1) matches Some(v)
            && v.len() >= 5 && v[0] == 102 && v[1] == 97 && v[2] == 108 && v[3] == 115 && v[4]
            == 101),
{
    lemma_truth(s, "\"is_online\"".spec_bytes());
    lemma_truth(s, "\"card_present\"".spec_bytes());
}

/// The merchant of a request is its second id. It is unknown exactly where there is one, and
/// the request has no list of known merchants or does not list it.
pub proof fn lemma_merchant_of_a_request(tx: Transaction, s: Seq<u8>)
    requires
        tx.reads(s),
    ensures
        nth_string(s, "\"id\"".spec_bytes(), 2) is None ==> !tx.unknown_merchant,
        nth_string(s, "\"id\"".spec_bytes(), 2) matches Some(id) ==> {
            &&& array(s, "\"known_merchants\"".spec_bytes()) is None ==> tx.unknown_merchant
            &&& array(s, "\"known_merchants\"".spec_bytes()) matches Some(known) ==> (
            tx.unknown_merchant <==> !listed(known, id))
        },
{
}

/// The category code of a request is the string behind its key, cut off behind eight characters
/// and filled up with zeros.
pub proof fn lemma_code_of_a_request(tx: Transaction, s: Seq<u8>)
    requires
        tx.reads(s),
    ensures
        nth_string(s, "\"mcc\"".spec_bytes(), 1) is None ==> tx.mcc_len == 0,
        nth_string(s, "\"mcc\"".spec_bytes(), 1) matches Some(code) ==> {
            &&& tx.mcc_len == if code.len() < 8 { code.len() } else { 8 }
            &&& forall|i: int| 0 <= i < tx.mcc_len ==> #[trigger] tx.mcc@[i] == code[i]
        },
        forall|i: int| tx.mcc_len <= i < 8 ==> #[trigger] tx.mcc@[i] == 0,
{
    if let Some(code) = nth_string(s, "\"mcc\"".spec_bytes(), 1) {
        assert forall|i: int| 0 <= i < tx.mcc_len implies #[trigger] tx.mcc@[i] == code[i] by {
            assert(tx.code()[i] == category_code(s)[i]);
        }
    }
}

/// There was no last transaction exactly where null follows a place of its key.
pub proof fn lemma_no_last(s: Seq<u8>)
    ensures
        no_last(s) <==> exists|at: int| #[trigger]
            search::occurs_at(s, "\"last_transaction\"".spec_bytes(), at) && {
                let v = value_after(s.skip(at + 18));
                v.len() >= 4 && v[0] == 110 && v[1] == 117 && v[2] == 108 && v[3] == 108
            },
{
    let key = "\"last_transaction\"".spec_bytes();
    let null = "null".spec_bytes();
    reveal_strlit("\"last_transaction\"");
    reveal_strlit("null");
    is_ascii_spec_bytes("\"last_transaction\"");
    is_ascii_spec_bytes("null");
    assert(key.len() == 18);
    assert(null =~= seq![110u8, 117, 108, 108]);
    assert forall|at: int| null_at(s, at) <==> #[trigger] search::occurs_at(s, key, at) && {
        let v = value_after(s.skip(at + 18));
        v.len() >= 4 && v[0] == 110 && v[1] == 117 && v[2] == 108 && v[3] == 108
    } by {
        let v = value_after(s.skip(at + 18));
        search::lemma_occurs(v, null, 0);
        if search::occurs_at(v, null, 0) {
            assert(v[0] == null[0] && v[1] == null[1] && v[2] == null[2] && v[3]
                == null[3]);
        }
    }
    if no_last(s) {
        let at = choose|at: int| null_at(s, at);
        assert(search::occurs_at(s, key, at));
    }
    if exists|at: int| #[trigger]
        search::occurs_at(s, key, at) && {
            let v = value_after(s.skip(at + 18));
            v.len() >= 4 && v[0] == 110 && v[1] == 117 && v[2] == 108 && v[3] == 108
        } {
        let at = choose|at: int| #[trigger]
            search::occurs_at(s, key, at) && {
                let v = value_after(s.skip(at + 18));
                v.len() >= 4 && v[0] == 110 && v[1] == 117 && v[2] == 108 && v[3] == 108
            };
        assert(null_at(s, at));
    }
}

/// The times of a request: the hour and the day of the week are those of the time of the
/// request, zero where it is missing or too short; the time since the last transaction runs
/// from the time of that to the time of the request, and is there exactly where there was a
/// last transaction and both times are given.
pub proof fn lemma_times_of_a_request(tx: Transaction, s: Seq<u8>)
    requires
        tx.reads(s),
    ensures
        ({
            let now = nth_string(s, "\"requested_at\"".spec_bytes(), 1);
            let last = nth_string(s, "\"timestamp\"".spec_bytes(), 1);
            &&& now is None ==> tx.hour == 0 && tx.day_of_week == 0
            &&& now matches Some(ts) ==> {
                &&& ts.len() < 19 ==> tx.hour == 0 && tx.day_of_week == 0
                &&& ts.len() >= 19 ==> tx.hour == 10 * (ts[11] - 48) + (ts[12] - 48)
                &&& ts.len() >= 19 ==> tx.day_of_week == calendar::weekday(
                    calendar::year(ts),
                    calendar::month(ts),
                    calendar::day(ts),
                )
            }
            &&& tx.minutes_since_last is Some <==> !no_last(s) && now is Some && last is Some
            &&& tx.minutes_since_last matches Some(i) ==> {
                &&& 60 * i.from.minutes + i.from.seconds == calendar::point(last->0)
                &&& 60 * i.to.minutes + i.to.seconds == calendar::point(now->0)
                &&& i.from.seconds == calendar::seconds(last->0)
                &&& i.to.seconds == calendar::seconds(now->0)
            }
        }),
{
}

/// A request is read exactly where its times can be read, its hour is one of the day's and its
/// day one of the week's.
pub proof fn lemma_when_a_request_is_read(s: Seq<u8>)
    ensures
        ({
            let now = nth_string(s, "\"requested_at\"".spec_bytes(), 1);
            let last = nth_string(s, "\"timestamp\"".spec_bytes(), 1);
            timestamps_valid(s) <==> {
                &&& now matches Some(ts) ==> {
                    &&& calendar::has_hour_dow(ts)
                    &&& ts.len() >= 19 ==> 10 * (ts[11] - 48) + (ts[12] - 48) <= 23
                    &&& ts.len() >= 19 ==> calendar::weekday(
                        calendar::year(ts),
                        calendar::month(ts),
                        calendar::day(ts),
                    ) <= 6
                }
                &&& now is Some && last is Some && !no_last(s) ==> calendar::has_minutes(now->0)
                    && calendar::has_minutes(last->0)
            }
        }),
{
}

/// A number is the front of its value, up to where it ends; without a value there is none, and
/// none has the number zero.
pub proof fn lemma_nth_number(
    s: Seq<u8>,
    key: Seq<u8>,
    nth: nat,
    number: Seq<u8>,
    rest: Seq<u8>,
)
    requires
        forall|i: int|
            0 <= i < number.len() ==> #[trigger] number[i] != 44 && number[i] != 125 && number[i]
                != 93 && number[i] != 32 && number[i] != 9 && number[i] != 10 && number[i] != 13,
        rest.len() > 0 ==> rest[0] == 44 || rest[0] == 125 || rest[0] == 93 || rest[0] == 32
            || rest[0] == 9 || rest[0] == 10 || rest[0] == 13,
    ensures
        nth_value(s, key, nth) == Some(number + rest) ==> nth_number(s, key, nth) == Some(number),
        nth_value(s, key, nth) is None ==> nth_number(s, key, nth) is None,
        nth_value(s, key, 0) is None,
        nth_string(s, key, 0) is None,
{
    lemma_number_text(number, rest);
    lemma_no_string_zero(s, key, 0);
}

/// Strings are counted from one.
proof fn lemma_no_string_zero(s: Seq<u8>, key: Seq<u8>, nth: int)
    requires
        nth <= 0,
    ensures
        nth_string(s, key, nth) is None,
    decreases s.len(),
{
    if let Some(at) = search::first_match(s, key) {
        if key.len() > 0 && 0 <= at <= s.len() - key.len() {
            let rest = s.skip(at + key.len());
            lemma_no_string_zero(rest, key, nth);
            lemma_no_string_zero(rest, key, nth - 1);
        }
    }
}

/// The key of each number, wherever and however the request writes it.
pub proof fn lemma_keys_of_numbers(tx: Transaction, s: Seq<u8>)
    requires
        tx.reads(s),
    ensures
        is_text(tx.amount, nth_number(s, "\"amount\"".spec_bytes(), 1)),
        is_text(tx.installments, nth_number(s, "\"installments\"".spec_bytes(), 1)),
        is_text(tx.customer_avg_amount, nth_number(s, "\"avg_amount\"".spec_bytes(), 1)),
        is_text(tx.merchant_avg_amount, nth_number(s, "\"avg_amount\"".spec_bytes(), 2)),
        is_text(tx.tx_count_24h, nth_number(s, "\"tx_count_24h\"".spec_bytes(), 1)),
        is_text(tx.km_from_home, nth_number(s, "\"km_from_home\"".spec_bytes(), 1)),
        !no_last(s) ==> is_text(
            tx.km_from_last,
            nth_number(s, "\"km_from_current\"".spec_bytes(), 1),
        ),
{
}

/// `part` is there exactly where `text` is, and holds its bytes.
pub open spec fn is_text(part: Option<&[u8]>, text: Option<Seq<u8>>) -> bool {
    &&& part is Some <==> text is Some
    &&& part is Some ==> part->0@ == text->0
}

/// The keys that strings are looked up by are not empty.
proof fn lemma_string_keys()
    ensures
        "\"requested_at\"".spec_bytes().len() > 0,
        "\"timestamp\"".spec_bytes().len() > 0,
        "\"id\"".spec_bytes().len() > 0,
        "\"mcc\"".spec_bytes().len() > 0,
{
    reveal_strlit("\"requested_at\"");
    reveal_strlit("\"timestamp\"");
    reveal_strlit("\"id\"");
    reveal_strlit("\"mcc\"");
    is_ascii_spec_bytes("\"requested_at\"");
    is_ascii_spec_bytes("\"timestamp\"");
    is_ascii_spec_bytes("\"id\"");
    is_ascii_spec_bytes("\"mcc\"");
}

/// The first eight characters of `code`, filled up with zeros, and how many they are.
fn cut_code(code: &[u8]) -> (r: ([u8; 8], u8))
    ensures
        r.1 == if code@.len() < 8 { code@.len() } else { 8 },
        r.0@.take(r.1 as int) == code@.take(r.1 as int),
        forall|i: int| r.1 <= i < 8 ==> r.0@[i] == 0,
{
    let mut mcc: [u8; 8] = [0; 8];
    let len = if code.len() < 8 {
        code.len()
    } else {
        8
    };
    let mut i: usize = 0;
    while i < len
        invariant
            i <= len <= 8,
            len <= code@.len(),
            forall|j: int| 0 <= j < i ==> mcc@[j] == code@[j],
            forall|j: int| i <= j < 8 ==> mcc@[j] == 0,
        decreases len - i,
    {
        mcc[i] = code[i];
        i += 1;
    }
    assert(mcc@.take(len as int) =~= code@.take(len as int));
    (mcc, len as u8)
}

/// Tells whether the request says that there was no last transaction.
fn is_null(buf: &[u8]) -> (r: bool)
    ensures
        r == no_last(buf@),
{
    let key: &[u8] = "\"last_transaction\"".as_bytes();
    proof {
        reveal_strlit("\"last_transaction\"");
        is_ascii_spec_bytes("\"last_transaction\"");
        assert(buf.len() == buf@.len());
    }
    let mut from: usize = 0;
    loop
        invariant
            key@ == "\"last_transaction\"".spec_bytes(),
            key@.len() > 0,
            from <= buf@.len() <= usize::MAX,
            forall|at: int| 0 <= at < from ==> !null_at(buf@, at),
        decreases buf@.len() - from,
    {
        let rest = &buf[from..buf.len()];
        match search::find(rest, key) {
            Some(pos) => {
                let at = from + pos;
                proof {
                    lemma_occurs_behind(buf@, key@, from as int, at as int);
                    assert forall|b: int| from <= b < at implies !null_at(buf@, b) by {
                        lemma_occurs_behind(buf@, key@, from as int, b);
                        assert(!search::occurs_at(rest@, key@, b - from));
                    }
                }
                let behind = &buf[at + key.len()..buf.len()];
                assert(behind@ =~= buf@.skip(at + key@.len()));
                if let Some(value) = skip_colon_ws(behind) {
                    if search::starts_with(value, "null".as_bytes()) {
                        assert(null_at(buf@, at as int));
                        return true;
                    }
                } else {
                    proof {
                        reveal_strlit("null");
                        is_ascii_spec_bytes("null");
                    }
                }
                from = at + 1;
            },
            None => {
                assert forall|b: int| !null_at(buf@, b) by {
                    if from <= b {
                        lemma_occurs_behind(buf@, key@, from as int, b);
                        assert(!search::occurs_at(rest@, key@, b - from));
                    }
                }
                return false;
            },
        }
    }
}

/// What stands in `s` from `from` on stands in the rest of `s` behind `from`.
proof fn lemma_occurs_behind(s: Seq<u8>, key: Seq<u8>, from: int, at: int)
    requires
        0 <= from <= s.len(),
        from <= at,
    ensures
        search::occurs_at(s, key, at) == search::occurs_at(
            s.subrange(from, s.len() as int),
            key,
            at - from,
        ),
{
    if at + key.len() <= s.len() {
        assert(s.subrange(from, s.len() as int).subrange(at - from, at - from + key.len())
            =~= s.subrange(at, at + key.len()));
    }
}

/// Tells whether `id` is one of the strings in the array with the text `known`.
pub fn is_listed(known: &[u8], id: &[u8]) -> (r: bool)
    ensures
        r == listed(known@, id@),
{
    let mut rest = known;
    loop
        invariant
            listed(rest@, id@) == listed(known@, id@),
        decreases rest@.len(),
    {
        assert(rest.len() == rest@.len());
        match search::find_byte(rest, '"' as u8) {
            Some(open) => {
                let inner = &rest[open + 1..rest.len()];
                assert(inner@ =~= rest@.skip(open + 1));
                match search::find_byte(inner, '"' as u8) {
                    Some(end) => {
                        let name = &inner[0..end];
                        assert(name@ =~= inner@.take(end as int));
                        if search::same_bytes(name, id) {
                            return true;
                        }
                        rest = &inner[end + 1..inner.len()];
                        assert(rest@ =~= inner@.skip(end + 1));
                    },
                    None => {
                        return false;
                    },
                }
            },
            None => {
                return false;
            },
        }
    }
}

/// Tells whether the named merchant is missing from the known ones.
fn is_unknown_merchant(buf: &[u8]) -> (r: bool)
    ensures
        r == merchant_unknown(buf@),
{
    proof {
        lemma_string_keys();
    }
    match find_string_value_nth(buf, "\"id\"".as_bytes(), 2) {
        Some(merchant_id) => match find_array_start(buf, "\"known_merchants\"".as_bytes()) {
            Some(known) => !is_listed(known, merchant_id),
            None => true,
        },
        None => false,
    }
}

/// The time from the last transaction to the request.
fn find_interval(buf: &[u8], null: bool) -> (r: Option<Interval>)
    requires
        timestamps_read(buf@),
        null == no_last(buf@),
    ensures
        interval_read(r, buf@),
{
    proof {
        lemma_string_keys();
    }
    if null {
        return None;
    }
    match (
        find_string_value(buf, "\"requested_at\"".as_bytes()),
        find_string_value_nth(buf, "\"timestamp\"".as_bytes(), 1),
    ) {
        (Some(req_ts), Some(last_ts)) => Some(calendar::minutes_between(last_ts, req_ts)),
        _ => None,
    }
}

/// Tells whether the timestamps that the request gives can be read.
fn are_timestamps_readable(buf: &[u8]) -> (r: bool)
    ensures
        r == timestamps_read(buf@),
{
    proof {
        lemma_string_keys();
    }
    match find_string_value(buf, "\"requested_at\"".as_bytes()) {
        Some(to) => calendar::is_hour_dow(to) && (is_null(buf) || match find_string_value_nth(
            buf,
            "\"timestamp\"".as_bytes(),
            1,
        ) {
            Some(from) => calendar::is_minutes(to) && calendar::is_minutes(from),
            None => true,
        }),
        None => true,
    }
}

/// Reads a request. A field that is missing takes a default. A request is refused only if a
/// timestamp in it cannot be read, or gives an hour or a day of the week that there is not.
pub fn parse_transaction<'a>(buf: &'a [u8]) -> (r: Result<Transaction<'a>, ()>)
    ensures
        match r {
            Ok(tx) => {
                &&& timestamps_valid(buf@)
                &&& tx.reads(buf@)
                &&& tx.hour <= calendar::LAST_HOUR
                &&& tx.day_of_week <= calendar::LAST_DAY
                &&& tx.mcc_len <= 8
            },
            Err(_) => !timestamps_valid(buf@),
        },
{
    proof {
        lemma_string_keys();
    }
    if !are_timestamps_readable(buf) {
        return Err(());
    }
    let (hour, day_of_week) = match find_string_value(buf, "\"requested_at\"".as_bytes()) {
        Some(ts) => calendar::parse_iso8601_hour_dow(ts),
        None => (0, 0),
    };
    if hour > calendar::LAST_HOUR || day_of_week > calendar::LAST_DAY {
        return Err(());
    }
    let (mcc, mcc_len) = match find_string_value(buf, "\"mcc\"".as_bytes()) {
        Some(code) => cut_code(code),
        None => ([0; 8], 0),
    };
    let null = is_null(buf);
    let tx = Transaction {
        amount: find_number(buf, "\"amount\"".as_bytes()),
        installments: find_number(buf, "\"installments\"".as_bytes()),
        hour,
        day_of_week,
        customer_avg_amount: find_number(buf, "\"avg_amount\"".as_bytes()),
        tx_count_24h: find_number(buf, "\"tx_count_24h\"".as_bytes()),
        unknown_merchant: is_unknown_merchant(buf),
        mcc,
        mcc_len,
        merchant_avg_amount: find_number_nth(buf, "\"avg_amount\"".as_bytes(), 2),
        is_online: match find_bool(buf, "\"is_online\"".as_bytes()) {
            Some(b) => b,
            None => false,
        },
        card_present: match find_bool(buf, "\"card_present\"".as_bytes()) {
            Some(b) => b,
            None => true,
        },
        km_from_home: find_number(buf, "\"km_from_home\"".as_bytes()),
        minutes_since_last: find_interval(buf, null),
        km_from_last: if null {
            None
        } else {
            find_number(buf, "\"km_from_current\"".as_bytes())
        },
    };
    assert(tx.code() =~= category_code(buf@));
    Ok(tx)
}

} // verus!
