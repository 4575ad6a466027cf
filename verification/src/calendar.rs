//! Timestamps of the form `YYYY-MM-DDThh:mm:ssZ`.
use crate::division;
use vstd::prelude::*;

verus! {

/// The least length of a timestamp that is read; a shorter one reads as zeros.
pub const STAMP_LEN: usize = 19;

/// The last hour of a day.
pub const LAST_HOUR: u8 = 23;

/// The last day of a week.
pub const LAST_DAY: u8 = 6;

/// How far the first day of each month moves the day of the week.
pub const MONTH_SHIFT: [i32; 12] = [0, 3, 2, 5, 0, 3, 5, 1, 4, 6, 2, 4];

/// A point in time: whole minutes, counted with months of 43800 minutes and years of
/// 525960, and the seconds that go on top.
pub struct Stamp {
    pub minutes: u64,
    pub seconds: u8,
}

/// The time from one point to another.
pub struct Interval {
    pub from: Stamp,
    pub to: Stamp,
}

impl Stamp {
    /// The point in time in seconds.
    pub open spec fn in_seconds(self) -> int {
        60 * self.minutes + self.seconds
    }
}

impl Interval {
    /// How many seconds the time takes: none where the first point is the later one.
    pub open spec fn span(self) -> int {
        if self.to.in_seconds() > self.from.in_seconds() {
            self.to.in_seconds() - self.from.in_seconds()
        } else {
            0
        }
    }

    /// How many seconds the time takes.
    pub fn seconds(&self) -> (s: u128)
        ensures
            s == self.span(),
            60 * self.to.minutes + self.to.seconds > 60 * self.from.minutes + self.from.seconds ==> s
                == (60 * self.to.minutes + self.to.seconds) - (60 * self.from.minutes
                + self.from.seconds),
            60 * self.to.minutes + self.to.seconds <= 60 * self.from.minutes + self.from.seconds
                ==> s == 0,
    {
        let from: u128 = 60 * (self.from.minutes as u128) + self.from.seconds as u128;
        let to: u128 = 60 * (self.to.minutes as u128) + self.to.seconds as u128;
        if to > from {
            to - from
        } else {
            0
        }
    }
}

/// The value of a digit character.
pub open spec fn digit(b: u8) -> int {
    b - '0' as u8
}

/// The number that two digit characters write.
pub open spec fn decimal2(b: Seq<u8>) -> int {
    digit(b[0]) * 10 + digit(b[1])
}

/// The number that four digit characters write.
pub open spec fn decimal4(b: Seq<u8>) -> int {
    digit(b[0]) * 1000 + digit(b[1]) * 100 + digit(b[2]) * 10 + digit(b[3])
}

/// Two characters, none below the digits, write a number that fits in a byte.
pub open spec fn reads2(b: Seq<u8>) -> bool {
    &&& digit(b[0]) >= 0
    &&& digit(b[1]) >= 0
    &&& decimal2(b) <= u8::MAX
}

/// Four characters, none below the digits, write a number that fits in sixteen bits.
pub open spec fn reads4(b: Seq<u8>) -> bool {
    &&& digit(b[0]) >= 0
    &&& digit(b[1]) >= 0
    &&& digit(b[2]) >= 0
    &&& digit(b[3]) >= 0
    &&& decimal4(b) <= u16::MAX
}

/// The year of a timestamp.
pub open spec fn year(ts: Seq<u8>) -> int {
    decimal4(ts.subrange(0, 4))
}

/// The month of a timestamp.
pub open spec fn month(ts: Seq<u8>) -> int {
    decimal2(ts.subrange(5, 7))
}

/// The day of a timestamp.
pub open spec fn day(ts: Seq<u8>) -> int {
    decimal2(ts.subrange(8, 10))
}

/// The hour of a timestamp.
pub open spec fn hour(ts: Seq<u8>) -> int {
    decimal2(ts.subrange(11, 13))
}

/// The minute of a timestamp.
pub open spec fn minute(ts: Seq<u8>) -> int {
    decimal2(ts.subrange(14, 16))
}

/// The second of a timestamp.
pub open spec fn second(ts: Seq<u8>) -> int {
    decimal2(ts.subrange(17, 19))
}

/// Year, month, day and hour of a timestamp are numbers.
pub open spec fn reads_date(ts: Seq<u8>) -> bool {
    &&& reads4(ts.subrange(0, 4))
    &&& reads2(ts.subrange(5, 7))
    &&& reads2(ts.subrange(8, 10))
    &&& reads2(ts.subrange(11, 13))
}

/// The hour and the day of the week can be read: the timestamp is too short to be read, or
/// its date and hour are numbers and its month is one of the twelve.
pub open spec fn has_hour_dow(ts: Seq<u8>) -> bool {
    ts.len() < STAMP_LEN || reads_date(ts) && 1 <= month(ts) <= 12
}

/// The point in time can be read: the timestamp is too short to be read, or all its parts
/// are numbers.
pub open spec fn has_minutes(ts: Seq<u8>) -> bool {
    ts.len() < STAMP_LEN || reads_date(ts) && reads2(ts.subrange(14, 16)) && reads2(
        ts.subrange(17, 19),
    )
}

/// The whole minutes of a timestamp.
pub open spec fn minutes(ts: Seq<u8>) -> int {
    if ts.len() < STAMP_LEN {
        0
    } else {
        year(ts) * 525960 + month(ts) * 43800 + day(ts) * 1440 + hour(ts) * 60 + minute(ts)
    }
}

/// The seconds of a timestamp.
pub open spec fn seconds(ts: Seq<u8>) -> int {
    if ts.len() < STAMP_LEN {
        0
    } else {
        second(ts)
    }
}

/// `stamp` is the point in time that `ts` writes.
pub open spec fn stamps(stamp: Stamp, ts: Seq<u8>) -> bool {
    stamp.minutes == minutes(ts) && stamp.seconds == seconds(ts)
}

/// The point in time that a timestamp writes, in seconds.
pub open spec fn point(ts: Seq<u8>) -> int {
    60 * minutes(ts) + seconds(ts)
}

/// The seconds from one timestamp to another: none where the first is the later one.
pub open spec fn seconds_between(from: Seq<u8>, to: Seq<u8>) -> int {
    if point(to) > point(from) {
        point(to) - point(from)
    } else {
        0
    }
}

/// The time between two timestamps is never below zero, none passes from a timestamp to
/// itself, and in one of the two directions none passes.
pub proof fn lemma_seconds_between(a: Seq<u8>, b: Seq<u8>)
    ensures
        seconds_between(a, b) >= 0,
        seconds_between(a, a) == 0,
        seconds_between(a, b) == 0 || seconds_between(b, a) == 0,
        seconds_between(a, b) + seconds_between(b, a) == 0 <==> point(a) == point(b),
{
}

/// The year that a date is counted in: January and February count with the year before.
pub open spec fn counted_year(y: int, m: int) -> int {
    if m < 3 {
        y - 1
    } else {
        y
    }
}

/// Years and leap days up to the date.
pub open spec fn leap_sum(y: int) -> int {
    y + division::quotient(y, 4) - division::quotient(y, 100) + division::quotient(y, 400)
}

/// The number whose remainder by seven is the day of the week, with Sunday as zero.
pub open spec fn weekday_sum(y: int, m: int, d: int) -> int {
    leap_sum(counted_year(y, m)) + MONTH_SHIFT[m - 1] + d
}

/// `x` is a number of thirty-two bits.
pub open spec fn fits(x: int) -> bool {
    i32::MIN <= x <= i32::MAX
}

/// Every step of the sum stays within thirty-two bits.
pub open spec fn weekday_fits(y: int, m: int, d: int) -> bool {
    let c = counted_year(y, m);
    &&& fits(c)
    &&& fits(c + division::quotient(c, 4))
    &&& fits(c + division::quotient(c, 4) - division::quotient(c, 100))
    &&& fits(leap_sum(c))
    &&& fits(leap_sum(c) + MONTH_SHIFT[m - 1])
    &&& fits(weekday_sum(y, m, d))
}

/// The day of the week, Monday as zero. A sum below zero, which no date since the year one
/// has, leaves a remainder below zero, and that comes out as a number above the weekdays.
pub open spec fn weekday(y: int, m: int, d: int) -> int {
    let r = division::remainder(weekday_sum(y, m, d), 7);
    if r == 0 {
        6
    } else if r > 0 {
        r - 1
    } else {
        255 + r
    }
}

/// A leap year of the Gregorian calendar.
pub open spec fn is_leap(y: int) -> bool {
    y % 4 == 0 && (y % 100 != 0 || y % 400 == 0)
}

/// The days of the years before `y`.
pub open spec fn days_before_year(y: int) -> int
    decreases y,
{
    if y <= 1 {
        0
    } else {
        days_before_year(y - 1) + if is_leap(y - 1) {
            366int
        } else {
            365
        }
    }
}

/// The number of days of a month.
pub open spec fn month_len(y: int, m: int) -> int {
    if m == 2 {
        if is_leap(y) {
            29
        } else {
            28
        }
    } else if m == 4 || m == 6 || m == 9 || m == 11 {
        30
    } else {
        31
    }
}

/// The days of the months before `m`.
pub open spec fn days_before_month(y: int, m: int) -> int
    decreases m,
{
    if m <= 1 {
        0
    } else {
        days_before_month(y, m - 1) + month_len(y, m - 1)
    }
}

/// The days of the Gregorian calendar before a date, counted from the first of January of
/// the year one, a Monday.
pub open spec fn days_before(y: int, m: int, d: int) -> int {
    days_before_year(y) + days_before_month(y, m) + d - 1
}

/// A quotient grows by one at each multiple of the divisor.
proof fn lemma_quotient_step(y: int, k: int)
    requires
        k > 0,
    ensures
        y / k == (y - 1) / k + if y % k == 0 {
            1int
        } else {
            0
        },
{
    let q = y / k;
    let r = y % k;
    vstd::arithmetic::div_mod::lemma_fundamental_div_mod(y, k);
    vstd::arithmetic::mul::lemma_mul_is_commutative(k, q);
    if r == 0 {
        assert((q - 1) * k == q * k - k) by (nonlinear_arith);
        vstd::arithmetic::div_mod::lemma_fundamental_div_mod_converse(y - 1, k, q - 1, k - 1);
    } else {
        vstd::arithmetic::div_mod::lemma_fundamental_div_mod_converse(y - 1, k, q, r - 1);
    }
}

/// A leap year adds one leap day.
proof fn lemma_leap_step(y: int)
    ensures
        y / 4 - y / 100 + y / 400 == (y - 1) / 4 - (y - 1) / 100 + (y - 1) / 400 + if is_leap(y) {
            1int
        } else {
            0
        },
{
    lemma_quotient_step(y, 4);
    lemma_quotient_step(y, 100);
    lemma_quotient_step(y, 400);
    assert(y % 400 == 0 ==> y % 100 == 0);
    assert(y % 100 == 0 ==> y % 4 == 0);
}

/// The days of the years before `y`, by the leap years among them.
proof fn lemma_days_before_year(y: int)
    requires
        y >= 1,
    ensures
        days_before_year(y) == 365 * (y - 1) + ((y - 1) / 4 - (y - 1) / 100 + (y - 1) / 400),
    decreases y,
{
    if y > 1 {
        lemma_days_before_year(y - 1);
        lemma_leap_step(y - 1);
    }
}

/// From the year zero on there are only leap days to add.
proof fn lemma_leap_sum(y: int)
    requires
        y >= 0,
    ensures
        leap_sum(y) == y + (y / 4 - y / 100 + y / 400),
        y / 4 - y / 100 + y / 400 >= 0,
{
}

/// The days of the months before `m`, by the months of a common year.
spec fn common_days_before_month(m: int) -> int {
    if m == 1 {
        0
    } else if m == 2 {
        31
    } else if m == 3 {
        59
    } else if m == 4 {
        90
    } else if m == 5 {
        120
    } else if m == 6 {
        151
    } else if m == 7 {
        181
    } else if m == 8 {
        212
    } else if m == 9 {
        243
    } else if m == 10 {
        273
    } else if m == 11 {
        304
    } else {
        334
    }
}

/// A leap year has one day more before each month from March on.
proof fn lemma_days_before_month(y: int, m: int)
    requires
        1 <= m <= 12,
    ensures
        days_before_month(y, m) == common_days_before_month(m) + if m > 2 && is_leap(y) {
            1int
        } else {
            0
        },
    decreases m,
{
    if m > 1 {
        lemma_days_before_month(y, m - 1);
    }
}

/// Up to the shift of the month, whole weeks lie before each month.
proof fn lemma_month_weeks(m: int) -> (weeks: int)
    requires
        1 <= m <= 12,
    ensures
        common_days_before_month(m) == MONTH_SHIFT[m - 1] + 7 * weeks + if m > 2 {
            1int
        } else {
            0
        },
{
    (common_days_before_month(m) - MONTH_SHIFT[m - 1]) / 7
}

/// The leap days up to the end of year `y`, from the year one on.
spec fn leap_days(y: int) -> int {
    y / 4 - y / 100 + y / 400
}

/// The leap sum of a date, by the leap days before its year.
proof fn lemma_leap_sum_of_date(y: int, m: int)
    requires
        1 <= y,
        1 <= m <= 12,
    ensures
        leap_sum(counted_year(y, m)) == counted_year(y, m) + leap_days(y - 1) + if m > 2
            && is_leap(y) {
            1int
        } else {
            0
        },
        leap_days(y - 1) >= 0,
{
    lemma_leap_step(y);
    lemma_leap_sum(counted_year(y, m));
    lemma_leap_sum(y - 1);
}

/// The days before a date and its sum, from the parts that they are made of.
proof fn lemma_whole_weeks(
    y: int,
    m: int,
    d: int,
    leaps: int,
    extra: int,
    shift: int,
    weeks: int,
    days: int,
    sum: int,
)
    requires
        sum == (if m < 3 {
            y - 1
        } else {
            y
        }) + leaps + extra + shift + d,
        days == 365 * (y - 1) + leaps + (shift + 7 * weeks + if m > 2 {
            1int
        } else {
            0
        }) + extra + d - 1,
    ensures
        days == sum - 1 + 7 * (52 * (y - 1) + weeks),
{
}

/// A date lies a whole number of weeks behind its sum.
proof fn lemma_days_and_sum(y: int, m: int, d: int) -> (weeks: int)
    requires
        1 <= y,
        1 <= m <= 12,
        1 <= d,
    ensures
        days_before(y, m, d) == weekday_sum(y, m, d) - 1 + 7 * weeks,
        weekday_sum(y, m, d) >= 1,
{
    let extra: int = if m > 2 && is_leap(y) {
        1
    } else {
        0
    };
    let w = lemma_month_weeks(m);
    let shift = MONTH_SHIFT[m - 1] as int;
    let leaps = leap_days(y - 1);
    assert(days_before_year(y) == 365 * (y - 1) + leaps) by {
        lemma_days_before_year(y);
    }
    assert(days_before_month(y, m) == common_days_before_month(m) + extra) by {
        lemma_days_before_month(y, m);
    }
    assert(leap_sum(counted_year(y, m)) == counted_year(y, m) + leaps + extra && leaps >= 0) by {
        lemma_leap_sum_of_date(y, m);
    }
    lemma_whole_weeks(
        y,
        m,
        d,
        leaps,
        extra,
        shift,
        w,
        days_before(y, m, d),
        weekday_sum(y, m, d),
    );
    52 * (y - 1) + w
}

/// The day of the week from a sum that is not below zero.
proof fn lemma_weekday_of_sum(y: int, m: int, d: int)
    requires
        weekday_sum(y, m, d) >= 0,
    ensures
        weekday(y, m, d) == (weekday_sum(y, m, d) + 6) % 7,
{
}

/// On every date since the year one, the day of the week is that of the Gregorian calendar.
pub proof fn lemma_weekday_is_gregorian(y: int, m: int, d: int)
    requires
        1 <= y,
        1 <= m <= 12,
        1 <= d <= month_len(y, m),
    ensures
        weekday(y, m, d) == days_before(y, m, d) % 7,
{
    lemma_weekday_by_days(y, m, d);
}

/// The day of the week is that of the days before it, however many days a month has.
proof fn lemma_weekday_by_days(y: int, m: int, d: int)
    requires
        1 <= y,
        1 <= m <= 12,
        1 <= d,
    ensures
        weekday(y, m, d) == days_before(y, m, d) % 7,
{
    let weeks = lemma_days_and_sum(y, m, d);
    lemma_weekday_of_sum(y, m, d);
    lemma_same_weekday(weekday_sum(y, m, d), weeks);
}

/// Whole weeks leave the day of the week as it is.
proof fn lemma_same_weekday(sum: int, weeks: int)
    ensures
        (sum + 6) % 7 == (sum - 1 + 7 * weeks) % 7,
{
}

/// The day of the week of a date since the year one, or of a day since the year zero, is one of
/// the seven.
pub proof fn lemma_weekday_in_week(y: int, m: int, d: int)
    requires
        (y >= 1 && d >= 0) || (y >= 0 && d >= 1),
        1 <= m <= 12,
    ensures
        0 <= weekday(y, m, d) <= 6,
{
    let c = counted_year(y, m);
    if c >= 0 {
        lemma_leap_sum(c);
    }
    assert(weekday_sum(y, m, d) >= 0);
}

/// Where the parts of a timestamp stand: the year at its front, then month, day, hour, minute
/// and second, each with one character before it.
pub proof fn lemma_parts_of_a_timestamp(ts: Seq<u8>)
    requires
        ts.len() >= 19,
    ensures
        year(ts) == 1000 * (ts[0] - 48) + 100 * (ts[1] - 48) + 10 * (ts[2] - 48) + (ts[3] - 48),
        month(ts) == 10 * (ts[5] - 48) + (ts[6] - 48),
        day(ts) == 10 * (ts[8] - 48) + (ts[9] - 48),
        hour(ts) == 10 * (ts[11] - 48) + (ts[12] - 48),
        minute(ts) == 10 * (ts[14] - 48) + (ts[15] - 48),
        second(ts) == 10 * (ts[17] - 48) + (ts[18] - 48),
{
}

/// A point in time counts sixty seconds to a minute, sixty minutes to an hour, 1440 to a day,
/// 43800 to a month and 525960 to a year. A timestamp that is too short is at zero.
pub proof fn lemma_point(ts: Seq<u8>)
    ensures
        ts.len() < 19 ==> point(ts) == 0 && minutes(ts) == 0 && seconds(ts) == 0,
        ts.len() >= 19 ==> point(ts) == second(ts) + 60 * (minute(ts) + 60 * hour(ts) + 1440 * day(
            ts,
        ) + 43800 * month(ts) + 525960 * year(ts)),
        ts.len() >= 19 ==> seconds(ts) == second(ts),
        point(ts) == 60 * minutes(ts) + seconds(ts),
{
}

/// The time between two timestamps: one direction less the other is the difference of the two
/// points in time, and in one direction none passes.
pub proof fn lemma_time_between(a: Seq<u8>, b: Seq<u8>)
    ensures
        seconds_between(a, b) >= 0,
        seconds_between(b, a) >= 0,
        seconds_between(a, b) == 0 || seconds_between(b, a) == 0,
        seconds_between(a, b) - seconds_between(b, a) == point(b) - point(a),
{
}

/// A timestamp can be read exactly where it is too short, or none of the characters of its
/// parts is below the digits, no part is too large for its type and, for the day of the week,
/// the month is one of the twelve.
pub proof fn lemma_when_read(ts: Seq<u8>)
    ensures
        ts.len() < 19 ==> has_hour_dow(ts) && has_minutes(ts),
        ts.len() >= 19 ==> (has_hour_dow(ts) <==> {
            &&& ts[0] >= 48 && ts[1] >= 48 && ts[2] >= 48 && ts[3] >= 48 && year(ts) <= 65535
            &&& ts[5] >= 48 && ts[6] >= 48 && 1 <= month(ts) <= 12
            &&& ts[8] >= 48 && ts[9] >= 48 && day(ts) <= 255
            &&& ts[11] >= 48 && ts[12] >= 48 && hour(ts) <= 255
        }),
        ts.len() >= 19 ==> (has_minutes(ts) <==> {
            &&& ts[0] >= 48 && ts[1] >= 48 && ts[2] >= 48 && ts[3] >= 48 && year(ts) <= 65535
            &&& ts[5] >= 48 && ts[6] >= 48 && month(ts) <= 255
            &&& ts[8] >= 48 && ts[9] >= 48 && day(ts) <= 255
            &&& ts[11] >= 48 && ts[12] >= 48 && hour(ts) <= 255
            &&& ts[14] >= 48 && ts[15] >= 48 && minute(ts) <= 255
            &&& ts[17] >= 48 && ts[18] >= 48 && second(ts) <= 255
        }),
{
}

/// The day behind a day is the next of the week.
pub proof fn lemma_next_day(y: int, m: int, d: int)
    requires
        1 <= m <= 12,
        (y >= 1 && d >= 0) || (y >= 0 && d >= 1),
    ensures
        weekday(y, m, d + 1) == (weekday(y, m, d) + 1) % 7,
{
    let c = counted_year(y, m);
    if c >= 0 {
        lemma_leap_sum(c);
    }
    let s = weekday_sum(y, m, d);
    assert(s >= 0);
    lemma_weekday_of_sum(y, m, d);
    lemma_weekday_of_sum(y, m, d + 1);
    lemma_one_day_more(s + 6);
}

/// The first day of a month comes behind the last of the month before. Months have 31 days, or
/// 30, and February has 28, or 29 in a year that four divides, unless a hundred divides it and
/// four hundred does not. The year one begins on a Monday.
pub proof fn lemma_next_month(y: int, m: int, last: int)
    requires
        y >= 1,
        1 <= m <= 11,
        last == if m == 4 || m == 6 || m == 9 || m == 11 {
            30int
        } else if m != 2 {
            31
        } else if y % 400 == 0 || (y % 4 == 0 && y % 100 != 0) {
            29
        } else {
            28
        },
    ensures
        weekday(y, m + 1, 1) == (weekday(y, m, last) + 1) % 7,
        weekday(1, 1, 1) == 0,
{
    assert(days_before(y, m + 1, 1) == days_before(y, m, last) + 1) by {
        assert(last == month_len(y, m));
    }
    lemma_weekday_by_days(y, m, last);
    lemma_weekday_by_days(y, m + 1, 1);
    lemma_one_day_more(days_before(y, m, last));
    assert(days_before(1, 1, 1) == 0);
    lemma_weekday_by_days(1, 1, 1);
}

/// One day more is the next of the week.
proof fn lemma_one_day_more(days: int)
    ensures
        (days + 1) % 7 == (days % 7 + 1) % 7,
{
}

/// New Year's Day comes behind the last of December.
pub proof fn lemma_next_year(y: int)
    requires
        y >= 1,
    ensures
        weekday(y + 1, 1, 1) == (weekday(y, 12, 31) + 1) % 7,
{
    assert(days_before(y + 1, 1, 1) == days_before(y, 12, 31) + 1) by {
        lemma_days_before_month(y, 12);
    }
    lemma_weekday_by_days(y, 12, 31);
    lemma_weekday_by_days(y + 1, 1, 1);
    lemma_one_day_more(days_before(y, 12, 31));
}

/// In the year zero, January begins on a Sunday and February on a Wednesday; March is followed
/// by the year one as in the calendar.
pub proof fn lemma_year_zero()
    ensures
        weekday(0, 1, 1) == 6,
        weekday(0, 2, 1) == 2,
        weekday(0, 3, 1) == 2,
        weekday(0, 12, 31) == 6,
{
}

/// The day of the week on any date, from the shares of the year by four, a hundred and four
/// hundred, each rounded toward zero, and the shift of the month. January and February count
/// with the year before. A sum below zero leaves the week.
pub proof fn lemma_weekday_of_any_date(
    y: int,
    m: int,
    d: int,
    c: int,
    by4: int,
    by100: int,
    by400: int,
    shift: int,
)
    requires
        1 <= m <= 12,
        c == if m <= 2 {
            y - 1
        } else {
            y
        },
        c >= 0 ==> 4 * by4 <= c < 4 * by4 + 4,
        c < 0 ==> 4 * by4 - 4 < c <= 4 * by4,
        c >= 0 ==> 100 * by100 <= c < 100 * by100 + 100,
        c < 0 ==> 100 * by100 - 100 < c <= 100 * by100,
        c >= 0 ==> 400 * by400 <= c < 400 * by400 + 400,
        c < 0 ==> 400 * by400 - 400 < c <= 400 * by400,
        m == 1 || m == 5 ==> shift == 0,
        m == 8 ==> shift == 1,
        m == 3 || m == 11 ==> shift == 2,
        m == 2 || m == 6 ==> shift == 3,
        m == 9 || m == 12 ==> shift == 4,
        m == 4 || m == 7 ==> shift == 5,
        m == 10 ==> shift == 6,
    ensures
        ({
            let s = c + by4 - by100 + by400 + shift + d;
            &&& s >= 0 || s % 7 == 0 ==> weekday(y, m, d) == (s + 6) % 7
            &&& s < 0 && s % 7 != 0 ==> weekday(y, m, d) == 248 + s % 7
        }),
{
    lemma_quotient_is(c, 4, by4);
    lemma_quotient_is(c, 100, by100);
    lemma_quotient_is(c, 400, by400);
    let s = c + by4 - by100 + by400 + shift + d;
    assert(MONTH_SHIFT[m - 1] == shift);
    assert(weekday_sum(y, m, d) == s);
    lemma_week_of_sum(s);
}

/// The share that a division rounded toward zero gives.
proof fn lemma_quotient_is(c: int, k: int, q: int)
    requires
        k > 0,
        c >= 0 ==> k * q <= c < k * q + k,
        c < 0 ==> k * q - k < c <= k * q,
    ensures
        division::quotient(c, k) == q,
{
    vstd::arithmetic::mul::lemma_mul_is_commutative(k, q);
    if c >= 0 {
        vstd::arithmetic::div_mod::lemma_fundamental_div_mod_converse(c, k, q, c - k * q);
    } else {
        assert((-q) * k == -(k * q)) by (nonlinear_arith);
        vstd::arithmetic::div_mod::lemma_fundamental_div_mod_converse(-c, k, -q, k * q - c);
    }
}

/// The day of the week from a sum.
proof fn lemma_week_of_sum(s: int)
    ensures
        ({
            let r = division::remainder(s, 7);
            let day = if r == 0 {
                6
            } else if r > 0 {
                r - 1
            } else {
                255 + r
            };
            &&& s >= 0 || s % 7 == 0 ==> day == (s + 6) % 7
            &&& s < 0 && s % 7 != 0 ==> day == 248 + s % 7
        }),
{
}

/// Reads two digit characters; fewer read as zero.
pub fn parse_decimal2(b: &[u8]) -> (x: u8)
    requires
        b@.len() < 2 || reads2(b@),
    ensures
        b@.len() < 2 ==> x == 0,
        b@.len() >= 2 ==> x == decimal2(b@),
        b@.len() >= 2 ==> x == 10 * (b@[0] - 48) + (b@[1] - 48),
{
    if b.len() < 2 {
        return 0;
    }
    (b[0] - '0' as u8) * 10 + (b[1] - '0' as u8)
}

/// Reads four digit characters; fewer read as zero.
pub fn parse_decimal4(b: &[u8]) -> (x: u16)
    requires
        b@.len() < 4 || reads4(b@),
    ensures
        b@.len() < 4 ==> x == 0,
        b@.len() >= 4 ==> x == decimal4(b@),
        b@.len() >= 4 ==> x == 1000 * (b@[0] - 48) + 100 * (b@[1] - 48) + 10 * (b@[2] - 48) + (
        b@[3] - 48),
{
    if b.len() < 4 {
        return 0;
    }
    let zero = '0' as u8;
    (b[0] - zero) as u16 * 1000 + (b[1] - zero) as u16 * 100 + (b[2] - zero) as u16 * 10 + (b[3]
        - zero) as u16
}

/// Tells whether the two characters at `at` write a number that fits in a byte.
fn is_decimal2(ts: &[u8], at: usize) -> (r: bool)
    requires
        at + 2 <= ts@.len(),
    ensures
        r == reads2(ts@.subrange(at as int, at + 2)),
{
    let zero = '0' as u8;
    ts[at] >= zero && ts[at + 1] >= zero && (ts[at] - zero) as u16 * 10 + (ts[at + 1]
        - zero) as u16 <= u8::MAX as u16
}

/// Tells whether year, month, day and hour of a timestamp are numbers.
fn is_date(ts: &[u8]) -> (r: bool)
    requires
        ts@.len() >= STAMP_LEN,
    ensures
        r == reads_date(ts@),
{
    let zero = '0' as u8;
    ts[0] >= zero && ts[1] >= zero && ts[2] >= zero && ts[3] >= zero && (ts[0] - zero) as u32 * 1000
        + (ts[1] - zero) as u32 * 100 + (ts[2] - zero) as u32 * 10 + (ts[3] - zero) as u32
        <= u16::MAX as u32 && is_decimal2(ts, 5) && is_decimal2(ts, 8) && is_decimal2(ts, 11)
}

/// Tells whether the hour and the day of the week of a timestamp can be read.
pub fn is_hour_dow(ts: &[u8]) -> (r: bool)
    ensures
        r == has_hour_dow(ts@),
{
    if ts.len() < STAMP_LEN {
        return true;
    }
    if !is_date(ts) {
        return false;
    }
    let m = parse_decimal2(&ts[5..7]);
    1 <= m && m <= 12
}

/// Tells whether a timestamp can be read as a point in time.
pub fn is_minutes(ts: &[u8]) -> (r: bool)
    ensures
        r == has_minutes(ts@),
{
    ts.len() < STAMP_LEN || is_date(ts) && is_decimal2(ts, 14) && is_decimal2(ts, 17)
}

/// The day of the week of a date, from zero for Monday to six for Sunday on every date since
/// the year one.
pub fn day_of_week(y: i32, m: i32, d: i32) -> (dow: u8)
    requires
        1 <= m <= 12,
        weekday_fits(y as int, m as int, d as int),
    ensures
        dow == weekday(y as int, m as int, d as int),
{
    let y = if m < 3 {
        y - 1
    } else {
        y
    };
    let r: i32 = (y + y / 4 - y / 100 + y / 400 + MONTH_SHIFT[(m - 1) as usize] + d) % 7;
    if r == 0 {
        6
    } else if r > 0 {
        (r - 1) as u8
    } else {
        (255 + r) as u8
    }
}

/// The hour and the day of the week of a timestamp; both are zero if it is too short.
pub fn parse_iso8601_hour_dow(ts: &[u8]) -> (r: (u8, u8))
    requires
        has_hour_dow(ts@),
    ensures
        ts@.len() < STAMP_LEN ==> r == (0u8, 0u8),
        ts@.len() >= STAMP_LEN ==> r.0 == hour(ts@) && r.1 == weekday(
            year(ts@),
            month(ts@),
            day(ts@),
        ),
{
    if ts.len() < STAMP_LEN {
        return (0, 0);
    }
    let hour = parse_decimal2(&ts[11..13]);
    let y = parse_decimal4(&ts[0..4]) as i32;
    let m = parse_decimal2(&ts[5..7]) as i32;
    let d = parse_decimal2(&ts[8..10]) as i32;
    (hour, day_of_week(y, m, d))
}

/// The point in time that a timestamp writes; it is zero if the timestamp is too short.
pub fn iso_to_minutes(ts: &[u8]) -> (stamp: Stamp)
    requires
        has_minutes(ts@),
    ensures
        stamps(stamp, ts@),
        60 * stamp.minutes + stamp.seconds == point(ts@),
        stamp.seconds == seconds(ts@),
{
    if ts.len() < STAMP_LEN {
        return Stamp { minutes: 0, seconds: 0 };
    }
    let y = parse_decimal4(&ts[0..4]) as u64;
    let mo = parse_decimal2(&ts[5..7]) as u64;
    let d = parse_decimal2(&ts[8..10]) as u64;
    let h = parse_decimal2(&ts[11..13]) as u64;
    let mi = parse_decimal2(&ts[14..16]) as u64;
    let s = parse_decimal2(&ts[17..19]);
    Stamp { minutes: y * 525960 + mo * 43800 + d * 1440 + h * 60 + mi, seconds: s }
}

/// The time from one timestamp to another.
pub fn minutes_between(from: &[u8], to: &[u8]) -> (interval: Interval)
    requires
        has_minutes(from@),
        has_minutes(to@),
    ensures
        stamps(interval.from, from@),
        stamps(interval.to, to@),
        interval.span() == seconds_between(from@, to@),
        60 * interval.from.minutes + interval.from.seconds == point(from@),
        60 * interval.to.minutes + interval.to.seconds == point(to@),
{
    Interval { from: iso_to_minutes(from), to: iso_to_minutes(to) }
}

} // verus!
