//! Timestamps in the RFC 3339 text form (`YYYY-MM-DDThh:mm:ss[.frac]` with
//! an explicit UTC offset or `Z`), parsed from bytes, formatted back to
//! bytes, and totally ordered by the instant they denote.

use vstd::prelude::*;

verus! {

/// A parsed timestamp: calendar fields plus a UTC offset in minutes.
/// The order of two timestamps is the order of their instants, which
/// accounts for the offset; it is not the field-by-field order.
#[derive(Clone, Copy, Debug, PartialEq, Eq, Structural)]
pub struct Timestamp {
    /// Calendar year, `0..=9999` (four digits in the text form).
    pub year: u16,
    /// Calendar month, `1..=12`.
    pub month: u8,
    /// Day of month, `1..=days_in_month`.
    pub day: u8,
    /// Hour of day, `0..=23`.
    pub hour: u8,
    /// Minute, `0..=59`.
    pub minute: u8,
    /// Second, `0..=60` (`60` only in a leap second).
    pub second: u8,
    /// Fraction of the second in nanoseconds, `0..1_000_000_000`.
    pub nanos: u32,
    /// Offset of local time ahead of UTC, in minutes, `-1439..=1439`.
    pub offset_minutes: i32,
}

/// Proleptic Gregorian leap-year rule.
pub open spec fn is_leap_year(y: int) -> bool {
    y % 4 == 0 && (y % 100 != 0 || y % 400 == 0)
}

/// Number of days in month `m` of year `y`.
pub open spec fn days_in_month(y: int, m: int) -> int {
    if m == 2 {
        if is_leap_year(y) { 29 } else { 28 }
    } else if m == 4 || m == 6 || m == 9 || m == 11 {
        30
    } else {
        31
    }
}

/// Days in the months of year `y` before month `m`.
pub open spec fn days_before_month(y: int, m: int) -> int {
    (if m == 1 { 0int }
    else if m == 2 { 31 }
    else if m == 3 { 59 }
    else if m == 4 { 90 }
    else if m == 5 { 120 }
    else if m == 6 { 151 }
    else if m == 7 { 181 }
    else if m == 8 { 212 }
    else if m == 9 { 243 }
    else if m == 10 { 273 }
    else if m == 11 { 304 }
    else { 334 }) + if m > 2 && is_leap_year(y) { 1int } else { 0int }
}

/// Number of leap years in `[0, y)`.
pub open spec fn leap_years_before(y: int) -> int {
    (y + 3) / 4 - (y + 99) / 100 + (y + 399) / 400
}

/// Day number of the date `y-m-d` counted from day 0 = 0000-01-01.
pub open spec fn day_number(y: int, m: int, d: int) -> int {
    365 * y + leap_years_before(y) + days_before_month(y, m) + (d - 1)
}

impl Timestamp {
    /// Every field within its range; the day exists in its month.
    pub open spec fn wf(self) -> bool {
        self.year <= 9999
        && 1 <= self.month <= 12
        && 1 <= self.day <= days_in_month(self.year as int, self.month as int)
        && self.hour <= 23
        && self.minute <= 59
        && self.second <= 60
        && self.nanos < 1_000_000_000
        && -1439 <= self.offset_minutes <= 1439
    }

    /// Seconds from 0000-01-01T00:00:00 UTC to this timestamp's instant,
    /// ignoring the fractional part.
    pub open spec fn utc_seconds(self) -> int {
        day_number(self.year as int, self.month as int, self.day as int) * 86400
            + self.hour as int * 3600
            + self.minute as int * 60
            + self.second as int
            - self.offset_minutes as int * 60
    }

    /// The instant this timestamp denotes, in nanoseconds from
    /// 0000-01-01T00:00:00 UTC. This is the key of the total order.
    pub open spec fn instant(self) -> int {
        self.utc_seconds() * 1_000_000_000 + self.nanos as int
    }
}

/// Leap-year test, as in `is_leap_year`.
pub fn leap_year(y: u16) -> (r: bool)
    ensures
        r == is_leap_year(y as int),
{
    y % 4 == 0 && (y % 100 != 0 || y % 400 == 0)
}

/// Day count of a month, as in `days_in_month`.
pub fn month_length(y: u16, m: u8) -> (r: u8)
    ensures
        r == days_in_month(y as int, m as int),
{
    if m == 2 {
        if leap_year(y) { 29 } else { 28 }
    } else if m == 4 || m == 6 || m == 9 || m == 11 {
        30
    } else {
        31
    }
}

/// Cumulative day count before a month, as in `days_before_month`.
fn month_days_before(y: u16, m: u8) -> (r: u16)
    requires
        1 <= m <= 12,
    ensures
        r == days_before_month(y as int, m as int),
{
    let base: u16 = if m == 1 { 0 }
    else if m == 2 { 31 }
    else if m == 3 { 59 }
    else if m == 4 { 90 }
    else if m == 5 { 120 }
    else if m == 6 { 151 }
    else if m == 7 { 181 }
    else if m == 8 { 212 }
    else if m == 9 { 243 }
    else if m == 10 { 273 }
    else if m == 11 { 304 }
    else { 334 };
    if m > 2 && leap_year(y) { base + 1 } else { base }
}

/// Day number of a date, as in `day_number`.
fn date_day_number(y: u16, m: u8, d: u8) -> (r: u32)
    requires
        y <= 9999,
        1 <= m <= 12,
        1 <= d <= days_in_month(y as int, m as int),
    ensures
        r == day_number(y as int, m as int, d as int),
        r < 3_660_000,
{
    let yy: u32 = y as u32;
    let leaps: u32 = (yy + 3) / 4 - (yy + 99) / 100 + (yy + 399) / 400;
    assert(leaps == leap_years_before(y as int)) by {
        assert((yy + 3) / 4 == (y as int + 3) / 4);
        assert((yy + 99) / 100 == (y as int + 99) / 100);
        assert((yy + 399) / 400 == (y as int + 399) / 400);
        assert((y as int + 99) / 100 <= (y as int + 3) / 4) by (nonlinear_arith)
            requires 0 <= y as int <= 9999;
    };
    365 * yy + leaps + month_days_before(y, m) as u32 + (d as u32 - 1)
}

impl Timestamp {
    /// Whole seconds of the instant, as in `utc_seconds`.
    pub fn utc_seconds_key(&self) -> (r: i64)
        requires
            self.wf(),
        ensures
            r == self.utc_seconds(),
    {
        let days: i64 = date_day_number(self.year, self.month, self.day) as i64;
        days * 86400
            + self.hour as i64 * 3600
            + self.minute as i64 * 60
            + self.second as i64
            - self.offset_minutes as i64 * 60
    }

    /// Whether this timestamp's instant is at or before `other`'s.
    /// Ties in the whole seconds are decided by the nanosecond fraction.
    pub fn le(&self, other: &Timestamp) -> (r: bool)
        requires
            self.wf(),
            other.wf(),
        ensures
            r == (self.instant() <= other.instant()),
    {
        let sa: i64 = self.utc_seconds_key();
        let sb: i64 = other.utc_seconds_key();
        proof {
            lemma_instant_order(*self, *other);
        }
        sa < sb || (sa == sb && self.nanos <= other.nanos)
    }
}

/// ASCII decimal digit.
pub open spec fn is_digit(c: u8) -> bool {
    48 <= c && c <= 57
}

/// Numeric value of an ASCII digit.
pub open spec fn digit_val(c: u8) -> int {
    c as int - 48
}

/// The `k` bytes of `s` starting at `i` are all ASCII digits.
pub open spec fn digits_at(s: Seq<u8>, i: int, k: int) -> bool {
    forall|j: int| i <= j < i + k ==> is_digit(#[trigger] s[j])
}

/// Value of the `k`-digit decimal number written at `s[i..i+k]`.
pub open spec fn digits_val(s: Seq<u8>, i: int, k: nat) -> int
    decreases k,
{
    if k == 0 {
        0
    } else {
        digits_val(s, i, (k - 1) as nat) * 10 + digit_val(s[i + k - 1])
    }
}

/// Ten to the `k`.
pub open spec fn pow10(k: nat) -> int
    decreases k,
{
    if k == 0 { 1 } else { 10 * pow10((k - 1) as nat) }
}

pub proof fn lemma_pow10_pos(k: nat)
    ensures
        1 <= pow10(k),
    decreases k,
{
    if k > 0 {
        lemma_pow10_pos((k - 1) as nat);
    }
}

pub proof fn lemma_pow10_mono(a: nat, b: nat)
    requires
        a <= b,
    ensures
        pow10(a) <= pow10(b),
        1 <= pow10(a),
    decreases b,
{
    lemma_pow10_pos(a);
    if a < b {
        lemma_pow10_mono(a, (b - 1) as nat);
    }
}

pub proof fn lemma_pow10_adds(a: nat, b: nat)
    ensures
        pow10(a) * pow10(b) == pow10(a + b),
    decreases a,
{
    if a == 0 {
        assert(pow10(0) * pow10(b) == pow10(b));
    } else {
        lemma_pow10_adds((a - 1) as nat, b);
        assert(pow10(a) * pow10(b) == 10 * pow10((a - 1) as nat) * pow10(b));
        assert(10 * pow10((a - 1) as nat) * pow10(b) == 10 * (pow10((a - 1) as nat) * pow10(b)))
            by (nonlinear_arith);
    }
}

/// A run of `k` digits holds a value below `pow10(k)`.
pub proof fn lemma_digits_val_bound(s: Seq<u8>, i: int, k: nat)
    requires
        0 <= i,
        i + k <= s.len(),
        digits_at(s, i, k as int),
    ensures
        0 <= digits_val(s, i, k) < pow10(k),
    decreases k,
{
    if k > 0 {
        lemma_digits_val_bound(s, i, (k - 1) as nat);
        assert(is_digit(s[i + k - 1]));
    }
}

/// First position at or after `i` that does not hold a digit.
pub open spec fn digit_run_end(s: Seq<u8>, i: int) -> int
    recommends
        0 <= i <= s.len(),
    decreases s.len() - i when 0 <= i <= s.len()
{
    if i < s.len() && is_digit(s[i]) {
        digit_run_end(s, i + 1)
    } else {
        i
    }
}

/// `digit_run_end` is pinned by a digit run that stops at a non-digit or
/// at the end of the input.
pub proof fn lemma_digit_run_end_is(s: Seq<u8>, i: int, e: int)
    requires
        0 <= i <= e <= s.len(),
        forall|j: int| i <= j < e ==> is_digit(#[trigger] s[j]),
        e < s.len() ==> !is_digit(s[e]),
    ensures
        digit_run_end(s, i) == e,
    decreases e - i,
{
    if i < e {
        lemma_digit_run_end_is(s, i + 1, e);
    }
}

/// Nanoseconds denoted by the fraction digits `s[i..end]`: the first nine
/// digits, right-padded with zeros; digits beyond the ninth are ignored.
pub open spec fn frac_nanos(s: Seq<u8>, i: int, end: int) -> int {
    let k = if end - i <= 9 { end - i } else { 9int };
    digits_val(s, i, k as nat) * pow10((9 - k) as nat)
}

/// The date and time separators of RFC 3339: `T`, `t`, or a space.
pub open spec fn is_date_time_sep(c: u8) -> bool {
    c == 84 || c == 116 || c == 32
}

/// The fixed head of the text form: `YYYY-MM-DDThh:mm:ss` (19 bytes),
/// followed by at least one byte of fraction or offset.
pub open spec fn head_ok(s: Seq<u8>) -> bool {
    s.len() >= 20
    && digits_at(s, 0, 4) && s[4] == 45
    && digits_at(s, 5, 2) && s[7] == 45
    && digits_at(s, 8, 2) && is_date_time_sep(s[10])
    && digits_at(s, 11, 2) && s[13] == 58
    && digits_at(s, 14, 2) && s[16] == 58
    && digits_at(s, 17, 2)
}

/// The offset suffix starting at `i`: `Z`/`z` for UTC, or a signed
/// `hh:mm` offset. It must end the input. The result is in minutes.
pub open spec fn parse_offset_spec(s: Seq<u8>, i: int) -> Option<int> {
    if i >= s.len() {
        None
    } else if s[i] == 90 || s[i] == 122 {
        if i + 1 == s.len() { Some(0int) } else { None }
    } else if (s[i] == 43 || s[i] == 45) && s.len() == i + 6
        && digits_at(s, i + 1, 2) && s[i + 3] == 58 && digits_at(s, i + 4, 2) {
        let oh = digits_val(s, i + 1, 2);
        let om = digits_val(s, i + 4, 2);
        if oh <= 23 && om <= 59 {
            if s[i] == 43 { Some(oh * 60 + om) } else { Some(-(oh * 60 + om)) }
        } else {
            None
        }
    } else {
        None
    }
}

/// Assemble a timestamp from parsed field values, rejecting any field
/// outside its range (including a day the month does not have).
pub open spec fn checked_timestamp(
    year: int, month: int, day: int,
    hour: int, minute: int, second: int,
    nanos: int, offset: int,
) -> Option<Timestamp> {
    if 1 <= month <= 12 && 1 <= day <= days_in_month(year, month)
        && hour <= 23 && minute <= 59 && second <= 60 {
        Some(Timestamp {
            year: year as u16,
            month: month as u8,
            day: day as u8,
            hour: hour as u8,
            minute: minute as u8,
            second: second as u8,
            nanos: nanos as u32,
            offset_minutes: offset as i32,
        })
    } else {
        None
    }
}

/// What a timestamp text means: the RFC 3339 grammar
/// `YYYY-MM-DDThh:mm:ss[.digits](Z|±hh:mm)`, with `T` also accepted in
/// lower case or as a space, `Z` also in lower case, and field ranges
/// enforced. `None` is a malformed timestamp.
#[verifier::opaque]
pub open spec fn parse_spec(s: Seq<u8>) -> Option<Timestamp> {
    if !head_ok(s) {
        None
    } else {
        let year = digits_val(s, 0, 4);
        let month = digits_val(s, 5, 2);
        let day = digits_val(s, 8, 2);
        let hour = digits_val(s, 11, 2);
        let minute = digits_val(s, 14, 2);
        let second = digits_val(s, 17, 2);
        if s[19] == 46 {
            let end = digit_run_end(s, 20);
            if end == 20 {
                None
            } else {
                match parse_offset_spec(s, end) {
                    Some(off) => checked_timestamp(
                        year, month, day, hour, minute, second,
                        frac_nanos(s, 20, end), off),
                    None => None,
                }
            }
        } else {
            match parse_offset_spec(s, 19) {
                Some(off) => checked_timestamp(
                    year, month, day, hour, minute, second, 0, off),
                None => None,
            }
        }
    }
}

/// The lexicographic order on (whole seconds, nanoseconds) is the order
/// of instants.
proof fn lemma_instant_order(a: Timestamp, b: Timestamp)
    requires
        a.nanos < 1_000_000_000,
        b.nanos < 1_000_000_000,
    ensures
        (a.instant() <= b.instant()) == (a.utc_seconds() < b.utc_seconds()
            || (a.utc_seconds() == b.utc_seconds() && a.nanos <= b.nanos)),
{
    let sa = a.utc_seconds();
    let sb = b.utc_seconds();
    assert(sa < sb ==> sa * 1_000_000_000 + a.nanos < sb * 1_000_000_000 + b.nanos)
        by (nonlinear_arith)
        requires a.nanos < 1_000_000_000, 0 <= b.nanos;
    assert(sb < sa ==> sb * 1_000_000_000 + b.nanos < sa * 1_000_000_000 + a.nanos)
        by (nonlinear_arith)
        requires b.nanos < 1_000_000_000, 0 <= a.nanos;
}

/// Read `k` digits at position `i`, or report that a non-digit sits
/// among them.
fn read_digits(s: &Vec<u8>, i: usize, k: usize) -> (r: Option<u32>)
    requires
        i + k <= s@.len(),
        k <= 9,
    ensures
        (match r {
            Some(v) => digits_at(s@, i as int, k as int)
                && v as int == digits_val(s@, i as int, k as nat),
            None => !digits_at(s@, i as int, k as int),
        }),
{
    let n = s.len();
    let end = i + k;
    let mut val: u32 = 0;
    let mut j: usize = i;
    while j < end
        invariant
            end == i + k,
            i <= j <= i + k,
            i + k <= s@.len(),
            k <= 9,
            digits_at(s@, i as int, (j - i) as int),
            val as int == digits_val(s@, i as int, (j - i) as nat),
        decreases i + k - j,
    {
        let c = s[j];
        if c < 48 || c > 57 {
            assert(!is_digit(s@[j as int]));
            return None;
        }
        proof {
            lemma_digits_val_bound(s@, i as int, (j - i) as nat);
            lemma_pow10_mono((j - i) as nat, 8);
            reveal_with_fuel(pow10, 10);
            assert(digits_at(s@, i as int, (j + 1 - i) as int));
        }
        val = val * 10 + (c - 48) as u32;
        j = j + 1;
    }
    Some(val)
}

/// Ten to the `k`, executably.
fn pow10_exec(k: usize) -> (r: u32)
    requires
        k <= 9,
    ensures
        r as int == pow10(k as nat),
{
    let mut r: u32 = 1;
    let mut m: usize = 0;
    while m < k
        invariant
            m <= k <= 9,
            r as int == pow10(m as nat),
        decreases k - m,
    {
        proof {
            lemma_pow10_mono(m as nat, 8);
            reveal_with_fuel(pow10, 10);
        }
        r = r * 10;
        m = m + 1;
    }
    r
}

/// Read the offset suffix at position `i`, in minutes, or report that
/// it is malformed or does not end the input.
fn read_offset(s: &Vec<u8>, i: usize) -> (r: Option<i32>)
    requires
        i <= s@.len(),
    ensures
        (match r {
            Some(o) => parse_offset_spec(s@, i as int) == Some(o as int)
                && -1439 <= o <= 1439,
            None => parse_offset_spec(s@, i as int) is None,
        }),
{
    if i >= s.len() {
        return None;
    }
    let c = s[i];
    if c == 90 || c == 122 {
        if i + 1 == s.len() { Some(0) } else { None }
    } else if (c == 43 || c == 45) && s.len() - i == 6 {
        let oh32 = match read_digits(s, i + 1, 2) {
            Some(v) => v,
            None => { return None; },
        };
        if s[i + 3] != 58 {
            return None;
        }
        let om32 = match read_digits(s, i + 4, 2) {
            Some(v) => v,
            None => { return None; },
        };
        proof {
            lemma_digits_val_bound(s@, i as int + 1, 2);
            lemma_digits_val_bound(s@, i as int + 4, 2);
            reveal_with_fuel(pow10, 3);
        }
        if oh32 <= 23 && om32 <= 59 {
            let magnitude: i32 = (oh32 * 60 + om32) as i32;
            if c == 43 { Some(magnitude) } else { Some(-magnitude) }
        } else {
            None
        }
    } else {
        None
    }
}

/// Parse a timestamp from its RFC 3339 text, exactly as `parse_spec`
/// reads it: `None` is a malformed timestamp.
pub fn parse_rfc3339(s: &Vec<u8>) -> (r: Option<Timestamp>)
    ensures
        r == parse_spec(s@),
        (r matches Some(t) ==> t.wf()),
{
    proof {
        reveal(parse_spec);
    }
    if s.len() < 20 {
        return None;
    }
    let year32 = match read_digits(s, 0, 4) {
        Some(v) => v,
        None => { return None; },
    };
    if s[4] != 45 {
        return None;
    }
    let month32 = match read_digits(s, 5, 2) {
        Some(v) => v,
        None => { return None; },
    };
    if s[7] != 45 {
        return None;
    }
    let day32 = match read_digits(s, 8, 2) {
        Some(v) => v,
        None => { return None; },
    };
    let sep = s[10];
    if !(sep == 84 || sep == 116 || sep == 32) {
        return None;
    }
    let hour32 = match read_digits(s, 11, 2) {
        Some(v) => v,
        None => { return None; },
    };
    if s[13] != 58 {
        return None;
    }
    let minute32 = match read_digits(s, 14, 2) {
        Some(v) => v,
        None => { return None; },
    };
    if s[16] != 58 {
        return None;
    }
    let second32 = match read_digits(s, 17, 2) {
        Some(v) => v,
        None => { return None; },
    };
    assert(head_ok(s@));
    let mut nanos: u32 = 0;
    let mut off_start: usize = 19;
    if s[19] == 46 {
        let mut j: usize = 20;
        let mut val: u32 = 0;
        let mut count: usize = 0;
        loop
            invariant
                20 <= j <= s@.len(),
                s@.len() >= 20,
                count as int == if j - 20 <= 9 { j - 20 } else { 9int },
                val as int == digits_val(s@, 20, count as nat),
                forall|m: int| 20 <= m < j ==> is_digit(#[trigger] s@[m]),
            ensures
                20 <= j <= s@.len(),
                count as int == if j - 20 <= 9 { j - 20 } else { 9int },
                val as int == digits_val(s@, 20, count as nat),
                j as int == digit_run_end(s@, 20),
            decreases s@.len() - j,
        {
            if j >= s.len() || s[j] < 48 || s[j] > 57 {
                proof {
                    lemma_digit_run_end_is(s@, 20, j as int);
                }
                break;
            }
            if count < 9 {
                proof {
                    lemma_digits_val_bound(s@, 20, count as nat);
                    lemma_pow10_mono(count as nat, 8);
                    reveal_with_fuel(pow10, 10);
                }
                val = val * 10 + (s[j] - 48) as u32;
                count = count + 1;
            }
            j = j + 1;
        }
        if j == 20 {
            return None;
        }
        let scale = pow10_exec(9 - count);
        proof {
            lemma_digits_val_bound(s@, 20, count as nat);
            lemma_pow10_adds(count as nat, (9 - count) as nat);
            lemma_pow10_mono(9, 9);
            reveal_with_fuel(pow10, 10);
            assert((val as int) * (scale as int) < 1_000_000_000) by (nonlinear_arith)
                requires
                    0 <= (val as int),
                    (val as int) < pow10(count as nat),
                    1 <= (scale as int),
                    (scale as int) == pow10((9 - count) as nat),
                    pow10(count as nat) * pow10((9 - count) as nat) == 1_000_000_000;
        }
        nanos = val * scale;
        assert(nanos as int == frac_nanos(s@, 20, digit_run_end(s@, 20)));
        off_start = j;
    }
    let off = match read_offset(s, off_start) {
        Some(o) => o,
        None => { return None; },
    };
    proof {
        lemma_digits_val_bound(s@, 0, 4);
        lemma_digits_val_bound(s@, 5, 2);
        lemma_digits_val_bound(s@, 8, 2);
        lemma_digits_val_bound(s@, 11, 2);
        lemma_digits_val_bound(s@, 14, 2);
        lemma_digits_val_bound(s@, 17, 2);
        reveal_with_fuel(pow10, 5);
    }
    if month32 < 1 || month32 > 12 {
        return None;
    }
    let year: u16 = year32 as u16;
    let month: u8 = month32 as u8;
    let day: u8 = day32 as u8;
    if day < 1 || day > month_length(year, month) {
        return None;
    }
    if hour32 > 23 || minute32 > 59 || second32 > 60 {
        return None;
    }
    let t = Timestamp {
        year,
        month,
        day,
        hour: hour32 as u8,
        minute: minute32 as u8,
        second: second32 as u8,
        nanos,
        offset_minutes: off,
    };
    Some(t)
}

/// The `k`-digit decimal writing of `n`, most significant digit first
/// (`n` taken modulo `10^k`).
pub open spec fn dec_digits(n: int, k: nat) -> Seq<u8>
    decreases k,
{
    if k == 0 {
        Seq::empty()
    } else {
        dec_digits(n / 10, (k - 1) as nat) + seq![(48 + n % 10) as u8]
    }
}

/// The offset suffix the formatter writes: sign, hours, colon, minutes.
pub open spec fn offset_text(off: int) -> Seq<u8> {
    let sign: u8 = if off >= 0 { 43 } else { 45 };
    let mag = if off >= 0 { off } else { -off };
    seq![sign] + dec_digits(mag / 60, 2) + seq![58u8] + dec_digits(mag % 60, 2)
}

/// The canonical text of a timestamp: `YYYY-MM-DDThh:mm:ss±hh:mm`, with
/// a nine-digit fraction inserted when the nanoseconds are not zero.
pub open spec fn format_spec(t: Timestamp) -> Seq<u8> {
    dec_digits(t.year as int, 4) + seq![45u8]
    + dec_digits(t.month as int, 2) + seq![45u8]
    + dec_digits(t.day as int, 2) + seq![84u8]
    + dec_digits(t.hour as int, 2) + seq![58u8]
    + dec_digits(t.minute as int, 2) + seq![58u8]
    + dec_digits(t.second as int, 2)
    + (if t.nanos == 0 { Seq::<u8>::empty() } else { seq![46u8] + dec_digits(t.nanos as int, 9) })
    + offset_text(t.offset_minutes as int)
}

/// Decimal digit writings hold only ASCII digits.
pub proof fn lemma_dec_digits_are_digits(n: int, k: nat)
    requires
        0 <= n,
    ensures
        dec_digits(n, k).len() == k,
        forall|j: int| 0 <= j < k ==> is_digit(#[trigger] dec_digits(n, k)[j]),
    decreases k,
{
    if k > 0 {
        lemma_dec_digits_are_digits(n / 10, (k - 1) as nat);
        assert forall|j: int| 0 <= j < k implies is_digit(#[trigger] dec_digits(n, k)[j]) by {
            if j < k - 1 {
                assert(dec_digits(n, k)[j] == dec_digits(n / 10, (k - 1) as nat)[j]);
            } else {
                assert(dec_digits(n, k)[j] == (48 + n % 10) as u8);
            }
        }
    }
}

/// Reading back a `k`-digit decimal writing recovers the number.
pub proof fn lemma_digits_val_of_dec_digits(s: Seq<u8>, i: int, n: int, k: nat)
    requires
        0 <= n < pow10(k),
        0 <= i,
        i + k <= s.len(),
        s.subrange(i, i + k) =~= dec_digits(n, k),
    ensures
        digits_val(s, i, k) == n,
    decreases k,
{
    if k == 0 {
        assert(pow10(0) == 1);
    } else {
        let prev = dec_digits(n / 10, (k - 1) as nat);
        lemma_dec_digits_are_digits(n / 10, (k - 1) as nat);
        assert(s[i + k - 1] == dec_digits(n, k)[k - 1]);
        assert(dec_digits(n, k)[k - 1] == (48 + n % 10) as u8);
        assert(s.subrange(i, i + (k - 1)) =~= prev) by {
            assert forall|j: int| 0 <= j < k - 1 implies
                s.subrange(i, i + (k - 1))[j] == prev[j] by {
                assert(s.subrange(i, i + (k - 1))[j] == s[i + j]);
                assert(s[i + j] == s.subrange(i, i + k as int)[j]);
                assert(dec_digits(n, k)[j] == prev[j]);
            }
        };
        assert(n / 10 < pow10((k - 1) as nat)) by (nonlinear_arith)
            requires
                0 <= n,
                n < pow10(k),
                pow10(k) == 10 * pow10((k - 1) as nat),
        ;
        lemma_digits_val_of_dec_digits(s, i, n / 10, (k - 1) as nat);
        assert(digits_val(s, i, k) == digits_val(s, i, (k - 1) as nat) * 10 + digit_val(s[i + k - 1]));
    }
}

/// Append the `k`-digit decimal writing of `n`.
fn push_digits(v: &mut Vec<u8>, n: u32, k: usize)
    ensures
        final(v)@ == old(v)@ + dec_digits(n as int, k as nat),
    decreases k,
{
    if k == 0 {
        assert(v@ =~= v@ + dec_digits(n as int, 0));
    } else {
        push_digits(v, n / 10, k - 1);
        v.push(48 + (n % 10) as u8);
        assert(v@ =~= old(v)@ + dec_digits(n as int, k as nat));
    }
}

/// Write a timestamp in its canonical RFC 3339 text, as `format_spec`
/// lays it out.
pub fn format_rfc3339(t: &Timestamp) -> (r: Vec<u8>)
    requires
        t.wf(),
    ensures
        r@ == format_spec(*t),
{
    let mut v: Vec<u8> = Vec::new();
    push_digits(&mut v, t.year as u32, 4);
    v.push(45);
    push_digits(&mut v, t.month as u32, 2);
    v.push(45);
    push_digits(&mut v, t.day as u32, 2);
    v.push(84);
    push_digits(&mut v, t.hour as u32, 2);
    v.push(58);
    push_digits(&mut v, t.minute as u32, 2);
    v.push(58);
    push_digits(&mut v, t.second as u32, 2);
    if t.nanos != 0 {
        v.push(46);
        push_digits(&mut v, t.nanos, 9);
    }
    let mag: u32 = if t.offset_minutes >= 0 {
        v.push(43);
        t.offset_minutes as u32
    } else {
        v.push(45);
        (-t.offset_minutes) as u32
    };
    push_digits(&mut v, mag / 60, 2);
    v.push(58);
    push_digits(&mut v, mag % 60, 2);
    assert(v@ =~= format_spec(*t));
    v
}

/// A run of digits written at `s[i..i+k]` reads back as digits with the
/// written value.
proof fn lemma_digits_block(s: Seq<u8>, i: int, n: int, k: nat)
    requires
        0 <= n < pow10(k),
        0 <= i,
        i + k <= s.len(),
        s.subrange(i, i + k) =~= dec_digits(n, k),
    ensures
        digits_at(s, i, k as int),
        digits_val(s, i, k) == n,
{
    lemma_dec_digits_are_digits(n, k);
    lemma_digits_val_of_dec_digits(s, i, n, k);
    assert forall|j: int| i <= j < i + k implies is_digit(#[trigger] s[j]) by {
        assert(s[j] == s.subrange(i, i + k)[j - i]);
    }
}

/// Formatting a well-formed timestamp and parsing the text back yields
/// that same timestamp — in particular, the same instant.
pub proof fn lemma_format_parse_round_trip(t: Timestamp)
    requires
        t.wf(),
    ensures
        parse_spec(format_spec(t)) == Some(t),
{
    reveal(parse_spec);
    reveal_with_fuel(pow10, 10);
    let s = format_spec(t);
    let off = t.offset_minutes as int;
    let sign: u8 = if off >= 0 { 43 } else { 45 };
    let mag = if off >= 0 { off } else { -off };
    let frac: Seq<u8> = if t.nanos == 0 {
        Seq::<u8>::empty()
    } else {
        seq![46u8] + dec_digits(t.nanos as int, 9)
    };
    let p: int = if t.nanos == 0 { 19 } else { 29 };

    lemma_dec_digits_are_digits(t.year as int, 4);
    lemma_dec_digits_are_digits(t.month as int, 2);
    lemma_dec_digits_are_digits(t.day as int, 2);
    lemma_dec_digits_are_digits(t.hour as int, 2);
    lemma_dec_digits_are_digits(t.minute as int, 2);
    lemma_dec_digits_are_digits(t.second as int, 2);
    lemma_dec_digits_are_digits(t.nanos as int, 9);
    lemma_dec_digits_are_digits(mag / 60, 2);
    lemma_dec_digits_are_digits(mag % 60, 2);

    assert(s.len() == p + 6);

    assert(s.subrange(0, 4) =~= dec_digits(t.year as int, 4));
    lemma_digits_block(s, 0, t.year as int, 4);
    assert(s[4] == 45);
    assert(s.subrange(5, 7) =~= dec_digits(t.month as int, 2));
    lemma_digits_block(s, 5, t.month as int, 2);
    assert(s[7] == 45);
    assert(s.subrange(8, 10) =~= dec_digits(t.day as int, 2));
    lemma_digits_block(s, 8, t.day as int, 2);
    assert(s[10] == 84);
    assert(s.subrange(11, 13) =~= dec_digits(t.hour as int, 2));
    lemma_digits_block(s, 11, t.hour as int, 2);
    assert(s[13] == 58);
    assert(s.subrange(14, 16) =~= dec_digits(t.minute as int, 2));
    lemma_digits_block(s, 14, t.minute as int, 2);
    assert(s[16] == 58);
    assert(s.subrange(17, 19) =~= dec_digits(t.second as int, 2));
    lemma_digits_block(s, 17, t.second as int, 2);
    assert(head_ok(s));

    // The offset suffix, at position p in both layouts.
    assert(s[p] == sign);
    assert(s.subrange(p + 1, p + 3) =~= dec_digits(mag / 60, 2));
    lemma_digits_block(s, p + 1, mag / 60, 2);
    assert(s[p + 3] == 58);
    assert(s.subrange(p + 4, p + 6) =~= dec_digits(mag % 60, 2));
    lemma_digits_block(s, p + 4, mag % 60, 2);
    assert(parse_offset_spec(s, p) == Some(off));

    if t.nanos == 0 {
        assert(s[19] == sign);
        assert(s[19] != 46);
        assert(parse_spec(s) == checked_timestamp(
            t.year as int, t.month as int, t.day as int,
            t.hour as int, t.minute as int, t.second as int, 0, off));
    } else {
        assert(s[19] == 46);
        assert(s.subrange(20, 29) =~= dec_digits(t.nanos as int, 9));
        lemma_digits_block(s, 20, t.nanos as int, 9);
        assert(!is_digit(s[29]));
        lemma_digit_run_end_is(s, 20, 29);
        assert(digits_val(s, 20, 9) == t.nanos as int);
        assert(pow10(0) == 1);
        assert(frac_nanos(s, 20, 29) == digits_val(s, 20, 9) * pow10(0));
        assert(frac_nanos(s, 20, 29) == t.nanos as int);
        assert(parse_spec(s) == checked_timestamp(
            t.year as int, t.month as int, t.day as int,
            t.hour as int, t.minute as int, t.second as int, t.nanos as int, off));
    }
    assert(parse_spec(s) == Some(t));
}

} // verus!
