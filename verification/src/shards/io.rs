//! Names, hashes and dates of the shard cache.

use vstd::prelude::*;
use vstd::std_specs::iter::IteratorSpec;
use vstd::string::*;

use crate::path::{
    first_segment, is_portable, later_parts, path_parts, portable_parts, DocPath, Part,
};
use crate::text::{decimal, decimal_text, joined};

verus! {

/// Shard count. Fixed so bucket assignment stays stable across processes.
pub const BUCKET_COUNT: u8 = 16;

// ---------------------------------------------------------------------------
// Hex

/// One lower-case hexadecimal digit.
pub open spec fn hex_digit(d: int) -> char {
    "0123456789abcdef"@[d]
}

/// Bytes as lower-case hexadecimal text, two digits a byte.
pub open spec fn hex_text(bytes: Seq<u8>) -> Seq<char>
    decreases bytes.len(),
{
    if bytes.len() == 0 {
        Seq::empty()
    } else {
        hex_text(bytes.drop_last()).push(hex_digit(bytes.last() as int / 16)).push(
            hex_digit(bytes.last() as int % 16),
        )
    }
}

/// Lowercase hex without a dependency on an encoding crate.
pub fn hex(bytes: &[u8]) -> (r: String)
    ensures
        r@ == hex_text(bytes@),
{
    proof {
        reveal_strlit("0123456789abcdef");
    }
    let mut out: String = String::new();
    let mut i: usize = 0;
    while i < bytes.len()
        invariant
            i <= bytes@.len(),
            "0123456789abcdef"@.len() == 16,
            out@ == hex_text(bytes@.take(i as int)),
        decreases bytes.len() - i,
    {
        let byte: u8 = bytes[i];
        assert(bytes@.take(i as int + 1).drop_last() =~= bytes@.take(i as int));
        out.push("0123456789abcdef".get_char((byte / 16) as usize));
        out.push("0123456789abcdef".get_char((byte % 16) as usize));
        i += 1;
    }
    assert(bytes@.take(i as int) =~= bytes@);
    out
}

/// Hexadecimal text has two digits for each byte.
pub proof fn hex_has_two_digits_a_byte(bytes: Seq<u8>)
    ensures
        hex_text(bytes).len() == 2 * bytes.len(),
    decreases bytes.len(),
{
    if bytes.len() > 0 {
        hex_has_two_digits_a_byte(bytes.drop_last());
    }
}

proof fn lemma_hex_digits(a: int, b: int)
    requires
        0 <= a < 16,
        0 <= b < 16,
    ensures
        hex_digit(a) == hex_digit(b) ==> a == b,
{
    reveal_strlit("0123456789abcdef");
}

/// Different bytes have different hexadecimal texts.
pub proof fn hex_is_injective(a: Seq<u8>, b: Seq<u8>)
    requires
        hex_text(a) == hex_text(b),
    ensures
        a == b,
    decreases a.len(),
{
    hex_has_two_digits_a_byte(a);
    hex_has_two_digits_a_byte(b);
    if a.len() == 0 {
        assert(a =~= b);
    } else {
        let x = hex_text(a);
        let y = hex_text(b);
        let n = x.len() as int;
        assert(x[n - 1] == hex_digit(a.last() as int % 16));
        assert(y[n - 1] == hex_digit(b.last() as int % 16));
        assert(x[n - 2] == hex_digit(a.last() as int / 16));
        assert(y[n - 2] == hex_digit(b.last() as int / 16));
        lemma_hex_digits(a.last() as int % 16, b.last() as int % 16);
        lemma_hex_digits(a.last() as int / 16, b.last() as int / 16);
        assert(hex_text(a.drop_last()) =~= x.take(n - 2));
        assert(hex_text(b.drop_last()) =~= y.take(n - 2));
        hex_is_injective(a.drop_last(), b.drop_last());
        assert(a =~= a.drop_last().push(a.last()));
        assert(b =~= b.drop_last().push(b.last()));
    }
}

// ---------------------------------------------------------------------------
// Dates

pub open spec fn is_leap(year: int) -> bool {
    year % 4 == 0 && (year % 100 != 0 || year % 400 == 0)
}

/// Days of a month.
pub open spec fn month_length(year: int, month: int) -> int {
    if month == 2 {
        if is_leap(year) {
            29
        } else {
            28
        }
    } else if month == 4 || month == 6 || month == 9 || month == 11 {
        30
    } else {
        31
    }
}

/// Days of a year before a month.
pub open spec fn days_before_month(year: int, month: int) -> int
    decreases month,
{
    if month <= 1 {
        0
    } else {
        days_before_month(year, month - 1) + month_length(year, month - 1)
    }
}

/// Leap years before a year, counted from the year 1.
pub open spec fn leap_years_before(year: int) -> int {
    (year - 1) / 4 - (year - 1) / 100 + (year - 1) / 400
}

/// Days from the first of January 1970 to the first of January of a year.
pub open spec fn days_before_year(year: int) -> int {
    365 * (year - 1970) + leap_years_before(year) - leap_years_before(1970)
}

/// A date of the Gregorian calendar.
pub open spec fn is_date(date: (int, int, int)) -> bool {
    1 <= date.1 <= 12 && 1 <= date.2 <= month_length(date.0, date.1)
}

/// The number of a date, counted in days from the first of January 1970.
pub open spec fn day_number(date: (int, int, int)) -> int {
    days_before_year(date.0) + days_before_month(date.0, date.1) + date.2 - 1
}

/// A year is as long as its months.
pub proof fn years_follow_each_other(year: int)
    ensures
        days_before_year(year + 1) == days_before_year(year) + days_before_month(year, 13),
        days_before_month(year, 13) == (if is_leap(year) {
            366int
        } else {
            365
        }),
{
    reveal_with_fuel(days_before_month, 14);
}

proof fn lemma_months(year: int, month: int)
    requires
        1 <= month <= 12,
    ensures
        days_before_month(year, month) == (if month <= 2 {
            31 * (month - 1)
        } else {
            59 + (if is_leap(year) {
                1int
            } else {
                0
            }) + (153 * (month - 3) + 2) / 5
        }),
{
    reveal_with_fuel(days_before_month, 14);
}

proof fn lemma_years_grow(a: int, b: int)
    requires
        a <= b,
    ensures
        days_before_year(a) + 365 * (b - a) <= days_before_year(b),
    decreases b - a,
{
    if a < b {
        lemma_years_grow(a, b - 1);
        years_follow_each_other(b - 1);
    }
}

proof fn lemma_day_within_year(date: (int, int, int))
    requires
        is_date(date),
    ensures
        0 <= day_number(date) - days_before_year(date.0) < days_before_month(date.0, 13),
{
    reveal_with_fuel(days_before_month, 14);
}

/// A day has one date: dates with one number are one.
pub proof fn a_day_has_one_date(a: (int, int, int), b: (int, int, int))
    requires
        is_date(a),
        is_date(b),
        day_number(a) == day_number(b),
    ensures
        a == b,
{
    lemma_day_within_year(a);
    lemma_day_within_year(b);
    years_follow_each_other(a.0);
    years_follow_each_other(b.0);
    if a.0 < b.0 {
        lemma_years_grow(a.0 + 1, b.0);
    } else if b.0 < a.0 {
        lemma_years_grow(b.0 + 1, a.0);
    }
    reveal_with_fuel(days_before_month, 14);
}

/// The days of a 400-year era split into centuries, four-year spans, years and
/// days; only the last year of a span may have 366.
spec fn splits(doe: int, c: int, q: int, y: int, doy: int) -> bool {
    &&& doe == 36524 * c + 1461 * q + 365 * y + doy
    &&& 0 <= c <= 3
    &&& 0 <= q <= 24
    &&& 0 <= y <= 3
    &&& 0 <= doy <= 365
    &&& doy == 365 ==> y == 3 && (q < 24 || c == 3)
}

proof fn lemma_split(doe: int) -> (r: (int, int, int, int))
    requires
        0 <= doe <= 146096,
    ensures
        splits(doe, r.0, r.1, r.2, r.3),
{
    let c = if doe / 36524 > 3 {
        3
    } else {
        doe / 36524
    };
    let r1 = doe - 36524 * c;
    assert(0 <= r1 <= 36524);
    assert(r1 == 36524 ==> c == 3);
    let q = r1 / 1461;
    let r2 = r1 - 1461 * q;
    assert(0 <= r2 <= 1460);
    assert(0 <= q <= 24);
    assert(q == 24 && c < 3 ==> r2 < 1460);
    let y = if r2 / 365 > 3 {
        3
    } else {
        r2 / 365
    };
    let doy = r2 - 365 * y;
    assert(0 <= doy <= 365);
    (c, q, y, doy)
}

proof fn lemma_year_of_era(doe: int, c: int, q: int, y: int, doy: int)
    requires
        splits(doe, c, q, y, doy),
    ensures
        (doe - doe / 1460 + doe / 36524 - doe / 146096) / 365 == 100 * c + 4 * q + y,
        0 <= doe <= 146096,
{
    let inner = 24 * c + q + 365 * y + doy;
    assert(doe == 1460 * (25 * c + q) + inner);
    assert(0 <= inner <= 1556);
    let t = inner / 1460;
    assert(doe / 1460 == 25 * c + q + t);
    let e = doe / 146096;
    assert(0 <= e <= 1);
    assert(e == 1 ==> doe == 146096);
    assert(doe / 36524 == c + e) by {
        let rest = 1461 * q + 365 * y + doy;
        assert(doe == 36524 * c + rest);
        assert(0 <= rest <= 36524);
        if rest == 36524 {
            assert(c == 3);
        }
    }
    let top = doe - doe / 1460 + doe / 36524 - e;
    assert(top == 365 * (100 * c + 4 * q + y) + (doy - t));
    assert(0 <= doy - t < 365);
}

proof fn lemma_year_start(era: int, c: int, q: int, y: int)
    requires
        0 <= c <= 3,
        0 <= q <= 24,
        0 <= y <= 3,
    ensures
        ({
            let yoe = 100 * c + 4 * q + y;
            let year = yoe + 400 * era;
            &&& yoe / 4 == 25 * c + q
            &&& yoe / 100 == c
            &&& 365 * year + leap_years_before(year + 1) == 146097 * era + 36524 * c + 1461 * q
                + 365 * y
            &&& is_leap(year + 1) == (y == 3 && (q < 24 || c == 3))
        }),
{
    let yoe = 100 * c + 4 * q + y;
    let year = yoe + 400 * era;
    assert(yoe / 4 == 25 * c + q);
    assert(yoe / 100 == c);
    assert(year / 4 == yoe / 4 + 100 * era);
    assert(year / 100 == yoe / 100 + 4 * era);
    assert(year / 400 == era);
    let next = year + 1;
    assert(next == 400 * era + 100 * c + 4 * q + y + 1);
    assert((next % 4 == 0) == (y == 3));
    if y == 3 {
        assert(next == 400 * era + 100 * c + 4 * (q + 1));
        assert((next % 100 == 0) == (q == 24));
        if q == 24 {
            assert(next == 400 * era + 100 * (c + 1));
            assert((next % 400 == 0) == (c == 3));
        }
    }
}

/// The date of a day, counted from the first of January 1970.
pub fn civil_from_days(days: i64) -> (r: (i64, u32, u32))
    requires
        days <= i64::MAX - 719_468,
    ensures
        is_date((r.0 as int, r.1 as int, r.2 as int)),
        day_number((r.0 as int, r.1 as int, r.2 as int)) == days,
{
    let shifted: i64 = days + 719_468;
    let era: i64 = match shifted.checked_div_euclid(146_097) {
        Some(era) => era,
        None => 0,
    };
    let day_of_era: i64 = match shifted.checked_rem_euclid(146_097) {
        Some(day) => day,
        None => 0,
    };
    assert(shifted == 146_097 * era + day_of_era && 0 <= day_of_era <= 146_096);
    let ghost (c, q, y, doy) = lemma_split(day_of_era as int);
    proof {
        lemma_year_of_era(day_of_era as int, c, q, y, doy);
        lemma_year_start(era as int, c, q, y);
    }
    let year_of_era: i64 = (day_of_era - day_of_era / 1460 + day_of_era / 36_524 - day_of_era
        / 146_096) / 365;
    let year: i64 = year_of_era + era * 400;
    let day_of_year: i64 = day_of_era - (365 * year_of_era + year_of_era / 4 - year_of_era / 100);
    assert(day_of_year == doy);
    let month_index: i64 = (5 * day_of_year + 2) / 153;
    assert(0 <= month_index <= 11);
    let day: u32 = (day_of_year - (153 * month_index + 2) / 5 + 1) as u32;
    let month: u32 = if month_index < 10 {
        (month_index + 3) as u32
    } else {
        (month_index - 9) as u32
    };
    let civil_year: i64 = if month <= 2 {
        year + 1
    } else {
        year
    };
    proof {
        let date = (civil_year as int, month as int, day as int);
        lemma_months(civil_year as int, month as int);
        assert(leap_years_before(1970) == 477);
        years_follow_each_other(year as int);
        assert(leap_years_before(year + 1) == leap_years_before(year as int) + (if is_leap(
            year as int,
        ) {
            1int
        } else {
            0
        }));
    }
    (civil_year, month, day)
}

// ---------------------------------------------------------------------------
// Timestamps

/// So many zeros.
pub open spec fn zeros(n: int) -> Seq<char> {
    Seq::new(
        if n > 0 {
            n as nat
        } else {
            0
        },
        |i: int| '0',
    )
}

/// A number in decimal, with zeros in front up to a width.
pub open spec fn padded_text(n: nat, width: int) -> Seq<char> {
    zeros(width - decimal_text(n).len()) + decimal_text(n)
}

/// A number in decimal, with zeros in front up to a width.
fn padded(n: u64, width: usize) -> (r: String)
    ensures
        r@ == padded_text(n as nat, width as int),
{
    let digits: String = decimal(n);
    let count: usize = digits.as_str().unicode_len();
    let mut r: String = String::new();
    let mut i: usize = count;
    assert(r@ =~= zeros(0));
    while i < width
        invariant
            count <= i,
            i <= width || i == count,
            r@ == zeros(i - count),
        decreases width - i,
    {
        r.push('0');
        i += 1;
        assert(r@ =~= zeros(i - count));
    }
    r.append(digits.as_str());
    assert(zeros(i - count) =~= zeros(width - count));
    r
}

/// The date of a day, counted from the first of January 1970.
pub open spec fn date_of(days: int) -> (int, int, int) {
    choose|date: (int, int, int)| is_date(date) && day_number(date) == days
}

/// A moment as text: the date, a `T`, the time of day, a `Z`.
pub open spec fn timestamp_text(seconds: nat) -> Seq<char> {
    let date = date_of((seconds / 86_400) as int);
    let clock = seconds % 86_400;
    padded_text(date.0 as nat, 4) + "-"@ + padded_text(date.1 as nat, 2) + "-"@ + padded_text(
        date.2 as nat,
        2,
    ) + "T"@ + padded_text(clock / 3600, 2) + ":"@ + padded_text((clock % 3600) / 60, 2) + ":"@
        + padded_text(clock % 60, 2) + "Z"@
}

proof fn lemma_years_from_epoch(date: (int, int, int))
    requires
        is_date(date),
        0 <= day_number(date),
    ensures
        1970 <= date.0,
{
    lemma_day_within_year(date);
    years_follow_each_other(date.0);
    if date.0 < 1970 {
        lemma_years_grow(date.0 + 1, 1970);
        assert(days_before_year(1970) == 0);
    }
}

/// A moment, in seconds from the first of January 1970, as UTC text in ISO 8601
/// form, without a date library.
pub fn timestamp(seconds: u64) -> (r: String)
    ensures
        r@ == timestamp_text(seconds as nat),
{
    let days: i64 = (seconds / 86_400) as i64;
    let clock: u64 = seconds % 86_400;
    let (year, month, day) = civil_from_days(days);
    proof {
        let date = (year as int, month as int, day as int);
        assert(is_date(date) && day_number(date) == days);
        a_day_has_one_date(date, date_of(days as int));
        lemma_years_from_epoch(date);
    }
    let mut r: String = padded(year as u64, 4);
    r.append("-");
    r.append(padded(month as u64, 2).as_str());
    r.append("-");
    r.append(padded(day as u64, 2).as_str());
    r.append("T");
    r.append(padded(clock / 3600, 2).as_str());
    r.append(":");
    r.append(padded((clock % 3600) / 60, 2).as_str());
    r.append(":");
    r.append(padded(clock % 60, 2).as_str());
    r.append("Z");
    r
}

// ---------------------------------------------------------------------------
// Buckets

/// The value of a hexadecimal digit of either case.
pub open spec fn hex_value(c: char) -> Option<int> {
    if '0' <= c <= '9' {
        Some(c as u32 - '0' as u32)
    } else if 'a' <= c <= 'f' {
        Some(c as u32 - 'a' as u32 + 10)
    } else if 'A' <= c <= 'F' {
        Some(c as u32 - 'A' as u32 + 10)
    } else {
        None
    }
}

/// The number that the first two characters of a hash spell in hexadecimal, where
/// they spell one: two digits, or one behind a plus sign. Else zero.
pub open spec fn leading_byte(hash: Seq<char>) -> int {
    if hash.len() < 2 {
        0
    } else {
        match (hex_value(hash[0]), hex_value(hash[1])) {
            (Some(high), Some(low)) => 16 * high + low,
            (None, Some(low)) => if hash[0] == '+' {
                low
            } else {
                0
            },
            _ => 0,
        }
    }
}

/// The name of a bucket.
pub open spec fn bucket_text(index: int) -> Seq<char> {
    "shards/"@ + padded_text((index % 16) as nat, 3) + ".jsonl"@
}

fn hex_value_of(c: char) -> (r: Option<u8>)
    ensures
        match r {
            Some(value) => hex_value(c) == Some(value as int) && value < 16,
            None => hex_value(c) is None,
        },
{
    let code: u32 = c as u32;
    if '0' <= c && c <= '9' {
        Some((code - 48) as u8)
    } else if 'a' <= c && c <= 'f' {
        Some((code - 87) as u8)
    } else if 'A' <= c && c <= 'F' {
        Some((code - 55) as u8)
    } else {
        None
    }
}

/// The bucket of a content hash.
pub fn bucket_for(hash_hex: &str) -> (r: String)
    ensures
        r@ == bucket_text(leading_byte(hash_hex@)),
{
    let mut it = hash_hex.chars();
    let first: u8 = match it.next() {
        None => 0,
        Some(a) => match it.next() {
            None => 0,
            Some(b) => {
                assert(a == hash_hex@[0] && b == hash_hex@[1]);
                match (hex_value_of(a), hex_value_of(b)) {
                    (Some(high), Some(low)) => 16 * high + low,
                    (None, Some(low)) => if a == '+' {
                        low
                    } else {
                        0
                    },
                    _ => 0,
                }
            },
        },
    };
    assert(first == leading_byte(hash_hex@));
    assert((first % 16) as int % 16 == first as int % 16);
    bucket_name(first % BUCKET_COUNT)
}

/// The name of a bucket.
pub fn bucket_name(index: u8) -> (r: String)
    ensures
        r@ == bucket_text(index as int),
{
    let mut name: String = joined("shards/", padded((index % BUCKET_COUNT) as u64, 3).as_str());
    name.append(".jsonl");
    name
}

// ---------------------------------------------------------------------------
// Safe names

/// A path stays inside `shards/`: it begins there, and has no `..` and no root.
pub open spec fn stays_in_shards(path: Seq<Part>) -> bool {
    &&& path.len() > 0
    &&& path[0] == Part::Name("shards"@)
    &&& !path.contains(Part::Parent)
    &&& !path.contains(Part::Root)
}

/// Whether a path stays inside `shards/`.
pub fn is_shard_path(path: &DocPath) -> (r: bool)
    ensures
        r == stays_in_shards(path@),
{
    if path.len() == 0 {
        return false;
    }
    match path.part(0) {
        crate::path::PathPart::Name(name) => {
            if !crate::text::same_text(name.as_str(), "shards") {
                return false;
            }
        },
        _ => {
            return false;
        },
    }
    let mut i: usize = 0;
    while i < path.len()
        invariant
            i <= path@.len(),
            path@.len() > 0,
            path@[0] == Part::Name("shards"@),
            forall|k: int|
                0 <= k < i ==> #[trigger] path@[k] != Part::Parent && path@[k] != Part::Root,
        decreases path@.len() - i,
    {
        let bad: bool = match path.part(i) {
            crate::path::PathPart::Parent => true,
            crate::path::PathPart::Root => true,
            _ => false,
        };
        if bad {
            assert(path@.contains(path@[i as int]));
            return false;
        }
        i += 1;
    }
    true
}

/// Shard names must stay inside `shards/`, never `..` or absolute.
pub fn is_safe_shard_name(name: &str) -> (r: bool)
    ensures
        r == stays_in_shards(path_parts(name@)),
{
    is_shard_path(&DocPath::new(name.to_owned()))
}

proof fn lemma_first_segment_plain(a: Seq<char>, rest: Seq<char>)
    requires
        !a.contains('/'),
        rest.len() > 0 ==> rest[0] == '/',
    ensures
        first_segment(a + rest) == a,
    decreases a.len(),
{
    let text = a + rest;
    if a.len() == 0 {
        assert(text =~= rest);
        assert(a =~= Seq::empty());
    } else {
        assert(text[0] == a[0]);
        assert(a.contains(a[0]));
        assert(text.drop_first() =~= a.drop_first() + rest);
        assert forall|c: char| a.drop_first().contains(c) implies a.contains(c) by {
            let i = choose|i: int| 0 <= i < a.drop_first().len() && a.drop_first()[i] == c;
            assert(a[i + 1] == c);
        }
        lemma_first_segment_plain(a.drop_first(), rest);
        assert(a =~= seq![a[0]] + a.drop_first());
    }
}

/// A name of one segment: not empty, no slash, not `.` and not `..`.
spec fn is_plain_name(a: Seq<char>) -> bool {
    a.len() > 2 && !a.contains('/')
}

proof fn lemma_two_names(a: Seq<char>, b: Seq<char>)
    requires
        is_plain_name(a),
        is_plain_name(b),
        is_portable(a + seq!['/'] + b),
    ensures
        path_parts(a + seq!['/'] + b) == seq![Part::Name(a), Part::Name(b)],
{
    let text = a + seq!['/'] + b;
    let tail = seq!['/'] + b;
    assert(text =~= a + tail);
    lemma_first_segment_plain(a, tail);
    assert(text.skip(a.len() as int + 1) =~= b);
    assert(b =~= b + Seq::<char>::empty());
    lemma_first_segment_plain(b, Seq::empty());
    assert(text[0] == a[0]);
    assert(a.contains(a[0]));
    assert(later_parts(b) =~= seq![Part::Name(b)]);
    assert(later_parts(text) =~= seq![Part::Name(a)] + later_parts(b));
    assert(portable_parts(text) =~= seq![Part::Name(a), Part::Name(b)]);
}

/// Every bucket name is one file right inside `shards/`, and a safe name.
pub proof fn bucket_names_stay_in_shards(index: int)
    requires
        0 <= index,
    ensures
        path_parts(bucket_text(index)).len() == 2,
        path_parts(bucket_text(index))[0] == Part::Name("shards"@),
        path_parts(bucket_text(index))[1] is Name,
        stays_in_shards(path_parts(bucket_text(index))),
{
    let n = (index % 16) as nat;
    reveal_strlit("shards/");
    reveal_strlit("shards");
    reveal_strlit(".jsonl");
    reveal_strlit("0123456789");
    reveal_with_fuel(decimal_text, 3);
    let number = padded_text(n, 3);
    let file = number + ".jsonl"@;
    let text = bucket_text(index);
    assert("shards/"@ =~= "shards"@ + seq!['/']);
    assert(text =~= "shards"@ + seq!['/'] + file);
    assert(number.len() == 3);
    assert forall|i: int| 0 <= i < 3 implies '0' <= #[trigger] number[i] <= '9' by {}
    assert forall|i: int| 0 <= i < text.len() implies #[trigger] text[i] != '\\' && text[i] != ':' by {
        if 7 <= i < 10 {
            assert(text[i] == number[i - 7]);
        }
    }
    assert forall|i: int| 0 <= i < file.len() implies #[trigger] file[i] != '/' by {
        if i < 3 {
            assert(file[i] == number[i]);
        }
    }
    assert(is_portable(text));
    lemma_two_names("shards"@, file);
}

/// Buckets are told by the first byte of the hash alone, modulo their count.
pub proof fn bucket_follows_the_first_byte(bytes: Seq<u8>)
    requires
        bytes.len() > 0,
    ensures
        bucket_text(leading_byte(hex_text(bytes))) == bucket_text(bytes[0] as int),
{
    lemma_leading_byte(bytes);
}

proof fn lemma_leading_byte(bytes: Seq<u8>)
    requires
        bytes.len() > 0,
    ensures
        leading_byte(hex_text(bytes)) == bytes[0],
    decreases bytes.len(),
{
    hex_has_two_digits_a_byte(bytes);
    if bytes.len() == 1 {
        reveal_strlit("0123456789abcdef");
        reveal_with_fuel(hex_text, 2);
        let text = hex_text(bytes);
        assert(bytes.last() == bytes[0]);
        assert(text[0] == hex_digit(bytes[0] as int / 16));
        assert(text[1] == hex_digit(bytes[0] as int % 16));
        lemma_hex_value(bytes[0] as int / 16);
        lemma_hex_value(bytes[0] as int % 16);
    } else {
        lemma_leading_byte(bytes.drop_last());
        hex_has_two_digits_a_byte(bytes.drop_last());
        assert(hex_text(bytes)[0] == hex_text(bytes.drop_last())[0]);
        assert(hex_text(bytes)[1] == hex_text(bytes.drop_last())[1]);
    }
}

proof fn lemma_hex_value(d: int)
    requires
        0 <= d < 16,
    ensures
        hex_value(hex_digit(d)) == Some(d),
{
    reveal_strlit("0123456789abcdef");
}

} // verus!
