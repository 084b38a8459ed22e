//! Minute-resolution timestamps: the identity of a snapshot.
//!
//! A timestamp is a proleptic-Gregorian calendar minute, written canonically
//! as `YYYY-MM-DD_HH.MM` (fixed width, zero padded). Parsing accepts exactly
//! the canonical form; ordering is field-lexicographic, which coincides with
//! chronological order; `get_next` advances by exactly one minute, counted by
//! `minute_index`.

use vstd::prelude::*;
use vstd::string::StrSliceExecFns;
use vstd::string::StringExecFns;
use vstd::arithmetic::div_mod::lemma_fundamental_div_mod;
use vstd::arithmetic::div_mod::lemma_fundamental_div_mod_converse;
use core::cmp::Ordering;

use crate::digits::digit_char;
use crate::digits::digit_str;
use crate::digits::digit_val;
use crate::digits::is_digit;
use crate::digits::lemma_digit_char_val;
use crate::digits::lemma_digit_val_char;

verus! {

/// True for years with 366 days in the proleptic Gregorian calendar.
pub open spec fn is_leap_year(y: int) -> bool {
    y % 4 == 0 && (y % 100 != 0 || y % 400 == 0)
}

/// Days in one calendar month.
pub open spec fn days_in_month(y: int, m: int) -> int {
    if m == 2 {
        if is_leap_year(y) {
            29
        } else {
            28
        }
    } else if m == 4 || m == 6 || m == 9 || m == 11 {
        30
    } else {
        31
    }
}

/// Days in one calendar year.
pub open spec fn days_in_year(y: int) -> int {
    if is_leap_year(y) {
        366
    } else {
        365
    }
}

/// Days of year `y` that lie before the first day of month `m`.
pub open spec fn days_before_month(y: int, m: int) -> int
    decreases m,
{
    if m <= 1 {
        0
    } else {
        days_before_month(y, m - 1) + days_in_month(y, m - 1)
    }
}

/// Days that lie before the first day of year `y`, counted from year 0.
pub open spec fn days_before_year(y: int) -> int
    decreases y,
{
    if y <= 0 {
        0
    } else {
        days_before_year(y - 1) + days_in_year(y - 1)
    }
}

pub proof fn lemma_days_before_month_year(y: int)
    ensures
        days_before_month(y, 13) == days_in_year(y),
{
    reveal_with_fuel(days_before_month, 13);
}

/// A snapshot's version identifier: one calendar minute.
#[derive(Clone, Copy, Debug, PartialEq, Eq, Structural)]
pub struct Timestamp {
    pub year: u32,
    pub month: u32,
    pub day: u32,
    pub hour: u32,
    pub minute: u32,
}

impl Timestamp {
    /// Well-formedness: every field within its calendar range.
    pub open spec fn valid(self) -> bool {
        &&& self.year <= 9999
        &&& 1 <= self.month <= 12
        &&& 1 <= self.day <= days_in_month(self.year as int, self.month as int)
        &&& self.hour <= 23
        &&& self.minute <= 59
    }

    /// Days before this timestamp's calendar day, counted from year 0.
    pub open spec fn day_index(self) -> int {
        days_before_year(self.year as int) + days_before_month(
            self.year as int,
            self.month as int,
        ) + (self.day as int - 1)
    }

    /// Minutes before this timestamp, counted from `0000-01-01_00.00`.
    pub open spec fn minute_index(self) -> int {
        (self.day_index() * 24 + self.hour as int) * 60 + self.minute as int
    }

    /// Field-lexicographic strict order.
    pub open spec fn spec_lt(self, other: Timestamp) -> bool {
        if self.year != other.year {
            self.year < other.year
        } else if self.month != other.month {
            self.month < other.month
        } else if self.day != other.day {
            self.day < other.day
        } else if self.hour != other.hour {
            self.hour < other.hour
        } else {
            self.minute < other.minute
        }
    }

    pub open spec fn spec_le(self, other: Timestamp) -> bool {
        self.spec_lt(other) || self == other
    }

    /// The greatest representable timestamp.
    pub open spec fn spec_max() -> Timestamp {
        Timestamp { year: 9999, month: 12, day: 31, hour: 23, minute: 59 }
    }

    /// The least representable timestamp.
    pub open spec fn spec_min() -> Timestamp {
        Timestamp { year: 0, month: 1, day: 1, hour: 0, minute: 0 }
    }
}

/// Days in one calendar month, as executable code.
pub fn days_in_month_of(year: u32, month: u32) -> (r: u32)
    ensures
        r == days_in_month(year as int, month as int),
{
    if month == 2 {
        if year % 4 == 0 && (year % 100 != 0 || year % 400 == 0) {
            29
        } else {
            28
        }
    } else if month == 4 || month == 6 || month == 9 || month == 11 {
        30
    } else {
        31
    }
}

/// A two-digit zero-padded field value.
pub open spec fn spec_field2(s: Seq<char>, i: int) -> int {
    digit_val(s[i]) * 10 + digit_val(s[i + 1])
}

/// A four-digit zero-padded field value.
pub open spec fn spec_field4(s: Seq<char>, i: int) -> int {
    ((digit_val(s[i]) * 10 + digit_val(s[i + 1])) * 10 + digit_val(s[i + 2])) * 10 + digit_val(
        s[i + 3],
    )
}

/// The canonical shape: sixteen characters, ten digits, the separators
/// `-`, `-`, `_`, `.` at their fixed places.
pub open spec fn shape_ok(s: Seq<char>) -> bool {
    &&& s.len() == 16
    &&& is_digit(s[0]) && is_digit(s[1]) && is_digit(s[2]) && is_digit(s[3])
    &&& s[4] == '-'
    &&& is_digit(s[5]) && is_digit(s[6])
    &&& s[7] == '-'
    &&& is_digit(s[8]) && is_digit(s[9])
    &&& s[10] == '_'
    &&& is_digit(s[11]) && is_digit(s[12])
    &&& s[13] == '.'
    &&& is_digit(s[14]) && is_digit(s[15])
}

/// The timestamp a canonical string denotes, before the range check.
pub open spec fn spec_fields_of(s: Seq<char>) -> Timestamp {
    Timestamp {
        year: spec_field4(s, 0) as u32,
        month: spec_field2(s, 5) as u32,
        day: spec_field2(s, 8) as u32,
        hour: spec_field2(s, 11) as u32,
        minute: spec_field2(s, 14) as u32,
    }
}

/// What parsing returns: the denoted timestamp exactly when the string has
/// the canonical shape and every field is within its calendar range.
pub open spec fn spec_parse(s: Seq<char>) -> Option<Timestamp> {
    if shape_ok(s) && spec_fields_of(s).valid() {
        Some(spec_fields_of(s))
    } else {
        None
    }
}

/// The canonical sixteen-character rendering of a timestamp.
pub open spec fn spec_str_of(t: Timestamp) -> Seq<char> {
    seq![
        digit_char(t.year as int / 1000 % 10),
        digit_char(t.year as int / 100 % 10),
        digit_char(t.year as int / 10 % 10),
        digit_char(t.year as int % 10),
        '-',
        digit_char(t.month as int / 10 % 10),
        digit_char(t.month as int % 10),
        '-',
        digit_char(t.day as int / 10 % 10),
        digit_char(t.day as int % 10),
        '_',
        digit_char(t.hour as int / 10 % 10),
        digit_char(t.hour as int % 10),
        '.',
        digit_char(t.minute as int / 10 % 10),
        digit_char(t.minute as int % 10),
    ]
}

/// Reads the digit at position `i`, or `None` if another character stands there.
fn read_digit(s: &str, i: usize) -> (r: Option<u32>)
    requires
        i < s@.len(),
    ensures
        match r {
            Some(v) => is_digit(s@[i as int]) && v == digit_val(s@[i as int]),
            None => !is_digit(s@[i as int]),
        },
{
    let c = s.get_char(i);
    let u = c as u32;
    if 48 <= u && u <= 57 {
        Some(u - 48)
    } else {
        None
    }
}

impl Timestamp {
    /// True when every field is within its calendar range.
    pub fn in_range(&self) -> (r: bool)
        ensures
            r == self.valid(),
    {
        self.year <= 9999 && 1 <= self.month && self.month <= 12 && 1 <= self.day && self.day
            <= days_in_month_of(self.year, self.month) && self.hour <= 23 && self.minute <= 59
    }

    /// Parses the canonical form `YYYY-MM-DD_HH.MM`; any deviation fails.
    pub fn parse_from(s: &str) -> (r: Option<Timestamp>)
        ensures
            r == spec_parse(s@),
    {
        if s.unicode_len() != 16 {
            return None;
        }
        if s.get_char(4) != '-' || s.get_char(7) != '-' || s.get_char(10) != '_' || s.get_char(13)
            != '.' {
            return None;
        }
        let d0 = read_digit(s, 0);
        let d1 = read_digit(s, 1);
        let d2 = read_digit(s, 2);
        let d3 = read_digit(s, 3);
        let d5 = read_digit(s, 5);
        let d6 = read_digit(s, 6);
        let d8 = read_digit(s, 8);
        let d9 = read_digit(s, 9);
        let d11 = read_digit(s, 11);
        let d12 = read_digit(s, 12);
        let d14 = read_digit(s, 14);
        let d15 = read_digit(s, 15);
        match (d0, d1, d2, d3, d5, d6, d8, d9, d11, d12, d14, d15) {
            (
                Some(y0),
                Some(y1),
                Some(y2),
                Some(y3),
                Some(mo0),
                Some(mo1),
                Some(da0),
                Some(da1),
                Some(h0),
                Some(h1),
                Some(mi0),
                Some(mi1),
            ) => {
                let t = Timestamp {
                    year: ((y0 * 10 + y1) * 10 + y2) * 10 + y3,
                    month: mo0 * 10 + mo1,
                    day: da0 * 10 + da1,
                    hour: h0 * 10 + h1,
                    minute: mi0 * 10 + mi1,
                };
                if t.in_range() {
                    Some(t)
                } else {
                    None
                }
            },
            _ => None,
        }
    }

    /// The boolean form of `parse_from`.
    pub fn is_valid(s: &str) -> (r: bool)
        ensures
            r == spec_parse(s@).is_some(),
    {
        Timestamp::parse_from(s).is_some()
    }

    /// Renders the canonical form `YYYY-MM-DD_HH.MM`.
    pub fn to_string(&self) -> (r: String)
        requires
            self.valid(),
        ensures
            r@ == spec_str_of(*self),
    {
        proof {
            reveal_strlit("-");
            reveal_strlit("_");
            reveal_strlit(".");
        }
        let mut r = String::new();
        r.append(digit_str((self.year / 1000 % 10) as u64));
        r.append(digit_str((self.year / 100 % 10) as u64));
        r.append(digit_str((self.year / 10 % 10) as u64));
        r.append(digit_str((self.year % 10) as u64));
        r.append("-");
        r.append(digit_str((self.month / 10 % 10) as u64));
        r.append(digit_str((self.month % 10) as u64));
        r.append("-");
        r.append(digit_str((self.day / 10 % 10) as u64));
        r.append(digit_str((self.day % 10) as u64));
        r.append("_");
        r.append(digit_str((self.hour / 10 % 10) as u64));
        r.append(digit_str((self.hour % 10) as u64));
        r.append(".");
        r.append(digit_str((self.minute / 10 % 10) as u64));
        r.append(digit_str((self.minute % 10) as u64));
        assert(r@ =~= spec_str_of(*self));
        r
    }

    /// Advances by exactly one minute: the result is strictly greater and its
    /// `minute_index` is one more than this timestamp's.
    pub fn get_next(&self) -> (r: Timestamp)
        requires
            self.valid(),
            *self != Timestamp::spec_max(),
        ensures
            r.valid(),
            r.minute_index() == self.minute_index() + 1,
            self.spec_lt(r),
    {
        if self.minute < 59 {
            Timestamp { minute: self.minute + 1, ..*self }
        } else if self.hour < 23 {
            Timestamp { hour: self.hour + 1, minute: 0, ..*self }
        } else if self.day < days_in_month_of(self.year, self.month) {
            Timestamp { day: self.day + 1, hour: 0, minute: 0, ..*self }
        } else if self.month < 12 {
            let r = Timestamp { month: self.month + 1, day: 1, hour: 0, minute: 0, ..*self };
            assert(days_before_month(r.year as int, r.month as int) == days_before_month(
                self.year as int,
                self.month as int,
            ) + days_in_month(self.year as int, self.month as int));
            r
        } else {
            let r = Timestamp { year: self.year + 1, month: 1, day: 1, hour: 0, minute: 0 };
            proof {
                lemma_days_before_month_year(self.year as int);
                assert(days_before_month(self.year as int, 13) == days_before_month(
                    self.year as int,
                    12,
                ) + days_in_month(self.year as int, 12));
                assert(days_before_year(r.year as int) == days_before_year(self.year as int)
                    + days_in_year(self.year as int));
            }
            r
        }
    }

    /// Steps back by exactly one minute, stopping at the least timestamp.
    pub fn previous(&self) -> (r: Timestamp)
        requires
            self.valid(),
        ensures
            r.valid(),
            *self == Timestamp::spec_min() ==> r == *self,
            *self != Timestamp::spec_min() ==> r.minute_index() == self.minute_index() - 1
                && r.spec_lt(*self),
    {
        if self.minute > 0 {
            Timestamp { minute: self.minute - 1, ..*self }
        } else if self.hour > 0 {
            Timestamp { hour: self.hour - 1, minute: 59, ..*self }
        } else if self.day > 1 {
            Timestamp { day: self.day - 1, hour: 23, minute: 59, ..*self }
        } else if self.month > 1 {
            let r = Timestamp {
                month: self.month - 1,
                day: days_in_month_of(self.year, self.month - 1),
                hour: 23,
                minute: 59,
                ..*self
            };
            assert(days_before_month(self.year as int, self.month as int) == days_before_month(
                r.year as int,
                r.month as int,
            ) + days_in_month(r.year as int, r.month as int));
            r
        } else if self.year > 0 {
            let r = Timestamp { year: self.year - 1, month: 12, day: 31, hour: 23, minute: 59 };
            proof {
                lemma_days_before_month_year(r.year as int);
                assert(days_before_month(r.year as int, 13) == days_before_month(r.year as int, 12)
                    + days_in_month(r.year as int, 12));
                assert(days_before_year(self.year as int) == days_before_year(r.year as int)
                    + days_in_year(r.year as int));
            }
            r
        } else {
            *self
        }
    }
}

impl PartialOrd for Timestamp {
    fn partial_cmp(&self, other: &Self) -> (r: Option<Ordering>) {
        if self.year != other.year {
            if self.year < other.year {
                Some(Ordering::Less)
            } else {
                Some(Ordering::Greater)
            }
        } else if self.month != other.month {
            if self.month < other.month {
                Some(Ordering::Less)
            } else {
                Some(Ordering::Greater)
            }
        } else if self.day != other.day {
            if self.day < other.day {
                Some(Ordering::Less)
            } else {
                Some(Ordering::Greater)
            }
        } else if self.hour != other.hour {
            if self.hour < other.hour {
                Some(Ordering::Less)
            } else {
                Some(Ordering::Greater)
            }
        } else if self.minute != other.minute {
            if self.minute < other.minute {
                Some(Ordering::Less)
            } else {
                Some(Ordering::Greater)
            }
        } else {
            Some(Ordering::Equal)
        }
    }
}

impl vstd::std_specs::cmp::PartialOrdSpecImpl for Timestamp {
    open spec fn obeys_partial_cmp_spec() -> bool {
        true
    }

    open spec fn partial_cmp_spec(&self, other: &Self) -> Option<Ordering> {
        if self.spec_lt(*other) {
            Some(Ordering::Less)
        } else if other.spec_lt(*self) {
            Some(Ordering::Greater)
        } else {
            Some(Ordering::Equal)
        }
    }
}

proof fn lemma_split2(v: int)
    requires
        0 <= v <= 99,
    ensures
        0 <= v / 10 % 10 <= 9,
        0 <= v % 10 <= 9,
        (v / 10 % 10) * 10 + v % 10 == v,
{
    lemma_fundamental_div_mod(v, 10);
    lemma_fundamental_div_mod_converse(v / 10, 10, 0, v / 10);
}

proof fn lemma_split4(v: int)
    requires
        0 <= v <= 9999,
    ensures
        0 <= v / 1000 % 10 <= 9,
        0 <= v / 100 % 10 <= 9,
        0 <= v / 10 % 10 <= 9,
        0 <= v % 10 <= 9,
        (((v / 1000 % 10) * 10 + v / 100 % 10) * 10 + v / 10 % 10) * 10 + v % 10 == v,
{
    let a = v / 1000;
    let b = v / 100 % 10;
    let c = v / 10 % 10;
    let d = v % 10;
    lemma_fundamental_div_mod(v, 1000);
    lemma_fundamental_div_mod(v % 1000, 100);
    lemma_fundamental_div_mod(v % 100, 10);
    lemma_fundamental_div_mod_converse(v, 100, a * 10 + v % 1000 / 100, v % 100);
    lemma_fundamental_div_mod_converse(v, 10, (a * 10 + v % 1000 / 100) * 10 + v % 100 / 10, v % 10);
    lemma_fundamental_div_mod_converse(a, 10, 0, a);
    lemma_fundamental_div_mod_converse(a * 10 + v % 1000 / 100, 10, a, v % 1000 / 100);
    lemma_fundamental_div_mod_converse(
        (a * 10 + v % 1000 / 100) * 10 + v % 100 / 10,
        10,
        a * 10 + v % 1000 / 100,
        v % 100 / 10,
    );
}

proof fn lemma_digits4(a: int, b: int, c: int, d: int)
    requires
        0 <= a <= 9,
        0 <= b <= 9,
        0 <= c <= 9,
        0 <= d <= 9,
    ensures
        (((a * 10 + b) * 10 + c) * 10 + d) / 1000 % 10 == a,
        (((a * 10 + b) * 10 + c) * 10 + d) / 100 % 10 == b,
        (((a * 10 + b) * 10 + c) * 10 + d) / 10 % 10 == c,
        (((a * 10 + b) * 10 + c) * 10 + d) % 10 == d,
{
    let n = ((a * 10 + b) * 10 + c) * 10 + d;
    lemma_fundamental_div_mod_converse(n, 1000, a, (b * 10 + c) * 10 + d);
    lemma_fundamental_div_mod_converse(n, 100, a * 10 + b, c * 10 + d);
    lemma_fundamental_div_mod_converse(n, 10, (a * 10 + b) * 10 + c, d);
    lemma_fundamental_div_mod_converse(a, 10, 0, a);
    lemma_fundamental_div_mod_converse(a * 10 + b, 10, a, b);
    lemma_fundamental_div_mod_converse((a * 10 + b) * 10 + c, 10, a * 10 + b, c);
}

proof fn lemma_digits2(a: int, b: int)
    requires
        0 <= a <= 9,
        0 <= b <= 9,
    ensures
        (a * 10 + b) / 10 % 10 == a,
        (a * 10 + b) % 10 == b,
{
    lemma_fundamental_div_mod_converse(a * 10 + b, 10, a, b);
    lemma_fundamental_div_mod_converse(a, 10, 0, a);
}

/// Round trip, one direction: rendering a valid timestamp and parsing the
/// result gives the timestamp back.
pub proof fn lemma_format_then_parse(t: Timestamp)
    requires
        t.valid(),
    ensures
        spec_parse(spec_str_of(t)) == Some(t),
{
    let s = spec_str_of(t);
    lemma_split4(t.year as int);
    lemma_split2(t.month as int);
    lemma_split2(t.day as int);
    lemma_split2(t.hour as int);
    lemma_split2(t.minute as int);
    lemma_digit_char_val(t.year as int / 1000 % 10);
    lemma_digit_char_val(t.year as int / 100 % 10);
    lemma_digit_char_val(t.year as int / 10 % 10);
    lemma_digit_char_val(t.year as int % 10);
    lemma_digit_char_val(t.month as int / 10 % 10);
    lemma_digit_char_val(t.month as int % 10);
    lemma_digit_char_val(t.day as int / 10 % 10);
    lemma_digit_char_val(t.day as int % 10);
    lemma_digit_char_val(t.hour as int / 10 % 10);
    lemma_digit_char_val(t.hour as int % 10);
    lemma_digit_char_val(t.minute as int / 10 % 10);
    lemma_digit_char_val(t.minute as int % 10);
    assert(shape_ok(s));
    assert(spec_field4(s, 0) == t.year);
    assert(spec_field2(s, 5) == t.month);
    assert(spec_field2(s, 8) == t.day);
    assert(spec_field2(s, 11) == t.hour);
    assert(spec_field2(s, 14) == t.minute);
    assert(spec_fields_of(s) == t);
}

/// Round trip, the other direction: every string the parser accepts is the
/// canonical rendering of the timestamp it denotes.
pub proof fn lemma_parse_then_format(s: Seq<char>)
    requires
        spec_parse(s) is Some,
    ensures
        spec_str_of(spec_parse(s)->Some_0) == s,
{
    let t = spec_fields_of(s);
    lemma_digit_val_char(s[0]);
    lemma_digit_val_char(s[1]);
    lemma_digit_val_char(s[2]);
    lemma_digit_val_char(s[3]);
    lemma_digit_val_char(s[5]);
    lemma_digit_val_char(s[6]);
    lemma_digit_val_char(s[8]);
    lemma_digit_val_char(s[9]);
    lemma_digit_val_char(s[11]);
    lemma_digit_val_char(s[12]);
    lemma_digit_val_char(s[14]);
    lemma_digit_val_char(s[15]);
    lemma_digits4(digit_val(s[0]), digit_val(s[1]), digit_val(s[2]), digit_val(s[3]));
    lemma_digits2(digit_val(s[5]), digit_val(s[6]));
    lemma_digits2(digit_val(s[8]), digit_val(s[9]));
    lemma_digits2(digit_val(s[11]), digit_val(s[12]));
    lemma_digits2(digit_val(s[14]), digit_val(s[15]));
    assert(spec_str_of(t) =~= s);
}

/// The canonical rendering is injective on valid timestamps.
pub proof fn lemma_str_of_injective(t1: Timestamp, t2: Timestamp)
    requires
        t1.valid(),
        t2.valid(),
        spec_str_of(t1) == spec_str_of(t2),
    ensures
        t1 == t2,
{
    lemma_format_then_parse(t1);
    lemma_format_then_parse(t2);
}

proof fn lemma_days_before_year_monotone(y1: int, y2: int)
    requires
        0 <= y1 <= y2,
    ensures
        days_before_year(y1) <= days_before_year(y2),
        y1 < y2 ==> days_before_year(y1) + days_in_year(y1) <= days_before_year(y2),
    decreases y2 - y1,
{
    if y1 < y2 {
        lemma_days_before_year_monotone(y1 + 1, y2);
    }
}

proof fn lemma_days_before_month_monotone(y: int, m1: int, m2: int)
    requires
        1 <= m1 <= m2 <= 13,
    ensures
        days_before_month(y, m1) <= days_before_month(y, m2),
        m1 < m2 ==> days_before_month(y, m1) + days_in_month(y, m1) <= days_before_month(y, m2),
    decreases m2 - m1,
{
    if m1 < m2 {
        lemma_days_before_month_monotone(y, m1 + 1, m2);
    }
}

proof fn lemma_day_index_bounds(t: Timestamp)
    requires
        t.valid(),
    ensures
        days_before_year(t.year as int) <= t.day_index() < days_before_year(t.year as int + 1),
{
    lemma_days_before_month_monotone(t.year as int, 1, t.month as int);
    lemma_days_before_month_monotone(t.year as int, t.month as int, 13);
    lemma_days_before_month_year(t.year as int);
}

/// Field-lexicographic order coincides with chronological order as the
/// minute count measures it.
pub proof fn lemma_order_is_minute_order(a: Timestamp, b: Timestamp)
    requires
        a.valid(),
        b.valid(),
    ensures
        a.spec_lt(b) <==> a.minute_index() < b.minute_index(),
        a == b <==> a.minute_index() == b.minute_index(),
{
    lemma_lt_key(a, b);
    lemma_lt_key(b, a);
}

proof fn lemma_lt_key(a: Timestamp, b: Timestamp)
    requires
        a.valid(),
        b.valid(),
    ensures
        a.spec_lt(b) ==> a.minute_index() < b.minute_index(),
{
    if a.spec_lt(b) {
        lemma_day_index_bounds(a);
        lemma_day_index_bounds(b);
        if a.year < b.year {
            lemma_days_before_year_monotone(a.year as int + 1, b.year as int);
            assert(a.day_index() < b.day_index());
        } else if a.year == b.year && a.month < b.month {
            lemma_days_before_month_monotone(a.year as int, a.month as int + 1, b.month as int);
            assert(a.day_index() < b.day_index());
        } else if a.year == b.year && a.month == b.month && a.day < b.day {
            assert(a.day_index() < b.day_index());
        } else {
            assert(a.day_index() == b.day_index());
        }
    }
}

/// One reading of the system clock, truncated to minute resolution.
pub struct ClockReading {
    pub year: i32,
    pub month: u8,
    pub day: u8,
    pub hour: u8,
    pub minute: u8,
}

impl ClockReading {
    /// What the clock library guarantees of every reading: a real calendar
    /// date within the representable year range, and in-range time fields.
    pub open spec fn well_formed(self) -> bool {
        &&& -9999 <= self.year <= 9999
        &&& 1 <= self.month <= 12
        &&& 1 <= self.day <= days_in_month(self.year as int, self.month as int)
        &&& self.hour <= 23
        &&& self.minute <= 59
    }
}

/// Relies on time::OffsetDateTime::now_local (falling back to now_utc when no
/// local offset can be determined) and its field accessors: the date is a
/// valid proleptic-Gregorian calendar date whose year lies in -9999..=9999,
/// and the time fields are in range. Nothing else is assumed of the value,
/// which depends on the machine's clock.
#[verifier::external_body]
fn clock_now() -> (r: ClockReading)
    ensures
        r.well_formed(),
{
    let t = time::OffsetDateTime::now_local().unwrap_or_else(|_| time::OffsetDateTime::now_utc());
    ClockReading {
        year: t.year(),
        month: t.month() as u8,
        day: t.day(),
        hour: t.hour(),
        minute: t.minute(),
    }
}

impl Timestamp {
    /// The current local time, truncated to the minute. A clock set before
    /// year 0 (which no real clock reports) is pinned to the least timestamp.
    pub fn now() -> (r: Timestamp)
        ensures
            r.valid(),
    {
        let c = clock_now();
        if c.year < 0 {
            Timestamp { year: 0, month: 1, day: 1, hour: 0, minute: 0 }
        } else {
            Timestamp {
                year: c.year as u32,
                month: c.month as u32,
                day: c.day as u32,
                hour: c.hour as u32,
                minute: c.minute as u32,
            }
        }
    }
}

} // verus!
