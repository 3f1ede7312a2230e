//! Nanosecond timestamps and the `HHMMSSuu` clock text used by the feed.
use vstd::prelude::*;

verus! {

pub const NANOS_PER_SEC: i64 = 1_000_000_000;
pub const NANOS_PER_MIN: i64 = 60 * NANOS_PER_SEC;
pub const NANOS_PER_HOUR: i64 = 3600 * NANOS_PER_SEC;
pub const NANOS_PER_CENT: i64 = 10_000_000;
pub const NANOS_PER_MICRO: i64 = 1000;
pub const NANOS_PER_DAY: i64 = 24 * NANOS_PER_HOUR;

/// Division rounding toward zero, as Rust's `/` on signed integers does.
pub open spec fn tdiv(a: int, b: int) -> int {
    if a >= 0 { a / b } else { -((-a) / b) }
}

/// The remainder that goes with `tdiv`, as Rust's `%` on signed integers.
pub open spec fn trem(a: int, b: int) -> int {
    if a >= 0 { a % b } else { -((-a) % b) }
}

pub open spec fn in_i64(x: int) -> bool {
    i64::MIN <= x <= i64::MAX
}

/// The little-endian `u64` that eight bytes spell.
pub open spec fn le_u64(b: Seq<u8>) -> u64 {
    (b[0] as u64) | ((b[1] as u64) << 8u64) | ((b[2] as u64) << 16u64) | ((b[3] as u64) << 24u64)
        | ((b[4] as u64) << 32u64) | ((b[5] as u64) << 40u64) | ((b[6] as u64) << 48u64) | ((
    b[7] as u64) << 56u64)
}

/// Eight ASCII `'0'` bytes read as one little-endian `u64`.
pub const ASCII_ZEROS: u64 = 0x3030303030303030;

/// Byte `k` (from the least significant end) of `d`.
pub open spec fn byte_of(d: u64, k: u64) -> u64 {
    (d >> (8 * k)) & 0xFF
}

/// The little-endian `u64` of `b` less eight ASCII `'0'`s.
pub open spec fn lowered_by_zeros(b: Seq<u8>) -> u64 {
    (le_u64(b) - ASCII_ZEROS) as u64
}

/// Two-digit field `i` (0..4) of `HHMMSSuu`, computed the way the parser does: all eight
/// bytes are lowered by `'0'` at once, then each pair is read as tens and ones.
pub open spec fn hhmmssuu_field(b: Seq<u8>, i: int) -> int {
    let d = lowered_by_zeros(b);
    byte_of(d, (2 * i) as u64) * 10 + byte_of(d, (2 * i + 1) as u64)
}

/// `bytes` can be lowered by `'0'` as one `u64` without running below zero.
pub open spec fn hhmmssuu_readable(b: Seq<u8>) -> bool {
    le_u64(b) >= ASCII_ZEROS
}

pub open spec fn is_digit(c: u8) -> bool {
    48 <= c <= 57
}

/// The nanoseconds after midnight of a clock reading.
pub open spec fn clock_nanos(hour: int, min: int, sec: int, cent: int) -> int {
    hour * NANOS_PER_HOUR + min * NANOS_PER_MIN + sec * NANOS_PER_SEC + cent * NANOS_PER_CENT
}

/// Hours, minutes, seconds and centiseconds of `day_nanos`, each by truncating division.
pub open spec fn clock_hour(dn: int) -> int {
    tdiv(dn, NANOS_PER_HOUR as int)
}

pub open spec fn clock_min(dn: int) -> int {
    tdiv(trem(dn, NANOS_PER_HOUR as int), NANOS_PER_MIN as int)
}

pub open spec fn clock_sec(dn: int) -> int {
    tdiv(trem(dn, NANOS_PER_MIN as int), NANOS_PER_SEC as int)
}

pub open spec fn clock_cent(dn: int) -> int {
    tdiv(trem(dn, NANOS_PER_SEC as int), NANOS_PER_CENT as int)
}

pub open spec fn clock_micro(dn: int) -> int {
    tdiv(trem(dn, NANOS_PER_SEC as int), NANOS_PER_MICRO as int)
}

/// The two ASCII characters written for `v`: its tens (which may exceed 9) and its ones.
pub open spec fn two_digits(v: u8) -> Seq<u8> {
    seq![(v / 10 + 48) as u8, (v % 10 + 48) as u8]
}

/// The `HHMMSSuu` text of `dn` nanoseconds after midnight.
pub open spec fn hhmmssuu_text(dn: int) -> Seq<u8> {
    two_digits(clock_hour(dn) as u8) + two_digits(clock_min(dn) as u8) + two_digits(
        clock_sec(dn) as u8,
    ) + two_digits(clock_cent(dn) as u8)
}

/// The six decimal digits of `v` (taken modulo one million).
pub open spec fn six_digits(v: u32) -> Seq<u8> {
    seq![
        (v / 100000 % 10 + 48) as u8,
        (v / 10000 % 10 + 48) as u8,
        (v / 1000 % 10 + 48) as u8,
        (v / 100 % 10 + 48) as u8,
        (v / 10 % 10 + 48) as u8,
        (v % 10 + 48) as u8,
    ]
}

/// The `HH:MM:SS.uuuuuu` text of `dn` nanoseconds after midnight.
pub open spec fn printable_text(dn: int) -> Seq<u8> {
    two_digits(clock_hour(dn) as u8) + seq![58u8] + two_digits(clock_min(dn) as u8) + seq![58u8]
        + two_digits(clock_sec(dn) as u8) + seq![46u8] + six_digits(clock_micro(dn) as u32)
}

/// Nanoseconds after the UNIX epoch.
#[derive(Debug, Clone, Copy, PartialEq, Eq, PartialOrd, Ord)]
pub struct Timestamp(i64);

impl View for Timestamp {
    type V = i64;

    closed spec fn view(&self) -> i64 {
        self.0
    }
}

impl core::ops::Add for Timestamp {
    type Output = Self;

    fn add(self, rhs: Self) -> (t: Self) {
        Timestamp(self.0 + rhs.0)
    }
}

impl vstd::std_specs::ops::AddSpecImpl for Timestamp {
    open spec fn obeys_add_spec() -> bool {
        true
    }

    open spec fn add_req(self, rhs: Self) -> bool {
        in_i64(self@ + rhs@)
    }

    open spec fn add_spec(self, rhs: Self) -> Self {
        Timestamp::from_nanos_spec((self@ + rhs@) as i64)
    }
}

impl core::ops::Sub for Timestamp {
    type Output = Self;

    fn sub(self, rhs: Self) -> (t: Self) {
        Timestamp(self.0 - rhs.0)
    }
}

impl vstd::std_specs::ops::SubSpecImpl for Timestamp {
    open spec fn obeys_sub_spec() -> bool {
        true
    }

    open spec fn sub_req(self, rhs: Self) -> bool {
        in_i64(self@ - rhs@)
    }

    open spec fn sub_spec(self, rhs: Self) -> Self {
        Timestamp::from_nanos_spec((self@ - rhs@) as i64)
    }
}

impl Timestamp {
    /// KRX operates in GMT+9.
    pub const TIMEZONE_KST: i64 = 32_400_000_000_000;

    /// The timestamp `n` nanoseconds after the epoch.
    pub closed spec fn from_nanos_spec(n: i64) -> Self {
        Timestamp(n)
    }

    pub broadcast proof fn lemma_from_nanos_spec(n: i64)
        ensures
            #[trigger] Timestamp::from_nanos_spec(n)@ == n,
    {
    }

    pub(crate) fn as_nanos(&self) -> (n: i64)
        ensures
            n == self@,
    {
        self.0
    }

    pub fn from_secs_and_nanos(secs: i64, nsecs: i64) -> (t: Self)
        requires
            in_i64(secs * NANOS_PER_SEC),
            in_i64(secs * NANOS_PER_SEC + nsecs),
        ensures
            t@ == secs * NANOS_PER_SEC + nsecs,
    {
        Timestamp(secs * NANOS_PER_SEC + nsecs)
    }

    /// Whole centiseconds since the epoch, rounded toward zero.
    pub fn timestamp_centiseconds(&self) -> (c: i64)
        ensures
            c == tdiv(self@ as int, NANOS_PER_CENT as int),
    {
        self.0 / NANOS_PER_CENT
    }

    /// Reads ASCII `HHMMSSuu` as hours, minutes, seconds and centiseconds.
    ///
    /// All eight bytes are lowered by `'0'` at once, as one little-endian `u64`, and each pair
    /// of bytes is then read as tens and ones. For digit text each field is the decimal value
    /// of its digit pair. Text that reads below eight `'0'`s as a `u64` would make that
    /// subtraction overflow, so it is not accepted.
    pub fn parse_hhmmssuu(bytes: &[u8; 8]) -> (fields: [i64; 4])
        requires
            hhmmssuu_readable(bytes@),
        ensures
            fields[0] == hhmmssuu_field(bytes@, 0),
            fields[1] == hhmmssuu_field(bytes@, 1),
            fields[2] == hhmmssuu_field(bytes@, 2),
            fields[3] == hhmmssuu_field(bytes@, 3),
            forall|i: int| 0 <= i < 4 ==> 0 <= #[trigger] fields[i] <= 2805,
            (forall|j: int| 0 <= j < 8 ==> is_digit(#[trigger] bytes@[j])) ==> {
                &&& fields[0] == 10 * (bytes@[0] - 48) + (bytes@[1] - 48)
                &&& fields[1] == 10 * (bytes@[2] - 48) + (bytes@[3] - 48)
                &&& fields[2] == 10 * (bytes@[4] - 48) + (bytes@[5] - 48)
                &&& fields[3] == 10 * (bytes@[6] - 48) + (bytes@[7] - 48)
            },
    {
        let b0 = bytes[0];
        let b1 = bytes[1];
        let b2 = bytes[2];
        let b3 = bytes[3];
        let b4 = bytes[4];
        let b5 = bytes[5];
        let b6 = bytes[6];
        let b7 = bytes[7];
        let val: u64 = (b0 as u64) | ((b1 as u64) << 8u64) | ((b2 as u64) << 16u64) | ((b3 as u64)
            << 24u64) | ((b4 as u64) << 32u64) | ((b5 as u64) << 40u64) | ((b6 as u64) << 48u64)
            | ((b7 as u64) << 56u64);
        assert(val == le_u64(bytes@));
        let digits = val - ASCII_ZEROS;
        proof {
            assert(digits & 0xFF <= 0xFF && (digits >> 8u64) & 0xFF <= 0xFF
                && (digits >> 16u64) & 0xFF <= 0xFF && (digits >> 24u64) & 0xFF <= 0xFF
                && (digits >> 32u64) & 0xFF <= 0xFF && (digits >> 40u64) & 0xFF <= 0xFF
                && (digits >> 48u64) & 0xFF <= 0xFF && (digits >> 56u64) & 0xFF <= 0xFF)
                by (bit_vector);
            assert(digits & 0xFF == (digits >> 0u64) & 0xFF) by (bit_vector);
        }
        let hour = (digits & 0xFF) * 10 + ((digits >> 8u64) & 0xFF);
        let min = ((digits >> 16u64) & 0xFF) * 10 + ((digits >> 24u64) & 0xFF);
        let sec = ((digits >> 32u64) & 0xFF) * 10 + ((digits >> 40u64) & 0xFF);
        let cent = ((digits >> 48u64) & 0xFF) * 10 + ((digits >> 56u64) & 0xFF);
        proof {
            if forall|j: int| 0 <= j < 8 ==> is_digit(#[trigger] bytes@[j]) {
                lemma_hhmmssuu_digits(bytes@);
            }
        }
        [hour as i64, min as i64, sec as i64, cent as i64]
    }

    /// The nanoseconds after midnight of a clock reading, computed in `u64` and then
    /// reinterpreted as `i64`.
    pub fn delta_time_after_midnight(hour: u64, min: u64, sec: u64, cent: u64) -> (t: Self)
        requires
            clock_nanos(hour as int, min as int, sec as int, cent as int) <= u64::MAX,
        ensures
            t@ == clock_nanos(hour as int, min as int, sec as int, cent as int) as i64,
    {
        let day_nanos = hour * (NANOS_PER_HOUR as u64) + min * (NANOS_PER_MIN as u64) + sec * (
        NANOS_PER_SEC as u64) + cent * (NANOS_PER_CENT as u64);
        Timestamp(day_nanos as i64)
    }

    /// The nanoseconds after midnight that ASCII `HHMMSSuu` denotes.
    pub fn hhmmssuu_to_midnight_delta(bytes: &[u8; 8]) -> (t: Self)
        requires
            hhmmssuu_readable(bytes@),
        ensures
            t@ == clock_nanos(
                hhmmssuu_field(bytes@, 0),
                hhmmssuu_field(bytes@, 1),
                hhmmssuu_field(bytes@, 2),
                hhmmssuu_field(bytes@, 3),
            ),
    {
        let fields = Timestamp::parse_hhmmssuu(bytes);
        let hour = fields[0];
        let min = fields[1];
        let sec = fields[2];
        let cent = fields[3];
        let day_nanos = hour * NANOS_PER_HOUR + min * NANOS_PER_MIN + sec * NANOS_PER_SEC + cent
            * NANOS_PER_CENT;
        Timestamp(day_nanos)
    }

    /// The midnight that starts the day of `self` in the time zone `tz_offset` nanoseconds
    /// east of UTC: a local midnight, not after `self` and less than a day before it.
    pub fn get_midnight_at_timezone(&self, tz_offset: i64) -> (t: Self)
        requires
            in_i64(self@ + tz_offset),
            in_i64(midnight_spec(self@ as int, tz_offset as int) + tz_offset),
            in_i64(midnight_spec(self@ as int, tz_offset as int)),
        ensures
            t@ == midnight_spec(self@ as int, tz_offset as int),
            t@ <= self@ < t@ + NANOS_PER_DAY,
            (t@ + tz_offset) % (NANOS_PER_DAY as int) == 0,
    {
        let time_at_timezone = self.0 + tz_offset;
        let mut days_since_epoch = time_at_timezone / NANOS_PER_DAY;
        proof {
            lemma_tdiv_mul_bound(time_at_timezone as int, NANOS_PER_DAY as int);
            lemma_floor_day(time_at_timezone as int);
            lemma_midnight_starts_day(self@ as int, tz_offset as int);
        }
        // Days before the epoch start at the midnight before, not after
        if time_at_timezone < 0 && days_since_epoch * NANOS_PER_DAY != time_at_timezone {
            days_since_epoch = days_since_epoch - 1;
        }
        let nanos_midnight = days_since_epoch * NANOS_PER_DAY;
        Timestamp(nanos_midnight - tz_offset)
    }

    /// The `HHMMSSuu` text of `self`, counted from `midnight`.
    pub fn format_hhmmssuu(&self, midnight: Timestamp) -> (out: [u8; 8])
        requires
            in_i64(self@ - midnight@),
        ensures
            out@ == hhmmssuu_text(self@ - midnight@),
    {
        let day_nanos = self.0 - midnight.0;
        let hour = day_nanos / NANOS_PER_HOUR;
        let min = (day_nanos % NANOS_PER_HOUR) / NANOS_PER_MIN;
        let sec = (day_nanos % NANOS_PER_MIN) / NANOS_PER_SEC;
        let cent = (day_nanos % NANOS_PER_SEC) / NANOS_PER_CENT;
        let (h1, h0) = write_digits_fast(hour as u8);
        let (m1, m0) = write_digits_fast(min as u8);
        let (s1, s0) = write_digits_fast(sec as u8);
        let (c1, c0) = write_digits_fast(cent as u8);
        let out = [h1, h0, m1, m0, s1, s0, c1, c0];
        assert(out@ =~= hhmmssuu_text(self@ - midnight@));
        out
    }

    /// The `HHMMSSuu` text of `self`, counted from `midnight` (as `format_hhmmssuu`).
    pub fn as_hhmmssuu_string(&self, midnight: Timestamp) -> (out: [u8; 8])
        requires
            in_i64(self@ - midnight@),
        ensures
            out@ == hhmmssuu_text(self@ - midnight@),
    {
        self.format_hhmmssuu(midnight)
    }

    /// The `HH:MM:SS.uuuuuu` text of `self`, counted from `midnight`.
    pub fn as_printable_time_string(&self, midnight: Timestamp) -> (out: [u8; 15])
        requires
            in_i64(self@ - midnight@),
        ensures
            out@ == printable_text(self@ - midnight@),
    {
        let day_nanos = self.0 - midnight.0;
        let hour = day_nanos / NANOS_PER_HOUR;
        let min = (day_nanos % NANOS_PER_HOUR) / NANOS_PER_MIN;
        let sec = (day_nanos % NANOS_PER_MIN) / NANOS_PER_SEC;
        let micro = ((day_nanos % NANOS_PER_SEC) / NANOS_PER_MICRO) as u32;
        let (h1, h0) = write_digits_fast(hour as u8);
        let (m1, m0) = write_digits_fast(min as u8);
        let (s1, s0) = write_digits_fast(sec as u8);
        let out = [
            h1,
            h0,
            58u8,
            m1,
            m0,
            58u8,
            s1,
            s0,
            46u8,
            (micro / 100000 % 10) as u8 + 48u8,
            (micro / 10000 % 10) as u8 + 48u8,
            (micro / 1000 % 10) as u8 + 48u8,
            (micro / 100 % 10) as u8 + 48u8,
            (micro / 10 % 10) as u8 + 48u8,
            (micro % 10) as u8 + 48u8,
        ];
        assert(out@ =~= printable_text(self@ - midnight@));
        out
    }
}

/// The tens and ones characters written for `val`.
fn write_digits_fast(val: u8) -> (r: (u8, u8))
    ensures
        seq![r.0, r.1] == two_digits(val),
{
    let (tens, ones) = (val / 10, val % 10);
    (tens + 48u8, ones + 48u8)
}

pub(crate) proof fn lemma_tdiv_mul_bound(a: int, d: int)
    requires
        d > 0,
    ensures
        a >= 0 ==> 0 <= tdiv(a, d) * d <= a,
        a < 0 ==> a <= tdiv(a, d) * d <= 0,
{
    let n = if a >= 0 { a } else { -a };
    let q = n / d;
    vstd::arithmetic::div_mod::lemma_fundamental_div_mod(n, d);
    vstd::arithmetic::div_mod::lemma_mod_pos_bound(n, d);
    vstd::arithmetic::div_mod::lemma_div_pos_is_pos(n, d);
    assert(0 <= q * d <= n) by (nonlinear_arith)
        requires
            q >= 0,
            d > 0,
            n == d * q + n % d,
            0 <= n % d,
    ;
    if a < 0 {
        assert(tdiv(a, d) == -q);
        assert((-q) * d == -(q * d)) by (nonlinear_arith);
    }
}

/// The four fields of `HHMMSSuu` text hold the decimal values of their digit pairs.
pub proof fn lemma_hhmmssuu_digits(b: Seq<u8>)
    requires
        b.len() == 8,
        forall|j: int| 0 <= j < 8 ==> 48 <= #[trigger] b[j],
    ensures
        hhmmssuu_readable(b),
        hhmmssuu_field(b, 0) == 10 * (b[0] - 48) + (b[1] - 48),
        hhmmssuu_field(b, 1) == 10 * (b[2] - 48) + (b[3] - 48),
        hhmmssuu_field(b, 2) == 10 * (b[4] - 48) + (b[5] - 48),
        hhmmssuu_field(b, 3) == 10 * (b[6] - 48) + (b[7] - 48),
{
    let (b0, b1, b2, b3, b4, b5, b6, b7) = (b[0], b[1], b[2], b[3], b[4], b[5], b[6], b[7]);
    let v = le_u64(b);
    assert(v >= ASCII_ZEROS
        && ((v - ASCII_ZEROS) as u64) & 0xFF == b0 - 48
        && (((v - ASCII_ZEROS) as u64) >> 8u64) & 0xFF == b1 - 48
        && (((v - ASCII_ZEROS) as u64) >> 16u64) & 0xFF == b2 - 48
        && (((v - ASCII_ZEROS) as u64) >> 24u64) & 0xFF == b3 - 48
        && (((v - ASCII_ZEROS) as u64) >> 32u64) & 0xFF == b4 - 48
        && (((v - ASCII_ZEROS) as u64) >> 40u64) & 0xFF == b5 - 48
        && (((v - ASCII_ZEROS) as u64) >> 48u64) & 0xFF == b6 - 48
        && (((v - ASCII_ZEROS) as u64) >> 56u64) & 0xFF == b7 - 48) by (bit_vector)
        requires
            v == (b0 as u64) | ((b1 as u64) << 8u64) | ((b2 as u64) << 16u64) | ((b3 as u64) << 24u64)
                | ((b4 as u64) << 32u64) | ((b5 as u64) << 40u64) | ((b6 as u64) << 48u64) | ((b7 as u64) << 56u64),
            b0 >= 48 && b1 >= 48 && b2 >= 48 && b3 >= 48 && b4 >= 48 && b5 >= 48 && b6 >= 48 && b7 >= 48,
    ;
    let d = (v - ASCII_ZEROS) as u64;
    assert(byte_of(d, 0) == d & 0xFF) by (bit_vector);
}

/// The midnight that starts the local day of `t` in the zone `tz` nanoseconds east of UTC.
pub open spec fn midnight_spec(t: int, tz: int) -> int {
    (t + tz) / (NANOS_PER_DAY as int) * NANOS_PER_DAY - tz
}

/// Truncating division by a day is floor division, one more for a time before the epoch
/// that is not a midnight.
pub(crate) proof fn lemma_floor_day(a: int)
    ensures
        a >= 0 || tdiv(a, NANOS_PER_DAY as int) * NANOS_PER_DAY == a ==> tdiv(a, NANOS_PER_DAY as int)
            == a / (NANOS_PER_DAY as int),
        a < 0 && tdiv(a, NANOS_PER_DAY as int) * NANOS_PER_DAY != a ==> tdiv(a, NANOS_PER_DAY as int)
            - 1 == a / (NANOS_PER_DAY as int),
{
    let d = NANOS_PER_DAY as int;
    vstd::arithmetic::div_mod::lemma_fundamental_div_mod(a, d);
    if a < 0 {
        let n = -a;
        vstd::arithmetic::div_mod::lemma_fundamental_div_mod(n, d);
        let q = n / d;
        let r = n % d;
        let f = a / d;
        if r == 0 {
            vstd::arithmetic::div_mod::lemma_fundamental_div_mod_converse(a, d, -q, 0);
        } else {
            vstd::arithmetic::div_mod::lemma_fundamental_div_mod_converse(a, d, -q - 1, d - r);
        }
    }
}

/// The midnight that `get_midnight_at_timezone` gives starts the local day of `t`: it is a
/// local midnight, not after `t`, and less than a day before it; taking the midnight of that
/// midnight gives it back.
pub proof fn lemma_midnight_starts_day(t: int, tz: int)
    ensures
        midnight_spec(t, tz) <= t < midnight_spec(t, tz) + NANOS_PER_DAY,
        (midnight_spec(t, tz) + tz) % (NANOS_PER_DAY as int) == 0,
        midnight_spec(midnight_spec(t, tz), tz) == midnight_spec(t, tz),
{
    let d = NANOS_PER_DAY as int;
    let a = t + tz;
    let q = a / d;
    vstd::arithmetic::div_mod::lemma_fundamental_div_mod(a, d);
    assert(q * d == d * q) by (nonlinear_arith);
    assert(midnight_spec(t, tz) + tz == q * d);
    vstd::arithmetic::div_mod::lemma_fundamental_div_mod_converse(q * d, d, q, 0);
}

/// Parsing `HHMMSSuu` digit text whose minutes and seconds are under 60, and writing the time
/// of day it denotes as `HHMMSSuu` again, gives the text back.
pub proof fn lemma_hhmmssuu_parse_format(b: Seq<u8>)
    requires
        b.len() == 8,
        forall|j: int| 0 <= j < 8 ==> is_digit(#[trigger] b[j]),
        b[2] <= 53,
        b[4] <= 53,
    ensures
        hhmmssuu_text(
            clock_nanos(
                hhmmssuu_field(b, 0),
                hhmmssuu_field(b, 1),
                hhmmssuu_field(b, 2),
                hhmmssuu_field(b, 3),
            ),
        ) == b,
{
    assert(forall|j: int| 0 <= j < 8 ==> 48 <= #[trigger] b[j]) by {
        assert forall|j: int| 0 <= j < 8 implies 48 <= #[trigger] b[j] by {
            assert(is_digit(b[j]));
        }
    }
    lemma_hhmmssuu_digits(b);
    assert(is_digit(b[0]) && is_digit(b[1]) && is_digit(b[2]) && is_digit(b[3]));
    assert(is_digit(b[4]) && is_digit(b[5]) && is_digit(b[6]) && is_digit(b[7]));
    let h = hhmmssuu_field(b, 0);
    let m = hhmmssuu_field(b, 1);
    let sc = hhmmssuu_field(b, 2);
    let u = hhmmssuu_field(b, 3);
    let r3 = u * NANOS_PER_CENT;
    let r2 = sc * NANOS_PER_SEC + r3;
    let r1 = m * NANOS_PER_MIN + r2;
    let dn = h * NANOS_PER_HOUR + r1;
    assert(dn == clock_nanos(h, m, sc, u));
    vstd::arithmetic::div_mod::lemma_fundamental_div_mod_converse(dn, NANOS_PER_HOUR as int, h, r1);
    vstd::arithmetic::div_mod::lemma_fundamental_div_mod_converse(r1, NANOS_PER_MIN as int, m, r2);
    vstd::arithmetic::div_mod::lemma_fundamental_div_mod_converse(dn, NANOS_PER_MIN as int, h * 60 + m, r2);
    vstd::arithmetic::div_mod::lemma_fundamental_div_mod_converse(r2, NANOS_PER_SEC as int, sc, r3);
    vstd::arithmetic::div_mod::lemma_fundamental_div_mod_converse(dn, NANOS_PER_SEC as int, h * 3600 + m * 60 + sc, r3);
    vstd::arithmetic::div_mod::lemma_fundamental_div_mod_converse(r3, NANOS_PER_CENT as int, u, 0);
    assert(clock_hour(dn) == h);
    assert(clock_min(dn) == m);
    assert(clock_sec(dn) == sc);
    assert(clock_cent(dn) == u);
    vstd::arithmetic::div_mod::lemma_fundamental_div_mod_converse(h, 10, b[0] - 48, b[1] - 48);
    vstd::arithmetic::div_mod::lemma_fundamental_div_mod_converse(m, 10, b[2] - 48, b[3] - 48);
    vstd::arithmetic::div_mod::lemma_fundamental_div_mod_converse(sc, 10, b[4] - 48, b[5] - 48);
    vstd::arithmetic::div_mod::lemma_fundamental_div_mod_converse(u, 10, b[6] - 48, b[7] - 48);
    assert(hhmmssuu_text(dn) =~= b);
}

/// The `HHMMSSuu` text of a time of day under 100 hours is all digits, and parsing it gives
/// back its hours, minutes, seconds and centiseconds: the time of day truncated to the
/// centisecond.
pub proof fn lemma_hhmmssuu_round_trip(dn: int)
    requires
        0 <= dn < 100 * NANOS_PER_HOUR,
    ensures
        forall|j: int| 0 <= j < 8 ==> is_digit(#[trigger] hhmmssuu_text(dn)[j]),
        hhmmssuu_readable(hhmmssuu_text(dn)),
        hhmmssuu_field(hhmmssuu_text(dn), 0) == clock_hour(dn),
        hhmmssuu_field(hhmmssuu_text(dn), 1) == clock_min(dn),
        hhmmssuu_field(hhmmssuu_text(dn), 2) == clock_sec(dn),
        hhmmssuu_field(hhmmssuu_text(dn), 3) == clock_cent(dn),
        clock_nanos(clock_hour(dn), clock_min(dn), clock_sec(dn), clock_cent(dn)) == dn - dn
            % (NANOS_PER_CENT as int),
{
    let hh = NANOS_PER_HOUR as int;
    let mm = NANOS_PER_MIN as int;
    let ss = NANOS_PER_SEC as int;
    let cc = NANOS_PER_CENT as int;
    let h = dn / hh;
    let r1 = dn % hh;
    let m = r1 / mm;
    let r2 = r1 % mm;
    let s = r2 / ss;
    let r3 = r2 % ss;
    let c = r3 / cc;
    let r4 = r3 % cc;
    vstd::arithmetic::div_mod::lemma_fundamental_div_mod(dn, hh);
    vstd::arithmetic::div_mod::lemma_mod_pos_bound(dn, hh);
    vstd::arithmetic::div_mod::lemma_fundamental_div_mod(r1, mm);
    vstd::arithmetic::div_mod::lemma_mod_pos_bound(r1, mm);
    vstd::arithmetic::div_mod::lemma_fundamental_div_mod(r2, ss);
    vstd::arithmetic::div_mod::lemma_mod_pos_bound(r2, ss);
    vstd::arithmetic::div_mod::lemma_fundamental_div_mod(r3, cc);
    vstd::arithmetic::div_mod::lemma_mod_pos_bound(r3, cc);
    vstd::arithmetic::div_mod::lemma_div_pos_is_pos(dn, hh);
    vstd::arithmetic::div_mod::lemma_div_pos_is_pos(r1, mm);
    vstd::arithmetic::div_mod::lemma_div_pos_is_pos(r2, ss);
    vstd::arithmetic::div_mod::lemma_div_pos_is_pos(r3, cc);
    // dn % mm and dn % ss are the remainders r2 and r3
    vstd::arithmetic::div_mod::lemma_mod_mod(dn, mm, 60);
    vstd::arithmetic::div_mod::lemma_mod_mod(dn, ss, 60);
    vstd::arithmetic::div_mod::lemma_mod_mod(dn, ss, 3600);
    vstd::arithmetic::div_mod::lemma_mod_mod(dn, cc, 100);
    vstd::arithmetic::div_mod::lemma_mod_mod(dn, cc, 6000);
    vstd::arithmetic::div_mod::lemma_mod_mod(dn, cc, 360000);
    assert(mm * 60 == hh && ss * 60 == mm && ss * 3600 == hh && cc * 100 == ss && cc * 6000
        == mm && cc * 360000 == hh);
    assert(dn % mm == r2);
    assert(dn % ss == r3);
    assert(dn % cc == r4);
    assert(h < 100) by (nonlinear_arith)
        requires
            dn == hh * h + r1,
            0 <= r1,
            dn < 100 * hh,
            hh > 0,
    ;
    assert(m < 60) by (nonlinear_arith)
        requires
            r1 == mm * m + r2,
            0 <= r2,
            r1 < hh,
            hh == mm * 60,
            mm > 0,
    ;
    assert(s < 60) by (nonlinear_arith)
        requires
            r2 == ss * s + r3,
            0 <= r3,
            r2 < mm,
            mm == ss * 60,
            ss > 0,
    ;
    assert(c < 100) by (nonlinear_arith)
        requires
            r3 == cc * c + r4,
            0 <= r4,
            r3 < ss,
            ss == cc * 100,
            cc > 0,
    ;
    assert(clock_hour(dn) == h && clock_min(dn) == m && clock_sec(dn) == s && clock_cent(dn)
        == c);
    let text = hhmmssuu_text(dn);
    assert(text =~= two_digits(h as u8) + two_digits(m as u8) + two_digits(s as u8) + two_digits(
        c as u8,
    ));
    assert forall|j: int| 0 <= j < 8 implies is_digit(#[trigger] text[j]) by {}
    lemma_hhmmssuu_digits(text);
    assert(clock_nanos(h, m, s, c) == dn - r4) by (nonlinear_arith)
        requires
            dn == hh * h + r1,
            r1 == mm * m + r2,
            r2 == ss * s + r3,
            r3 == cc * c + r4,
            hh == 3600 * ss,
            mm == 60 * ss,
            clock_nanos(h, m, s, c) == h * hh + m * mm + s * ss + c * cc,
    ;
}

/// Each `HHMMSSuu` field is two bytes read as tens and ones, so at most `255 * 10 + 255`.
pub proof fn lemma_hhmmssuu_field_bound(b: Seq<u8>, i: int)
    ensures
        0 <= hhmmssuu_field(b, i) <= 2805,
{
    let d = lowered_by_zeros(b);
    let k1 = (2 * i) as u64;
    let k2 = (2 * i + 1) as u64;
    assert((d >> (8 * k1)) & 0xFF <= 0xFF) by (bit_vector);
    assert((d >> (8 * k2)) & 0xFF <= 0xFF) by (bit_vector);
}

} // verus!
