//! The fixed-width text line printed for a quote.
use super::{accept_time_text, Quote, QuoteView};
use crate::time::{
    hhmmssuu_text, in_i64, printable_text, NANOS_PER_CENT, NANOS_PER_HOUR, NANOS_PER_MIN,
    NANOS_PER_SEC,
};
use crate::QUOTE_PACKET_SIZE;
use vstd::prelude::*;

verus! {

/// The length of a printed quote line, newline included.
pub const OUTPUT_LEN: usize = 185;

/// The length of a line in the compact `HHMMSSuu` layout, newline included.
pub const COMPACT_LINE_LEN: usize = 171;

/// The compact line of a quote: its capture time as `HHMMSSuu` from its midnight, its accept
/// time field as it stands, the issue code, then the ten book levels as they stand in the
/// payload.
pub open spec fn compact_line(pkt_time: int, midnight: int, data: Seq<u8>) -> Seq<u8> {
    hhmmssuu_text(pkt_time - midnight) + seq![32u8] + accept_time_text(data) + seq![32u8]
        + data.subrange(5, 17) + seq![32u8] + book_text(data, false, 10)
}

/// `s` without its leading ASCII `'0'`s, keeping at least its last character.
pub open spec fn trim_zeros(s: Seq<u8>) -> Seq<u8>
    decreases s.len(),
{
    if s.len() > 1 && s[0] == 48 {
        trim_zeros(s.drop_first())
    } else {
        s
    }
}

/// `n` ASCII spaces.
pub open spec fn spaces(n: int) -> Seq<u8> {
    Seq::new(n as nat, |_i: int| 32u8)
}

/// The 13-column `quantity@price` field. Trimmed, both numbers lose their leading zeros and
/// the text is right-aligned with spaces; untrimmed, the raw 7 + 1 + 5 characters.
pub open spec fn pair_text(quantity: Seq<u8>, price: Seq<u8>, trim: bool) -> Seq<u8> {
    if trim {
        let body = trim_zeros(quantity) + seq![64u8] + trim_zeros(price);
        spaces(13 - body.len()) + body
    } else {
        quantity + seq![64u8] + price
    }
}

/// Where book level `j` (0..10) of a quote payload starts: the five bids from the fifth best
/// to the best, then the five asks from the best to the fifth best. Each level is a 5-byte
/// price followed by a 7-byte quantity.
pub open spec fn level_start(j: int) -> int {
    if j < 5 {
        29 + 12 * (4 - j)
    } else {
        96 + 12 * (j - 5)
    }
}

pub open spec fn level_price(data: Seq<u8>, j: int) -> Seq<u8> {
    data.subrange(level_start(j), level_start(j) + 5)
}

pub open spec fn level_quantity(data: Seq<u8>, j: int) -> Seq<u8> {
    data.subrange(level_start(j) + 5, level_start(j) + 12)
}

/// The `quantity@price` fields of the first `n` book levels, each followed by a space, or by
/// a newline after the last level.
pub open spec fn book_text(data: Seq<u8>, trim: bool, n: int) -> Seq<u8>
    decreases n,
{
    if n <= 0 {
        Seq::empty()
    } else {
        book_text(data, trim, n - 1) + pair_text(
            level_quantity(data, n - 1),
            level_price(data, n - 1),
            trim,
        ) + seq![if n == 10 { 10u8 } else { 32u8 }]
    }
}

/// The printed line of a quote: capture time and accept time as `HH:MM:SS.uuuuuu` from the
/// quote's midnight, the 12-character issue code, then the ten book levels.
pub open spec fn quote_line(q: QuoteView, trim: bool) -> Seq<u8> {
    printable_text(q.pkt_time - q.midnight_at_timezone) + seq![32u8] + printable_text(
        q.accept_time - q.midnight_at_timezone,
    ) + seq![32u8] + q.data.subrange(5, 17) + seq![32u8] + book_text(q.data, trim, 10)
}

/// Both times of the quote can be told from its midnight without overflow.
pub open spec fn line_printable(q: QuoteView) -> bool {
    in_i64(q.pkt_time - q.midnight_at_timezone) && in_i64(q.accept_time - q.midnight_at_timezone)
}

/// Copies `src[from..from + n]` to `line[at..at + n]`.
fn copy_into<const N: usize>(line: &mut [u8; N], at: usize, src: &[u8], from: usize, n: usize)
    requires
        at + n <= N,
        from + n <= src@.len(),
    ensures
        forall|i: int| at <= i < at + n ==> final(line)@[i] == src@[from + i - at],
        forall|i: int| 0 <= i < N && !(at <= i < at + n) ==> final(line)@[i] == old(line)@[i],
{
    let mut k: usize = 0;
    while k < n
        invariant
            k <= n,
            at + n <= N,
            from + n <= src.len(),
            forall|i: int| at <= i < at + k ==> line@[i] == src@[from + i - at],
            forall|i: int| 0 <= i < N && !(at <= i < at + k) ==> line@[i] == old(line)@[i],
        decreases n - k,
    {
        line[at + k] = src[from + k];
        k = k + 1;
    }
}

/// The number of leading `'0'`s of `data[start..start + len]` that trimming drops.
fn trimmed_zeros(data: &[u8], start: usize, len: usize) -> (z: usize)
    requires
        len >= 1,
        start + len <= data@.len(),
    ensures
        z < len,
        trim_zeros(data@.subrange(start as int, start + len)) == data@.subrange(start + z, start + len),
{
    let ghost s = data@.subrange(start as int, start + len);
    let mut z: usize = 0;
    while z + 1 < len && data[start + z] == 48
        invariant
            z < len,
            start + len <= data.len(),
            s == data@.subrange(start as int, start + len),
            trim_zeros(s) == trim_zeros(data@.subrange(start + z, start + len)),
        decreases len - z,
    {
        let ghost t = data@.subrange(start + z, start + len);
        assert(t.drop_first() =~= data@.subrange(start + z + 1, start + len));
        z = z + 1;
    }
    z
}

/// Writes book level `j` of `data` into the 13 columns of `line` from `at`, which must hold
/// spaces there.
fn write_level<const N: usize>(
    data: &[u8; QUOTE_PACKET_SIZE],
    line: &mut [u8; N],
    at: usize,
    j: usize,
    trim: bool,
)
    requires
        j < 10,
        at + 13 <= N,
        forall|i: int| at <= i < at + 13 ==> old(line)@[i] == 32u8,
    ensures
        final(line)@.subrange(at as int, at + 13) == pair_text(
            level_quantity(data@, j as int),
            level_price(data@, j as int),
            trim,
        ),
        forall|i: int| 0 <= i < N && !(at <= i < at + 13) ==> final(line)@[i] == old(line)@[i],
{
    let start = if j < 5 {
        29 + 12 * (4 - j)
    } else {
        96 + 12 * (j - 5)
    };
    let bytes = data.as_slice();
    assert(bytes@ == data@);
    let ghost quantity = level_quantity(data@, j as int);
    let ghost price = level_price(data@, j as int);
    if trim {
        let qz = trimmed_zeros(bytes, start + 5, 7);
        let pz = trimmed_zeros(bytes, start, 5);
        let lead = qz + pz;
        copy_into(line, at + lead, bytes, start + 5 + qz, 7 - qz);
        line[at + pz + 7] = 64;
        copy_into(line, at + pz + 8, bytes, start + pz, 5 - pz);
        proof {
            let body = trim_zeros(quantity) + seq![64u8] + trim_zeros(price);
            assert(quantity =~= bytes@.subrange(start + 5, start + 12));
            assert(price =~= bytes@.subrange(start as int, start + 5));
            assert(body.len() == 13 - lead);
            assert(line@.subrange(at as int, at + 13) =~= spaces(13 - body.len()) + body);
        }
    } else {
        copy_into(line, at, bytes, start + 5, 7);
        line[at + 7] = 64;
        copy_into(line, at + 8, bytes, start, 5);
        proof {
            assert(line@.subrange(at as int, at + 13) =~= quantity + seq![64u8] + price);
        }
    }
}

/// Writes the ten book levels of `data` into `line` from `at`, which must hold spaces from
/// there to its end: each `quantity@price` field followed by a space, the last by a newline.
fn write_book<const N: usize>(data: &[u8; QUOTE_PACKET_SIZE], line: &mut [u8; N], at: usize, trim: bool)
    requires
        at + 140 == N,
        forall|i: int| at <= i < N ==> old(line)@[i] == 32u8,
    ensures
        final(line)@.subrange(at as int, N as int) == book_text(data@, trim, 10),
        forall|i: int| 0 <= i < at ==> final(line)@[i] == old(line)@[i],
{
    let mut j: usize = 0;
    while j < 10
        invariant
            j <= 10,
            at + 140 == N,
            line@.subrange(at as int, at + 14 * j) == book_text(data@, trim, j as int),
            forall|i: int| at + 14 * j <= i < N ==> line@[i] == 32u8,
            forall|i: int| 0 <= i < at ==> line@[i] == old(line)@[i],
        decreases 10 - j,
    {
        let ghost before = line@;
        write_level(data, line, at + 14 * j, j, trim);
        if j == 9 {
            line[at + 139] = 10;
        }
        proof {
            let pair = pair_text(
                level_quantity(data@, j as int),
                level_price(data@, j as int),
                trim,
            );
            let sep = seq![if j + 1 == 10 { 10u8 } else { 32u8 }];
            assert(book_text(data@, trim, j + 1) == book_text(data@, trim, j as int) + pair + sep);
            assert(line@.subrange(at as int, at + 14 * (j + 1)) =~= before.subrange(
                at as int,
                at + 14 * j,
            ) + line@.subrange(at + 14 * j, at + 14 * j + 13) + sep);
        }
        j = j + 1;
    }
}

impl<'a> Quote<'a> {
    // The `trim` flag chooses how the quantity@price strings are formatted.
    fn to_line_bytes_base(&self, trim: bool) -> (line: [u8; OUTPUT_LEN])
        requires
            line_printable(self@),
        ensures
            line@ == quote_line(self@, trim),
    {
        let mut line = [32u8; OUTPUT_LEN];
        let midnight = self.midnight_at_timezone;
        let pkt_text = self.pkt_time.as_printable_time_string(midnight);
        copy_into(&mut line, 0, pkt_text.as_slice(), 0, 15);
        let accept_text = self.accept_time.as_printable_time_string(midnight);
        copy_into(&mut line, 16, accept_text.as_slice(), 0, 15);
        copy_into(&mut line, 32, self.data.as_slice(), 5, 12);
        let ghost header = printable_text(self.pkt_time@ - midnight@) + seq![32u8] + printable_text(
            self.accept_time@ - midnight@,
        ) + seq![32u8] + self.data@.subrange(5, 17) + seq![32u8];
        assert(line@.subrange(0, 45) =~= header);
        write_book(self.data, &mut line, 45, trim);
        assert(line@ =~= line@.subrange(0, 45) + line@.subrange(45, 185));
        line
    }

    /// The printed line of this quote, with the leading zeros of each quantity and price
    /// dropped and each `quantity@price` right-aligned.
    pub fn to_line_bytes(&self) -> (line: [u8; OUTPUT_LEN])
        requires
            line_printable(self@),
        ensures
            line@ == quote_line(self@, true),
    {
        self.to_line_bytes_base(true)
    }

    /// The printed line of this quote with quantities and prices as they stand in the
    /// payload, leading zeros included.
    pub fn to_line_bytes_fast(&self) -> (line: [u8; OUTPUT_LEN])
        requires
            line_printable(self@),
        ensures
            line@ == quote_line(self@, false),
    {
        self.to_line_bytes_base(false)
    }
}

impl<'a> crate::sequenced::QuotePacket<'a> {
    /// Writes the compact line of this quote into `line_buf`.
    pub fn write_line(&self, line_buf: &mut [u8; COMPACT_LINE_LEN])
        requires
            in_i64(self.pkt_time@ - self.midnight_at_timezone@),
        ensures
            final(line_buf)@ == compact_line(
                self.pkt_time@ as int,
                self.midnight_at_timezone@ as int,
                self.data@,
            ),
    {
        let mut line = [32u8; COMPACT_LINE_LEN];
        let pkt_text = self.pkt_time.format_hhmmssuu(self.midnight_at_timezone);
        copy_into(&mut line, 0, pkt_text.as_slice(), 0, 8);
        copy_into(&mut line, 9, self.data.as_slice(), 206, 8);
        copy_into(&mut line, 18, self.data.as_slice(), 5, 12);
        let ghost header = hhmmssuu_text(self.pkt_time@ - self.midnight_at_timezone@) + seq![32u8]
            + accept_time_text(self.data@) + seq![32u8] + self.data@.subrange(5, 17) + seq![32u8];
        assert(line@.subrange(0, 31) =~= header);
        write_book(self.data, &mut line, 31, false);
        assert(line@ =~= line@.subrange(0, 31) + line@.subrange(31, 171));
        *line_buf = line;
    }
}

/// Trimming leading zeros leaves at most the text it was given, and at least one character of
/// a nonempty text.
proof fn lemma_trim_zeros_len(s: Seq<u8>)
    ensures
        trim_zeros(s).len() <= s.len(),
        s.len() >= 1 ==> trim_zeros(s).len() >= 1,
    decreases s.len(),
{
    if s.len() > 1 && s[0] == 48 {
        lemma_trim_zeros_len(s.drop_first());
    }
}

/// Each `quantity@price` field of a level of a quote payload is 13 characters long.
proof fn lemma_pair_text_len(data: Seq<u8>, j: int, trim: bool)
    requires
        data.len() == QUOTE_PACKET_SIZE,
        0 <= j < 10,
    ensures
        pair_text(level_quantity(data, j), level_price(data, j), trim).len() == 13,
{
    lemma_trim_zeros_len(level_quantity(data, j));
    lemma_trim_zeros_len(level_price(data, j));
}

/// The book text of the first `n` levels is 14 characters per level: the level's
/// `quantity@price` field, then a space, or a newline after the tenth level.
proof fn lemma_book_text(data: Seq<u8>, trim: bool, n: int)
    requires
        data.len() == QUOTE_PACKET_SIZE,
        0 <= n <= 10,
    ensures
        book_text(data, trim, n).len() == 14 * n,
        forall|j: int|
            0 <= j < n ==> #[trigger] book_text(data, trim, n).subrange(14 * j, 14 * j + 13)
                == pair_text(level_quantity(data, j), level_price(data, j), trim)
                && book_text(data, trim, n)[14 * j + 13] == (if j == 9 {
                10u8
            } else {
                32u8
            }),
    decreases n,
{
    if n > 0 {
        lemma_book_text(data, trim, n - 1);
        lemma_pair_text_len(data, n - 1, trim);
        let prev = book_text(data, trim, n - 1);
        let cur = book_text(data, trim, n);
        assert forall|j: int| 0 <= j < n implies #[trigger] cur.subrange(14 * j, 14 * j + 13)
            == pair_text(level_quantity(data, j), level_price(data, j), trim) && cur[14 * j + 13]
            == (if j == 9 {
            10u8
        } else {
            32u8
        }) by {
            if j < n - 1 {
                assert(cur.subrange(14 * j, 14 * j + 13) =~= prev.subrange(14 * j, 14 * j + 13));
                assert(cur[14 * j + 13] == prev[14 * j + 13]);
            } else {
                assert(cur.subrange(14 * j, 14 * j + 13) =~= pair_text(
                    level_quantity(data, j),
                    level_price(data, j),
                    trim,
                ));
            }
        }
    }
}

/// The trimmed and the untrimmed line of a quote differ only in their `quantity@price`
/// fields: both are 185 characters, they share the two times, the issue code and every
/// separator, and field `j` of each is the trimmed or the untrimmed text of book level `j`.
pub proof fn lemma_lines_differ_in_book_only(q: QuoteView)
    requires
        q.data.len() == QUOTE_PACKET_SIZE,
    ensures
        quote_line(q, true).len() == OUTPUT_LEN,
        quote_line(q, false).len() == OUTPUT_LEN,
        quote_line(q, true).subrange(0, 45) == quote_line(q, false).subrange(0, 45),
        forall|j: int|
            0 <= j < 10 ==> {
                &&& #[trigger] quote_line(q, true).subrange(45 + 14 * j, 58 + 14 * j) == pair_text(
                    level_quantity(q.data, j),
                    level_price(q.data, j),
                    true,
                )
                &&& quote_line(q, false).subrange(45 + 14 * j, 58 + 14 * j) == pair_text(
                    level_quantity(q.data, j),
                    level_price(q.data, j),
                    false,
                )
                &&& quote_line(q, true)[58 + 14 * j] == quote_line(q, false)[58 + 14 * j]
            },
{
    lemma_book_text(q.data, true, 10);
    lemma_book_text(q.data, false, 10);
    let head = printable_text(q.pkt_time - q.midnight_at_timezone) + seq![32u8] + printable_text(
        q.accept_time - q.midnight_at_timezone,
    ) + seq![32u8] + q.data.subrange(5, 17) + seq![32u8];
    assert(head.len() == 45);
    let bt = book_text(q.data, true, 10);
    let bf = book_text(q.data, false, 10);
    assert(quote_line(q, true) == head + bt);
    assert(quote_line(q, false) == head + bf);
    assert((head + bt).subrange(0, 45) =~= head);
    assert((head + bf).subrange(0, 45) =~= head);
    assert forall|j: int| 0 <= j < 10 implies {
        &&& #[trigger] quote_line(q, true).subrange(45 + 14 * j, 58 + 14 * j) == pair_text(
            level_quantity(q.data, j),
            level_price(q.data, j),
            true,
        )
        &&& quote_line(q, false).subrange(45 + 14 * j, 58 + 14 * j) == pair_text(
            level_quantity(q.data, j),
            level_price(q.data, j),
            false,
        )
        &&& quote_line(q, true)[58 + 14 * j] == quote_line(q, false)[58 + 14 * j]
    } by {
        assert(bt.subrange(14 * j, 14 * j + 13) == pair_text(
            level_quantity(q.data, j),
            level_price(q.data, j),
            true,
        ));
        assert(bf.subrange(14 * j, 14 * j + 13) == pair_text(
            level_quantity(q.data, j),
            level_price(q.data, j),
            false,
        ));
        assert((head + bt).subrange(45 + 14 * j, 58 + 14 * j) =~= bt.subrange(14 * j, 14 * j + 13));
        assert((head + bf).subrange(45 + 14 * j, 58 + 14 * j) =~= bf.subrange(14 * j, 14 * j + 13));
        assert((head + bt)[58 + 14 * j] == bt[14 * j + 13]);
        assert((head + bf)[58 + 14 * j] == bf[14 * j + 13]);
    }
}

/// The book fields of a printed line follow the KRX payload layout: from column 45, 14
/// columns each, come the bids of rank 5 down to 1 and then the asks of rank 1 up to 5. The
/// bid of rank `r` has its 5-byte price at byte 29 + 12 (r - 1) of the payload and its 7-byte
/// quantity right after it; the ask of rank `r` has its price at byte 96 + 12 (r - 1) and its
/// quantity right after it.
pub proof fn lemma_line_book_layout(q: QuoteView, trim: bool, r: int)
    requires
        q.data.len() == QUOTE_PACKET_SIZE,
        1 <= r <= 5,
    ensures
        quote_line(q, trim).subrange(45 + 14 * (5 - r), 58 + 14 * (5 - r)) == pair_text(
            q.data.subrange(34 + 12 * (r - 1), 41 + 12 * (r - 1)),
            q.data.subrange(29 + 12 * (r - 1), 34 + 12 * (r - 1)),
            trim,
        ),
        quote_line(q, trim).subrange(45 + 14 * (4 + r), 58 + 14 * (4 + r)) == pair_text(
            q.data.subrange(101 + 12 * (r - 1), 108 + 12 * (r - 1)),
            q.data.subrange(96 + 12 * (r - 1), 101 + 12 * (r - 1)),
            trim,
        ),
{
    lemma_lines_differ_in_book_only(q);
    let jb = 5 - r;
    let ja = 4 + r;
    if trim {
        assert(quote_line(q, true).subrange(45 + 14 * jb, 58 + 14 * jb) == pair_text(
            level_quantity(q.data, jb),
            level_price(q.data, jb),
            true,
        ));
        assert(quote_line(q, true).subrange(45 + 14 * ja, 58 + 14 * ja) == pair_text(
            level_quantity(q.data, ja),
            level_price(q.data, ja),
            true,
        ));
    } else {
        assert(quote_line(q, false).subrange(45 + 14 * jb, 58 + 14 * jb) == pair_text(
            level_quantity(q.data, jb),
            level_price(q.data, jb),
            false,
        ));
        assert(quote_line(q, false).subrange(45 + 14 * ja, 58 + 14 * ja) == pair_text(
            level_quantity(q.data, ja),
            level_price(q.data, ja),
            false,
        ));
    }
}

/// The compact line of a quote captured `pkt_time - midnight` nanoseconds (under 100 hours)
/// after its midnight: the capture time's hours, minutes, seconds and centiseconds as two
/// decimal digits each, a space, the accept time field (payload bytes 206..214) as it stands,
/// a space, the issue code (bytes 5..17), a space, then the book fields; 171 characters.
pub proof fn lemma_compact_line_header(pkt_time: int, midnight: int, data: Seq<u8>)
    requires
        data.len() == QUOTE_PACKET_SIZE,
        0 <= pkt_time - midnight < 100 * NANOS_PER_HOUR,
    ensures
        compact_line(pkt_time, midnight, data).len() == COMPACT_LINE_LEN,
        compact_line(pkt_time, midnight, data)[0] == 48 + (pkt_time - midnight) / (
        NANOS_PER_HOUR as int) / 10,
        compact_line(pkt_time, midnight, data)[1] == 48 + (pkt_time - midnight) / (
        NANOS_PER_HOUR as int) % 10,
        compact_line(pkt_time, midnight, data)[2] == 48 + (pkt_time - midnight) % (
        NANOS_PER_HOUR as int) / (NANOS_PER_MIN as int) / 10,
        compact_line(pkt_time, midnight, data)[3] == 48 + (pkt_time - midnight) % (
        NANOS_PER_HOUR as int) / (NANOS_PER_MIN as int) % 10,
        compact_line(pkt_time, midnight, data)[4] == 48 + (pkt_time - midnight) % (
        NANOS_PER_MIN as int) / (NANOS_PER_SEC as int) / 10,
        compact_line(pkt_time, midnight, data)[5] == 48 + (pkt_time - midnight) % (
        NANOS_PER_MIN as int) / (NANOS_PER_SEC as int) % 10,
        compact_line(pkt_time, midnight, data)[6] == 48 + (pkt_time - midnight) % (
        NANOS_PER_SEC as int) / (NANOS_PER_CENT as int) / 10,
        compact_line(pkt_time, midnight, data)[7] == 48 + (pkt_time - midnight) % (
        NANOS_PER_SEC as int) / (NANOS_PER_CENT as int) % 10,
        compact_line(pkt_time, midnight, data)[8] == 32,
        compact_line(pkt_time, midnight, data).subrange(9, 17) == data.subrange(206, 214),
        compact_line(pkt_time, midnight, data)[17] == 32,
        compact_line(pkt_time, midnight, data).subrange(18, 30) == data.subrange(5, 17),
        compact_line(pkt_time, midnight, data)[30] == 32,
{
    let dn = pkt_time - midnight;
    let hh = NANOS_PER_HOUR as int;
    let mm = NANOS_PER_MIN as int;
    let ss = NANOS_PER_SEC as int;
    let cc = NANOS_PER_CENT as int;
    assert(0 <= dn / hh < 100) by (nonlinear_arith)
        requires
            0 <= dn < 100 * hh,
            hh > 0,
    ;
    assert(0 <= dn % hh / mm < 60) by (nonlinear_arith)
        requires
            0 <= dn,
            hh == 60 * mm,
            mm > 0,
    ;
    assert(0 <= dn % mm / ss < 60) by (nonlinear_arith)
        requires
            0 <= dn,
            mm == 60 * ss,
            ss > 0,
    ;
    assert(0 <= dn % ss / cc < 100) by (nonlinear_arith)
        requires
            0 <= dn,
            ss == 100 * cc,
            cc > 0,
    ;
    let t = hhmmssuu_text(dn);
    assert(t.len() == 8);
    lemma_book_text(data, false, 10);
    let line = compact_line(pkt_time, midnight, data);
    let head = t + seq![32u8] + accept_time_text(data) + seq![32u8] + data.subrange(5, 17)
        + seq![32u8];
    assert(line == head + book_text(data, false, 10));
    assert(head.len() == 31);
    assert(line.subrange(9, 17) =~= data.subrange(206, 214));
    assert(line.subrange(18, 30) =~= data.subrange(5, 17));
}

/// The book fields of the compact line stand as they are in the payload, `quantity@price`,
/// in the KRX layout: from column 31, 14 columns each (the field and a space, or a newline
/// after the last), the bids of rank 5 down to 1, then the asks of rank 1 up to 5, with the
/// bid of rank `r` priced at payload bytes 29 + 12 (r - 1) .. 34 + 12 (r - 1) and its
/// quantity in the next 7 bytes, and the ask of rank `r` priced at 96 + 12 (r - 1) ..
/// 101 + 12 (r - 1) with its quantity in the next 7 bytes.
pub proof fn lemma_compact_line_book(pkt_time: int, midnight: int, data: Seq<u8>, r: int)
    requires
        data.len() == QUOTE_PACKET_SIZE,
        0 <= pkt_time - midnight < 100 * NANOS_PER_HOUR,
        1 <= r <= 5,
    ensures
        compact_line(pkt_time, midnight, data).subrange(31 + 14 * (5 - r), 44 + 14 * (5 - r))
            == data.subrange(34 + 12 * (r - 1), 41 + 12 * (r - 1)) + seq![64u8] + data.subrange(
            29 + 12 * (r - 1),
            34 + 12 * (r - 1),
        ),
        compact_line(pkt_time, midnight, data)[44 + 14 * (5 - r)] == 32,
        compact_line(pkt_time, midnight, data).subrange(31 + 14 * (4 + r), 44 + 14 * (4 + r))
            == data.subrange(101 + 12 * (r - 1), 108 + 12 * (r - 1)) + seq![64u8]
            + data.subrange(96 + 12 * (r - 1), 101 + 12 * (r - 1)),
        compact_line(pkt_time, midnight, data)[44 + 14 * (4 + r)] == if r == 5 {
            10u8
        } else {
            32u8
        },
{
    let dn = pkt_time - midnight;
    let t = hhmmssuu_text(dn);
    assert(t.len() == 8);
    lemma_book_text(data, false, 10);
    let line = compact_line(pkt_time, midnight, data);
    let head = t + seq![32u8] + accept_time_text(data) + seq![32u8] + data.subrange(5, 17)
        + seq![32u8];
    let book = book_text(data, false, 10);
    assert(line == head + book);
    assert(head.len() == 31);
    let jb = 5 - r;
    let ja = 4 + r;
    assert(book.subrange(14 * jb, 14 * jb + 13) == pair_text(
        level_quantity(data, jb),
        level_price(data, jb),
        false,
    ));
    assert(book.subrange(14 * ja, 14 * ja + 13) == pair_text(
        level_quantity(data, ja),
        level_price(data, ja),
        false,
    ));
    assert(line.subrange(31 + 14 * jb, 44 + 14 * jb) =~= book.subrange(14 * jb, 14 * jb + 13));
    assert(line.subrange(31 + 14 * ja, 44 + 14 * ja) =~= book.subrange(14 * ja, 14 * ja + 13));
    assert(line[44 + 14 * jb] == book[14 * jb + 13]);
    assert(line[44 + 14 * ja] == book[14 * ja + 13]);
}

/// Trimming drops the leading `'0'`s of a nonempty text but keeps its last character: it
/// leaves the text from the first character that is not `'0'`, or its last character when
/// all the others are `'0'`.
proof fn lemma_trim_zeros_skip(s: Seq<u8>) -> (k: int)
    requires
        s.len() >= 1,
    ensures
        0 <= k < s.len(),
        trim_zeros(s) == s.skip(k),
        forall|i: int| 0 <= i < k ==> s[i] == 48,
        k < s.len() - 1 ==> s[k] != 48,
    decreases s.len(),
{
    if s.len() > 1 && s[0] == 48 {
        let k1 = lemma_trim_zeros_skip(s.drop_first());
        assert(s.drop_first().skip(k1) =~= s.skip(k1 + 1));
        assert forall|i: int| 0 <= i < k1 + 1 implies s[i] == 48 by {
            if i > 0 {
                assert(s[i] == s.drop_first()[i - 1]);
            }
        }
        assert(k1 + 1 < s.len() - 1 ==> s[k1 + 1] == s.drop_first()[k1]);
        k1 + 1
    } else {
        assert(s.skip(0) =~= s);
        0
    }
}

/// A `quantity@price` field takes 13 columns. Untrimmed it is the 7-byte quantity, `'@'` and
/// the 5-byte price as they stand. Trimmed, each number loses its leading `'0'`s (a number of
/// only `'0'`s keeps its last one), and the text is right-aligned with as many spaces as
/// characters were dropped.
pub proof fn lemma_pair_text_fields(quantity: Seq<u8>, price: Seq<u8>)
    requires
        quantity.len() == 7,
        price.len() == 5,
    ensures
        pair_text(quantity, price, false) == quantity + seq![64u8] + price,
        exists|kq: int, kp: int|
            #![trigger quantity.skip(kq), price.skip(kp)]
            {
                &&& 0 <= kq < 7
                &&& 0 <= kp < 5
                &&& forall|i: int| 0 <= i < kq ==> quantity[i] == 48
                &&& kq < 6 ==> quantity[kq] != 48
                &&& forall|i: int| 0 <= i < kp ==> price[i] == 48
                &&& kp < 4 ==> price[kp] != 48
                &&& pair_text(quantity, price, true) == Seq::new(
                    (kq + kp) as nat,
                    |_i: int| 32u8,
                ) + quantity.skip(kq) + seq![64u8] + price.skip(kp)
            },
{
    let kq = lemma_trim_zeros_skip(quantity);
    let kp = lemma_trim_zeros_skip(price);
    let body = trim_zeros(quantity) + seq![64u8] + trim_zeros(price);
    assert(body.len() == 13 - kq - kp);
    assert(spaces(13 - body.len()) =~= Seq::new((kq + kp) as nat, |_i: int| 32u8));
    assert(pair_text(quantity, price, true) == Seq::new((kq + kp) as nat, |_i: int| 32u8)
        + quantity.skip(kq) + seq![64u8] + price.skip(kp));
}

/// `s` shows `dn` nanoseconds after midnight as `HH:MM:SS.uuuuuu`: two decimal digits each of
/// the hours, minutes and seconds, separated by `':'`, then `'.'` and six decimal digits of
/// the microseconds.
pub open spec fn shows_clock(s: Seq<u8>, dn: int) -> bool {
    let h = dn / NANOS_PER_HOUR as int;
    let m = dn % NANOS_PER_HOUR as int / NANOS_PER_MIN as int;
    let sec = dn % NANOS_PER_MIN as int / NANOS_PER_SEC as int;
    let u = dn % NANOS_PER_SEC as int / 1000;
    &&& s.len() == 15
    &&& s[0] == 48 + h / 10 && s[1] == 48 + h % 10 && s[2] == 58
    &&& s[3] == 48 + m / 10 && s[4] == 48 + m % 10 && s[5] == 58
    &&& s[6] == 48 + sec / 10 && s[7] == 48 + sec % 10 && s[8] == 46
    &&& s[9] == 48 + u / 100000 && s[10] == 48 + u / 10000 % 10 && s[11] == 48 + u / 1000 % 10
    &&& s[12] == 48 + u / 100 % 10 && s[13] == 48 + u / 10 % 10 && s[14] == 48 + u % 10
}

/// The `HH:MM:SS.uuuuuu` text of a time of day under 100 hours shows it digit by digit.
proof fn lemma_printable_shows(dn: int)
    requires
        0 <= dn < 100 * NANOS_PER_HOUR,
    ensures
        shows_clock(printable_text(dn), dn),
{
    let hh = NANOS_PER_HOUR as int;
    let mm = NANOS_PER_MIN as int;
    let ss = NANOS_PER_SEC as int;
    assert(0 <= dn / hh < 100) by (nonlinear_arith)
        requires
            0 <= dn < 100 * hh,
            hh > 0,
    ;
    assert(0 <= dn % hh / mm < 60) by (nonlinear_arith)
        requires
            0 <= dn,
            hh == 60 * mm,
            mm > 0,
    ;
    assert(0 <= dn % mm / ss < 60) by (nonlinear_arith)
        requires
            0 <= dn,
            mm == 60 * ss,
            ss > 0,
    ;
    assert(0 <= dn % ss / 1000 < 1000000) by (nonlinear_arith)
        requires
            0 <= dn,
            ss == 1000000000,
    ;
}

/// The printed line of a quote whose capture time and accept time lie within 100 hours after
/// its midnight: the capture time shown as `HH:MM:SS.uuuuuu` from the midnight, a space, the
/// accept time shown the same way, a space, the issue code (payload bytes 5..17), a space,
/// then the book fields; 185 characters.
pub proof fn lemma_line_header(q: QuoteView, trim: bool)
    requires
        q.data.len() == QUOTE_PACKET_SIZE,
        0 <= q.pkt_time - q.midnight_at_timezone < 100 * NANOS_PER_HOUR,
        0 <= q.accept_time - q.midnight_at_timezone < 100 * NANOS_PER_HOUR,
    ensures
        quote_line(q, trim).len() == OUTPUT_LEN,
        shows_clock(quote_line(q, trim).subrange(0, 15), q.pkt_time - q.midnight_at_timezone),
        quote_line(q, trim)[15] == 32,
        shows_clock(quote_line(q, trim).subrange(16, 31), q.accept_time - q.midnight_at_timezone),
        quote_line(q, trim)[31] == 32,
        quote_line(q, trim).subrange(32, 44) == q.data.subrange(5, 17),
        quote_line(q, trim)[44] == 32,
{
    let a = printable_text(q.pkt_time - q.midnight_at_timezone);
    let b = printable_text(q.accept_time - q.midnight_at_timezone);
    lemma_printable_shows(q.pkt_time - q.midnight_at_timezone);
    lemma_printable_shows(q.accept_time - q.midnight_at_timezone);
    lemma_book_text(q.data, trim, 10);
    let line = quote_line(q, trim);
    assert(line.subrange(0, 15) =~= a);
    assert(line.subrange(16, 31) =~= b);
    assert(line.subrange(32, 44) =~= q.data.subrange(5, 17));
}

} // verus!
