//! Steady streams of quote packets, and the centisecond arithmetic of the bucket ring.
//!
//! A stream is steady when each packet is captured at most three seconds after its quote was
//! accepted and at most 2.1 s before, capture times never go back, and the centisecond three
//! seconds before each capture runs at most half the ring (2.56 s) past the later of that of
//! the capture before and the earliest accept time so far. Those are the streams that the
//! bucket iterator lets out in order of accept time, and in capture order among quotes of
//! equal accept time.
use super::bucket::{ring_steps, NUM_BUCKETS};
use super::heap::THREE_SECONDS_NANOS;
use super::{accept_delta, accept_time_text, lemma_quote_in_range, quote_view, sortable_packet};
use crate::time::lemma_midnight_starts_day;
use crate::time::{
    hhmmssuu_field, tdiv, Timestamp, NANOS_PER_CENT, NANOS_PER_DAY, NANOS_PER_HOUR, NANOS_PER_MIN,
    NANOS_PER_SEC,
};
use vstd::prelude::*;

verus! {

/// The most by which a packet of a steady stream may be captured before its quote's accept
/// time: 2.1 s, so that the bucket of its accept time lies less than a ring ahead of the
/// bucket three seconds before its capture.
pub open spec fn early_capture() -> int {
    210 * NANOS_PER_CENT as int
}

/// Packet `p` is captured at most three seconds after its quote's accept time, and at most
/// `early_capture()` before it.
pub open spec fn on_time(p: (i64, Seq<u8>)) -> bool {
    let accept = quote_view(p).accept_time;
    accept <= p.0 + early_capture() && p.0 - accept <= THREE_SECONDS_NANOS
}

/// A capture at `t2` keeps pace after a capture at `t`, with `m` the earliest accept
/// centisecond so far: the centisecond three seconds before it runs at most half the ring
/// (2.56 s) past the later of that of `t` and `m`.
pub open spec fn keeps_pace(t: i64, m: int, t2: i64) -> bool {
    let s = safe_cent(t as int);
    safe_cent(t2 as int) <= (if s >= m {
        s
    } else {
        m
    }) + NUM_BUCKETS / 2
}

/// The capture time of packet `v` and the earliest accept centisecond up to it, after
/// `prev`.
pub open spec fn mark_after(prev: Option<(i64, int)>, v: (i64, Seq<u8>)) -> Option<(i64, int)> {
    match prev {
        Some((_, m)) => Some(
            (
                v.0,
                if accept_cent(v) < m {
                    accept_cent(v)
                } else {
                    m
                },
            ),
        ),
        None => Some((v.0, accept_cent(v))),
    }
}

/// Every packet of `p` keeps pace after the ones before it, the first after `prev`.
pub open spec fn paced(prev: Option<(i64, int)>, p: Seq<(i64, Seq<u8>)>) -> bool
    decreases p.len(),
{
    p.len() == 0 || ((prev matches Some((t, m)) ==> keeps_pace(t, m, p[0].0)) && paced(
        mark_after(prev, p[0]),
        p.drop_first(),
    ))
}

/// The packets `p` arrive steadily after `prev` (the capture time of the packet before them
/// and the earliest accept centisecond up to it, if there was one): each on time, in capture
/// order, and each keeping pace.
pub open spec fn steady(prev: Option<(i64, int)>, p: Seq<(i64, Seq<u8>)>) -> bool {
    &&& forall|i: int| 0 <= i < p.len() ==> on_time(#[trigger] p[i])
    &&& forall|i: int, j: int| #![trigger p[i], p[j]] 0 <= i <= j < p.len() ==> p[i].0 <= p[j].0
    &&& (prev matches Some((t, _)) ==> (p.len() > 0 ==> t <= p[0].0))
    &&& paced(prev, p)
}

/// The centisecond of the accept time of the quote of packet `v`.
pub open spec fn accept_cent(v: (i64, Seq<u8>)) -> int {
    (quote_view(v).accept_time as int) / (NANOS_PER_CENT as int)
}

/// The accept time of the quote of packet `v` is a whole number of centiseconds.
pub open spec fn cent_aligned(v: (i64, Seq<u8>)) -> bool {
    (quote_view(v).accept_time as int) % (NANOS_PER_CENT as int) == 0
}

/// The centisecond, truncated toward zero, three seconds before capture time `t`.
pub open spec fn safe_cent(t: int) -> int {
    tdiv(t - THREE_SECONDS_NANOS, NANOS_PER_CENT as int)
}

/// After the first packet, the rest of a steady stream is steady after it.
pub(crate) proof fn lemma_steady_step(prev: Option<(i64, int)>, p: Seq<(i64, Seq<u8>)>)
    requires
        steady(prev, p),
        p.len() > 0,
    ensures
        steady(mark_after(prev, p[0]), p.drop_first()),
        on_time(p[0]),
        prev matches Some((t, m)) ==> t <= p[0].0 && keeps_pace(t, m, p[0].0),
{
    let q = p.drop_first();
    assert(on_time(p[0]));
    assert forall|i: int| 0 <= i < q.len() implies on_time(#[trigger] q[i]) by {
        assert(q[i] == p[i + 1]);
        assert(on_time(p[i + 1]));
    }
    assert forall|i: int, j: int| #![trigger q[i], q[j]] 0 <= i <= j < q.len() implies q[i].0
        <= q[j].0 by {
        assert(q[i] == p[i + 1] && q[j] == p[j + 1]);
        assert(p[i + 1].0 <= p[j + 1].0);
    }
    if q.len() > 0 {
        assert(q[0] == p[1]);
        assert(p[0].0 <= p[1].0);
    }
}

/// The accept time of the quote of a sortable packet is a whole number of centiseconds, and
/// less than a day before the epoch.
pub(crate) proof fn lemma_accept_aligned(v: (i64, Seq<u8>))
    requires
        sortable_packet(v),
    ensures
        cent_aligned(v),
        accept_cent(v) * NANOS_PER_CENT == quote_view(v).accept_time,
        -0x3F00_0000_0000_0000 - NANOS_PER_DAY < quote_view(v).accept_time,
{
    lemma_quote_in_range(v);
    let c = NANOS_PER_CENT as int;
    let tz = Timestamp::TIMEZONE_KST as int;
    let day = NANOS_PER_DAY as int;
    let k = (v.0 + tz) / day;
    let text = accept_time_text(v.1);
    let f0 = hhmmssuu_field(text, 0);
    let f1 = hhmmssuu_field(text, 1);
    let f2 = hhmmssuu_field(text, 2);
    let f3 = hhmmssuu_field(text, 3);
    let accept = quote_view(v).accept_time as int;
    assert(accept == f0 * NANOS_PER_HOUR + f1 * NANOS_PER_MIN + f2 * NANOS_PER_SEC + f3 * c + k
        * day - tz);
    let m = f0 * 360000 + f1 * 6000 + f2 * 100 + f3 + k * 8640000 - 3240000;
    assert(accept == c * m) by (nonlinear_arith)
        requires
            accept == f0 * NANOS_PER_HOUR + f1 * NANOS_PER_MIN + f2 * NANOS_PER_SEC + f3 * c + k
                * day - tz,
            c == 10_000_000,
            day == 86_400_000_000_000,
            tz == 32_400_000_000_000,
            m == f0 * 360000 + f1 * 6000 + f2 * 100 + f3 + k * 8640000 - 3240000,
    ;
    vstd::arithmetic::div_mod::lemma_fundamental_div_mod_converse(accept, c, m, 0);
}

/// For an on-time sortable packet, the centisecond of its accept time is at least the safe
/// centisecond of its capture, and at most 510 after it.
pub(crate) proof fn lemma_safe_window(v: (i64, Seq<u8>))
    requires
        sortable_packet(v),
        on_time(v),
    ensures
        safe_cent(v.0 as int) <= accept_cent(v) <= safe_cent(v.0 as int) + 510,
{
    lemma_accept_aligned(v);
    let c = NANOS_PER_CENT as int;
    let a = accept_cent(v);
    let x = v.0 - THREE_SECONDS_NANOS;
    let s = safe_cent(v.0 as int);
    if x >= 0 {
        vstd::arithmetic::div_mod::lemma_fundamental_div_mod(x, c);
        assert(s == x / c);
    } else {
        vstd::arithmetic::div_mod::lemma_fundamental_div_mod(-x, c);
        assert(s == -((-x) / c));
    }
}

/// Truncating division by a centisecond is monotone, and values less than `k` centiseconds
/// apart give quotients less than `k + 1` apart.
pub(crate) proof fn lemma_tdiv_close(x: int, y: int)
    requires
        x <= y,
    ensures
        tdiv(x, NANOS_PER_CENT as int) <= tdiv(y, NANOS_PER_CENT as int),
        NANOS_PER_CENT * (tdiv(y, NANOS_PER_CENT as int) - tdiv(x, NANOS_PER_CENT as int)) < y - x
            + NANOS_PER_CENT,
{
    let c = NANOS_PER_CENT as int;
    lemma_tdiv_bounds(x);
    lemma_tdiv_bounds(y);
    if x >= 0 {
        vstd::arithmetic::div_mod::lemma_div_is_ordered(x, y, c);
    } else if y < 0 {
        vstd::arithmetic::div_mod::lemma_div_is_ordered(-y, -x, c);
    }
}

/// Truncating division by a centisecond rounds toward zero, by less than one.
pub(crate) proof fn lemma_tdiv_bounds(x: int)
    ensures
        x >= 0 ==> NANOS_PER_CENT * tdiv(x, NANOS_PER_CENT as int) <= x < NANOS_PER_CENT * tdiv(
            x,
            NANOS_PER_CENT as int,
        ) + NANOS_PER_CENT,
        x < 0 ==> NANOS_PER_CENT * tdiv(x, NANOS_PER_CENT as int) - NANOS_PER_CENT < x
            <= NANOS_PER_CENT * tdiv(x, NANOS_PER_CENT as int),
        x >= 0 ==> tdiv(x, NANOS_PER_CENT as int) >= 0,
        x < 0 ==> tdiv(x, NANOS_PER_CENT as int) <= 0,
{
    let c = NANOS_PER_CENT as int;
    if x >= 0 {
        vstd::arithmetic::div_mod::lemma_fundamental_div_mod(x, c);
    } else {
        vstd::arithmetic::div_mod::lemma_fundamental_div_mod(-x, c);
    }
}

/// An accept time of whole centiseconds is its centisecond times a centisecond.
pub(crate) proof fn lemma_aligned_cent(v: (i64, Seq<u8>))
    requires
        cent_aligned(v),
    ensures
        accept_cent(v) * NANOS_PER_CENT == quote_view(v).accept_time,
{
    vstd::arithmetic::div_mod::lemma_fundamental_div_mod(
        quote_view(v).accept_time as int,
        NANOS_PER_CENT as int,
    );
}

/// Truncating division of a whole number of centiseconds by a centisecond is exact.
pub(crate) proof fn lemma_tdiv_aligned(x: int)
    requires
        x % NANOS_PER_CENT as int == 0,
    ensures
        tdiv(x, NANOS_PER_CENT as int) == x / NANOS_PER_CENT as int,
        tdiv(x, NANOS_PER_CENT as int) * NANOS_PER_CENT == x,
{
    let c = NANOS_PER_CENT as int;
    vstd::arithmetic::div_mod::lemma_fundamental_div_mod(x, c);
    if x < 0 {
        let m = x / c;
        assert(-x == c * (-m)) by (nonlinear_arith)
            requires
                x == c * m,
        ;
        vstd::arithmetic::div_mod::lemma_fundamental_div_mod_converse(-x, c, -m, 0);
    }
}

/// The packets of a steady stream after a capture at `t` are captured at `t` or later, and
/// their quotes are accepted no earlier than centisecond `base`, when `base` is at most the
/// safe centisecond of `t`.
pub(crate) proof fn lemma_pending_after(pending: Seq<(i64, Seq<u8>)>, t: i64, m: int, base: int)
    requires
        steady(Some((t, m)), pending),
        forall|j: int| 0 <= j < pending.len() ==> sortable_packet(#[trigger] pending[j]),
        base <= safe_cent(t as int),
    ensures
        forall|j: int|
            0 <= j < pending.len() ==> base * NANOS_PER_CENT <= quote_view(
                #[trigger] pending[j],
            ).accept_time && t <= pending[j].0,
{
    assert forall|j: int| 0 <= j < pending.len() implies base * NANOS_PER_CENT <= quote_view(
        #[trigger] pending[j],
    ).accept_time && t <= pending[j].0 by {
        assert(pending[0].0 <= pending[j].0);
        assert(on_time(pending[j]));
        lemma_safe_window(pending[j]);
        lemma_accept_aligned(pending[j]);
        lemma_tdiv_close(t - THREE_SECONDS_NANOS, pending[j].0 - THREE_SECONDS_NANOS);
    }
}

/// The accept time field of packet `p` reads a time of day under 24 hours.
pub open spec fn within_day(p: (i64, Seq<u8>)) -> bool {
    accept_delta(p.1) < NANOS_PER_DAY
}

/// Two sortable packets whose accept time fields read times of day under 24 hours and whose
/// quotes share an accept time also share the midnight: the one that starts the day of that
/// accept time.
pub(crate) proof fn lemma_same_midnight(u: (i64, Seq<u8>), v: (i64, Seq<u8>))
    requires
        sortable_packet(u),
        sortable_packet(v),
        within_day(u),
        within_day(v),
        quote_view(u).accept_time == quote_view(v).accept_time,
    ensures
        quote_view(u).midnight_at_timezone == quote_view(v).midnight_at_timezone,
{
    let tz = Timestamp::TIMEZONE_KST as int;
    let d = NANOS_PER_DAY as int;
    lemma_quote_in_range(u);
    lemma_quote_in_range(v);
    lemma_midnight_starts_day(u.0 as int, tz);
    lemma_midnight_starts_day(v.0 as int, tz);
    let mu = quote_view(u).midnight_at_timezone as int;
    let mv = quote_view(v).midnight_at_timezone as int;
    let a = quote_view(u).accept_time as int;
    vstd::arithmetic::div_mod::lemma_fundamental_div_mod(mu + tz, d);
    vstd::arithmetic::div_mod::lemma_fundamental_div_mod(mv + tz, d);
    let ku = (mu + tz) / d;
    let kv = (mv + tz) / d;
    assert(a + tz == d * ku + (a - mu));
    assert(a + tz == d * kv + (a - mv));
    vstd::arithmetic::div_mod::lemma_fundamental_div_mod_converse(a + tz, d, ku, a - mu);
    vstd::arithmetic::div_mod::lemma_fundamental_div_mod_converse(a + tz, d, kv, a - mv);
}

/// Within less than a ring of each other, the ring index of `x` is `x - y` steps on from
/// that of `y`.
pub(crate) proof fn lemma_ring_pos(x: int, y: int)
    requires
        0 <= x - y < NUM_BUCKETS,
    ensures
        ring_steps(y % NUM_BUCKETS as int, x % NUM_BUCKETS as int) == x - y,
{
    let n = NUM_BUCKETS as int;
    vstd::arithmetic::div_mod::lemma_fundamental_div_mod(x, n);
    vstd::arithmetic::div_mod::lemma_fundamental_div_mod(y, n);
    let qx = x / n;
    let qy = y / n;
    assert(x - y == n * (qx - qy) + (x % n - y % n)) by (nonlinear_arith)
        requires
            x == n * qx + x % n,
            y == n * qy + y % n,
    ;
    if qx - qy >= 2 {
        assert(n * (qx - qy) >= 2 * n) by (nonlinear_arith)
            requires
                qx - qy >= 2,
                n > 0,
        ;
    } else if qx - qy <= -1 {
        assert(n * (qx - qy) <= -n) by (nonlinear_arith)
            requires
                qx - qy <= -1,
                n > 0,
        ;
    } else if qx - qy == 1 {
        assert(n * (qx - qy) == n);
    } else {
        assert(qx - qy == 0);
        assert(n * (qx - qy) == 0);
    }
}

/// Moving on `ring_steps(e0, e1)` centiseconds from a centisecond at ring index `e0` lands at
/// ring index `e1`.
pub(crate) proof fn lemma_ring_advance(base: int, e0: int, e1: int)
    requires
        e0 == base % NUM_BUCKETS as int,
        0 <= e1 < NUM_BUCKETS,
    ensures
        (base + ring_steps(e0, e1)) % NUM_BUCKETS as int == e1,
{
    let n = NUM_BUCKETS as int;
    vstd::arithmetic::div_mod::lemma_fundamental_div_mod(base, n);
    let q = base / n;
    if e1 >= e0 {
        vstd::arithmetic::div_mod::lemma_fundamental_div_mod_converse(base + e1 - e0, n, q, e1);
    } else {
        vstd::arithmetic::div_mod::lemma_fundamental_div_mod_converse(base + e1 - e0 + n, n, q + 1, e1);
    }
}

/// Moving on from ring index `e0` to `e1` shortens the way to each index not passed.
pub(crate) proof fn lemma_ring_shift(e0: int, e1: int, i: int)
    requires
        0 <= e0 < NUM_BUCKETS,
        0 <= e1 < NUM_BUCKETS,
        0 <= i < NUM_BUCKETS,
        ring_steps(e0, e1) <= ring_steps(e0, i),
    ensures
        ring_steps(e1, i) == ring_steps(e0, i) - ring_steps(e0, e1),
{
}

/// An `i64` cast to `usize` lands in the ring where the `i64` itself does.
pub(crate) proof fn lemma_cast_ring_index(x: i64)
    ensures
        ((x as usize) % (NUM_BUCKETS as usize)) as int == (x as int) % NUM_BUCKETS as int,
{
    let r = (x as usize) % 512usize;
    assert(r as i64 == x & 511i64) by (bit_vector)
        requires
            r == (x as usize) % 512usize,
    ;
    assert(x as int == 512 * ((x >> 9u64) as int) + (x & 511i64) as int && 0 <= (x & 511i64) < 512)
        by (bit_vector);
    vstd::arithmetic::div_mod::lemma_fundamental_div_mod_converse(
        x as int,
        512,
        (x >> 9u64) as int,
        (x & 511i64) as int,
    );
}

} // verus!
