//! Reordering quotes by accept time with a ring of centisecond buckets: each quote packet is
//! put in the bucket of its accept time, and buckets are emptied in turn once packets captured
//! three seconds after their time come in.
use super::heap::{emitted_before, THREE_SECONDS_NANOS};
use super::steady::{
    accept_cent, cent_aligned, lemma_accept_aligned, lemma_aligned_cent, lemma_cast_ring_index,
    lemma_pending_after, lemma_ring_advance, lemma_ring_pos, lemma_ring_shift,
    lemma_safe_window,
    lemma_same_midnight, lemma_steady_step, lemma_tdiv_close, mark_after, lemma_tdiv_aligned, lemma_tdiv_bounds, safe_cent,
    steady, early_capture, within_day,
};
use super::ring::{
    in_bucket, last_in_bucket, lemma_in_bucket_first, lemma_in_bucket_push,
    lemma_in_bucket_remove, lemma_in_no_bucket, ring_bucket,
};
use super::{
    lemma_quote_in_range, max_accept_delta, quote_view, sortable_packet, Quote, QuotePacket,
    QuoteSource,
};
use crate::time::{Timestamp, NANOS_PER_CENT, NANOS_PER_DAY};
use std::collections::VecDeque;
use vstd::multiset::Multiset;
use vstd::prelude::*;

verus! {

/// Buckets in the ring: more than the 300 centiseconds of three seconds, and a power of two.
pub const NUM_BUCKETS: usize = 512;

/// The steps from bucket `a` forward to bucket `b` around the ring.
pub open spec fn ring_steps(a: int, b: int) -> int {
    if b >= a {
        b - a
    } else {
        b - a + NUM_BUCKETS
    }
}

/// The quote packets of a bucket, front (most recently put) first.
pub open spec fn packets_of<'a>(d: Seq<QuotePacket<'a>>) -> Seq<(i64, Seq<u8>)> {
    d.map_values(|p: QuotePacket<'a>| p@)
}

struct Bucket<'a> {
    deque: VecDeque<QuotePacket<'a>>,
    // These hold for the most recently put quote packet, and so for all of them when they
    // share an accept time.
    accept_time: Timestamp,
    midnight_at_timezone: Timestamp,
}

impl<'a> Bucket<'a> {
    spec fn packets(&self) -> Seq<(i64, Seq<u8>)> {
        packets_of(self.deque@)
    }

    /// The stored times are those of the quote of the most recently put packet.
    spec fn consistent(&self) -> bool {
        self.deque@.len() > 0 ==> {
            &&& self.accept_time@ == quote_view(self.deque@[0]@).accept_time
            &&& self.midnight_at_timezone@ == quote_view(self.deque@[0]@).midnight_at_timezone
        }
    }

    fn with_capacity(bucket_capacity: usize) -> (b: Self)
        ensures
            b.deque@.len() == 0,
            b.consistent(),
            b.accept_time@ == 0,
            b.midnight_at_timezone@ == 0,
    {
        Self {
            deque: VecDeque::with_capacity(bucket_capacity),
            accept_time: Timestamp::from_secs_and_nanos(0, 0),
            midnight_at_timezone: Timestamp::from_secs_and_nanos(0, 0),
        }
    }

    /// Takes out the least recently put packet, with the times of the last push.
    fn pop(&mut self) -> (r: Option<Quote<'a>>)
        ensures
            old(self).consistent() ==> final(self).consistent(),
            final(self).accept_time == old(self).accept_time,
            final(self).midnight_at_timezone == old(self).midnight_at_timezone,
            match r {
                Some(q) => {
                    &&& old(self).deque@.len() > 0
                    &&& final(self).deque@ == old(self).deque@.drop_last()
                    &&& (q.pkt_time@, q.data@) == old(self).deque@.last()@
                    &&& q.accept_time == old(self).accept_time
                    &&& q.midnight_at_timezone == old(self).midnight_at_timezone
                },
                None => old(self).deque@.len() == 0 && final(self).deque@ == old(self).deque@,
            },
    {
        match self.deque.pop_back() {
            Some(p) => {
                let QuotePacket { pkt_time, data } = p;
                Some(
                    Quote {
                        pkt_time,
                        accept_time: self.accept_time,
                        midnight_at_timezone: self.midnight_at_timezone,
                        data,
                    },
                )
            },
            None => None,
        }
    }

    /// Puts `quote_packet` in at the front, keeping the order in which packets were put, and
    /// takes `accept_time` and `midnight_at_timezone` as the bucket's times.
    fn push(&mut self, quote_packet: QuotePacket<'a>, accept_time: Timestamp, midnight_at_timezone: Timestamp)
        ensures
            final(self).accept_time == accept_time,
            final(self).midnight_at_timezone == midnight_at_timezone,
            final(self).deque@ == seq![quote_packet] + old(self).deque@,
            accept_time@ == quote_view(quote_packet@).accept_time && midnight_at_timezone@
                == quote_view(quote_packet@).midnight_at_timezone ==> final(self).consistent(),
    {
        self.accept_time = accept_time;
        self.midnight_at_timezone = midnight_at_timezone;
        // Insert to the front to maintain a stable sort
        self.deque.push_front(quote_packet);
    }
}

/// `quote` carries the accept time and midnight of the quote of packet `v`.
pub open spec fn quote_times_from<'a>(quote: Quote<'a>, v: (i64, Seq<u8>)) -> bool {
    &&& quote.accept_time@ == quote_view(v).accept_time
    &&& quote.midnight_at_timezone@ == quote_view(v).midnight_at_timezone
}

/// `q` is let out as the ring lets quotes out: its packet is the first in `before` of those
/// that go to its bucket, `after` is `before` without it, and `q` carries the times of the
/// packet most recently put in its bucket, which is the last of that bucket among `put`, the
/// packets left in the buckets, or `q`'s own when none is left there.
pub open spec fn let_out_first<'a>(
    before: Seq<(i64, Seq<u8>)>,
    after: Seq<(i64, Seq<u8>)>,
    q: Quote<'a>,
    put: Seq<(i64, Seq<u8>)>,
) -> bool {
    let qp = (q.pkt_time@, q.data@);
    &&& exists|k: int|
        #![trigger before[k]]
        0 <= k < before.len() && before[k] == qp && after == before.remove(k) && forall|j: int|
            0 <= j < k ==> ring_bucket(#[trigger] before[j]) != ring_bucket(qp)
    &&& quote_times_from(
        q,
        match last_in_bucket(put, ring_bucket(qp)) {
            Some(w) => w,
            None => qp,
        },
    )
}

/// A quote let out first of its bucket, with its own accept time and no later than any
/// packet not yet let out, leaves before it, in the order of `before`, only packets of later
/// accept time: of the packets with the least accept time and capture time, the one taken in
/// first comes out first.
pub proof fn lemma_let_out_least<'a>(
    before: Seq<(i64, Seq<u8>)>,
    after: Seq<(i64, Seq<u8>)>,
    q: Quote<'a>,
    put: Seq<(i64, Seq<u8>)>,
)
    requires
        let_out_first(before, after, q, put),
        q.accept_time@ == quote_view((q.pkt_time@, q.data@)).accept_time,
        forall|j: int| 0 <= j < before.len() ==> emitted_before(q@, quote_view(#[trigger] before[j])),
    ensures
        exists|k: int|
            #![trigger before[k]]
            0 <= k < before.len() && before[k] == (q.pkt_time@, q.data@) && after == before.remove(k)
                && forall|j: int|
                0 <= j < k ==> quote_view(#[trigger] before[j]).accept_time > q.accept_time@,
{
    let qp = (q.pkt_time@, q.data@);
    let k = choose|k: int|
        #![trigger before[k]]
        0 <= k < before.len() && before[k] == qp && after == before.remove(k) && forall|j: int|
            0 <= j < k ==> ring_bucket(#[trigger] before[j]) != ring_bucket(qp);
    assert forall|j: int| 0 <= j < k implies quote_view(#[trigger] before[j]).accept_time
        > q.accept_time@ by {
        assert(emitted_before(q@, quote_view(before[j])));
        assert(ring_bucket(before[j]) != ring_bucket(qp));
    }
    assert(before[k] == qp);
}

/// The quote packets held in the first `n` buckets.
spec fn buckets_held<'a>(buckets: Seq<Bucket<'a>>, n: int) -> Multiset<(i64, Seq<u8>)>
    decreases n,
{
    if n <= 0 {
        Multiset::empty()
    } else {
        buckets_held(buckets, n - 1).add(buckets[n - 1].packets().to_multiset())
    }
}

/// A packet in one of the first `n` buckets is held by them.
proof fn lemma_bucket_packet_held<'a>(buckets: Seq<Bucket<'a>>, i: int, n: int, x: (i64, Seq<u8>))
    requires
        0 <= i < n <= buckets.len(),
        buckets[i].packets().contains(x),
    ensures
        buckets_held(buckets, n).count(x) > 0,
    decreases n,
{
    broadcast use vstd::multiset::group_multiset_axioms;
    broadcast use vstd::seq_lib::group_to_multiset_ensures;

    if i < n - 1 {
        lemma_bucket_packet_held(buckets, i, n - 1, x);
    }
    assert(buckets_held(buckets, n) == buckets_held(buckets, n - 1).add(
        buckets[n - 1].packets().to_multiset(),
    ));
}

/// Replacing bucket `i` changes what the buckets hold by what it held and what it holds.
proof fn lemma_buckets_held_update<'a>(buckets: Seq<Bucket<'a>>, i: int, b: Bucket<'a>, n: int)
    requires
        0 <= i < n <= buckets.len(),
    ensures
        buckets_held(buckets.update(i, b), n).add(buckets[i].packets().to_multiset()) == buckets_held(
            buckets,
            n,
        ).add(b.packets().to_multiset()),
    decreases n,
{
    broadcast use vstd::multiset::group_multiset_axioms;

    let u = buckets.update(i, b);
    assert(buckets_held(u, n) == buckets_held(u, n - 1).add(u[n - 1].packets().to_multiset()));
    assert(buckets_held(buckets, n) == buckets_held(buckets, n - 1).add(
        buckets[n - 1].packets().to_multiset(),
    ));
    let mi = buckets[i].packets().to_multiset();
    let mb = b.packets().to_multiset();
    if i < n - 1 {
        lemma_buckets_held_update(buckets, i, b, n - 1);
        assert(u[n - 1] == buckets[n - 1]);
        let ml = buckets[n - 1].packets().to_multiset();
        assert(buckets_held(u, n - 1).add(mi) == buckets_held(buckets, n - 1).add(mb));
        assert forall|x| #[trigger] buckets_held(u, n).add(mi).count(x) == buckets_held(buckets, n).add(mb).count(x) by {
            assert(buckets_held(u, n - 1).add(mi).count(x) == buckets_held(buckets, n - 1).add(mb).count(x));
        }
    } else {
        assert(u[n - 1] == b);
        lemma_buckets_held_prefix_unchanged(buckets, u, n - 1);
    }
    assert(buckets_held(u, n).add(mi) =~= buckets_held(buckets, n).add(mb));
}

proof fn lemma_buckets_held_prefix_unchanged<'a>(a: Seq<Bucket<'a>>, b: Seq<Bucket<'a>>, n: int)
    requires
        0 <= n <= a.len(),
        n <= b.len(),
        forall|k: int| 0 <= k < n ==> (#[trigger] a[k]).deque@ == b[k].deque@,
    ensures
        buckets_held(a, n) == buckets_held(b, n),
    decreases n,
{
    if n > 0 {
        lemma_buckets_held_prefix_unchanged(a, b, n - 1);
    }
}

proof fn lemma_cancel<A>(a: Multiset<A>, b: Multiset<A>, c: Multiset<A>, v: A)
    requires
        a.add(c.insert(v)) == b.add(c),
    ensures
        a.insert(v) == b,
{
    broadcast use vstd::multiset::group_multiset_axioms;

    assert forall|x: A| #[trigger] a.insert(v).count(x) == b.count(x) by {
        assert(a.add(c.insert(v)).count(x) == b.add(c).count(x));
        assert(a.add(c.insert(v)).count(x) == a.count(x) + c.insert(v).count(x));
        assert(b.add(c).count(x) == b.count(x) + c.count(x));
        if x == v {
            assert(c.insert(v).count(x) == c.count(x) + 1);
            assert(a.insert(v).count(x) == a.count(x) + 1);
        } else {
            assert(c.insert(v).count(x) == c.count(x));
            assert(a.insert(v).count(x) == a.count(x));
        }
    }
    assert(a.insert(v) =~= b);
}

/// Empty buckets hold nothing.
proof fn lemma_buckets_held_empty<'a>(buckets: Seq<Bucket<'a>>, n: int)
    requires
        0 <= n <= buckets.len(),
        forall|k: int| 0 <= k < n ==> (#[trigger] buckets[k]).deque@.len() == 0,
    ensures
        buckets_held(buckets, n) == Multiset::<(i64, Seq<u8>)>::empty(),
    decreases n,
{
    broadcast use vstd::multiset::group_multiset_axioms;
    broadcast use vstd::seq_lib::group_to_multiset_ensures;

    if n > 0 {
        lemma_buckets_held_empty(buckets, n - 1);
        assert(buckets[n - 1].packets().len() == 0);
        assert(buckets[n - 1].packets().to_multiset() =~= Multiset::empty());
        assert(buckets_held(buckets, n) =~= Multiset::empty());
    }
}

/// Putting a packet in front of a bucket adds it to what the bucket holds; taking the last
/// one out removes it.
proof fn lemma_packets_front_back<'a>(d: Seq<QuotePacket<'a>>, p: QuotePacket<'a>)
    ensures
        packets_of(seq![p] + d).to_multiset() == packets_of(d).to_multiset().insert(p@),
        d.len() > 0 ==> packets_of(d).to_multiset() == packets_of(d.drop_last()).to_multiset().insert(
            d.last()@,
        ),
{
    broadcast use vstd::multiset::group_multiset_axioms;
    broadcast use vstd::seq_lib::group_to_multiset_ensures;

    assert(packets_of(seq![p] + d) =~= packets_of(d).insert(0, p@));
    vstd::seq_lib::to_multiset_insert(packets_of(d), 0, p@);
    if d.len() > 0 {
        let m = packets_of(d);
        assert(m.remove(m.len() - 1) =~= packets_of(d.drop_last()));
        assert(m.to_multiset().count(m[m.len() - 1]) > 0) by {
            assert(m.contains(m[m.len() - 1]));
        }
        assert(m.to_multiset() =~= m.remove(m.len() - 1).to_multiset().insert(m[m.len() - 1]));
    }
}

#[derive(Clone, Copy)]
struct PendingPush<'a> {
    index: usize,
    quote_packet: QuotePacket<'a>,
    accept_time: Timestamp,
    midnight_at_timezone: Timestamp,
}

#[derive(Clone, Copy)]
enum State<'a> {
    DrainIterator,
    EmitQuote(usize, PendingPush<'a>),
    DrainBuckets(usize),
}

/// Every packet in the buckets has an accept time of whole centiseconds, the centisecond
/// `ring_steps(e, i)` after `base` for a packet in bucket `i`.
spec fn placed<'a>(buckets: Seq<Bucket<'a>>, e: int, base: int) -> bool {
    forall|i: int, k: int|
        #![trigger buckets[i].deque@[k]]
        0 <= i < NUM_BUCKETS && 0 <= k < buckets[i].deque@.len() ==> {
            &&& sortable_packet(buckets[i].deque@[k]@)
            &&& cent_aligned(buckets[i].deque@[k]@)
            &&& accept_cent(buckets[i].deque@[k]@) == base + ring_steps(e, i)
        }
}

/// Every packet in the buckets has an accept time of whole centiseconds, sits in the bucket
/// of its centisecond, is accepted no earlier than centisecond `base` and no later than `t`.
spec fn gathered<'a>(buckets: Seq<Bucket<'a>>, base: int, t: int) -> bool {
    forall|i: int, k: int|
        #![trigger buckets[i].deque@[k]]
        0 <= i < NUM_BUCKETS && 0 <= k < buckets[i].deque@.len() ==> {
            &&& sortable_packet(buckets[i].deque@[k]@)
            &&& cent_aligned(buckets[i].deque@[k]@)
            &&& accept_cent(buckets[i].deque@[k]@) % NUM_BUCKETS as int == i
            &&& base <= accept_cent(buckets[i].deque@[k]@)
            &&& quote_view(buckets[i].deque@[k]@).accept_time <= t
        }
}

/// Moving the emit index from `e0` on to `e1` past empty buckets, while buckets lose only
/// their least recently put packets, keeps every packet where its turn comes.
proof fn lemma_placed_advance<'a>(
    before: Seq<Bucket<'a>>,
    after: Seq<Bucket<'a>>,
    e0: int,
    e1: int,
    base: int,
)
    requires
        before.len() == NUM_BUCKETS,
        after.len() == NUM_BUCKETS,
        0 <= e0 < NUM_BUCKETS,
        0 <= e1 < NUM_BUCKETS,
        placed(before, e0, base),
        forall|i: int|
            0 <= i < NUM_BUCKETS && ring_steps(e0, i) < ring_steps(e0, e1)
                ==> (#[trigger] before[i]).deque@.len() == 0,
        forall|i: int|
            0 <= i < NUM_BUCKETS ==> (#[trigger] after[i]).deque@.len() <= before[i].deque@.len(),
        forall|i: int, k: int|
            #![trigger after[i].deque@[k]]
            0 <= i < NUM_BUCKETS && 0 <= k < after[i].deque@.len() ==> after[i].deque@[k]
                == before[i].deque@[k],
    ensures
        placed(after, e1, base + ring_steps(e0, e1)),
{
    assert forall|i: int, k: int|
        #![trigger after[i].deque@[k]]
        0 <= i < NUM_BUCKETS && 0 <= k < after[i].deque@.len() implies {
            &&& sortable_packet(after[i].deque@[k]@)
            &&& cent_aligned(after[i].deque@[k]@)
            &&& accept_cent(after[i].deque@[k]@) == base + ring_steps(e0, e1) + ring_steps(e1, i)
        } by {
        assert(after[i].deque@[k] == before[i].deque@[k]);
        assert(before[i].deque@.len() > 0);
        lemma_ring_shift(e0, e1, i);
    }
}

/// Putting a packet in the bucket of its centisecond, less than a ring after `base`, keeps
/// every packet where its turn comes.
proof fn lemma_placed_push<'a>(
    before: Seq<Bucket<'a>>,
    after: Seq<Bucket<'a>>,
    e: int,
    base: int,
    p: QuotePacket<'a>,
)
    requires
        before.len() == NUM_BUCKETS,
        after.len() == NUM_BUCKETS,
        e == base % NUM_BUCKETS as int,
        placed(before, e, base),
        sortable_packet(p@),
        cent_aligned(p@),
        0 <= accept_cent(p@) - base < NUM_BUCKETS,
        forall|i: int|
            0 <= i < NUM_BUCKETS && i != accept_cent(p@) % NUM_BUCKETS as int
                ==> (#[trigger] after[i]).deque@ == before[i].deque@,
        after[accept_cent(p@) % NUM_BUCKETS as int].deque@ == seq![p] + before[accept_cent(p@)
            % NUM_BUCKETS as int].deque@,
    ensures
        placed(after, e, base),
{
    let idx = accept_cent(p@) % NUM_BUCKETS as int;
    lemma_ring_pos(accept_cent(p@), base);
    assert forall|i: int, k: int|
        #![trigger after[i].deque@[k]]
        0 <= i < NUM_BUCKETS && 0 <= k < after[i].deque@.len() implies {
            &&& sortable_packet(after[i].deque@[k]@)
            &&& cent_aligned(after[i].deque@[k]@)
            &&& accept_cent(after[i].deque@[k]@) == base + ring_steps(e, i)
        } by {
        if i == idx {
            if k > 0 {
                assert(after[i].deque@[k] == before[i].deque@[k - 1]);
            }
        } else {
            assert(after[i].deque@[k] == before[i].deque@[k]);
        }
    }
}

/// Putting a packet in the bucket of its centisecond, accepted no earlier than `base` and no
/// later than `t`, keeps the buckets gathered.
proof fn lemma_gathered_push<'a>(
    before: Seq<Bucket<'a>>,
    after: Seq<Bucket<'a>>,
    base: int,
    t: int,
    p: QuotePacket<'a>,
)
    requires
        before.len() == NUM_BUCKETS,
        after.len() == NUM_BUCKETS,
        gathered(before, base, t),
        sortable_packet(p@),
        cent_aligned(p@),
        base <= accept_cent(p@),
        quote_view(p@).accept_time <= t,
        forall|i: int|
            0 <= i < NUM_BUCKETS && i != accept_cent(p@) % NUM_BUCKETS as int
                ==> (#[trigger] after[i]).deque@ == before[i].deque@,
        after[accept_cent(p@) % NUM_BUCKETS as int].deque@ == seq![p] + before[accept_cent(p@)
            % NUM_BUCKETS as int].deque@,
    ensures
        gathered(after, base, t),
{
    let idx = accept_cent(p@) % NUM_BUCKETS as int;
    assert forall|i: int, k: int|
        #![trigger after[i].deque@[k]]
        0 <= i < NUM_BUCKETS && 0 <= k < after[i].deque@.len() implies {
            &&& sortable_packet(after[i].deque@[k]@)
            &&& cent_aligned(after[i].deque@[k]@)
            &&& accept_cent(after[i].deque@[k]@) % NUM_BUCKETS as int == i
            &&& base <= accept_cent(after[i].deque@[k]@)
            &&& quote_view(after[i].deque@[k]@).accept_time <= t
        } by {
        if i == idx {
            if k > 0 {
                assert(after[i].deque@[k] == before[i].deque@[k - 1]);
            }
        } else {
            assert(after[i].deque@[k] == before[i].deque@[k]);
        }
    }
}

/// Gathered buckets stay gathered from an earlier centisecond and up to a later time.
proof fn lemma_gathered_weaken<'a>(buckets: Seq<Bucket<'a>>, base: int, t: int, base2: int, t2: int)
    requires
        gathered(buckets, base, t),
        base2 <= base,
        t <= t2,
    ensures
        gathered(buckets, base2, t2),
{
}

/// Gathered buckets are placed from any centisecond `base2` up to `base` whose ring covers
/// the time `t`.
proof fn lemma_gathered_placed<'a>(buckets: Seq<Bucket<'a>>, base: int, t: int, base2: int)
    requires
        buckets.len() == NUM_BUCKETS,
        gathered(buckets, base, t),
        base2 <= base,
        t < (base2 + NUM_BUCKETS) * NANOS_PER_CENT,
    ensures
        placed(buckets, base2 % NUM_BUCKETS as int, base2),
{
    assert forall|i: int, k: int|
        #![trigger buckets[i].deque@[k]]
        0 <= i < NUM_BUCKETS && 0 <= k < buckets[i].deque@.len() implies {
            &&& sortable_packet(buckets[i].deque@[k]@)
            &&& cent_aligned(buckets[i].deque@[k]@)
            &&& accept_cent(buckets[i].deque@[k]@) == base2 + ring_steps(
                base2 % NUM_BUCKETS as int,
                i,
            )
        } by {
        let v = buckets[i].deque@[k]@;
        let a = accept_cent(v);
        vstd::arithmetic::div_mod::lemma_fundamental_div_mod(quote_view(v).accept_time as int, NANOS_PER_CENT as int);
        assert(a * NANOS_PER_CENT == quote_view(v).accept_time);
        assert(a < base2 + NUM_BUCKETS);
        lemma_ring_pos(a, base2);
    }
}

/// Every packet in the buckets was captured by time `t`, and in each bucket a packet put in
/// later was captured no earlier than one put in before it.
spec fn arrived<'a>(buckets: Seq<Bucket<'a>>, t: int) -> bool {
    &&& forall|i: int, k: int|
        #![trigger buckets[i].deque@[k]]
        0 <= i < NUM_BUCKETS && 0 <= k < buckets[i].deque@.len() ==> buckets[i].deque@[k]@.0
            <= t
    &&& forall|i: int, k1: int, k2: int|
        #![trigger buckets[i].deque@[k1], buckets[i].deque@[k2]]
        0 <= i < NUM_BUCKETS && 0 <= k1 <= k2 < buckets[i].deque@.len()
            ==> buckets[i].deque@[k2]@.0 <= buckets[i].deque@[k1]@.0
}

/// What arrived by `t` arrived by any later time.
proof fn lemma_arrived_weaken<'a>(buckets: Seq<Bucket<'a>>, t: int, t2: int)
    requires
        arrived(buckets, t),
        t <= t2,
    ensures
        arrived(buckets, t2),
{
}

/// Buckets that only lose their least recently put packets keep their arrival order.
proof fn lemma_arrived_shrink<'a>(before: Seq<Bucket<'a>>, after: Seq<Bucket<'a>>, t: int)
    requires
        before.len() == NUM_BUCKETS,
        after.len() == NUM_BUCKETS,
        arrived(before, t),
        forall|i: int|
            0 <= i < NUM_BUCKETS ==> (#[trigger] after[i]).deque@.len() <= before[i].deque@.len(),
        forall|i: int, k: int|
            #![trigger after[i].deque@[k]]
            0 <= i < NUM_BUCKETS && 0 <= k < after[i].deque@.len() ==> after[i].deque@[k]
                == before[i].deque@[k],
    ensures
        arrived(after, t),
{
    assert forall|i: int, k1: int, k2: int|
        #![trigger after[i].deque@[k1], after[i].deque@[k2]]
        0 <= i < NUM_BUCKETS && 0 <= k1 <= k2 < after[i].deque@.len() implies after[i].deque@[k2]@.0
        <= after[i].deque@[k1]@.0 by {
        assert(after[i].deque@[k1] == before[i].deque@[k1]);
        assert(after[i].deque@[k2] == before[i].deque@[k2]);
    }
}

/// Putting in a packet captured at `t`, after all the others, keeps the arrival order.
proof fn lemma_arrived_push<'a>(
    before: Seq<Bucket<'a>>,
    after: Seq<Bucket<'a>>,
    idx: int,
    p: QuotePacket<'a>,
)
    requires
        before.len() == NUM_BUCKETS,
        after.len() == NUM_BUCKETS,
        0 <= idx < NUM_BUCKETS,
        arrived(before, p@.0 as int),
        forall|i: int| 0 <= i < NUM_BUCKETS && i != idx ==> (#[trigger] after[i]).deque@ == before[i].deque@,
        after[idx].deque@ == seq![p] + before[idx].deque@,
    ensures
        arrived(after, p@.0 as int),
{
    assert forall|i: int, k: int|
        #![trigger after[i].deque@[k]]
        0 <= i < NUM_BUCKETS && 0 <= k < after[i].deque@.len() implies after[i].deque@[k]@.0
        <= p@.0 by {
        if i == idx && k > 0 {
            assert(after[i].deque@[k] == before[i].deque@[k - 1]);
        } else if i != idx {
            assert(after[i].deque@[k] == before[i].deque@[k]);
        }
    }
    assert forall|i: int, k1: int, k2: int|
        #![trigger after[i].deque@[k1], after[i].deque@[k2]]
        0 <= i < NUM_BUCKETS && 0 <= k1 <= k2 < after[i].deque@.len() implies after[i].deque@[k2]@.0
        <= after[i].deque@[k1]@.0 by {
        if i == idx {
            if k1 > 0 {
                assert(after[i].deque@[k1] == before[i].deque@[k1 - 1]);
                assert(after[i].deque@[k2] == before[i].deque@[k2 - 1]);
            } else if k2 > 0 {
                assert(after[i].deque@[k2] == before[i].deque@[k2 - 1]);
            }
        } else {
            assert(after[i].deque@[k1] == before[i].deque@[k1]);
            assert(after[i].deque@[k2] == before[i].deque@[k2]);
        }
    }
}

/// A packet held by the first `n` buckets is in one of them.
proof fn lemma_held_in_bucket<'a>(buckets: Seq<Bucket<'a>>, n: int, x: (i64, Seq<u8>))
    requires
        0 <= n <= buckets.len(),
        buckets_held(buckets, n).count(x) > 0,
    ensures
        exists|i: int, k: int|
            #![trigger buckets[i].deque@[k]]
            0 <= i < n && 0 <= k < buckets[i].deque@.len() && buckets[i].deque@[k]@ == x,
    decreases n,
{
    broadcast use vstd::multiset::group_multiset_axioms;
    broadcast use vstd::seq_lib::group_to_multiset_ensures;

    if n > 0 {
        if buckets_held(buckets, n - 1).count(x) > 0 {
            lemma_held_in_bucket(buckets, n - 1, x);
        } else {
            let ps = buckets[n - 1].packets();
            assert(ps.to_multiset().count(x) > 0);
            assert(ps.contains(x));
            let k = choose|k: int| 0 <= k < ps.len() && ps[k] == x;
            assert(buckets[n - 1].deque@[k]@ == x);
        }
    }
}

/// The least recently put packet of the bucket at which the emit index stands comes out no
/// later than any packet in the buckets, any pending packet and any kept packet, when
/// those come after it: by accept time, then by capture time.
proof fn lemma_first_unsent<'a>(
    buckets: Seq<Bucket<'a>>,
    d: int,
    base: int,
    t: int,
    pending: Seq<(i64, Seq<u8>)>,
    kept: Option<(i64, Seq<u8>)>,
    v: (i64, Seq<u8>),
)
    requires
        buckets.len() == NUM_BUCKETS,
        0 <= d < NUM_BUCKETS,
        placed(buckets, d, base),
        arrived(buckets, t),
        buckets[d].deque@.len() > 0,
        forall|j: int|
            0 <= j < pending.len() ==> base * NANOS_PER_CENT <= quote_view(
                #[trigger] pending[j],
            ).accept_time && t <= pending[j].0,
        kept matches Some(u) ==> base * NANOS_PER_CENT <= quote_view(u).accept_time && t <= u.0,
        buckets_held(buckets, NUM_BUCKETS as int).count(v) > 0 || pending.contains(v) || kept
            == Some(v),
    ensures
        base * NANOS_PER_CENT < quote_view(v).accept_time || (base * NANOS_PER_CENT
            == quote_view(v).accept_time && buckets[d].deque@.last()@.0 <= v.0),
{
    let n = buckets[d].deque@.len();
    assert(buckets[d].deque@[n - 1] == buckets[d].deque@.last());
    assert(buckets[d].deque@[n - 1]@.0 <= t);
    if buckets_held(buckets, NUM_BUCKETS as int).count(v) > 0 {
        lemma_held_in_bucket(buckets, NUM_BUCKETS as int, v);
        let (i, k) = choose|i: int, k: int|
            #![trigger buckets[i].deque@[k]]
            0 <= i < NUM_BUCKETS && 0 <= k < buckets[i].deque@.len() && buckets[i].deque@[k]@ == v;
        assert(cent_aligned(buckets[i].deque@[k]@));
        lemma_aligned_cent(v);
        if i == d {
            assert(buckets[d].deque@[n - 1]@.0 <= buckets[d].deque@[k]@.0);
        }
    } else if pending.contains(v) {
        let j = choose|j: int| 0 <= j < pending.len() && pending[j] == v;
        assert(base * NANOS_PER_CENT <= quote_view(pending[j]).accept_time);
    }
}

/// The least recently put packet of the bucket at which the emit index stands, let out with
/// the bucket's times, carries its own accept time, and its own midnight too when the accept
/// time fields of the packets involved read times of day under 24 hours.
proof fn lemma_own_times<'a>(
    buckets: Seq<Bucket<'a>>,
    d: int,
    base: int,
    quote: Quote<'a>,
    u: Multiset<(i64, Seq<u8>)>,
)
    requires
        buckets.len() == NUM_BUCKETS,
        0 <= d < NUM_BUCKETS,
        placed(buckets, d, base),
        buckets[d].deque@.len() > 0,
        (quote.pkt_time@, quote.data@) == buckets[d].deque@.last()@,
        quote_times_from(quote, buckets[d].deque@[0]@),
        u.count(buckets[d].deque@[0]@) > 0,
        u.count(buckets[d].deque@.last()@) > 0,
    ensures
        quote.accept_time@ == quote_view((quote.pkt_time@, quote.data@)).accept_time,
        (forall|v: (i64, Seq<u8>)| #[trigger] u.count(v) > 0 ==> within_day(v)) ==> quote@
            == quote_view((quote.pkt_time@, quote.data@)),
{
    let n = buckets[d].deque@.len();
    let f = buckets[d].deque@[0]@;
    let l = buckets[d].deque@.last()@;
    assert(buckets[d].deque@[n - 1] == buckets[d].deque@.last());
    assert(sortable_packet(f) && cent_aligned(f) && accept_cent(f) == base + ring_steps(d, d));
    assert(sortable_packet(buckets[d].deque@[n - 1]@) && cent_aligned(l) && accept_cent(l) == base
        + ring_steps(d, d));
    lemma_aligned_cent(f);
    lemma_aligned_cent(l);
    if forall|v: (i64, Seq<u8>)| #[trigger] u.count(v) > 0 ==> within_day(v) {
        assert(within_day(f) && within_day(l));
        lemma_same_midnight(f, l);
    }
}

/// Each bucket holds the packets of `order` that go to it, the last of them in front.
spec fn order_matches<'a>(order: Seq<(i64, Seq<u8>)>, buckets: Seq<Bucket<'a>>) -> bool {
    forall|i: int|
        0 <= i < NUM_BUCKETS ==> #[trigger] in_bucket(order, i) == buckets[i].packets().reverse()
}

/// Putting a packet in the front of its bucket keeps the buckets in step with `order` with
/// the packet appended.
proof fn lemma_order_push<'a>(
    order: Seq<(i64, Seq<u8>)>,
    before: Seq<Bucket<'a>>,
    after: Seq<Bucket<'a>>,
    idx: int,
    p: QuotePacket<'a>,
)
    requires
        order_matches(order, before),
        0 <= idx < NUM_BUCKETS,
        ring_bucket(p@) == idx,
        after[idx].deque@ == seq![p] + before[idx].deque@,
        forall|i: int| 0 <= i < NUM_BUCKETS && i != idx ==> (#[trigger] after[i]).deque@ == before[i].deque@,
    ensures
        order_matches(order.push(p@), after),
{
    assert forall|i: int| 0 <= i < NUM_BUCKETS implies #[trigger] in_bucket(order.push(p@), i)
        == after[i].packets().reverse() by {
        lemma_in_bucket_push(order, p@, i);
        if i == idx {
            assert(after[i].packets() =~= seq![p@] + before[i].packets());
            assert((seq![p@] + before[i].packets()).reverse() =~= before[i].packets().reverse().push(
                p@,
            ));
        } else {
            assert(after[i].deque@ == before[i].deque@);
        }
    }
}

/// Appending a packet to `order` adds it to what `order` lists.
proof fn lemma_held_push(
    order: Seq<(i64, Seq<u8>)>,
    x: (i64, Seq<u8>),
    before: Multiset<(i64, Seq<u8>)>,
    after: Multiset<(i64, Seq<u8>)>,
)
    requires
        order.to_multiset() == before,
        before.insert(x) == after,
    ensures
        order.push(x).to_multiset() == after,
{
    broadcast use vstd::seq_lib::group_to_multiset_ensures;

}

/// Removing entry `k` of `order` takes it away from what `order` lists.
proof fn lemma_held_remove(
    order: Seq<(i64, Seq<u8>)>,
    k: int,
    after: Multiset<(i64, Seq<u8>)>,
    before: Multiset<(i64, Seq<u8>)>,
)
    requires
        0 <= k < order.len(),
        order.to_multiset() == before,
        after.insert(order[k]) == before,
    ensures
        order.remove(k).to_multiset() == after,
{
    broadcast use vstd::seq_lib::group_to_multiset_ensures;
    broadcast use vstd::multiset::group_multiset_axioms;

    assert(after =~= before.remove(order[k]));
}

/// Buckets with the same packets stay in step with the same order.
proof fn lemma_order_same<'a>(order: Seq<(i64, Seq<u8>)>, before: Seq<Bucket<'a>>, after: Seq<Bucket<'a>>)
    requires
        order_matches(order, before),
        forall|i: int| 0 <= i < NUM_BUCKETS ==> (#[trigger] after[i]).deque@ == before[i].deque@,
    ensures
        order_matches(order, after),
{
    assert forall|i: int| 0 <= i < NUM_BUCKETS implies #[trigger] in_bucket(order, i)
        == after[i].packets().reverse() by {
        assert(after[i].deque@ == before[i].deque@);
    }
}

/// Letting out the quote of the first packet of `order` that goes to bucket `d` lets it out
/// of the whole sequence of packets not yet let out, when that quote carries the times of
/// `f`, the packet most recently put in the bucket, which is the quote's own packet when it
/// was alone there.
proof fn lemma_let_out<'a>(
    order: Seq<(i64, Seq<u8>)>,
    kept: Seq<(i64, Seq<u8>)>,
    pending: Seq<(i64, Seq<u8>)>,
    k: int,
    d: int,
    q: Quote<'a>,
    f: (i64, Seq<u8>),
)
    requires
        0 <= k < order.len(),
        order[k] == (q.pkt_time@, q.data@),
        ring_bucket(order[k]) == d,
        forall|j: int| 0 <= j < k ==> ring_bucket(#[trigger] order[j]) != d,
        quote_times_from(q, f),
        last_in_bucket(order.remove(k), d) is None ==> f == (q.pkt_time@, q.data@),
        last_in_bucket(order.remove(k), d) matches Some(w) ==> w == f,
    ensures
        let_out_first(order + kept + pending, order.remove(k) + kept + pending, q, order.remove(k)),
{
    let before = order + kept + pending;
    assert(before[k] == order[k]);
    assert forall|j: int| 0 <= j < k implies ring_bucket(#[trigger] before[j]) != d by {
        assert(before[j] == order[j]);
    }
    assert(before.remove(k) =~= order.remove(k) + kept + pending);
}

/// Taking the least recently put packet out of bucket `d` takes out the first packet of
/// `order` that goes to bucket `d`; what is left of that bucket ends with its most recently
/// put packet.
proof fn lemma_order_pop<'a>(
    order: Seq<(i64, Seq<u8>)>,
    before: Seq<Bucket<'a>>,
    after: Seq<Bucket<'a>>,
    d: int,
) -> (k: int)
    requires
        order_matches(order, before),
        0 <= d < NUM_BUCKETS,
        before[d].deque@.len() > 0,
        after[d].deque@ == before[d].deque@.drop_last(),
        forall|i: int| 0 <= i < NUM_BUCKETS && i != d ==> (#[trigger] after[i]).deque@ == before[i].deque@,
    ensures
        0 <= k < order.len(),
        order[k] == before[d].deque@.last()@,
        ring_bucket(order[k]) == d,
        forall|j: int| 0 <= j < k ==> ring_bucket(#[trigger] order[j]) != d,
        order_matches(order.remove(k), after),
        last_in_bucket(order.remove(k), d) == if before[d].deque@.len() > 1 {
            Some(before[d].deque@[0]@)
        } else {
            None::<(i64, Seq<u8>)>
        },
{
    let m = before[d].packets();
    assert(in_bucket(order, d) == m.reverse());
    assert(m.reverse().len() > 0);
    let k = lemma_in_bucket_first(order, d);
    lemma_in_bucket_remove(order, k, d);
    assert(m.reverse()[0] == m[m.len() - 1]);
    assert(m[m.len() - 1] == before[d].deque@.last()@);
    assert(after[d].packets() =~= m.drop_last());
    assert(m.reverse().drop_first() =~= m.drop_last().reverse());
    assert forall|i: int| 0 <= i < NUM_BUCKETS implies #[trigger] in_bucket(order.remove(k), i)
        == after[i].packets().reverse() by {
        if i != d {
            assert(after[i].deque@ == before[i].deque@);
        }
    }
    if before[d].deque@.len() > 1 {
        assert(m.drop_last().reverse().last() == m[0]);
    }
    k
}

/// Reorders quote packets by accept time in a ring of 512 centisecond buckets (O(N)).
pub struct SortedQuoteIteratorBuckets<'a, T> {
    quote_iterator: T,
    buckets: Vec<Bucket<'a>>,
    drain_bucket_idx: Option<usize>,
    emit_idx: Option<usize>,
    earliest_accept_time: Timestamp,
    state: State<'a>,
    /// The centisecond that `emit_idx` stands for.
    emit_cent: Ghost<int>,
    /// The capture time of the last packet taken in.
    last_taken: Ghost<Option<i64>>,
    /// The earliest accept centisecond of the packets taken in.
    least_cent: Ghost<int>,
    /// The packets in the buckets, in the order they were put in.
    order: Ghost<Seq<(i64, Seq<u8>)>>,
}

/// The accept times that quotes of sortable packets can have.
pub open spec fn accept_in_range(t: i64) -> bool {
    -0x3F00_0000_0000_0000 - NANOS_PER_DAY <= t <= 0x3F00_0000_0000_0000 + max_accept_delta()
}

spec fn buckets_ok<'a>(buckets: Seq<Bucket<'a>>) -> bool {
    &&& buckets.len() == NUM_BUCKETS
    &&& forall|i: int| 0 <= i < NUM_BUCKETS ==> (#[trigger] buckets[i]).consistent()
}

spec fn state_rank<'a>(state: State<'a>) -> int {
    match state {
        State::DrainBuckets(_) => 0,
        State::DrainIterator => 1,
        State::EmitQuote(_, _) => 2,
    }
}

impl<'a, T: QuoteSource<'a>> SortedQuoteIteratorBuckets<'a, T> {
    /// The packets not yet taken in.
    pub closed spec fn pending(&self) -> Seq<(i64, Seq<u8>)> {
        self.quote_iterator.pending()
    }

    /// The quote packets taken in and not yet let out.
    pub closed spec fn held(&self) -> Multiset<(i64, Seq<u8>)> {
        let in_buckets = buckets_held(self.buckets@, NUM_BUCKETS as int);
        match self.state {
            State::EmitQuote(_, pending_push) => in_buckets.insert(pending_push.quote_packet@),
            _ => in_buckets,
        }
    }

    /// The quote packets held and pending.
    pub open spec fn unsent(&self) -> Multiset<(i64, Seq<u8>)> {
        self.held().add(self.pending().to_multiset())
    }

    /// The packets in the buckets, in the order they were put in.
    pub closed spec fn put_order(&self) -> Seq<(i64, Seq<u8>)> {
        self.order@
    }

    /// The packets not yet let out, in the order in which they were or will be taken in: those
    /// in the buckets, the one taken in and not yet put in its bucket, then those pending.
    pub closed spec fn unsent_order(&self) -> Seq<(i64, Seq<u8>)> {
        let kept = match self.state {
            State::EmitQuote(_, push) => seq![push.quote_packet@],
            _ => Seq::empty(),
        };
        self.order@ + kept + self.quote_iterator.pending()
    }

    pub closed spec fn wf(&self) -> bool {
        &&& buckets_ok(self.buckets@)
        &&& order_matches(self.order@, self.buckets@)
        &&& self.order@.to_multiset() == buckets_held(self.buckets@, NUM_BUCKETS as int)
        &&& self.emit_idx matches Some(e) ==> e < NUM_BUCKETS
        &&& self.drain_bucket_idx matches Some(d) ==> d < NUM_BUCKETS
        &&& (self.earliest_accept_time@ == i64::MAX || accept_in_range(self.earliest_accept_time@))
        &&& forall|i: int|
            0 <= i < self.quote_iterator.pending().len() ==> sortable_packet(
                #[trigger] self.quote_iterator.pending()[i],
            )
        &&& match self.state {
            State::DrainIterator => true,
            State::EmitQuote(safe_idx, pending_push) => {
                &&& safe_idx < NUM_BUCKETS
                &&& pending_push.index < NUM_BUCKETS
                &&& pending_push.index as int == ring_bucket(pending_push.quote_packet@)
                &&& pending_push.accept_time@ == quote_view(pending_push.quote_packet@).accept_time
                &&& pending_push.midnight_at_timezone@ == quote_view(
                    pending_push.quote_packet@,
                ).midnight_at_timezone
            },
            State::DrainBuckets(last_idx) => {
                &&& last_idx < NUM_BUCKETS
                &&& self.quote_iterator.pending().len() == 0
                &&& self.emit_idx matches Some(e) && forall|i: int|
                    0 <= i < NUM_BUCKETS && ring_steps(e as int, i) > ring_steps(e as int, last_idx as int)
                        ==> (#[trigger] self.buckets@[i]).deque@.len() == 0
            },
        }
    }

    /// The iterator is on course to let quotes out in order of accept time, and of capture
    /// time among equal accept times: the packets still pending arrive steadily after the
    /// last one taken in, and each held packet sits where its turn will come.
    pub closed spec fn keeps_order(&self) -> bool {
        self.keeps_order_in(self.state)
    }

    /// The capture time of the last packet taken in and the earliest accept centisecond of
    /// the packets taken in, once a packet was taken in.
    spec fn mark(&self) -> Option<(i64, int)> {
        match self.last_taken@ {
            Some(t) => Some((t, self.least_cent@)),
            None => None,
        }
    }

    /// The iterator would keep order in state `state`.
    spec fn keeps_order_in(&self, state: State<'a>) -> bool {
        &&& steady(self.mark(), self.quote_iterator.pending())
        &&& (self.drain_bucket_idx matches Some(d) ==> self.emit_idx == Some(d))
        &&& match self.last_taken@ {
            Some(t) => arrived(self.buckets@, t as int),
            None => forall|i: int|
                0 <= i < NUM_BUCKETS ==> (#[trigger] self.buckets@[i]).deque@.len() == 0,
        }
        &&& match self.emit_idx {
            None => {
                &&& state is DrainIterator
                &&& if self.earliest_accept_time@ == i64::MAX {
                    &&& self.last_taken@ is None
                    &&& forall|i: int|
                        0 <= i < NUM_BUCKETS ==> (#[trigger] self.buckets@[i]).deque@.len() == 0
                } else {
                    let earliest = self.earliest_accept_time@ as int;
                    &&& self.last_taken@ matches Some(t) && t < earliest + THREE_SECONDS_NANOS
                    &&& earliest % NANOS_PER_CENT as int == 0
                    &&& self.least_cent@ == earliest / NANOS_PER_CENT as int
                    &&& gathered(
                        self.buckets@,
                        earliest / NANOS_PER_CENT as int,
                        self.last_taken@->0 + early_capture(),
                    )
                }
            },
            Some(e) => {
                &&& e as int == self.emit_cent@ % NUM_BUCKETS as int
                &&& (self.last_taken@ is Some ==> self.least_cent@ <= self.emit_cent@)
                &&& placed(self.buckets@, e as int, self.emit_cent@)
                &&& match state {
                    State::DrainIterator => self.last_taken@ matches Some(t) && self.emit_cent@
                        == safe_cent(t as int),
                    State::EmitQuote(s, push) => {
                        let v = push.quote_packet@;
                        let safe = safe_cent(v.0 as int);
                        &&& self.last_taken@ == Some(v.0)
                        &&& sortable_packet(v)
                        &&& s as int == safe % NUM_BUCKETS as int
                        &&& self.emit_cent@ <= safe <= self.emit_cent@ + NUM_BUCKETS / 2
                        &&& cent_aligned(v)
                        &&& safe <= accept_cent(v) <= safe + 510
                        &&& push.index as int == accept_cent(v) % NUM_BUCKETS as int
                    },
                    State::DrainBuckets(_) => true,
                }
            },
        }
    }

    pub fn with_capacity(quote_iterator: T, bucket_capacity: usize) -> (it: Self)
        requires
            forall|i: int|
                0 <= i < quote_iterator.pending().len() ==> sortable_packet(
                    #[trigger] quote_iterator.pending()[i],
                ),
        ensures
            it.wf(),
            it.held() == Multiset::<(i64, Seq<u8>)>::empty(),
            it.pending() == quote_iterator.pending(),
            it.put_order().len() == 0,
            it.unsent_order() == quote_iterator.pending(),
            steady(None, quote_iterator.pending()) ==> it.keeps_order(),
    {
        let mut buckets: Vec<Bucket<'a>> = Vec::with_capacity(NUM_BUCKETS);
        let mut k: usize = 0;
        while k < NUM_BUCKETS
            invariant
                k <= NUM_BUCKETS,
                buckets@.len() == k,
                forall|i: int| 0 <= i < k ==> (#[trigger] buckets@[i]).consistent() && buckets@[i].deque@.len() == 0,
            decreases NUM_BUCKETS - k,
        {
            buckets.push(Bucket::with_capacity(bucket_capacity));
            k = k + 1;
        }
        proof {
            lemma_buckets_held_empty(buckets@, NUM_BUCKETS as int);
            lemma_empty_seq_to_multiset(Seq::<(i64, Seq<u8>)>::empty());
            assert forall|i: int| 0 <= i < NUM_BUCKETS implies #[trigger] in_bucket(
                Seq::<(i64, Seq<u8>)>::empty(),
                i,
            ) == buckets@[i].packets().reverse() by {
                assert(buckets@[i].packets().reverse() =~= Seq::<(i64, Seq<u8>)>::empty());
            }
        }
        Self {
            quote_iterator,
            buckets,
            drain_bucket_idx: None,
            // Set to the largest possible timestamp so it gets immediately overwritten by the
            // first packet
            earliest_accept_time: Timestamp::from_secs_and_nanos(0, i64::MAX),
            emit_idx: None,
            state: State::DrainIterator,
            emit_cent: Ghost(0),
            last_taken: Ghost(None),
            least_cent: Ghost(0),
            order: Ghost(Seq::empty()),
        }
    }

    /// Check if current emittable index is older than 3 seconds: whether `safe_idx` is at
    /// most half the ring ahead of `emit_idx`.
    fn is_current_index_expired(emit_idx: usize, safe_idx: usize) -> (r: bool)
        requires
            emit_idx < NUM_BUCKETS,
            safe_idx < NUM_BUCKETS,
        ensures
            r == (ring_steps(emit_idx as int, safe_idx as int) <= NUM_BUCKETS / 2),
    {
        let diff = if safe_idx >= emit_idx {
            safe_idx - emit_idx
        } else {
            safe_idx + NUM_BUCKETS - emit_idx
        };
        diff <= NUM_BUCKETS / 2
    }

    /// Takes the least recently put packet out of the first nonempty bucket from `emit_idx`
    /// on, going no further than `safe_idx`; `emit_idx` is left at that bucket, or at
    /// `safe_idx` when all of them are empty.
    ///
    /// When the packets sit where their turn comes, with `emit_idx` standing for centisecond
    /// `base`, they still do with the emit index moved on, and the quote let out is accepted
    /// at the centisecond its bucket stands for.
    fn find_non_empty_bucket<'b>(
        emit_idx: &mut usize,
        safe_idx: usize,
        buckets: &mut Vec<Bucket<'b>>,
        Ghost(base): Ghost<int>,
    ) -> (r: Option<(usize, Quote<'b>)>)
        requires
            *old(emit_idx) < NUM_BUCKETS,
            safe_idx < NUM_BUCKETS,
            buckets_ok(old(buckets)@),
        ensures
            buckets_ok(final(buckets)@),
            placed(old(buckets)@, *old(emit_idx) as int, base) ==> {
                &&& placed(
                    final(buckets)@,
                    *final(emit_idx) as int,
                    base + ring_steps(*old(emit_idx) as int, *final(emit_idx) as int),
                )
                &&& (r matches Some((d, quote)) ==> quote.accept_time@ == (base + ring_steps(
                    *old(emit_idx) as int,
                    d as int,
                )) * NANOS_PER_CENT)
            },
            match r {
                Some((d, quote)) => {
                    &&& d < NUM_BUCKETS
                    &&& *final(emit_idx) == d
                    &&& ring_steps(*old(emit_idx) as int, d as int) <= ring_steps(
                        *old(emit_idx) as int,
                        safe_idx as int,
                    )
                    &&& forall|i: int|
                        0 <= i < NUM_BUCKETS && ring_steps(*old(emit_idx) as int, i) < ring_steps(
                            *old(emit_idx) as int,
                            d as int,
                        )
                            ==> (#[trigger] old(buckets)@[i]).deque@.len() == 0
                    &&& forall|i: int|
                        0 <= i < NUM_BUCKETS && i != d ==> (#[trigger] final(buckets)@[i]).deque@
                            == old(buckets)@[i].deque@
                    &&& old(buckets)@[d as int].deque@.len() > 0
                    &&& final(buckets)@[d as int].deque@ == old(buckets)@[d as int].deque@.drop_last()
                    &&& (quote.pkt_time@, quote.data@) == old(buckets)@[d as int].deque@.last()@
                    &&& quote_times_from(quote, old(buckets)@[d as int].deque@[0]@)
                    &&& buckets_held(old(buckets)@, NUM_BUCKETS as int) == buckets_held(
                        final(buckets)@,
                        NUM_BUCKETS as int,
                    ).insert((quote.pkt_time@, quote.data@))
                },
                None => {
                    &&& *final(emit_idx) == safe_idx
                    &&& forall|i: int|
                        0 <= i < NUM_BUCKETS && ring_steps(*old(emit_idx) as int, i) <= ring_steps(
                            *old(emit_idx) as int,
                            safe_idx as int,
                        ) ==> (#[trigger] old(buckets)@[i]).deque@.len() == 0
                    &&& forall|i: int|
                        0 <= i < NUM_BUCKETS ==> (#[trigger] final(buckets)@[i]).deque@ == old(
                            buckets,
                        )@[i].deque@
                },
            },
    {
        let ghost e = *emit_idx as int;
        let mut next_idx = *emit_idx;
        loop
            invariant
                next_idx < NUM_BUCKETS,
                *emit_idx == next_idx,
                safe_idx < NUM_BUCKETS,
                buckets_ok(buckets@),
                buckets_ok(old(buckets)@),
                e == *old(emit_idx) as int,
                0 <= e < NUM_BUCKETS,
                ring_steps(e, next_idx as int) <= ring_steps(e, safe_idx as int),
                forall|i: int|
                    0 <= i < NUM_BUCKETS && ring_steps(e, i) < ring_steps(e, next_idx as int)
                        ==> (#[trigger] old(buckets)@[i]).deque@.len() == 0,
                forall|i: int|
                    0 <= i < NUM_BUCKETS ==> (#[trigger] buckets@[i]).deque@ == old(buckets)@[i].deque@,
            ensures
                next_idx == safe_idx,
                old(buckets)@[safe_idx as int].deque@.len() == 0,
            decreases ring_steps(next_idx as int, safe_idx as int),
        {
            let ghost before = buckets@;
            let popped = buckets[next_idx].pop();
            proof {
                lemma_buckets_held_update(before, next_idx as int, buckets@[next_idx as int], NUM_BUCKETS as int);
                assert(buckets@ == before.update(next_idx as int, buckets@[next_idx as int]));
            }
            match popped {
                Some(quote) => {
                    proof {
                        let d = next_idx as int;
                        lemma_packets_front_back(before[d].deque@, before[d].deque@[0]);
                        lemma_buckets_held_prefix_unchanged(before, old(buckets)@, NUM_BUCKETS as int);
                        lemma_cancel(
                            buckets_held(buckets@, NUM_BUCKETS as int),
                            buckets_held(before, NUM_BUCKETS as int),
                            buckets@[d].packets().to_multiset(),
                            (quote.pkt_time@, quote.data@),
                        );
                        if placed(old(buckets)@, e, base) {
                            lemma_placed_advance(old(buckets)@, buckets@, e, d, base);
                            let f = old(buckets)@[d].deque@[0]@;
                            assert(accept_cent(f) == base + ring_steps(e, d));
                            lemma_aligned_cent(f);
                        }
                    }
                    return Some((next_idx, quote));
                },
                None => {},
            }
            if next_idx == safe_idx {
                break;
            }
            next_idx = (next_idx + 1) % NUM_BUCKETS;
            *emit_idx = next_idx;
        }
        proof {
            if placed(old(buckets)@, e, base) {
                lemma_placed_advance(old(buckets)@, buckets@, e, safe_idx as int, base);
            }
        }
        None
    }

    /// Lets out the next quote of the bucket being emptied, or, when that bucket is empty,
    /// nothing.
    fn pop_current(&mut self) -> (r: Option<Quote<'a>>)
        requires
            old(self).wf(),
            old(self).drain_bucket_idx is Some,
        ensures
            final(self).wf(),
            final(self).pending() == old(self).pending(),
            final(self).state == old(self).state,
            r is Some <==> old(self).buckets@[old(self).drain_bucket_idx->0 as int].deque@.len() > 0,
            match r {
                Some(q) => let_out_first(
                    old(self).unsent_order(),
                    final(self).unsent_order(),
                    q,
                    final(self).put_order(),
                ),
                None => final(self).unsent_order() == old(self).unsent_order(),
            },
            match r {
                Some(q) => {
                    &&& (q.pkt_time@, q.data@) == old(self).buckets@[old(
                        self,
                    ).drain_bucket_idx->0 as int].deque@.last()@
                    &&& old(self).unsent() == final(self).unsent().insert((q.pkt_time@, q.data@))
                    &&& exists|v: (i64, Seq<u8>)| #[trigger]
                        old(self).unsent().count(v) > 0 && quote_times_from(q, v)
                },
                None => final(self).unsent() == old(self).unsent(),
            },
            old(self).keeps_order() ==> {
                &&& final(self).keeps_order()
                &&& (r matches Some(q) ==> forall|v: (i64, Seq<u8>)| #[trigger]
                    old(self).unsent().count(v) > 0 ==> emitted_before(q@, quote_view(v)))
                &&& (r matches Some(q) ==> q.accept_time@ == quote_view(
                    (q.pkt_time@, q.data@),
                ).accept_time)
                &&& (r matches Some(q) ==> (forall|v: (i64, Seq<u8>)| #[trigger]
                    old(self).unsent().count(v) > 0 ==> within_day(v)) ==> q@ == quote_view(
                    (q.pkt_time@, q.data@),
                ))
            },
    {
        broadcast use vstd::multiset::group_multiset_axioms;

        let ghost ko = self.keeps_order();
        let ghost start = self.unsent();
        let ghost before = self.buckets@;
        proof {
            self.lemma_buckets_in_unsent();
        }
        let index = match self.drain_bucket_idx {
            Some(index) => index,
            None => {
                return None;
            },
        };
        let ghost order = self.order@;
        let ghost unsent_order = self.unsent_order();
        let popped = self.buckets[index].pop();
        let ghost mut k: int = 0;
        proof {
            lemma_buckets_held_update(before, index as int, self.buckets@[index as int], NUM_BUCKETS as int);
            assert(self.buckets@ == before.update(index as int, self.buckets@[index as int]));
            assert(buckets_ok(self.buckets@));
            if popped is Some {
                k = lemma_order_pop(order, before, self.buckets@, index as int);
            } else {
                lemma_order_same(order, before, self.buckets@);
            }
        }
        if popped.is_some() {
            self.order = Ghost(order.remove(k));
        }
        proof {
            if ko {
                lemma_placed_advance(before, self.buckets@, index as int, index as int, self.emit_cent@);
                if self.last_taken@ is Some {
                    lemma_arrived_shrink(before, self.buckets@, self.last_taken@->0 as int);
                }
            }
        }
        match popped {
            Some(quote) => {
                proof {
                    let d = index as int;
                    lemma_packets_front_back(before[d].deque@, before[d].deque@[0]);
                    lemma_cancel(
                        buckets_held(self.buckets@, NUM_BUCKETS as int),
                        buckets_held(before, NUM_BUCKETS as int),
                        self.buckets@[d].packets().to_multiset(),
                        (quote.pkt_time@, quote.data@),
                    );
                    lemma_held_remove(
                        order,
                        k,
                        buckets_held(self.buckets@, NUM_BUCKETS as int),
                        buckets_held(before, NUM_BUCKETS as int),
                    );
                    assert(start =~= self.unsent().insert((quote.pkt_time@, quote.data@)));
                    let f = before[d].deque@[0]@;
                    assert(before[d].packets()[0] == f);
                    lemma_bucket_packet_held(before, d, NUM_BUCKETS as int, f);
                    assert(start.count(f) > 0 && quote_times_from(quote, f));
                    let l = before[d].deque@.last()@;
                    assert(before[d].packets()[before[d].deque@.len() - 1] == l);
                    lemma_bucket_packet_held(before, d, NUM_BUCKETS as int, l);
                    if ko {
                        lemma_own_times(before, d, self.emit_cent@, quote, start);
                    }
                    let kept = match self.state {
                        State::EmitQuote(_, push) => seq![push.quote_packet@],
                        _ => Seq::empty(),
                    };
                    lemma_let_out(order, kept, self.pending(), k, d, quote, f);
                    if ko {
                        assert(accept_cent(f) == self.emit_cent@ + ring_steps(d, d));
                        lemma_aligned_cent(f);
                        let t = self.last_taken@->0;
                        let pend = self.pending();
                        let kept = match self.state {
                            State::EmitQuote(_, pp) => Some(pp.quote_packet@),
                            _ => None,
                        };
                        if pend.len() > 0 {
                            lemma_pending_after(pend, t, self.least_cent@, self.emit_cent@);
                        }
                        if let State::EmitQuote(_, pp) = self.state {
                            lemma_aligned_cent(pp.quote_packet@);
                        }
                        assert forall|x: (i64, Seq<u8>)| #[trigger] start.count(x) > 0 implies emitted_before(
                            quote@,
                            quote_view(x),
                        ) by {
                            broadcast use vstd::seq_lib::group_to_multiset_ensures;

                            lemma_first_unsent(before, d, self.emit_cent@, t as int, pend, kept, x);
                        }
                    }
                }
                Some(quote)
            },
            None => {
                proof {
                    lemma_buckets_held_prefix_unchanged(before, self.buckets@, NUM_BUCKETS as int);
                }
                None
            },
        }
    }

    /// Takes the next pending packet in, when there is one: while the first bucket to let out
    /// is not known, notes the earliest accept time and fixes that bucket once the packet
    /// comes three seconds after it. Gives the index of the bucket of three seconds before
    /// the capture, with the packet to put in its bucket; the buckets are left as they are.
    fn take_in(&mut self) -> (r: Option<(usize, PendingPush<'a>)>)
        requires
            old(self).wf(),
            old(self).state is DrainIterator,
            old(self).drain_bucket_idx is None,
        ensures
            final(self).wf(),
            final(self).state is DrainIterator,
            final(self).drain_bucket_idx is None,
            final(self).buckets@ == old(self).buckets@,
            final(self).order == old(self).order,
            match r {
                None => {
                    &&& old(self).pending().len() == 0
                    &&& final(self).pending() == old(self).pending()
                    &&& final(self).unsent() == old(self).unsent()
                    &&& (old(self).keeps_order() ==> final(self).keeps_order())
                },
                Some((safe_idx, push)) => {
                    let v = push.quote_packet@;
                    &&& old(self).pending().len() > 0
                    &&& final(self).pending() == old(self).pending().drop_first()
                    &&& v == old(self).pending()[0]
                    &&& old(self).unsent() == final(self).unsent().insert(v)
                    &&& safe_idx < NUM_BUCKETS
                    &&& push.index < NUM_BUCKETS
                    &&& push.index as int == ring_bucket(v)
                    &&& push.accept_time@ == quote_view(v).accept_time
                    &&& push.midnight_at_timezone@ == quote_view(v).midnight_at_timezone
                    &&& old(self).keeps_order() ==> match final(self).emit_idx {
                        Some(_) => final(self).keeps_order_in(State::EmitQuote(safe_idx, push)),
                        None => {
                            let earliest = final(self).earliest_accept_time@ as int;
                            &&& final(self).keeps_order()
                            &&& final(self).last_taken@ == Some(v.0)
                            &&& sortable_packet(v)
                            &&& cent_aligned(v)
                            &&& earliest / NANOS_PER_CENT as int <= accept_cent(v)
                            &&& quote_view(v).accept_time <= v.0 + early_capture()
                            &&& push.index as int == accept_cent(v) % NUM_BUCKETS as int
                        },
                    }
                },
            },
    {
        broadcast use vstd::multiset::group_multiset_axioms;
        broadcast use Timestamp::lemma_from_nanos_spec;

        let ghost ko = self.keeps_order();
        let ghost start = self.unsent();
        let ghost p = self.pending();
        let ghost prev = self.last_taken@;
        let ghost prev_mark = self.mark();
        let ghost earliest0 = self.earliest_accept_time@ as int;
        let ghost emit0 = self.emit_idx;
        let ghost head_buckets = self.buckets@;
        let next_packet = self.quote_iterator.next_packet();
        let quote_packet = match next_packet {
            Some(qp) => qp,
            None => {
                return None;
            },
        };
        self.last_taken = Ghost(Some(quote_packet.pkt_time@));
        self.least_cent = Ghost(
            match mark_after(prev_mark, quote_packet@) {
                Some((_, m)) => m,
                None => 0,
            },
        );
        proof {
            assert(sortable_packet(p[0]));
            lemma_quote_in_range(p[0]);
            assert forall|i: int|
                0 <= i < self.quote_iterator.pending().len() implies sortable_packet(
                #[trigger] self.quote_iterator.pending()[i],
            ) by {
                assert(self.quote_iterator.pending()[i] == p[i + 1]);
            }
            lemma_pending_cons(p);
            assert(start =~= self.unsent().insert(p[0]));
            lemma_accept_aligned(p[0]);
            if ko {
                lemma_steady_step(prev_mark, p);
                lemma_safe_window(p[0]);
                if prev is Some {
                    lemma_arrived_weaken(head_buckets, prev->0 as int, p[0].0 as int);
                }
            }
        }
        let Quote { pkt_time, accept_time, midnight_at_timezone, data } = quote_packet.into_quote();
        let ghost t = pkt_time@ as int;
        // Initialize the index of the bucket that will be emitted first
        if self.emit_idx.is_none() {
            if accept_time.as_nanos() < self.earliest_accept_time.as_nanos() {
                self.earliest_accept_time = accept_time;
            }
            let since_earliest = pkt_time - self.earliest_accept_time;
            if since_earliest.as_nanos() >= THREE_SECONDS_NANOS {
                let earliest_cs = self.earliest_accept_time.timestamp_centiseconds();
                let emit_idx = (#[verifier::truncate] (earliest_cs as usize)) % NUM_BUCKETS;
                self.emit_idx = Some(emit_idx);
                self.emit_cent = Ghost(earliest_cs as int);
                proof {
                    if ko {
                        let e1 = self.earliest_accept_time@ as int;
                        lemma_tdiv_aligned(e1);
                        lemma_cast_ring_index(earliest_cs);
                        if earliest0 != i64::MAX as int {
                            lemma_gathered_placed(
                                head_buckets,
                                earliest0 / NANOS_PER_CENT as int,
                                prev->0 + early_capture(),
                                e1 / NANOS_PER_CENT as int,
                            );
                        }
                    }
                }
            }
        }
        // The index of (current_time - 3) seconds
        let safe_time = pkt_time - Timestamp::from_secs_and_nanos(3, 0);
        let safe_cs = safe_time.timestamp_centiseconds();
        let safe_idx = (#[verifier::truncate] (safe_cs as usize)) % NUM_BUCKETS;
        let accept_cs = accept_time.timestamp_centiseconds();
        let pending_push = PendingPush {
            index: (#[verifier::truncate] (accept_cs as usize)) % NUM_BUCKETS,
            quote_packet: QuotePacket { pkt_time, data },
            accept_time,
            midnight_at_timezone,
        };
        proof {
            assert(pending_push.quote_packet@ == p[0]);
            lemma_cast_ring_index(accept_cs);
            if ko {
                let cent_before = self.emit_cent@;
                lemma_cast_ring_index(safe_cs);
                lemma_cast_ring_index(accept_cs);
                lemma_tdiv_aligned(accept_time@ as int);
                assert(safe_cs == safe_cent(t));
                if self.emit_idx is Some {
                    if emit0 is Some {
                        lemma_tdiv_close(prev->0 - THREE_SECONDS_NANOS, t - THREE_SECONDS_NANOS);
                    } else {
                        let e1 = self.earliest_accept_time@ as int;
                        lemma_tdiv_bounds(t - THREE_SECONDS_NANOS);
                        assert(e1 == cent_before * NANOS_PER_CENT);
                        assert(cent_before <= safe_cs);
                        if earliest0 != i64::MAX as int {
                            lemma_tdiv_aligned(earliest0);
                            lemma_tdiv_bounds(prev->0 - THREE_SECONDS_NANOS);
                            assert(safe_cent(prev->0 as int) <= earliest0 / NANOS_PER_CENT as int);
                        }
                        assert(safe_cs <= cent_before + NUM_BUCKETS / 2);
                    }
                } else {
                    let e1 = self.earliest_accept_time@ as int;
                    lemma_tdiv_aligned(e1);
                    if earliest0 != i64::MAX as int {
                        lemma_tdiv_aligned(earliest0);
                        lemma_gathered_weaken(
                            head_buckets,
                            earliest0 / NANOS_PER_CENT as int,
                            prev->0 + early_capture(),
                            e1 / NANOS_PER_CENT as int,
                            t + early_capture(),
                        );
                    }
                }
            }
        }
        Some((safe_idx, pending_push))
    }

    /// Takes the next pending packet in. Once the first bucket to let out is known and a
    /// packet comes three seconds after its time, lets out the first quote whose time has
    /// come, and keeps the packet to put in its bucket once no more quotes are due; otherwise
    /// puts the packet in its bucket at once. Gives `None` when no packet is pending, and
    /// `Some(None)` when the packet was put in its bucket.
    fn take_next(&mut self) -> (r: Option<Option<Quote<'a>>>)
        requires
            old(self).wf(),
            old(self).state is DrainIterator,
            old(self).drain_bucket_idx is None,
        ensures
            final(self).wf(),
            match r {
                Some(Some(q)) => let_out_first(
                    old(self).unsent_order(),
                    final(self).unsent_order(),
                    q,
                    final(self).put_order(),
                ),
                _ => final(self).unsent_order() == old(self).unsent_order(),
            },
            match r {
                None => {
                    &&& old(self).pending().len() == 0
                    &&& final(self).pending() == old(self).pending()
                    &&& final(self).unsent() == old(self).unsent()
                    &&& final(self).state is DrainIterator
                    &&& final(self).drain_bucket_idx is None
                },
                Some(out) => {
                    &&& old(self).pending().len() > 0
                    &&& final(self).pending() == old(self).pending().drop_first()
                    &&& match out {
                        None => {
                            &&& final(self).unsent() == old(self).unsent()
                            &&& final(self).state is DrainIterator
                            &&& final(self).drain_bucket_idx is None
                        },
                        Some(q) => {
                            &&& old(self).unsent() == final(self).unsent().insert(
                                (q.pkt_time@, q.data@),
                            )
                            &&& exists|v: (i64, Seq<u8>)| #[trigger]
                                old(self).unsent().count(v) > 0 && quote_times_from(q, v)
                        },
                    }
                },
            },
            old(self).keeps_order() ==> {
                &&& final(self).keeps_order()
                &&& (r matches Some(Some(q)) ==> forall|v: (i64, Seq<u8>)| #[trigger]
                    old(self).unsent().count(v) > 0 ==> emitted_before(q@, quote_view(v)))
                &&& (r matches Some(Some(q)) ==> q.accept_time@ == quote_view(
                    (q.pkt_time@, q.data@),
                ).accept_time)
                &&& (r matches Some(Some(q)) ==> (forall|v: (i64, Seq<u8>)| #[trigger]
                    old(self).unsent().count(v) > 0 ==> within_day(v)) ==> q@ == quote_view(
                    (q.pkt_time@, q.data@),
                ))
            },
    {
        broadcast use vstd::multiset::group_multiset_axioms;

        let ghost ko = self.keeps_order();
        let ghost start = self.unsent();
        let ghost start_order = self.unsent_order();
        let ghost order = self.order@;
        let ghost p = self.pending();
        let (safe_idx, pending_push) = match self.take_in() {
            Some(taken) => taken,
            None => {
                return None;
            },
        };
        let ghost v = pending_push.quote_packet@;
        if self.emit_idx.is_some() {
            // Same as in state `EmitQuote`: let out the quotes that are due, then put the
            // packet in its bucket.
            self.state = State::EmitQuote(safe_idx, pending_push);
            proof {
                assert(self.unsent() =~= start);
                assert(p =~= seq![p[0]] + p.drop_first());
                assert(self.unsent_order() =~= start_order);
            }
            match self.emit_or_push() {
                Some(quote) => Some(Some(quote)),
                None => Some(None),
            }
        } else {
            let ghost before_push = self.buckets@;
            let index = pending_push.index;
            self.buckets[index].push(
                pending_push.quote_packet,
                pending_push.accept_time,
                pending_push.midnight_at_timezone,
            );
            proof {
                lemma_buckets_held_update(before_push, index as int, self.buckets@[index as int], NUM_BUCKETS as int);
                assert(self.buckets@ == before_push.update(index as int, self.buckets@[index as int]));
                lemma_packets_front_back(before_push[index as int].deque@, pending_push.quote_packet);
                lemma_cancel(
                    buckets_held(before_push, NUM_BUCKETS as int),
                    buckets_held(self.buckets@, NUM_BUCKETS as int),
                    before_push[index as int].packets().to_multiset(),
                    v,
                );
                assert(start =~= self.unsent());
                lemma_order_push(order, before_push, self.buckets@, index as int, pending_push.quote_packet);
                lemma_held_push(
                    order,
                    v,
                    buckets_held(before_push, NUM_BUCKETS as int),
                    buckets_held(self.buckets@, NUM_BUCKETS as int),
                );
                if ko {
                    let e1 = self.earliest_accept_time@ as int;
                    lemma_gathered_push(
                        before_push,
                        self.buckets@,
                        e1 / NANOS_PER_CENT as int,
                        v.0 + early_capture(),
                        pending_push.quote_packet,
                    );
                    lemma_arrived_push(before_push, self.buckets@, index as int, pending_push.quote_packet);
                }
            }
            self.order = Ghost(order.push(v));
            proof {
                assert(p =~= seq![p[0]] + p.drop_first());
                assert(self.unsent_order() =~= start_order);
            }
            Some(None)
        }
    }

    /// Once no packet is pending: from the first bucket to let out, or that of the earliest
    /// accept time when none is known yet, empties the buckets in ring order.
    fn start_draining(&mut self)
        requires
            old(self).wf(),
            old(self).state is DrainIterator,
            old(self).drain_bucket_idx is None,
            old(self).pending().len() == 0,
        ensures
            final(self).wf(),
            final(self).state is DrainBuckets,
            final(self).drain_bucket_idx is None,
            final(self).unsent() == old(self).unsent(),
            final(self).pending() == old(self).pending(),
            final(self).unsent_order() == old(self).unsent_order(),
            final(self).put_order() == old(self).put_order(),
            old(self).keeps_order() ==> final(self).keeps_order(),
    {
        let ghost ko = self.keeps_order();
        let emit_idx = match self.emit_idx {
            Some(emit_idx) => emit_idx,
            None => {
                // If `self.emit_idx` is `None`, that implies all of the packets are
                // younger than 3 seconds. `self.quote_iterator` is completely drained
                // but the packets still need to be emptied from the buckets.
                let earliest_cs = self.earliest_accept_time.timestamp_centiseconds();
                let emit_idx = (#[verifier::truncate] (earliest_cs as usize)) % NUM_BUCKETS;
                self.emit_idx = Some(emit_idx);
                self.emit_cent = Ghost(earliest_cs as int);
                proof {
                    if ko {
                        lemma_cast_ring_index(earliest_cs);
                        let earliest = self.earliest_accept_time@ as int;
                        if earliest != i64::MAX {
                            lemma_tdiv_aligned(earliest);
                            lemma_gathered_placed(
                                self.buckets@,
                                earliest / NANOS_PER_CENT as int,
                                self.last_taken@->0 + early_capture(),
                                earliest / NANOS_PER_CENT as int,
                            );
                        }
                    }
                }
                emit_idx
            },
        };
        let last_idx = if emit_idx == 0 {
            NUM_BUCKETS - 1
        } else {
            emit_idx - 1
        };
        self.state = State::DrainBuckets(last_idx);
    }

    /// With a packet kept back: lets out the first quote whose time has come, or, when none
    /// is left, puts the packet in its bucket and goes back to taking packets in.
    #[verifier::spinoff_prover]
    #[verifier::rlimit(40)]
    fn emit_or_push(&mut self) -> (r: Option<Quote<'a>>)
        requires
            old(self).wf(),
            old(self).state is EmitQuote,
            old(self).drain_bucket_idx is None,
        ensures
            final(self).wf(),
            final(self).pending() == old(self).pending(),
            match r {
                Some(q) => let_out_first(
                    old(self).unsent_order(),
                    final(self).unsent_order(),
                    q,
                    final(self).put_order(),
                ),
                None => final(self).unsent_order() == old(self).unsent_order(),
            },
            match r {
                Some(q) => {
                    &&& old(self).unsent() == final(self).unsent().insert((q.pkt_time@, q.data@))
                    &&& exists|v: (i64, Seq<u8>)| #[trigger]
                        old(self).unsent().count(v) > 0 && quote_times_from(q, v)
                },
                None => {
                    &&& final(self).unsent() == old(self).unsent()
                    &&& final(self).state is DrainIterator
                    &&& final(self).drain_bucket_idx is None
                },
            },
            old(self).keeps_order() ==> {
                &&& final(self).keeps_order()
                &&& (r matches Some(q) ==> forall|v: (i64, Seq<u8>)| #[trigger]
                    old(self).unsent().count(v) > 0 ==> emitted_before(q@, quote_view(v)))
                &&& (r matches Some(q) ==> q.accept_time@ == quote_view(
                    (q.pkt_time@, q.data@),
                ).accept_time)
                &&& (r matches Some(q) ==> (forall|v: (i64, Seq<u8>)| #[trigger]
                    old(self).unsent().count(v) > 0 ==> within_day(v)) ==> q@ == quote_view(
                    (q.pkt_time@, q.data@),
                ))
            },
    {
        broadcast use vstd::multiset::group_multiset_axioms;

        let ghost ko = self.keeps_order();
        let ghost start = self.unsent();
        let ghost before = self.buckets@;
        let ghost cent_before = self.emit_cent@;
        let ghost order = self.order@;
        let (safe_idx, pending_push) = match self.state {
            State::EmitQuote(safe_idx, pending_push) => (safe_idx, pending_push),
            _ => {
                return None;
            },
        };
        proof {
            self.lemma_buckets_in_unsent();
            if ko {
                lemma_ring_pos(safe_cent(pending_push.quote_packet@.0 as int), cent_before);
            }
        }
        // Drain all expired packets
        let ghost e_before = self.emit_idx;
        let mut found: Option<(usize, Quote<'a>)> = None;
        if let Some(emit_idx) = self.emit_idx {
            if Self::is_current_index_expired(emit_idx, safe_idx) {
                let mut e = emit_idx;
                found = Self::find_non_empty_bucket(&mut e, safe_idx, &mut self.buckets, Ghost(self.emit_cent@));
                self.emit_idx = Some(e);
                self.emit_cent = Ghost(self.emit_cent@ + ring_steps(emit_idx as int, e as int));
                proof {
                    if ko {
                        lemma_ring_advance(cent_before, emit_idx as int, e as int);
                    }
                }
            }
        }
        match found {
            Some((drain_bucket_idx, quote)) => {
                self.drain_bucket_idx = Some(drain_bucket_idx);
                let ghost mut k: int = 0;
                proof {
                    k = lemma_order_pop(order, before, self.buckets@, drain_bucket_idx as int);
                    lemma_held_remove(
                        order,
                        k,
                        buckets_held(self.buckets@, NUM_BUCKETS as int),
                        buckets_held(before, NUM_BUCKETS as int),
                    );
                }
                self.order = Ghost(order.remove(k));
                proof {
                    lemma_let_out(
                        order,
                        seq![pending_push.quote_packet@],
                        self.pending(),
                        k,
                        drain_bucket_idx as int,
                        quote,
                        before[drain_bucket_idx as int].deque@[0]@,
                    );
                    let out = (quote.pkt_time@, quote.data@);
                    assert(start =~= self.unsent().insert(out));
                    let f = before[drain_bucket_idx as int].deque@[0]@;
                    assert(before[drain_bucket_idx as int].packets()[0] == f);
                    lemma_bucket_packet_held(before, drain_bucket_idx as int, NUM_BUCKETS as int, f);
                    assert(start.count(f) > 0 && quote_times_from(quote, f));
                    let l = before[drain_bucket_idx as int].deque@.last()@;
                    assert(before[drain_bucket_idx as int].packets()[before[drain_bucket_idx as int].deque@.len() - 1] == l);
                    lemma_bucket_packet_held(before, drain_bucket_idx as int, NUM_BUCKETS as int, l);
                    if ko {
                        let d = drain_bucket_idx as int;
                        let kept = pending_push.quote_packet@;
                        let t = kept.0;
                        let pend = self.pending();
                        lemma_placed_advance(before, before, e_before->0 as int, d, cent_before);
                        lemma_arrived_shrink(before, self.buckets@, t as int);
                        lemma_aligned_cent(kept);
                        if pend.len() > 0 {
                            lemma_pending_after(pend, t, self.least_cent@, self.emit_cent@);
                        }
                        assert forall|x: (i64, Seq<u8>)| #[trigger] start.count(x) > 0 implies emitted_before(
                            quote@,
                            quote_view(x),
                        ) by {
                            broadcast use vstd::seq_lib::group_to_multiset_ensures;

                            lemma_first_unsent(before, d, self.emit_cent@, t as int, pend, Some(kept), x);
                        }
                        lemma_own_times(before, d, self.emit_cent@, quote, start);
                    }
                }
                Some(quote)
            },
            None => {
                // The earliest that the pending packet could be is (T - 3) seconds.
                // All packets <= (T - 3) seconds have been returned above before
                // adding the pending packet to the buckets here.
                proof {
                    lemma_buckets_held_prefix_unchanged(before, self.buckets@, NUM_BUCKETS as int);
                    lemma_order_same(order, before, self.buckets@);
                }
                self.state = State::DrainIterator;
                let ghost before_push = self.buckets@;
                let index = pending_push.index;
                self.buckets[index].push(
                    pending_push.quote_packet,
                    pending_push.accept_time,
                    pending_push.midnight_at_timezone,
                );
                proof {
                    lemma_buckets_held_update(before_push, index as int, self.buckets@[index as int], NUM_BUCKETS as int);
                    assert(self.buckets@ == before_push.update(index as int, self.buckets@[index as int]));
                    lemma_packets_front_back(before_push[index as int].deque@, pending_push.quote_packet);
                    lemma_cancel(
                        buckets_held(before_push, NUM_BUCKETS as int),
                        buckets_held(self.buckets@, NUM_BUCKETS as int),
                        before_push[index as int].packets().to_multiset(),
                        pending_push.quote_packet@,
                    );
                    assert(start =~= self.unsent());
                    lemma_order_push(order, before_push, self.buckets@, index as int, pending_push.quote_packet);
                    lemma_held_push(
                        order,
                        pending_push.quote_packet@,
                        buckets_held(before_push, NUM_BUCKETS as int),
                        buckets_held(self.buckets@, NUM_BUCKETS as int),
                    );
                    if ko {
                        lemma_placed_push(
                            before_push,
                            self.buckets@,
                            self.emit_idx->0 as int,
                            self.emit_cent@,
                            pending_push.quote_packet,
                        );
                    }
                }
                self.order = Ghost(order.push(pending_push.quote_packet@));
                proof {
                    assert(order.push(pending_push.quote_packet@) + Seq::<(i64, Seq<u8>)>::empty()
                        + self.pending() =~= order + seq![pending_push.quote_packet@]
                        + self.pending());
                }
                None
            },
        }
    }

    /// Once no packet is pending: lets out the first quote left in the buckets in ring order,
    /// or nothing when all are empty.
    fn drain_next(&mut self) -> (r: Option<Quote<'a>>)
        requires
            old(self).wf(),
            old(self).state is DrainBuckets,
            old(self).drain_bucket_idx is None,
        ensures
            final(self).wf(),
            final(self).pending() == old(self).pending(),
            match r {
                Some(q) => let_out_first(
                    old(self).unsent_order(),
                    final(self).unsent_order(),
                    q,
                    final(self).put_order(),
                ),
                None => final(self).unsent_order() == old(self).unsent_order()
                    && final(self).unsent_order().len() == 0,
            },
            match r {
                Some(q) => {
                    &&& old(self).unsent() == final(self).unsent().insert((q.pkt_time@, q.data@))
                    &&& exists|v: (i64, Seq<u8>)| #[trigger]
                        old(self).unsent().count(v) > 0 && quote_times_from(q, v)
                },
                None => {
                    &&& final(self).unsent() == old(self).unsent()
                    &&& final(self).unsent().len() == 0
                    &&& final(self).drain_bucket_idx is None
                },
            },
            old(self).keeps_order() ==> {
                &&& final(self).keeps_order()
                &&& (r matches Some(q) ==> forall|v: (i64, Seq<u8>)| #[trigger]
                    old(self).unsent().count(v) > 0 ==> emitted_before(q@, quote_view(v)))
                &&& (r matches Some(q) ==> q.accept_time@ == quote_view(
                    (q.pkt_time@, q.data@),
                ).accept_time)
                &&& (r matches Some(q) ==> (forall|v: (i64, Seq<u8>)| #[trigger]
                    old(self).unsent().count(v) > 0 ==> within_day(v)) ==> q@ == quote_view(
                    (q.pkt_time@, q.data@),
                ))
            },
    {
        broadcast use vstd::multiset::group_multiset_axioms;

        let ghost ko = self.keeps_order();
        let ghost start = self.unsent();
        let ghost before = self.buckets@;
        let ghost cent_before = self.emit_cent@;
        let ghost order = self.order@;
        let last_idx = match self.state {
            State::DrainBuckets(last_idx) => last_idx,
            _ => {
                return None;
            },
        };
        proof {
            self.lemma_buckets_in_unsent();
        }
        // Drain the rest of the packets from the buckets
        let ghost e_before = self.emit_idx;
        let mut found: Option<(usize, Quote<'a>)> = None;
        if let Some(emit_idx) = self.emit_idx {
            let mut e = emit_idx;
            found = Self::find_non_empty_bucket(&mut e, last_idx, &mut self.buckets, Ghost(self.emit_cent@));
            self.emit_idx = Some(e);
            self.emit_cent = Ghost(self.emit_cent@ + ring_steps(emit_idx as int, e as int));
            proof {
                if ko {
                    lemma_ring_advance(cent_before, emit_idx as int, e as int);
                }
            }
        }
        match found {
            Some((drain_bucket_idx, quote)) => {
                self.drain_bucket_idx = Some(drain_bucket_idx);
                let ghost mut k: int = 0;
                proof {
                    k = lemma_order_pop(order, before, self.buckets@, drain_bucket_idx as int);
                    lemma_held_remove(
                        order,
                        k,
                        buckets_held(self.buckets@, NUM_BUCKETS as int),
                        buckets_held(before, NUM_BUCKETS as int),
                    );
                }
                self.order = Ghost(order.remove(k));
                proof {
                    lemma_let_out(
                        order,
                        Seq::empty(),
                        self.pending(),
                        k,
                        drain_bucket_idx as int,
                        quote,
                        before[drain_bucket_idx as int].deque@[0]@,
                    );
                    let out = (quote.pkt_time@, quote.data@);
                    assert(start =~= self.unsent().insert(out));
                    let f = before[drain_bucket_idx as int].deque@[0]@;
                    assert(before[drain_bucket_idx as int].packets()[0] == f);
                    lemma_bucket_packet_held(before, drain_bucket_idx as int, NUM_BUCKETS as int, f);
                    assert(start.count(f) > 0 && quote_times_from(quote, f));
                    let l = before[drain_bucket_idx as int].deque@.last()@;
                    assert(before[drain_bucket_idx as int].packets()[before[drain_bucket_idx as int].deque@.len() - 1] == l);
                    lemma_bucket_packet_held(before, drain_bucket_idx as int, NUM_BUCKETS as int, l);
                    if ko {
                        let d = drain_bucket_idx as int;
                        let t = self.last_taken@->0;
                        let pend = self.pending();
                        lemma_placed_advance(before, before, e_before->0 as int, d, cent_before);
                        lemma_arrived_shrink(before, self.buckets@, t as int);
                        assert forall|x: (i64, Seq<u8>)| #[trigger] start.count(x) > 0 implies emitted_before(
                            quote@,
                            quote_view(x),
                        ) by {
                            broadcast use vstd::seq_lib::group_to_multiset_ensures;

                            lemma_first_unsent(before, d, self.emit_cent@, t as int, pend, None, x);
                        }
                        lemma_own_times(before, d, self.emit_cent@, quote, start);
                    }
                }
                Some(quote)
            },
            None => {
                proof {
                    assert forall|i: int| 0 <= i < NUM_BUCKETS implies (
                    #[trigger] self.buckets@[i]).deque@.len() == 0 by {
                        assert(before[i].deque@.len() == 0);
                    }
                    lemma_buckets_held_empty(self.buckets@, NUM_BUCKETS as int);
                    lemma_buckets_held_prefix_unchanged(before, self.buckets@, NUM_BUCKETS as int);
                    lemma_empty_seq_to_multiset(self.pending());
                    assert(self.unsent() =~= Multiset::empty());
                    lemma_order_same(order, before, self.buckets@);
                    assert forall|i: int| 0 <= i < NUM_BUCKETS implies #[trigger] in_bucket(
                        order,
                        i,
                    ).len() == 0 by {
                        assert(self.buckets@[i].packets().reverse().len() == 0);
                    }
                    lemma_in_no_bucket(order);
                }
                None
            },
        }
    }

    /// Takes the next packet in and either lets out quotes of buckets whose time has come or
    /// puts the packet in its bucket; once no packet is left, empties the buckets in ring
    /// order.
    ///
    /// Every packet taken in is let out exactly once: what is held and pending after a call,
    /// with the quote let out, is what was held and pending before it. `None` comes only when
    /// nothing is held or pending.
    ///
    /// Each bucket lets its packets out in the order they were put in: the quote let out comes
    /// from the first packet, in the order of taking in, of those not yet let out that go to
    /// its bucket (so before it come none of equal accept time), and carries the accept time
    /// and midnight of the packet most recently put in that bucket, which is its own when it
    /// was alone there.
    ///
    /// While the iterator keeps order, it still does after the call, and the quote let out
    /// carries its own accept time (and its own midnight, when the accept time fields of the
    /// quotes not yet let out read times of day under 24 hours) and comes no later than any
    /// quote not yet let out, by accept time and then by capture time: over a steady stream,
    /// quotes come out sorted, and those of equal accept time in the order they were
    /// captured.
    pub fn next(&mut self) -> (r: Option<Quote<'a>>)
        requires
            old(self).wf(),
        ensures
            final(self).wf(),
            final(self).pending().len() <= old(self).pending().len(),
            final(self).pending() == old(self).pending().skip(
                old(self).pending().len() - final(self).pending().len(),
            ),
            match r {
                Some(q) => let_out_first(
                    old(self).unsent_order(),
                    final(self).unsent_order(),
                    q,
                    final(self).put_order(),
                ),
                None => old(self).unsent_order().len() == 0 && final(self).unsent_order() == old(
                    self,
                ).unsent_order(),
            },
            match r {
                Some(q) => {
                    &&& old(self).unsent() == final(self).unsent().insert((q.pkt_time@, q.data@))
                    &&& exists|v: (i64, Seq<u8>)| #[trigger]
                        old(self).unsent().count(v) > 0 && quote_times_from(q, v)
                },
                None => old(self).unsent().len() == 0 && final(self).unsent().len() == 0,
            },
            old(self).keeps_order() ==> final(self).keeps_order(),
            old(self).keeps_order() ==> (r matches Some(q) ==> forall|v: (i64, Seq<u8>)| #[trigger]
                old(self).unsent().count(v) > 0 ==> emitted_before(q@, quote_view(v))),
            old(self).keeps_order() ==> (r matches Some(q) ==> forall|j: int|
                0 <= j < old(self).unsent_order().len() ==> emitted_before(
                    q@,
                    quote_view(#[trigger] old(self).unsent_order()[j]),
                )),
            old(self).keeps_order() ==> (r matches Some(q) ==> q.accept_time@ == quote_view(
                (q.pkt_time@, q.data@),
            ).accept_time),
            old(self).keeps_order() ==> (r matches Some(q) ==> (forall|v: (i64, Seq<u8>)| #[trigger]
                old(self).unsent().count(v) > 0 ==> within_day(v)) ==> q@ == quote_view(
                (q.pkt_time@, q.data@),
            )),
    {
        let ghost start = self.unsent();
        let ghost start_pending = self.pending();
        let ghost ko = self.keeps_order();
        let ghost start_order = self.unsent_order();
        proof {
            assert(start_pending.skip(0) =~= start_pending);
            self.lemma_unsent_order();
            assert forall|j: int| 0 <= j < start_order.len() implies start.count(
                #[trigger] start_order[j],
            ) > 0 by {
                broadcast use vstd::seq_lib::group_to_multiset_ensures;

                assert(start_order.contains(start_order[j]));
            }
        }
        // Return the packets from the current bucket. If one packet was returned and
        // `self.drain_bucket_idx` was set to `Some`, then all the other packets in the same
        // bucket must also be older than 3 seconds.
        if self.drain_bucket_idx.is_some() {
            if let Some(quote) = self.pop_current() {
                return Some(quote);
            }
        }
        self.drain_bucket_idx = None;
        loop
            invariant
                self.wf(),
                self.drain_bucket_idx is None,
                self.unsent() == start,
                self.unsent_order() == old(self).unsent_order(),
                self.pending().len() <= start_pending.len(),
                self.pending() == start_pending.skip(start_pending.len() - self.pending().len()),
                start == old(self).unsent(),
                start_pending == old(self).pending(),
                start_order == old(self).unsent_order(),
                forall|j: int| 0 <= j < start_order.len() ==> start.count(#[trigger] start_order[j]) > 0,
                ko == old(self).keeps_order(),
                ko ==> self.keeps_order(),
            ensures
                self.wf(),
                self.unsent() == start,
                self.unsent().len() == 0,
                self.unsent_order() == old(self).unsent_order(),
                self.unsent_order().len() == 0,
                ko ==> self.keeps_order(),
                self.pending() == start_pending.skip(start_pending.len() - self.pending().len()),
                self.pending().len() <= start_pending.len(),
            decreases self.pending().len(), state_rank(self.state),
        {
            match self.state {
                State::DrainIterator => {
                    loop
                        invariant
                            self.wf(),
                            self.drain_bucket_idx is None,
                            self.state matches State::DrainIterator,
                            self.unsent() == start,
                            self.unsent_order() == old(self).unsent_order(),
                            self.pending().len() <= start_pending.len(),
                            self.pending() == start_pending.skip(start_pending.len() - self.pending().len()),
                            start == old(self).unsent(),
                            start_pending == old(self).pending(),
                            start_order == old(self).unsent_order(),
                            forall|j: int|
                                0 <= j < start_order.len() ==> start.count(#[trigger] start_order[j]) > 0,
                            ko == old(self).keeps_order(),
                            ko ==> self.keeps_order(),
                        ensures
                            self.wf(),
                            self.drain_bucket_idx is None,
                            self.state matches State::DrainIterator,
                            ko ==> self.keeps_order(),
                            self.unsent() == start,
                            self.unsent_order() == old(self).unsent_order(),
                            self.pending().len() == 0,
                            self.pending() == start_pending.skip(start_pending.len() - self.pending().len()),
                        decreases self.pending().len(),
                    {
                        let ghost p = self.pending();
                        match self.take_next() {
                            None => {
                                break;
                            },
                            Some(None) => {
                                proof {
                                    lemma_skip_more(start_pending, p);
                                }
                            },
                            Some(Some(quote)) => {
                                proof {
                                    lemma_skip_more(start_pending, p);
                                }
                                return Some(quote);
                            },
                        }
                    }
                    self.start_draining();
                },
                State::EmitQuote(_, _) => {
                    if let Some(quote) = self.emit_or_push() {
                        return Some(quote);
                    }
                },
                State::DrainBuckets(_) => {
                    match self.drain_next() {
                        Some(quote) => {
                            return Some(quote);
                        },
                        None => {
                            break;
                        },
                    }
                },
            }
        }
        None
    }

    /// The packets not yet let out, listed in the order in which they were or will be taken
    /// in, are exactly the packets held and pending.
    pub proof fn lemma_unsent_order(&self)
        requires
            self.wf(),
        ensures
            self.unsent_order().to_multiset() == self.unsent(),
    {
        broadcast use vstd::seq_lib::group_to_multiset_ensures;
        broadcast use vstd::multiset::group_multiset_axioms;

        let kept = match self.state {
            State::EmitQuote(_, push) => seq![push.quote_packet@],
            _ => Seq::empty(),
        };
        let pending = self.quote_iterator.pending();
        vstd::seq_lib::lemma_multiset_commutative(self.order@ + kept, pending);
        vstd::seq_lib::lemma_multiset_commutative(self.order@, kept);
        match self.state {
            State::EmitQuote(_, push) => {
                assert(kept =~= Seq::<(i64, Seq<u8>)>::empty().push(push.quote_packet@));
                lemma_empty_seq_to_multiset(Seq::<(i64, Seq<u8>)>::empty());
            },
            _ => {
                lemma_empty_seq_to_multiset(kept);
            },
        }
        assert(self.unsent_order().to_multiset() =~= self.unsent());
    }

    /// What the buckets hold is held, and so unsent.
    proof fn lemma_buckets_in_unsent(&self)
        ensures
            forall|x: (i64, Seq<u8>)|
                buckets_held(self.buckets@, NUM_BUCKETS as int).count(x) <= #[trigger] self.unsent().count(
                    x,
                ),
    {
        broadcast use vstd::multiset::group_multiset_axioms;

    }
}

proof fn lemma_empty_seq_to_multiset<A>(s: Seq<A>)
    requires
        s.len() == 0,
    ensures
        s.to_multiset() == Multiset::<A>::empty(),
{
    broadcast use vstd::seq_lib::group_to_multiset_ensures;

    assert(s.to_multiset().len() == 0);
    assert(s.to_multiset() =~= Multiset::<A>::empty());
}

/// Taking the first of the pending packets keeps them a suffix of where they started.
proof fn lemma_skip_more<A>(start: Seq<A>, p: Seq<A>)
    requires
        p.len() > 0,
        p.len() <= start.len(),
        p == start.skip(start.len() - p.len()),
    ensures
        p.drop_first() == start.skip(start.len() - p.drop_first().len()),
{
    assert(p.drop_first() =~= start.skip(start.len() - p.drop_first().len()));
}

/// The multiset of a nonempty sequence is that of its tail with its head.
proof fn lemma_pending_cons<A>(p: Seq<A>)
    requires
        p.len() > 0,
    ensures
        p.to_multiset() == p.drop_first().to_multiset().insert(p[0]),
{
    broadcast use vstd::seq_lib::group_to_multiset_ensures;
    broadcast use vstd::multiset::group_multiset_axioms;

    assert(p.remove(0) =~= p.drop_first());
    assert(p.to_multiset().count(p[0]) > 0) by {
        assert(p.contains(p[0]));
    }
    assert(p.to_multiset() =~= p.drop_first().to_multiset().insert(p[0]));
}

} // verus!
