//! Reordering quotes by accept time with a priority queue: each quote packet taken in is
//! held, and the earliest held quote is let out once a packet arrives three seconds after its
//! accept time.
use super::{
    lemma_quote_in_range, max_accept_delta, quote_view, sortable_packet, Quote, QuoteSource,
    QuoteView,
};
use crate::time::{Timestamp, NANOS_PER_DAY};
use vstd::multiset::Multiset;
use vstd::prelude::*;

verus! {

/// Three seconds in nanoseconds: how long a quote may take to reach the capture.
pub const THREE_SECONDS_NANOS: i64 = 3_000_000_000;

/// `a` is let out no later than `b`: by accept time, then by capture time.
pub open spec fn emitted_before(a: QuoteView, b: QuoteView) -> bool {
    a.accept_time < b.accept_time || (a.accept_time == b.accept_time && a.pkt_time <= b.pkt_time)
}

/// `q` is held in `h` and no held quote is to be let out before it.
pub open spec fn is_earliest(h: Multiset<QuoteView>, q: QuoteView) -> bool {
    h.count(q) > 0 && forall|x: QuoteView| #[trigger] h.count(x) > 0 ==> emitted_before(q, x)
}

/// A packet captured at `cur` is three seconds past the accept time of the earliest quote of
/// `h`.
pub open spec fn expired(cur: i64, h: Multiset<QuoteView>) -> bool {
    exists|q: QuoteView| #[trigger] is_earliest(h, q) && cur - q.accept_time >= THREE_SECONDS_NANOS
}

/// The quotes of the packets `p`.
pub open spec fn quotes_of(p: Seq<(i64, Seq<u8>)>) -> Multiset<QuoteView> {
    p.map_values(|x: (i64, Seq<u8>)| quote_view(x)).to_multiset()
}

pub open spec fn opt_view<'a>(r: Option<Quote<'a>>) -> Option<QuoteView> {
    match r {
        Some(q) => Some(q@),
        None => None,
    }
}

/// One step of the heap iterator, from held quotes `h` and pending packets `p` to the quote
/// `r` it gives, the quotes `h2` it then holds and the packets `p2` still pending. Packets are
/// taken in one at a time; as soon as the capture time of the packet just taken in is three
/// seconds past the accept time of the earliest held quote, that quote is let out. When no
/// packet is left, the earliest held quote is let out, or nothing when none is held.
pub open spec fn heap_step(
    h: Multiset<QuoteView>,
    p: Seq<(i64, Seq<u8>)>,
    r: Option<QuoteView>,
    h2: Multiset<QuoteView>,
    p2: Seq<(i64, Seq<u8>)>,
) -> bool
    decreases p.len(),
{
    if p.len() == 0 {
        match r {
            None => h.len() == 0 && h2 == h && p2 == p,
            Some(q) => is_earliest(h, q) && h2 == h.remove(q) && p2 == p,
        }
    } else {
        let h1 = h.insert(quote_view(p[0]));
        if expired(p[0].0, h1) {
            match r {
                Some(q) => is_earliest(h1, q) && p[0].0 - q.accept_time >= THREE_SECONDS_NANOS
                    && h2 == h1.remove(q) && p2 == p.drop_first(),
                None => false,
            }
        } else {
            heap_step(h1, p.drop_first(), r, h2, p2)
        }
    }
}

/// Reorders quote packets by accept time, holding each quote until a packet captured three
/// seconds after its accept time comes in.
pub struct SortedQuoteIteratorHeap<'a, T> {
    quote_iterator: T,
    /// Held quotes, latest first, so that the earliest is last.
    heap: Vec<Quote<'a>>,
}

/// The accept times that quotes of sortable packets can have.
pub open spec fn accept_in_range(t: i64) -> bool {
    -0x3F00_0000_0000_0000 - NANOS_PER_DAY <= t <= 0x3F00_0000_0000_0000 + max_accept_delta()
}

impl<'a, T: QuoteSource<'a>> SortedQuoteIteratorHeap<'a, T> {
    /// The quotes held.
    pub closed spec fn held(&self) -> Multiset<QuoteView> {
        self.heap@.map_values(|q: Quote<'a>| q@).to_multiset()
    }

    /// The packets not yet taken in.
    pub closed spec fn pending(&self) -> Seq<(i64, Seq<u8>)> {
        self.quote_iterator.pending()
    }

    pub closed spec fn wf(&self) -> bool {
        &&& forall|i: int, j: int|
            0 <= i < j < self.heap@.len() ==> emitted_before(
                #[trigger] self.heap@[j]@,
                #[trigger] self.heap@[i]@,
            )
        &&& forall|i: int| 0 <= i < self.heap@.len() ==> accept_in_range(#[trigger] self.heap@[i]@.accept_time)
        &&& forall|i: int|
            0 <= i < self.quote_iterator.pending().len() ==> sortable_packet(
                #[trigger] self.quote_iterator.pending()[i],
            )
    }

    pub fn with_capacity(quote_iterator: T, init_capacity: usize) -> (it: Self)
        requires
            forall|i: int|
                0 <= i < quote_iterator.pending().len() ==> sortable_packet(
                    #[trigger] quote_iterator.pending()[i],
                ),
        ensures
            it.wf(),
            it.held() == Multiset::<QuoteView>::empty(),
            it.pending() == quote_iterator.pending(),
            arrive_in_order(quote_iterator.pending()) ==> taken_in_order(it.held(), it.pending()),
    {
        let it = Self { quote_iterator, heap: Vec::with_capacity(init_capacity) };
        proof {
            let mapped = it.heap@.map_values(|q: Quote<'a>| q@);
            assert(mapped =~= Seq::<QuoteView>::empty());
            lemma_empty_to_multiset(mapped);
        }
        it
    }

    /// Holds `quote` among the held quotes, keeping them latest first.
    fn hold(&mut self, quote: Quote<'a>)
        requires
            old(self).wf(),
            accept_in_range(quote@.accept_time),
        ensures
            final(self).wf(),
            final(self).held() == old(self).held().insert(quote@),
            final(self).pending() == old(self).pending(),
            final(self).heap@.len() == old(self).heap@.len() + 1,
    {
        let key_accept = quote.accept_time.as_nanos();
        let key_pkt = quote.pkt_time.as_nanos();
        let mut lo: usize = 0;
        let mut hi: usize = self.heap.len();
        while lo < hi
            invariant
                0 <= lo <= hi <= self.heap@.len(),
                self.wf(),
                key_accept == quote@.accept_time,
                key_pkt == quote@.pkt_time,
                self.heap == old(self).heap,
                self.quote_iterator == old(self).quote_iterator,
                forall|k: int| 0 <= k < lo ==> !emitted_before(#[trigger] self.heap@[k]@, quote@),
                forall|k: int|
                    hi <= k < self.heap@.len() ==> emitted_before(#[trigger] self.heap@[k]@, quote@),
            decreases hi - lo,
        {
            let mid = lo + (hi - lo) / 2;
            let mid_accept = self.heap[mid].accept_time.as_nanos();
            let mid_pkt = self.heap[mid].pkt_time.as_nanos();
            if mid_accept < key_accept || (mid_accept == key_accept && mid_pkt <= key_pkt) {
                proof {
                    assert forall|k: int| mid <= k < self.heap@.len() implies emitted_before(
                        #[trigger] self.heap@[k]@,
                        quote@,
                    ) by {
                        if k > mid {
                            assert(emitted_before(self.heap@[k]@, self.heap@[mid as int]@));
                        }
                    }
                }
                hi = mid;
            } else {
                proof {
                    assert forall|k: int| 0 <= k <= mid implies !emitted_before(
                        #[trigger] self.heap@[k]@,
                        quote@,
                    ) by {
                        if k < mid {
                            assert(emitted_before(self.heap@[mid as int]@, self.heap@[k]@));
                        }
                    }
                }
                lo = mid + 1;
            }
        }
        let ghost old_heap = self.heap@;
        self.heap.insert(lo, quote);
        proof {
            let mapped = old_heap.map_values(|q: Quote<'a>| q@);
            assert(self.heap@.map_values(|q: Quote<'a>| q@) =~= mapped.insert(lo as int, quote@));
            vstd::seq_lib::to_multiset_insert(mapped, lo as int, quote@);
            assert forall|i: int, j: int| 0 <= i < j < self.heap@.len() implies emitted_before(
                #[trigger] self.heap@[j]@,
                #[trigger] self.heap@[i]@,
            ) by {
                if j < lo {
                    assert(self.heap@[j] == old_heap[j]);
                    assert(self.heap@[i] == old_heap[i]);
                } else if j == lo {
                    assert(self.heap@[i] == old_heap[i]);
                    assert(!emitted_before(old_heap[i]@, quote@));
                } else if i < lo {
                    assert(self.heap@[j] == old_heap[j - 1]);
                    assert(self.heap@[i] == old_heap[i]);
                } else if i == lo {
                    assert(self.heap@[j] == old_heap[j - 1]);
                } else {
                    assert(self.heap@[j] == old_heap[j - 1]);
                    assert(self.heap@[i] == old_heap[i - 1]);
                }
            }
            assert forall|i: int| 0 <= i < self.heap@.len() implies accept_in_range(
                #[trigger] self.heap@[i]@.accept_time,
            ) by {
                if i > lo {
                    assert(self.heap@[i] == old_heap[i - 1]);
                }
            }
        }
    }

    /// Lets out the earliest held quote.
    fn let_out(&mut self) -> (r: Quote<'a>)
        requires
            old(self).wf(),
            old(self).heap@.len() > 0,
        ensures
            final(self).wf(),
            is_earliest(old(self).held(), r@),
            final(self).held() == old(self).held().remove(r@),
            final(self).pending() == old(self).pending(),
            accept_in_range(r@.accept_time),
    {
        let ghost old_heap = self.heap@;
        let r = self.heap.pop().unwrap();
        proof {
            let n = old_heap.len() - 1;
            let mapped = old_heap.map_values(|q: Quote<'a>| q@);
            assert(self.heap@.map_values(|q: Quote<'a>| q@) =~= mapped.remove(n));
            vstd::seq_lib::to_multiset_remove(mapped, n);
            vstd::seq_lib::to_multiset_contains(mapped, r@);
            assert(mapped[n] == r@);
            assert forall|x: QuoteView| #[trigger] mapped.to_multiset().count(x) > 0 implies emitted_before(
                r@,
                x,
            ) by {
                vstd::seq_lib::to_multiset_contains(mapped, x);
                let k = choose|k: int| 0 <= k < mapped.len() && mapped[k] == x;
                if k < n {
                    assert(emitted_before(old_heap[n]@, old_heap[k]@));
                }
            }
        }
        r
    }

    /// The next quote in accept-time order, as `heap_step` describes.
    pub fn next(&mut self) -> (r: Option<Quote<'a>>)
        requires
            old(self).wf(),
        ensures
            final(self).wf(),
            heap_step(
                old(self).held(),
                old(self).pending(),
                opt_view(r),
                final(self).held(),
                final(self).pending(),
            ),
    {
        loop
            invariant
                self.wf(),
                forall|r: Option<QuoteView>, h2: Multiset<QuoteView>, p2: Seq<(i64, Seq<u8>)>|
                    #[trigger] heap_step(self.held(), self.pending(), r, h2, p2) ==> heap_step(
                        old(self).held(),
                        old(self).pending(),
                        r,
                        h2,
                        p2,
                    ),
            decreases self.pending().len(),
        {
            let ghost h = self.held();
            let ghost p = self.pending();
            match self.quote_iterator.next_packet() {
                Some(quote_packet) => {
                    proof {
                        assert(sortable_packet(p[0]));
                        lemma_quote_in_range(p[0]);
                        assert forall|i: int|
                            0 <= i < self.quote_iterator.pending().len() implies sortable_packet(
                            #[trigger] self.quote_iterator.pending()[i],
                        ) by {
                            assert(self.quote_iterator.pending()[i] == p[i + 1]);
                        }
                    }
                    let current_time = quote_packet.pkt_time.as_nanos();
                    let quote = quote_packet.into_quote();
                    self.hold(quote);
                    let ghost h1 = self.held();
                    let last = self.heap.len() - 1;
                    let earliest_accept = self.heap[last].accept_time.as_nanos();
                    proof {
                        let mapped = self.heap@.map_values(|q: Quote<'a>| q@);
                        vstd::seq_lib::to_multiset_contains(mapped, mapped[last as int]);
                        assert forall|x: QuoteView| #[trigger] h1.count(x) > 0 implies emitted_before(
                            mapped[last as int],
                            x,
                        ) by {
                            vstd::seq_lib::to_multiset_contains(mapped, x);
                            let k = choose|k: int| 0 <= k < mapped.len() && mapped[k] == x;
                            if k < last {
                                assert(emitted_before(self.heap@[last as int]@, self.heap@[k]@));
                            }
                        }
                        assert(is_earliest(h1, mapped[last as int]));
                    }
                    proof {
                        assert(current_time == p[0].0);
                        assert(accept_in_range(self.heap@[last as int]@.accept_time));
                        assert(max_accept_delta() < 0x1000_0000_0000_0000);
                    }
                    if current_time - earliest_accept >= THREE_SECONDS_NANOS {
                        let earliest = self.let_out();
                        proof {
                            assert(expired(p[0].0, h1));
                            assert(heap_step(h, p, Some(earliest@), self.held(), self.pending()));
                        }
                        return Some(earliest);
                    }
                    proof {
                        let e = self.heap@[last as int]@;
                        assert forall|q: QuoteView| #[trigger] is_earliest(h1, q) implies p[0].0
                            - q.accept_time < THREE_SECONDS_NANOS by {
                            assert(emitted_before(q, e));
                            assert(emitted_before(e, q));
                        }
                        assert(!expired(p[0].0, h1));
                        assert forall|r: Option<QuoteView>, h2: Multiset<QuoteView>, p2: Seq<(i64, Seq<u8>)>|
                            #[trigger] heap_step(self.held(), self.pending(), r, h2, p2) implies heap_step(
                            h,
                            p,
                            r,
                            h2,
                            p2,
                        ) by {}
                    }
                },
                None => {
                    if self.heap.len() == 0 {
                        proof {
                            let mapped = self.heap@.map_values(|q: Quote<'a>| q@);
                            assert(mapped =~= Seq::<QuoteView>::empty());
                            lemma_empty_to_multiset(mapped);
                            assert(heap_step(h, p, None, self.held(), self.pending()));
                        }
                        return None;
                    }
                    let earliest = self.let_out();
                    proof {
                        assert(heap_step(h, p, Some(earliest@), self.held(), self.pending()));
                    }
                    return Some(earliest);
                },
            }
        }
    }
}

/// The quotes of nonempty `p` are that of its first packet and those of the rest.
pub proof fn lemma_quotes_of_cons(p: Seq<(i64, Seq<u8>)>)
    requires
        p.len() > 0,
    ensures
        quotes_of(p) == quotes_of(p.drop_first()).insert(quote_view(p[0])),
{
    broadcast use vstd::seq_lib::group_to_multiset_ensures;
    broadcast use vstd::multiset::group_multiset_axioms;

    let m = p.map_values(|x: (i64, Seq<u8>)| quote_view(x));
    assert(m.remove(0) =~= p.drop_first().map_values(|x: (i64, Seq<u8>)| quote_view(x)));
    assert(m.to_multiset().count(m[0]) > 0) by {
        assert(m.contains(m[0]));
    }
    assert(m.to_multiset() =~= m.remove(0).to_multiset().insert(m[0]));
}

/// Nothing is lost or made up: what is held and pending before a step is what is held and
/// pending after it, together with the quote let out; and a step lets out nothing only when
/// nothing is held or pending.
pub proof fn lemma_heap_step_conserves(
    h: Multiset<QuoteView>,
    p: Seq<(i64, Seq<u8>)>,
    r: Option<QuoteView>,
    h2: Multiset<QuoteView>,
    p2: Seq<(i64, Seq<u8>)>,
)
    requires
        heap_step(h, p, r, h2, p2),
    ensures
        match r {
            Some(q) => h.add(quotes_of(p)) == h2.add(quotes_of(p2)).insert(q),
            None => h.len() == 0 && p.len() == 0,
        },
    decreases p.len(),
{
    broadcast use vstd::multiset::group_multiset_axioms;

    if p.len() == 0 {
        match r {
            Some(q) => {
                assert(h =~= h.remove(q).insert(q));
                assert(h.add(quotes_of(p)) =~= h2.add(quotes_of(p2)).insert(q));
            },
            None => {},
        }
    } else {
        let h1 = h.insert(quote_view(p[0]));
        lemma_quotes_of_cons(p);
        assert(h.add(quotes_of(p)) =~= h1.add(quotes_of(p.drop_first())));
        if expired(p[0].0, h1) {
            let q = r->0;
            assert(h1 =~= h1.remove(q).insert(q));
            assert(h1.add(quotes_of(p.drop_first())) =~= h2.add(quotes_of(p2)).insert(q));
        } else {
            lemma_heap_step_conserves(h1, p.drop_first(), r, h2, p2);
            if r is None {
                assert(h1.count(quote_view(p[0])) > 0);
            }
        }
    }
}

/// The packets `p` come in capture order, each at most three seconds after its quote's
/// accept time.
pub open spec fn arrive_in_order(p: Seq<(i64, Seq<u8>)>) -> bool {
    &&& forall|i: int, j: int| 0 <= i <= j < p.len() ==> #[trigger] p[i].0 <= #[trigger] p[j].0
    &&& forall|i: int|
        0 <= i < p.len() ==> #[trigger] p[i].0 - quote_view(p[i]).accept_time
            <= THREE_SECONDS_NANOS
}

/// Every held quote of `h` was captured no later than the first pending packet of `p`, and
/// the pending packets arrive in capture order, each at most three seconds late.
pub open spec fn taken_in_order(h: Multiset<QuoteView>, p: Seq<(i64, Seq<u8>)>) -> bool {
    &&& arrive_in_order(p)
    &&& forall|x: QuoteView| #[trigger] h.count(x) > 0 ==> (p.len() > 0 ==> x.pkt_time <= p[0].0)
}

/// A quote of the packets `p` is the quote of one of them.
proof fn lemma_quotes_of_member(p: Seq<(i64, Seq<u8>)>, x: QuoteView)
    requires
        quotes_of(p).count(x) > 0,
    ensures
        exists|j: int| 0 <= j < p.len() && quote_view(#[trigger] p[j]) == x,
{
    broadcast use vstd::seq_lib::group_to_multiset_ensures;

    let m = p.map_values(|y: (i64, Seq<u8>)| quote_view(y));
    assert(m.contains(x));
    let j = choose|j: int| 0 <= j < m.len() && m[j] == x;
    assert(quote_view(p[j]) == x);
}

/// When the packets arrive in capture order and at most three seconds late, the heap
/// iterator lets out a quote that comes no later than any quote not yet let out, held or
/// pending: by accept time, then by capture time. So its quotes come out sorted, and those
/// of equal accept time in the order they were captured; and the packets left are still
/// taken in order.
pub proof fn lemma_heap_step_first(
    h: Multiset<QuoteView>,
    p: Seq<(i64, Seq<u8>)>,
    r: Option<QuoteView>,
    h2: Multiset<QuoteView>,
    p2: Seq<(i64, Seq<u8>)>,
)
    requires
        heap_step(h, p, r, h2, p2),
        taken_in_order(h, p),
    ensures
        taken_in_order(h2, p2),
        r matches Some(q) ==> forall|x: QuoteView| #[trigger]
            h.add(quotes_of(p)).count(x) > 0 ==> emitted_before(q, x),
    decreases p.len(),
{
    broadcast use vstd::multiset::group_multiset_axioms;

    if p.len() == 0 {
        if let Some(q) = r {
            assert forall|x: QuoteView| #[trigger] h.add(quotes_of(p)).count(x) > 0 implies emitted_before(q, x) by {
                lemma_empty_to_multiset(p.map_values(|y: (i64, Seq<u8>)| quote_view(y)));
                assert(h.count(x) > 0);
            }
        }
    } else {
        let v = quote_view(p[0]);
        let h1 = h.insert(v);
        let rest = p.drop_first();
        lemma_quotes_of_cons(p);
        assert(h.add(quotes_of(p)) =~= h1.add(quotes_of(rest)));
        assert forall|i: int, j: int| 0 <= i <= j < rest.len() implies #[trigger] rest[i].0
            <= #[trigger] rest[j].0 by {
            assert(rest[i] == p[i + 1] && rest[j] == p[j + 1]);
        }
        assert forall|i: int| 0 <= i < rest.len() implies #[trigger] rest[i].0 - quote_view(
            rest[i],
        ).accept_time <= THREE_SECONDS_NANOS by {
            assert(rest[i] == p[i + 1]);
        }
        assert forall|x: QuoteView| #[trigger] h1.count(x) > 0 implies x.pkt_time <= p[0].0 by {
            if x != v {
                assert(h.count(x) > 0);
            }
        }
        if rest.len() > 0 {
            assert(p[0].0 <= p[1].0);
        }
        if expired(p[0].0, h1) {
            let q = r->0;
            assert(h1.count(q) > 0);
            assert forall|x: QuoteView| #[trigger] h1.add(quotes_of(rest)).count(x) > 0 implies emitted_before(q, x) by {
                if h1.count(x) == 0 {
                    lemma_quotes_of_member(rest, x);
                    let j = choose|j: int| 0 <= j < rest.len() && quote_view(#[trigger] rest[j]) == x;
                    assert(rest[j] == p[j + 1]);
                    assert(p[0].0 <= p[j + 1].0);
                }
            }
            assert forall|x: QuoteView| #[trigger] h2.count(x) > 0 && rest.len() > 0 implies x.pkt_time <= rest[0].0 by {
                assert(h1.count(x) > 0);
            }
        } else {
            lemma_heap_step_first(h1, rest, r, h2, p2);
        }
    }
}

proof fn lemma_empty_to_multiset<A>(s: Seq<A>)
    requires
        s.len() == 0,
    ensures
        s.to_multiset() == Multiset::<A>::empty(),
{
    broadcast use vstd::seq_lib::group_to_multiset_ensures;

    assert(s.to_multiset().len() == 0);
    assert(s.to_multiset() =~= Multiset::<A>::empty());
}

} // verus!
