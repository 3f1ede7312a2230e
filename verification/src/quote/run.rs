//! Laws over whole runs of the sorting iterators: over successive calls, the quotes let out
//! come out sorted, and they account for every packet taken in.
use super::heap::{
    emitted_before, heap_step, lemma_heap_step_conserves, lemma_heap_step_first, quotes_of,
    taken_in_order,
};
use super::{quote_view, QuoteView};
use vstd::multiset::Multiset;
use vstd::prelude::*;

verus! {

/// The quotes `s` come in order of accept time, then of capture time.
pub open spec fn sorted_quotes(s: Seq<QuoteView>) -> bool {
    forall|i: int, j: int| 0 <= i <= j < s.len() ==> emitted_before(#[trigger] s[i], #[trigger] s[j])
}

/// No two of the quotes `s` share both their accept time and their capture time.
pub open spec fn distinct_keys(s: Seq<QuoteView>) -> bool {
    forall|i: int, j: int|
        0 <= i < j < s.len() ==> (#[trigger] s[i]).accept_time != (#[trigger] s[j]).accept_time
            || s[i].pkt_time != s[j].pkt_time
}

/// The packet a quote was made from.
pub open spec fn packet_of(q: QuoteView) -> (i64, Seq<u8>) {
    (q.pkt_time, q.data)
}

/// Successive calls of the heap iterator, from held quotes `hs[i]` and pending packets
/// `ps[i]`, each let out quote `outs[i]`.
pub open spec fn heap_run(
    hs: Seq<Multiset<QuoteView>>,
    ps: Seq<Seq<(i64, Seq<u8>)>>,
    outs: Seq<QuoteView>,
) -> bool {
    &&& hs.len() == outs.len() + 1
    &&& ps.len() == outs.len() + 1
    &&& forall|i: int|
        0 <= i < outs.len() ==> #[trigger] heap_step(hs[i], ps[i], Some(outs[i]), hs[i + 1], ps[i + 1])
}

/// Successive calls of the ring iterator while it keeps order: before call `i` the packets
/// `us[i]` are not yet let out, the call lets out quote `qs[i]` of one of them, with that
/// packet's own accept time, no later than any of them.
pub open spec fn ring_run(us: Seq<Multiset<(i64, Seq<u8>)>>, qs: Seq<QuoteView>) -> bool {
    &&& us.len() == qs.len() + 1
    &&& forall|i: int| 0 <= i < qs.len() ==> #[trigger] us[i] == us[i + 1].insert(packet_of(qs[i]))
    &&& forall|i: int, v: (i64, Seq<u8>)|
        0 <= i < qs.len() && #[trigger] us[i].count(v) > 0 ==> emitted_before(qs[i], quote_view(v))
    &&& forall|i: int|
        0 <= i < qs.len() ==> (#[trigger] qs[i]).accept_time == quote_view(packet_of(qs[i])).accept_time
}

/// When each step removes `out[i]` from `ms[i]`, what is there at step `k` is what is there
/// at step `j` together with what the steps between let out; so what step `i` lets out was
/// there at every step before it.
proof fn lemma_removals<A>(ms: Seq<Multiset<A>>, out: Seq<A>, k: int)
    requires
        ms.len() == out.len() + 1,
        forall|i: int| 0 <= i < out.len() ==> #[trigger] ms[i] == ms[i + 1].insert(out[i]),
        0 <= k <= out.len(),
    ensures
        ms[0] == ms[k].add(out.take(k).to_multiset()),
        forall|i: int, j: int| 0 <= i <= j < k ==> #[trigger] ms[i].count(#[trigger] out[j]) > 0,
    decreases k,
{
    broadcast use vstd::seq_lib::group_to_multiset_ensures;
    broadcast use vstd::multiset::group_multiset_axioms;

    if k == 0 {
        assert(out.take(0).to_multiset() =~= Multiset::<A>::empty()) by {
            assert(out.take(0).to_multiset().len() == 0);
        }
        assert(ms[0] =~= ms[0].add(Multiset::empty()));
    } else {
        lemma_removals(ms, out, k - 1);
        assert(ms[k - 1] == ms[k].insert(out[k - 1]));
        assert(out.take(k) =~= out.take(k - 1).push(out[k - 1]));
        assert(ms[0] =~= ms[k].add(out.take(k).to_multiset()));
        assert forall|i: int, j: int| 0 <= i <= j < k implies #[trigger] ms[i].count(
            #[trigger] out[j],
        ) > 0 by {
            if j < k - 1 {
            } else {
                lemma_count_kept(ms, out, i, k - 1, out[k - 1]);
            }
        }
    }
}

/// Counts never grow from one step to a later one.
proof fn lemma_count_kept<A>(ms: Seq<Multiset<A>>, out: Seq<A>, i: int, j: int, x: A)
    requires
        ms.len() == out.len() + 1,
        forall|t: int| 0 <= t < out.len() ==> #[trigger] ms[t] == ms[t + 1].insert(out[t]),
        0 <= i <= j < out.len(),
    ensures
        ms[i].count(x) >= ms[j].count(x),
        ms[i].count(out[j]) > 0,
    decreases j - i,
{
    broadcast use vstd::multiset::group_multiset_axioms;

    assert(ms[j] == ms[j + 1].insert(out[j]));
    if i < j {
        lemma_count_kept(ms, out, i, j - 1, x);
        lemma_count_kept(ms, out, i, j - 1, out[j]);
        assert(ms[j - 1] == ms[j].insert(out[j - 1]));
    }
}

/// Over successive calls of the heap iterator whose packets are taken in order (in capture
/// order, each at most three seconds after its accept time), the quotes come out sorted by
/// accept time and then capture time; and what was held and pending at the start is what is
/// held and pending at the end together with the quotes let out.
pub proof fn lemma_heap_run(
    hs: Seq<Multiset<QuoteView>>,
    ps: Seq<Seq<(i64, Seq<u8>)>>,
    outs: Seq<QuoteView>,
)
    requires
        heap_run(hs, ps, outs),
        taken_in_order(hs[0], ps[0]),
    ensures
        sorted_quotes(outs),
        hs[0].add(quotes_of(ps[0])) == hs[outs.len() as int].add(quotes_of(ps[outs.len() as int])).add(
            outs.to_multiset(),
        ),
{
    broadcast use vstd::multiset::group_multiset_axioms;

    let n = outs.len() as int;
    let ms = Seq::new((n + 1) as nat, |i: int| hs[i].add(quotes_of(ps[i])));
    assert forall|i: int| 0 <= i < n implies #[trigger] ms[i] == ms[i + 1].insert(outs[i]) by {
        assert(heap_step(hs[i], ps[i], Some(outs[i]), hs[i + 1], ps[i + 1]));
        lemma_heap_step_conserves(hs[i], ps[i], Some(outs[i]), hs[i + 1], ps[i + 1]);
    }
    lemma_removals(ms, outs, n);
    assert(outs.take(n) =~= outs);
    lemma_heap_run_in_order(hs, ps, outs, n);
    assert forall|i: int, j: int| 0 <= i <= j < n implies emitted_before(
        #[trigger] outs[i],
        #[trigger] outs[j],
    ) by {
        assert(ms[i].count(outs[j]) > 0);
        lemma_heap_step_first(hs[i], ps[i], Some(outs[i]), hs[i + 1], ps[i + 1]);
    }
}

/// Every step of a heap run starts with its packets taken in order.
proof fn lemma_heap_run_in_order(
    hs: Seq<Multiset<QuoteView>>,
    ps: Seq<Seq<(i64, Seq<u8>)>>,
    outs: Seq<QuoteView>,
    k: int,
)
    requires
        heap_run(hs, ps, outs),
        taken_in_order(hs[0], ps[0]),
        0 <= k <= outs.len(),
    ensures
        forall|i: int| 0 <= i <= k ==> #[trigger] taken_in_order(hs[i], ps[i]),
    decreases k,
{
    if k > 0 {
        lemma_heap_run_in_order(hs, ps, outs, k - 1);
        let i = k - 1;
        assert(heap_step(hs[i], ps[i], Some(outs[i]), hs[i + 1], ps[i + 1]));
        lemma_heap_step_first(hs[i], ps[i], Some(outs[i]), hs[i + 1], ps[i + 1]);
    }
}

/// Over successive calls of the ring iterator while it keeps order, the quotes come out
/// sorted by accept time and then capture time; and the packets not yet let out at the start
/// are those not yet let out at the end together with the packets of the quotes let out.
pub proof fn lemma_ring_run(us: Seq<Multiset<(i64, Seq<u8>)>>, qs: Seq<QuoteView>)
    requires
        ring_run(us, qs),
    ensures
        sorted_quotes(qs),
        us[0] == us[qs.len() as int].add(qs.map_values(|q: QuoteView| packet_of(q)).to_multiset()),
{
    let n = qs.len() as int;
    let out = qs.map_values(|q: QuoteView| packet_of(q));
    assert forall|i: int| 0 <= i < n implies #[trigger] us[i] == us[i + 1].insert(out[i]) by {
        assert(us[i] == us[i + 1].insert(packet_of(qs[i])));
    }
    lemma_removals(us, out, n);
    assert(out.take(n) =~= out);
    assert forall|i: int, j: int| 0 <= i <= j < n implies emitted_before(
        #[trigger] qs[i],
        #[trigger] qs[j],
    ) by {
        assert(us[i].count(out[j]) > 0);
        assert(emitted_before(qs[i], quote_view(out[j])));
        assert(qs[j].accept_time == quote_view(packet_of(qs[j])).accept_time);
    }
}

/// Two sorted sequences of the same quotes, no two of which share both their accept time and
/// their capture time, are one and the same sequence.
pub proof fn lemma_sorted_quotes_agree(a: Seq<QuoteView>, b: Seq<QuoteView>)
    requires
        sorted_quotes(a),
        sorted_quotes(b),
        a.to_multiset() == b.to_multiset(),
        distinct_keys(a),
    ensures
        a == b,
    decreases a.len(),
{
    broadcast use vstd::seq_lib::group_to_multiset_ensures;
    broadcast use vstd::multiset::group_multiset_axioms;

    if a.len() == 0 {
        assert(b.to_multiset().len() == 0);
        assert(b =~= a);
    } else {
        assert(a.contains(a[0]));
        assert(b.to_multiset().count(a[0]) > 0);
        assert(b.len() > 0);
        assert(b.contains(b[0]));
        assert(a.to_multiset().count(b[0]) > 0);
        let i = choose|i: int| 0 <= i < a.len() && a[i] == b[0];
        let j = choose|j: int| 0 <= j < b.len() && b[j] == a[0];
        assert(emitted_before(b[0], b[j]));
        assert(emitted_before(a[0], a[i]));
        assert(i == 0);
        let ta = a.drop_first();
        let tb = b.drop_first();
        assert(a.remove(0) =~= ta);
        assert(b.remove(0) =~= tb);
        assert(ta.to_multiset() == tb.to_multiset());
        assert forall|x: int, y: int| 0 <= x <= y < ta.len() implies emitted_before(
            #[trigger] ta[x],
            #[trigger] ta[y],
        ) by {
            assert(ta[x] == a[x + 1] && ta[y] == a[y + 1]);
        }
        assert forall|x: int, y: int| 0 <= x <= y < tb.len() implies emitted_before(
            #[trigger] tb[x],
            #[trigger] tb[y],
        ) by {
            assert(tb[x] == b[x + 1] && tb[y] == b[y + 1]);
        }
        assert forall|x: int, y: int| 0 <= x < y < ta.len() implies (#[trigger] ta[x]).accept_time
            != (#[trigger] ta[y]).accept_time || ta[x].pkt_time != ta[y].pkt_time by {
            assert(ta[x] == a[x + 1] && ta[y] == a[y + 1]);
        }
        lemma_sorted_quotes_agree(ta, tb);
        assert(a[0] == b[0]);
        assert forall|x: int| 0 <= x < a.len() implies a[x] == b[x] by {
            if x > 0 {
                assert(a[x] == ta[x - 1] && b[x] == tb[x - 1]);
            }
        }
        assert(a =~= b);
    }
}

/// Lists of the same packets have the same quotes.
proof fn lemma_quotes_of_same(s: Seq<(i64, Seq<u8>)>, t: Seq<(i64, Seq<u8>)>)
    requires
        s.to_multiset() == t.to_multiset(),
    ensures
        quotes_of(s) == quotes_of(t),
    decreases s.len(),
{
    broadcast use vstd::seq_lib::group_to_multiset_ensures;
    broadcast use vstd::multiset::group_multiset_axioms;

    if s.len() == 0 {
        assert(t.to_multiset().len() == 0);
        assert(t =~= s);
    } else {
        let x = s.last();
        assert(s.contains(x));
        assert(t.to_multiset().count(x) > 0);
        let k = choose|k: int| 0 <= k < t.len() && t[k] == x;
        let si = s.drop_last();
        let ti = t.remove(k);
        assert(s.remove(s.len() - 1) =~= si);
        assert(si.to_multiset() == ti.to_multiset());
        lemma_quotes_of_same(si, ti);
        let ms = s.map_values(|y: (i64, Seq<u8>)| quote_view(y));
        let mt = t.map_values(|y: (i64, Seq<u8>)| quote_view(y));
        assert(si.map_values(|y: (i64, Seq<u8>)| quote_view(y)) =~= ms.remove(ms.len() - 1));
        assert(ti.map_values(|y: (i64, Seq<u8>)| quote_view(y)) =~= mt.remove(k));
        assert(ms.contains(ms[ms.len() - 1]));
        assert(mt.contains(mt[k]));
        assert(ms.to_multiset() =~= ms.remove(ms.len() - 1).to_multiset().insert(quote_view(x)));
        assert(mt.to_multiset() =~= mt.remove(k).to_multiset().insert(quote_view(x)));
    }
}

/// Quotes with distinct keys each occur once.
proof fn lemma_distinct_once(t: Seq<QuoteView>, x: QuoteView)
    requires
        distinct_keys(t),
    ensures
        t.to_multiset().count(x) <= 1,
    decreases t.len(),
{
    broadcast use vstd::seq_lib::group_to_multiset_ensures;
    broadcast use vstd::multiset::group_multiset_axioms;

    if t.len() > 0 {
        let rest = t.drop_first();
        assert forall|i: int, j: int| 0 <= i < j < rest.len() implies (#[trigger] rest[i]).accept_time
            != (#[trigger] rest[j]).accept_time || rest[i].pkt_time != rest[j].pkt_time by {
            assert(rest[i] == t[i + 1] && rest[j] == t[j + 1]);
        }
        lemma_distinct_once(rest, x);
        assert(t.remove(0) =~= rest);
        assert(t.contains(t[0]));
        assert(t.to_multiset() =~= rest.to_multiset().insert(t[0]));
        if t[0] == x && rest.to_multiset().count(x) > 0 {
            let j = choose|j: int| 0 <= j < rest.len() && rest[j] == x;
            assert(rest[j] == t[j + 1]);
            assert(t[0] == t[j + 1]);
        }
    }
}

/// Quotes listed as the same multiset as quotes of distinct keys have distinct keys.
proof fn lemma_distinct_keys_same(s: Seq<QuoteView>, t: Seq<QuoteView>)
    requires
        s.to_multiset() == t.to_multiset(),
        distinct_keys(t),
    ensures
        distinct_keys(s),
{
    broadcast use vstd::seq_lib::group_to_multiset_ensures;
    broadcast use vstd::multiset::group_multiset_axioms;

    assert forall|i: int, j: int| 0 <= i < j < s.len() implies (#[trigger] s[i]).accept_time
        != (#[trigger] s[j]).accept_time || s[i].pkt_time != s[j].pkt_time by {
        if s[i].accept_time == s[j].accept_time && s[i].pkt_time == s[j].pkt_time {
            assert(s.contains(s[i]) && s.contains(s[j]));
            if s[i] == s[j] {
                lemma_distinct_once(t, s[i]);
                let r = s.remove(j);
                assert(r[i] == s[i]);
                assert(r.contains(s[i]));
                assert(r.to_multiset().count(s[i]) > 0);
                assert(r.to_multiset() == s.to_multiset().remove(s[j]));
            } else {
                assert(t.to_multiset().count(s[i]) > 0 && t.to_multiset().count(s[j]) > 0);
                assert(t.contains(s[i]) && t.contains(s[j]));
                let a = choose|a: int| 0 <= a < t.len() && t[a] == s[i];
                let b = choose|b: int| 0 <= b < t.len() && t[b] == s[j];
                if a < b {
                    assert(t[a].accept_time != t[b].accept_time || t[a].pkt_time != t[b].pkt_time);
                } else {
                    assert(t[b].accept_time != t[a].accept_time || t[b].pkt_time != t[a].pkt_time);
                }
            }
        }
    }
}

/// On packets `p` taken in order (in capture order, each at most three seconds after its
/// accept time) no two of which share both accept time and capture time, a full run of the
/// ring iterator that lets quotes out with their own times and a full run of the heap
/// iterator let out the same quotes in the same order.
pub proof fn lemma_ring_heap_agree(
    p: Seq<(i64, Seq<u8>)>,
    us: Seq<Multiset<(i64, Seq<u8>)>>,
    qs: Seq<QuoteView>,
    hs: Seq<Multiset<QuoteView>>,
    ps: Seq<Seq<(i64, Seq<u8>)>>,
    outs: Seq<QuoteView>,
)
    requires
        ring_run(us, qs),
        us[0] == p.to_multiset(),
        us[qs.len() as int].len() == 0,
        forall|i: int| 0 <= i < qs.len() ==> #[trigger] qs[i] == quote_view(packet_of(qs[i])),
        heap_run(hs, ps, outs),
        hs[0] == Multiset::<QuoteView>::empty(),
        ps[0] == p,
        taken_in_order(hs[0], ps[0]),
        hs[outs.len() as int].len() == 0,
        ps[outs.len() as int].len() == 0,
        forall|i: int, j: int|
            0 <= i < j < p.len() ==> quote_view(#[trigger] p[i]).accept_time != quote_view(
                #[trigger] p[j],
            ).accept_time || p[i].0 != p[j].0,
    ensures
        qs == outs,
{
    broadcast use vstd::seq_lib::group_to_multiset_ensures;
    broadcast use vstd::multiset::group_multiset_axioms;

    let n = qs.len() as int;
    let m = outs.len() as int;
    lemma_ring_run(us, qs);
    lemma_heap_run(hs, ps, outs);
    let out = qs.map_values(|q: QuoteView| packet_of(q));
    assert(us[n] =~= Multiset::<(i64, Seq<u8>)>::empty());
    assert(out.to_multiset() =~= p.to_multiset());
    lemma_quotes_of_same(out, p);
    assert(out.map_values(|y: (i64, Seq<u8>)| quote_view(y)) =~= qs);
    assert(ps[m].len() == 0);
    assert(ps[m].map_values(|y: (i64, Seq<u8>)| quote_view(y)).len() == 0);
    assert(quotes_of(ps[m]) =~= Multiset::<QuoteView>::empty());
    assert(hs[m] =~= Multiset::<QuoteView>::empty());
    assert(quotes_of(ps[0]) == quotes_of(p));
    assert(hs[0].add(quotes_of(p)) =~= quotes_of(p));
    assert(hs[m].add(quotes_of(ps[m])).add(outs.to_multiset()) =~= outs.to_multiset());
    assert(outs.to_multiset() =~= quotes_of(p));
    assert(qs.to_multiset() == quotes_of(p));
    let mp = p.map_values(|y: (i64, Seq<u8>)| quote_view(y));
    assert forall|i: int, j: int| 0 <= i < j < mp.len() implies (#[trigger] mp[i]).accept_time
        != (#[trigger] mp[j]).accept_time || mp[i].pkt_time != mp[j].pkt_time by {
        assert(mp[i] == quote_view(p[i]) && mp[j] == quote_view(p[j]));
    }
    lemma_distinct_keys_same(qs, mp);
    lemma_sorted_quotes_agree(qs, outs);
}

} // verus!
