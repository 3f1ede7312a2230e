//! The bucket of the ring that a quote packet goes to, and the packets of one bucket among a
//! sequence of packets.
use super::bucket::NUM_BUCKETS;
use super::quote_view;
use crate::time::{tdiv, NANOS_PER_CENT};
use vstd::prelude::*;

verus! {

/// The bucket of a quote packet: the centisecond of its accept time (rounded toward zero),
/// around the ring.
pub open spec fn ring_bucket(v: (i64, Seq<u8>)) -> int {
    tdiv(quote_view(v).accept_time as int, NANOS_PER_CENT as int) % (NUM_BUCKETS as int)
}

/// The packets of `s` that go to bucket `b`, in their order in `s`.
pub open spec fn in_bucket(s: Seq<(i64, Seq<u8>)>, b: int) -> Seq<(i64, Seq<u8>)>
    decreases s.len(),
{
    if s.len() == 0 {
        Seq::empty()
    } else {
        let before = in_bucket(s.drop_last(), b);
        if ring_bucket(s.last()) == b {
            before.push(s.last())
        } else {
            before
        }
    }
}

/// The last packet of `s` that goes to bucket `b`, if any does.
pub open spec fn last_in_bucket(s: Seq<(i64, Seq<u8>)>, b: int) -> Option<(i64, Seq<u8>)> {
    if in_bucket(s, b).len() > 0 {
        Some(in_bucket(s, b).last())
    } else {
        None
    }
}

/// Appending a packet appends it to its own bucket's packets only.
pub(crate) proof fn lemma_in_bucket_push(s: Seq<(i64, Seq<u8>)>, x: (i64, Seq<u8>), b: int)
    ensures
        in_bucket(s.push(x), b) == if ring_bucket(x) == b {
            in_bucket(s, b).push(x)
        } else {
            in_bucket(s, b)
        },
{
    assert(s.push(x).drop_last() =~= s);
}

/// A bucket has no packets of `s` exactly when no packet of `s` goes to it.
pub(crate) proof fn lemma_in_bucket_empty(s: Seq<(i64, Seq<u8>)>, b: int)
    ensures
        in_bucket(s, b).len() == 0 <==> forall|j: int| 0 <= j < s.len() ==> ring_bucket(#[trigger] s[j]) != b,
    decreases s.len(),
{
    if s.len() > 0 {
        lemma_in_bucket_empty(s.drop_last(), b);
        if in_bucket(s, b).len() == 0 {
            assert forall|j: int| 0 <= j < s.len() implies ring_bucket(#[trigger] s[j]) != b by {
                if j < s.len() - 1 {
                    assert(s[j] == s.drop_last()[j]);
                }
            }
        }
        if forall|j: int| 0 <= j < s.len() ==> ring_bucket(#[trigger] s[j]) != b {
            assert forall|j: int| 0 <= j < s.drop_last().len() implies ring_bucket(
                #[trigger] s.drop_last()[j],
            ) != b by {
                assert(s.drop_last()[j] == s[j]);
            }
            assert(ring_bucket(s[s.len() - 1]) != b);
        }
    }
}

/// The first packet of a bucket is the first packet of `s` that goes to it.
pub(crate) proof fn lemma_in_bucket_first(s: Seq<(i64, Seq<u8>)>, b: int) -> (k: int)
    requires
        in_bucket(s, b).len() > 0,
    ensures
        0 <= k < s.len(),
        s[k] == in_bucket(s, b)[0],
        ring_bucket(s[k]) == b,
        forall|j: int| 0 <= j < k ==> ring_bucket(#[trigger] s[j]) != b,
    decreases s.len(),
{
    let init = s.drop_last();
    if in_bucket(init, b).len() > 0 {
        let k = lemma_in_bucket_first(init, b);
        assert forall|j: int| 0 <= j < k implies ring_bucket(#[trigger] s[j]) != b by {
            assert(s[j] == init[j]);
        }
        assert(s[k] == init[k]);
        k
    } else {
        lemma_in_bucket_empty(init, b);
        assert forall|j: int| 0 <= j < s.len() - 1 implies ring_bucket(#[trigger] s[j]) != b by {
            assert(s[j] == init[j]);
        }
        s.len() - 1
    }
}

/// Removing the first packet of `s` that goes to bucket `b` removes the first packet of that
/// bucket and leaves the other buckets as they are.
pub(crate) proof fn lemma_in_bucket_remove(s: Seq<(i64, Seq<u8>)>, k: int, b: int)
    requires
        0 <= k < s.len(),
        ring_bucket(s[k]) == b,
        forall|j: int| 0 <= j < k ==> ring_bucket(#[trigger] s[j]) != b,
    ensures
        in_bucket(s, b).len() > 0,
        in_bucket(s, b)[0] == s[k],
        in_bucket(s.remove(k), b) == in_bucket(s, b).drop_first(),
        forall|c: int| c != b ==> #[trigger] in_bucket(s.remove(k), c) == in_bucket(s, c),
    decreases s.len(),
{
    let init = s.drop_last();
    let x = s.last();
    if k == s.len() - 1 {
        assert(s.remove(k) =~= init);
        assert forall|j: int| 0 <= j < init.len() implies ring_bucket(#[trigger] init[j]) != b by {
            assert(init[j] == s[j]);
        }
        lemma_in_bucket_empty(init, b);
        assert(in_bucket(s, b) =~= seq![x]);
        assert(in_bucket(s.remove(k), b) =~= in_bucket(s, b).drop_first());
    } else {
        assert forall|j: int| 0 <= j < k implies ring_bucket(#[trigger] init[j]) != b by {
            assert(init[j] == s[j]);
        }
        assert(init[k] == s[k]);
        lemma_in_bucket_remove(init, k, b);
        assert(s.remove(k) =~= init.remove(k).push(x));
        lemma_in_bucket_push(init.remove(k), x, b);
        lemma_in_bucket_push(init, x, b);
        assert(s =~= init.push(x));
        if ring_bucket(x) == b {
            assert(in_bucket(init, b).push(x).drop_first() =~= in_bucket(init, b).drop_first().push(
                x,
            ));
        }
        assert forall|c: int| c != b implies #[trigger] in_bucket(s.remove(k), c) == in_bucket(
            s,
            c,
        ) by {
            lemma_in_bucket_push(init.remove(k), x, c);
            lemma_in_bucket_push(init, x, c);
        }
    }
}

/// A sequence none of whose packets goes to any bucket of the ring is empty.
pub(crate) proof fn lemma_in_no_bucket(s: Seq<(i64, Seq<u8>)>)
    requires
        forall|i: int| 0 <= i < NUM_BUCKETS ==> #[trigger] in_bucket(s, i).len() == 0,
    ensures
        s.len() == 0,
{
    if s.len() > 0 {
        let b = ring_bucket(s[0]);
        assert(0 <= b < NUM_BUCKETS);
        assert(in_bucket(s, b).len() == 0);
        lemma_in_bucket_empty(s, b);
    }
}

} // verus!
