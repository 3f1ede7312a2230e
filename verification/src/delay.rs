//! Holding items back until an arrival comes three seconds after them, then letting them out
//! in order of time: how the capture generator orders frames by capture time, and how the
//! compact printer orders quotes by accept time.
use crate::quote::heap::THREE_SECONDS_NANOS;
use crate::time::{in_i64, Timestamp};
use vstd::prelude::*;

verus! {

/// The entries of `s` are in order of time.
pub open spec fn sorted_by_time<T>(s: Seq<(Timestamp, T)>) -> bool {
    forall|i: int, j: int| 0 <= i <= j < s.len() ==> #[trigger] s[i].0@ <= #[trigger] s[j].0@
}

/// `s` with `e` put in after every entry of the same time or earlier.
pub open spec fn insert_by_time<T>(s: Seq<(Timestamp, T)>, e: (Timestamp, T)) -> Seq<(Timestamp, T)>
    decreases s.len(),
{
    if s.len() == 0 || s.last().0@ <= e.0@ {
        s.push(e)
    } else {
        insert_by_time(s.drop_last(), e).push(s.last())
    }
}

/// Items held back with their times, let out earliest first, and in the order they came
/// among equal times.
pub struct DelayQueue<T> {
    /// The held entries, latest first, so that the earliest is last.
    held: Vec<(Timestamp, T)>,
}

impl<T> DelayQueue<T> {
    /// The held entries, earliest first.
    pub closed spec fn queue(&self) -> Seq<(Timestamp, T)> {
        self.held@.reverse()
    }

    pub closed spec fn wf(&self) -> bool {
        sorted_by_time(self.queue())
    }

    pub fn new() -> (q: Self)
        ensures
            q.wf(),
            q.queue() == Seq::<(Timestamp, T)>::empty(),
    {
        let q = Self { held: Vec::new() };
        proof {
            assert(q.queue() =~= Seq::<(Timestamp, T)>::empty());
        }
        q
    }

    /// The time of the earliest held entry, if any.
    pub fn earliest_time(&self) -> (r: Option<Timestamp>)
        ensures
            r == (if self.queue().len() > 0 {
                Some(self.queue()[0].0)
            } else {
                None::<Timestamp>
            }),
    {
        let n = self.held.len();
        if n > 0 {
            Some(self.held[n - 1].0)
        } else {
            None
        }
    }

    /// Lets out the earliest held entry, if any.
    pub fn pop(&mut self) -> (r: Option<(Timestamp, T)>)
        requires
            old(self).wf(),
        ensures
            final(self).wf(),
            match r {
                Some(e) => old(self).queue().len() > 0 && e == old(self).queue()[0]
                    && final(self).queue() == old(self).queue().drop_first(),
                None => old(self).queue().len() == 0 && final(self).queue() == old(self).queue(),
            },
    {
        let r = self.held.pop();
        proof {
            if r is Some {
                assert(self.queue() =~= old(self).queue().drop_first());
                assert(old(self).queue()[0] == old(self).held@[old(self).held@.len() - 1]);
            }
        }
        r
    }

    /// Takes in `item` with its `time`, after first letting out the earliest held entry when
    /// `now` is three seconds or more past its time.
    pub fn offer(&mut self, now: Timestamp, time: Timestamp, item: T) -> (r: Option<(Timestamp, T)>)
        requires
            old(self).wf(),
            old(self).queue().len() > 0 ==> in_i64(now@ - old(self).queue()[0].0@),
        ensures
            final(self).wf(),
            if old(self).queue().len() > 0 && now@ - old(self).queue()[0].0@ >= THREE_SECONDS_NANOS {
                &&& r == Some(old(self).queue()[0])
                &&& final(self).queue() == insert_by_time(old(self).queue().drop_first(), (time, item))
            } else {
                &&& r is None
                &&& final(self).queue() == insert_by_time(old(self).queue(), (time, item))
            },
    {
        broadcast use Timestamp::lemma_from_nanos_spec;

        let n = self.held.len();
        let mut r = None;
        if n > 0 {
            let earliest = self.held[n - 1].0;
            proof {
                assert(old(self).queue()[0] == self.held@[n - 1]);
            }
            if (now - earliest).as_nanos() >= THREE_SECONDS_NANOS {
                r = self.pop();
            }
        }
        self.insert(time, item);
        r
    }

    /// Puts `item` in with its `time`, after every held entry of the same time or earlier.
    fn insert(&mut self, time: Timestamp, item: T)
        requires
            old(self).wf(),
        ensures
            final(self).wf(),
            final(self).queue() == insert_by_time(old(self).queue(), (time, item)),
    {
        let t = time.as_nanos();
        let mut lo: usize = 0;
        let mut hi: usize = self.held.len();
        while lo < hi
            invariant
                0 <= lo <= hi <= self.held@.len(),
                self.held == old(self).held,
                t == time@,
                forall|k: int| 0 <= k < lo ==> t < (#[trigger] self.held@[k]).0@,
                forall|k: int| hi <= k < self.held@.len() ==> (#[trigger] self.held@[k]).0@ <= t,
                sorted_by_time(self.held@.reverse()),
            decreases hi - lo,
        {
            let mid = lo + (hi - lo) / 2;
            let n = self.held.len();
            proof {
                assert forall|k: int| 0 <= k < n implies (#[trigger] self.held@[k]) == self.held@.reverse()[n - 1 - k] by {}
                assert forall|a: int, b: int| 0 <= a <= b < n implies (#[trigger] self.held@[b]).0@ <= (#[trigger] self.held@[a]).0@ by {
                    assert(self.held@[b] == self.held@.reverse()[n - 1 - b]);
                    assert(self.held@[a] == self.held@.reverse()[n - 1 - a]);
                }
            }
            if self.held[mid].0.as_nanos() <= t {
                hi = mid;
            } else {
                lo = mid + 1;
            }
        }
        let ghost old_held = self.held@;
        let ghost q = old_held.reverse();
        let ghost n = old_held.len();
        let ghost p = n - lo;
        self.held.insert(lo, (time, item));
        proof {
            assert forall|k: int| 0 <= k < n implies (#[trigger] old_held[k]) == q[n - 1 - k] by {}
            assert forall|i: int| 0 <= i < p implies (#[trigger] q[i]).0@ <= t by {
                assert(q[i] == old_held[n - 1 - i]);
            }
            assert forall|i: int| p <= i < n implies t < (#[trigger] q[i]).0@ by {
                assert(q[i] == old_held[n - 1 - i]);
            }
            assert(self.held@.reverse() =~= q.insert(p, (time, item)));
            lemma_insert_by_time(q, (time, item), p);
        }
    }
}

/// In a sorted sequence, `insert_by_time` puts the entry at the first position whose entry is
/// later than it, and keeps the sequence sorted.
proof fn lemma_insert_by_time<T>(s: Seq<(Timestamp, T)>, e: (Timestamp, T), p: int)
    requires
        sorted_by_time(s),
        0 <= p <= s.len(),
        forall|i: int| 0 <= i < p ==> (#[trigger] s[i]).0@ <= e.0@,
        forall|i: int| p <= i < s.len() ==> e.0@ < (#[trigger] s[i]).0@,
    ensures
        insert_by_time(s, e) == s.insert(p, e),
        sorted_by_time(insert_by_time(s, e)),
    decreases s.len(),
{
    if s.len() == 0 || s.last().0@ <= e.0@ {
        if s.len() > 0 {
            assert(s[s.len() - 1].0@ <= e.0@);
        }
        assert(p == s.len());
        assert(s.push(e) =~= s.insert(p, e));
    } else {
        assert(s[s.len() - 1] == s.last());
        let s1 = s.drop_last();
        assert forall|i: int, j: int| 0 <= i <= j < s1.len() implies #[trigger] s1[i].0@ <= #[trigger] s1[j].0@ by {
            assert(s1[i] == s[i] && s1[j] == s[j]);
        }
        assert forall|i: int| 0 <= i < p implies (#[trigger] s1[i]).0@ <= e.0@ by {
            assert(s1[i] == s[i]);
        }
        assert forall|i: int| p <= i < s1.len() implies e.0@ < (#[trigger] s1[i]).0@ by {
            assert(s1[i] == s[i]);
        }
        lemma_insert_by_time(s1, e, p);
        assert(s1.insert(p, e).push(s.last()) =~= s.insert(p, e));
    }
    let r = s.insert(p, e);
    assert forall|i: int, j: int| 0 <= i <= j < r.len() implies #[trigger] r[i].0@ <= #[trigger] r[j].0@ by {
        if i < p && j < p {
            assert(r[i] == s[i] && r[j] == s[j]);
        } else if i < p && j == p {
            assert(r[i] == s[i]);
        } else if i < p {
            assert(r[i] == s[i] && r[j] == s[j - 1]);
        } else if i == p && j > p {
            assert(r[j] == s[j - 1]);
        } else if i > p {
            assert(r[i] == s[i - 1] && r[j] == s[j - 1]);
        }
    }
}

/// Items come out in order of time as long as nothing comes in earlier than the last item let
/// out: when every held entry is at `floor` or later and so is the entry taken in, every entry
/// held after it is too, and what is held stays sorted.
pub proof fn lemma_insert_keeps_floor<T>(s: Seq<(Timestamp, T)>, e: (Timestamp, T), floor: int)
    requires
        sorted_by_time(s),
        forall|i: int| 0 <= i < s.len() ==> floor <= (#[trigger] s[i]).0@,
        floor <= e.0@,
    ensures
        sorted_by_time(insert_by_time(s, e)),
        forall|i: int|
            0 <= i < insert_by_time(s, e).len() ==> floor <= (#[trigger] insert_by_time(s, e)[i]).0@,
        insert_by_time(s, e).len() == s.len() + 1,
    decreases s.len(),
{
    lemma_insert_by_time_len(s, e);
    if s.len() == 0 || s.last().0@ <= e.0@ {
        assert forall|i: int, j: int|
            0 <= i <= j < s.push(e).len() implies #[trigger] s.push(e)[i].0@
            <= #[trigger] s.push(e)[j].0@ by {
            if j == s.len() && i < j {
                assert(s[i].0@ <= s[s.len() - 1].0@);
            }
        }
    } else {
        let s1 = s.drop_last();
        assert forall|i: int, j: int| 0 <= i <= j < s1.len() implies #[trigger] s1[i].0@ <= #[trigger] s1[j].0@ by {
            assert(s1[i] == s[i] && s1[j] == s[j]);
        }
        assert forall|i: int| 0 <= i < s1.len() implies floor <= (#[trigger] s1[i]).0@ by {
            assert(s1[i] == s[i]);
        }
        lemma_insert_keeps_floor(s1, e, floor);
        let r = insert_by_time(s1, e);
        lemma_insert_by_time_len(s1, e);
        assert(s[s.len() - 1] == s.last());
        assert forall|i: int, j: int|
            0 <= i <= j < r.push(s.last()).len() implies #[trigger] r.push(s.last())[i].0@
            <= #[trigger] r.push(s.last())[j].0@ by {
            if j == r.len() && i < j {
                // Every entry of `r` is `e` or an entry of `s1`, none later than the last of `s`.
                lemma_insert_by_time_members(s1, e, i);
                if r[i] != e {
                    let k = choose|k: int| 0 <= k < s1.len() && s1[k] == r[i];
                    assert(s[k].0@ <= s[s.len() - 1].0@);
                }
            }
        }
    }
}

/// Putting an entry in makes the sequence one longer.
proof fn lemma_insert_by_time_len<T>(s: Seq<(Timestamp, T)>, e: (Timestamp, T))
    ensures
        insert_by_time(s, e).len() == s.len() + 1,
    decreases s.len(),
{
    if !(s.len() == 0 || s.last().0@ <= e.0@) {
        lemma_insert_by_time_len(s.drop_last(), e);
    }
}

/// Every entry of `insert_by_time(s, e)` is `e` or an entry of `s`.
proof fn lemma_insert_by_time_members<T>(s: Seq<(Timestamp, T)>, e: (Timestamp, T), i: int)
    requires
        0 <= i < s.len() + 1,
    ensures
        insert_by_time(s, e).len() == s.len() + 1,
        insert_by_time(s, e)[i] == e || exists|k: int| 0 <= k < s.len() && s[k] == insert_by_time(s, e)[i],
    decreases s.len(),
{
    lemma_insert_by_time_len(s, e);
    if s.len() == 0 || s.last().0@ <= e.0@ {
        if i < s.len() {
            assert(s.push(e)[i] == s[i]);
        }
    } else {
        let s1 = s.drop_last();
        lemma_insert_by_time_len(s1, e);
        if i < s.len() {
            lemma_insert_by_time_members(s1, e, i);
            if insert_by_time(s, e)[i] != e {
                let k = choose|k: int| 0 <= k < s1.len() && s1[k] == insert_by_time(s1, e)[i];
                assert(s[k] == s1[k]);
            }
        } else {
            assert(insert_by_time(s, e)[i] == s[s.len() - 1]);
        }
    }
}

/// Putting an entry in a sorted queue puts it right after every entry of the same time or
/// earlier and right before every later entry, leaving the others in their order: entries
/// of equal time come out in the order they came in.
pub proof fn lemma_insert_by_time_position<T>(s: Seq<(Timestamp, T)>, e: (Timestamp, T))
    requires
        sorted_by_time(s),
    ensures
        exists|k: int|
            #![trigger s.take(k)]
            {
                &&& 0 <= k <= s.len()
                &&& forall|i: int| 0 <= i < k ==> (#[trigger] s[i]).0@ <= e.0@
                &&& forall|i: int| k <= i < s.len() ==> (#[trigger] s[i]).0@ > e.0@
                &&& insert_by_time(s, e) == s.take(k).push(e) + s.skip(k)
            },
    decreases s.len(),
{
    if s.len() == 0 || s.last().0@ <= e.0@ {
        let k = s.len() as int;
        assert forall|i: int| 0 <= i < k implies (#[trigger] s[i]).0@ <= e.0@ by {
            assert(s[i].0@ <= s[s.len() - 1].0@);
        }
        assert(s.take(k) =~= s);
        assert(s.skip(k) =~= Seq::<(Timestamp, T)>::empty());
        assert(insert_by_time(s, e) =~= s.take(k).push(e) + s.skip(k));
    } else {
        let s1 = s.drop_last();
        assert forall|i: int, j: int| 0 <= i <= j < s1.len() implies #[trigger] s1[i].0@
            <= #[trigger] s1[j].0@ by {
            assert(s1[i] == s[i] && s1[j] == s[j]);
        }
        lemma_insert_by_time_position(s1, e);
        let k = choose|k: int|
            #![trigger s1.take(k)]
            {
                &&& 0 <= k <= s1.len()
                &&& forall|i: int| 0 <= i < k ==> (#[trigger] s1[i]).0@ <= e.0@
                &&& forall|i: int| k <= i < s1.len() ==> (#[trigger] s1[i]).0@ > e.0@
                &&& insert_by_time(s1, e) == s1.take(k).push(e) + s1.skip(k)
            };
        assert(s.take(k) =~= s1.take(k));
        assert(s.skip(k) =~= s1.skip(k).push(s.last()));
        assert(insert_by_time(s, e) =~= s.take(k).push(e) + s.skip(k));
        assert forall|i: int| 0 <= i < k implies (#[trigger] s[i]).0@ <= e.0@ by {
            assert(s[i] == s1[i]);
        }
        assert forall|i: int| k <= i < s.len() implies (#[trigger] s[i]).0@ > e.0@ by {
            if i < s.len() - 1 {
                assert(s[i] == s1[i]);
            }
        }
    }
}

} // verus!
