//! Bounded failure tracking.
//!
//! For every (filter, key) we keep a small fixed ring of hit timestamps
//! (seconds). A key is "over the line" when `maxretry` hits fall inside the
//! last `findtime`. Entries are evicted when idle or when the global cap is
//! reached (oldest first), so memory is bounded by configuration, not by
//! traffic volume.

use vstd::prelude::*;

use crate::duration::Duration;
use crate::foreign;
use crate::ip::IpNet;
use crate::sorted::{kept, Key, Order, SortedMap};

verus! {

/// Upper bound on `maxretry`; also the ring size.
pub const MAX_RETRY_CAP: u32 = 32;

/// At the cap, evict `len / EVICT_DIVISOR` entries per scan.
const EVICT_DIVISOR: usize = 32;

/// The hits of one key: a ring of timestamps and the time of the newest hit.
#[derive(Clone, Copy)]
pub struct Window {
    ts: [u32; 32],
    head: u8,
    len: u8,
    newest: u32,
}

/// A window as values: `len` timestamps, from position `head` of `ts` on.
pub struct Ring {
    pub ts: Seq<u32>,
    pub head: int,
    pub len: int,
    pub newest: u32,
}

impl Ring {
    /// The ring without a hit.
    pub open spec fn empty() -> Ring {
        Ring { ts: Seq::new(32, |i: int| 0u32), head: 0, len: 0, newest: 0 }
    }

    /// Positions lie inside the ring.
    pub open spec fn wf(self) -> bool {
        &&& self.ts.len() == 32
        &&& 0 <= self.head < 32
        &&& 0 <= self.len <= 32
    }

    /// The hits in the ring when it is read as one of `cap` places, oldest first.
    pub open spec fn hits(self, cap: int) -> Seq<u32> {
        Seq::new(self.len as nat, |i: int| self.ts[(self.head + i) % cap])
    }

    /// The ring after a hit at `now`: a free place is taken, or the place at `head`
    /// is overwritten.
    pub open spec fn pushed(self, now: u32, cap: int) -> Ring {
        if self.len < cap {
            Ring {
                ts: self.ts.update((self.head + self.len) % cap, now),
                head: self.head,
                len: self.len + 1,
                newest: now,
            }
        } else {
            Ring {
                ts: self.ts.update(self.head, now),
                head: (self.head + 1) % cap,
                len: self.len,
                newest: now,
            }
        }
    }

    /// How many of the hits are not before `since`.
    pub open spec fn count_since(self, since: u32, cap: int) -> nat {
        count_from(self.hits(cap), since)
    }
}

/// How many of `times` are not before `since`.
pub open spec fn count_from(times: Seq<u32>, since: u32) -> nat
    decreases times.len(),
{
    if times.len() == 0 {
        0
    } else {
        count_from(times.drop_last(), since) + if times.last() >= since {
            1nat
        } else {
            0nat
        }
    }
}

/// A count is at most the number of times.
pub proof fn lemma_count_bound(times: Seq<u32>, since: u32)
    ensures
        count_from(times, since) <= times.len(),
    decreases times.len(),
{
    if times.len() > 0 {
        lemma_count_bound(times.drop_last(), since);
    }
}

/// The last `n` of `times`, or all of them if there are fewer.
pub open spec fn last_of(times: Seq<u32>, n: int) -> Seq<u32> {
    if times.len() <= n {
        times
    } else {
        times.skip(times.len() - n)
    }
}

/// The ring after hits at all of `times`, in order.
pub open spec fn pushed_all(ring: Ring, times: Seq<u32>, cap: int) -> Ring
    decreases times.len(),
{
    if times.len() == 0 {
        ring
    } else {
        pushed_all(ring, times.drop_last(), cap).pushed(times.last(), cap)
    }
}

/// A push appends to the hits; a full ring loses its oldest hit for it.
pub proof fn lemma_pushed(ring: Ring, now: u32, cap: int)
    requires
        ring.wf(),
        1 <= cap <= 32,
        ring.head < cap,
        ring.len <= cap,
        ring.len < cap ==> ring.head == 0,
    ensures
        ring.pushed(now, cap).wf(),
        ring.pushed(now, cap).head < cap,
        ring.pushed(now, cap).len <= cap,
        ring.pushed(now, cap).len < cap ==> ring.pushed(now, cap).head == 0,
        ring.pushed(now, cap).hits(cap) == last_of(ring.hits(cap).push(now), cap),
{
    let after = ring.pushed(now, cap);
    let want = last_of(ring.hits(cap).push(now), cap);
    assert(after.hits(cap).len() == want.len());
    assert forall|i: int| 0 <= i < want.len() implies after.hits(cap)[i] == want[i] by {
        if ring.len < cap {
            vstd::arithmetic::div_mod::lemma_small_mod(i as nat, cap as nat);
            vstd::arithmetic::div_mod::lemma_small_mod(ring.len as nat, cap as nat);
        } else {
            lemma_wrap(ring.head, i, cap);
        }
    }
    assert(after.hits(cap) =~= want);
    if ring.len == cap {
        lemma_wrap(ring.head, 0, cap);
    }
}

/// Positions of a ring of `cap` places, counted from the place after `head`.
proof fn lemma_wrap(head: int, i: int, cap: int)
    requires
        0 <= head < cap,
        0 <= i < cap,
    ensures
        0 <= (head + 1) % cap < cap,
        ((head + 1) % cap + i) % cap == (head + 1 + i) % cap,
        i < cap - 1 ==> (head + 1 + i) % cap != head,
        i == cap - 1 ==> (head + 1 + i) % cap == head,
{
    vstd::arithmetic::div_mod::lemma_add_mod_noop_right(i, head + 1, cap);
    if head + 1 + i < cap {
        vstd::arithmetic::div_mod::lemma_small_mod((head + 1 + i) as nat, cap as nat);
    } else {
        vstd::arithmetic::div_mod::lemma_mod_sub_multiples_vanish(head + 1 + i, cap);
        if i <= cap - 1 {
            vstd::arithmetic::div_mod::lemma_small_mod((head + 1 + i - cap) as nat, cap as nat);
        }
    }
}

/// A window remembers exactly the last `cap` hits, oldest first, however many there
/// were.
pub proof fn law_window_keeps_last_hits(times: Seq<u32>, cap: int)
    requires
        1 <= cap <= 32,
    ensures
        pushed_all(Ring::empty(), times, cap).hits(cap) == last_of(times, cap),
        times.len() > 0 ==> pushed_all(Ring::empty(), times, cap).newest == times.last(),
{
    lemma_pushed_all(times, cap);
}

proof fn lemma_pushed_all(times: Seq<u32>, cap: int)
    requires
        1 <= cap <= 32,
    ensures
        ({
            let r = pushed_all(Ring::empty(), times, cap);
            &&& r.wf()
            &&& r.head < cap
            &&& r.len <= cap
            &&& r.len < cap ==> r.head == 0
            &&& r.hits(cap) == last_of(times, cap)
        }),
    decreases times.len(),
{
    if times.len() == 0 {
        assert(Ring::empty().hits(cap) =~= times);
    } else {
        let before = times.drop_last();
        lemma_pushed_all(before, cap);
        lemma_pushed(pushed_all(Ring::empty(), before, cap), times.last(), cap);
        assert(last_of(last_of(before, cap).push(times.last()), cap) =~= last_of(times, cap));
    }
}

/// A hit at `now` on a key with the hits `times` before it leads to a ban exactly if
/// there are `maxretry` hits, this one counted, and the last `maxretry` of them all
/// fall inside the last `findtime` seconds.
pub proof fn law_ban_at_threshold(times: Seq<u32>, now: u32, findtime: u64, maxretry: u32)
    requires
        1 <= maxretry <= MAX_RETRY_CAP,
    ensures
        (verdict_of(
            pushed_all(Ring::empty(), times, maxretry as int),
            now,
            findtime,
            maxretry,
        ) is Ban) == (times.len() + 1 >= maxretry && forall|i: int|
            0 <= i < maxretry ==> #[trigger] last_of(times.push(now), maxretry as int)[i]
                >= window_start(now, findtime)),
{
    let cap = maxretry as int;
    let all = times.push(now);
    assert(all.drop_last() =~= times);
    lemma_pushed_all(all, cap);
    let hits = last_of(all, cap);
    let since = window_start(now, findtime);
    lemma_count_bound(hits, since);
    lemma_count_all(hits, since);
    if count_from(hits, since) == hits.len() && hits.len() == cap {
        assert(forall|i: int| 0 <= i < cap ==> #[trigger] hits[i] >= since);
    }
}

/// A sweep loses nothing that counts: a key whose newest hit is older than `idle` at
/// `swept`, and so is dropped, gets the same verdict on a later hit as one that was
/// never seen, if hits came in the order of time and no filter looks further back.
pub proof fn law_sweep_changes_no_verdict(
    times: Seq<u32>,
    swept: u32,
    idle: u64,
    now: u32,
    findtime: u64,
    maxretry: u32,
)
    requires
        1 <= maxretry <= MAX_RETRY_CAP,
        times.len() > 0,
        forall|i: int, j: int| 0 <= i < j < times.len() ==> times[i] <= times[j],
        times.last() < window_start(swept, idle),
        swept <= now,
        findtime <= idle,
    ensures
        verdict_of(
            pushed_all(Ring::empty(), times, maxretry as int),
            now,
            findtime,
            maxretry,
        ) == verdict_of(Ring::empty(), now, findtime, maxretry),
{
    let cap = maxretry as int;
    let since = window_start(now, findtime);
    let all = times.push(now);
    let alone = Seq::<u32>::empty().push(now);
    assert(all.drop_last() =~= times);
    assert(alone.drop_last() =~= Seq::empty());
    lemma_pushed_all(all, cap);
    lemma_pushed_all(alone, cap);
    assert(pushed_all(Ring::empty(), alone.drop_last(), cap) == Ring::empty());
    assert(pushed_all(Ring::empty(), alone, cap) == Ring::empty().pushed(now, cap));
    let hits = last_of(all, cap);
    assert(hits.last() == now);
    assert forall|i: int| 0 <= i < hits.len() - 1 implies (#[trigger] hits.drop_last()[i]) < since by {
        let k = if all.len() <= cap {
            i
        } else {
            i + all.len() - cap
        };
        assert(hits.drop_last()[i] == times[k]);
        assert(times[k] <= times.last());
    }
    lemma_count_none(hits.drop_last(), since);
    assert(last_of(alone, cap) =~= alone);
    assert(count_from(alone.drop_last(), since) == 0);
}

/// Times that are all too old do not count.
proof fn lemma_count_none(times: Seq<u32>, since: u32)
    requires
        forall|i: int| 0 <= i < times.len() ==> (#[trigger] times[i]) < since,
    ensures
        count_from(times, since) == 0,
    decreases times.len(),
{
    if times.len() > 0 {
        assert(times.last() == times[times.len() - 1]);
        assert forall|i: int| 0 <= i < times.len() - 1 implies (#[trigger] times.drop_last()[i])
            < since by {
            assert(times.drop_last()[i] == times[i]);
        }
        lemma_count_none(times.drop_last(), since);
    }
}

/// A time is inside the last `span` seconds exactly if no more than `span` seconds have
/// passed since.
pub proof fn law_window_is_the_span(t: u32, now: u32, span: u64)
    ensures
        (t >= window_start(now, span)) == (t + span >= now),
{
}

/// Counting from a time on is counting those of the window.
proof fn lemma_count_filter(times: Seq<u32>, now: u32, span: u64)
    ensures
        count_from(times, window_start(now, span)) == times.filter(
            |t: u32| t + span >= now,
        ).len(),
    decreases times.len(),
{
    reveal(Seq::filter);
    if times.len() > 0 {
        lemma_count_filter(times.drop_last(), now, span);
    }
}

/// The verdict on a hit goes by the hits on record, this one counted, that happened in
/// the last `findtime` seconds, and by nothing else: a hit at `t` counts exactly if
/// `t + findtime >= now`. It is a ban exactly if they are `maxretry` or more.
pub proof fn law_only_recent_hits_count(ring: Ring, now: u32, findtime: u64, maxretry: u32)
    requires
        1 <= maxretry <= 32,
        ring.wf(),
    ensures
        ({
            let kept = ring.pushed(now, maxretry as int).hits(maxretry as int);
            let n = kept.filter(|t: u32| t + findtime >= now).len();
            verdict_of(ring, now, findtime, maxretry) == (if n >= maxretry {
                Verdict::Ban { hits: n as u32 }
            } else {
                Verdict::Below { hits: n as u32 }
            })
        }),
{
    let kept = ring.pushed(now, maxretry as int).hits(maxretry as int);
    lemma_count_filter(kept, now, findtime);
    lemma_count_bound(kept, window_start(now, findtime));
}

/// Without a threshold every hit is a ban; a threshold beyond what a window can hold is
/// never reached.
pub proof fn law_odd_thresholds(ring: Ring, now: u32, findtime: u64, maxretry: u32)
    requires
        ring.wf(),
    ensures
        verdict_of(ring, now, findtime, 0) is Ban,
        maxretry > 32 ==> verdict_of(ring, now, findtime, maxretry) is Below,
{
    lemma_count_bound(ring.pushed(now, 32).hits(32), window_start(now, findtime));
}

/// The state of a key after hits none of which led to a ban.
proof fn lemma_hits_on_record(
    m: Map<TrackKey, Ring>,
    key: TrackKey,
    times: Seq<u32>,
    findtime: u64,
    maxretry: u32,
)
    requires
        1 <= maxretry <= 32,
        !m.contains_key(key),
        forall|j: int|
            maxretry <= j + 1 <= times.len() ==> (#[trigger] times.subrange(
                j + 1 - maxretry,
                j + 1,
            )).filter(|t: u32| t + findtime >= times[j]).len() < maxretry,
    ensures
        ring_of(
            times.fold_left(
                m,
                |m: Map<TrackKey, Ring>, t: u32| map_after_hit(m, key, t, findtime, maxretry),
            ),
            key,
        ) == pushed_all(Ring::empty(), times, maxretry as int),
    decreases times.len(),
{
    if times.len() > 0 {
        let before = times.drop_last();
        let n = before.len() as int;
        assert forall|j: int| maxretry <= j + 1 <= before.len() implies (
        #[trigger] before.subrange(j + 1 - maxretry, j + 1)).filter(
            |t: u32| t + findtime >= before[j],
        ).len() < maxretry by {
            assert(before.subrange(j + 1 - maxretry, j + 1) =~= times.subrange(
                j + 1 - maxretry,
                j + 1,
            ));
            assert(before[j] == times[j]);
        }
        lemma_hits_on_record(m, key, before, findtime, maxretry);
        let cap = maxretry as int;
        let now = times.last();
        lemma_pushed_all(before, cap);
        lemma_pushed_all(times, cap);
        law_only_recent_hits_count(
            pushed_all(Ring::empty(), before, cap),
            now,
            findtime,
            maxretry,
        );
        assert(times[n] == now);
        if n + 1 >= maxretry {
            assert(last_of(times, cap) =~= times.subrange(n + 1 - maxretry, n + 1));
        } else {
            lemma_count_filter(times, now, findtime);
            lemma_count_bound(times, window_start(now, findtime));
        }
    }
}

/// What a tracker is for: after hits at `times` on a key that was not on record, none of
/// which completed `maxretry` hits inside `findtime`, a hit at `now` is judged by those
/// of the last `maxretry` hits, itself included, that happened in the last `findtime`
/// seconds. A ban takes the key off the record, and no other key is touched.
pub proof fn law_verdict_from_times(
    m: Map<TrackKey, Ring>,
    key: TrackKey,
    times: Seq<u32>,
    now: u32,
    findtime: u64,
    maxretry: u32,
)
    requires
        1 <= maxretry <= 32,
        !m.contains_key(key),
        forall|j: int|
            maxretry <= j + 1 <= times.len() ==> (#[trigger] times.subrange(
                j + 1 - maxretry,
                j + 1,
            )).filter(|t: u32| t + findtime >= times[j]).len() < maxretry,
    ensures
        ({
            let s = times.fold_left(
                m,
                |m: Map<TrackKey, Ring>, t: u32| map_after_hit(m, key, t, findtime, maxretry),
            );
            let all = times.push(now);
            let last = if all.len() > maxretry {
                all.skip(all.len() - maxretry)
            } else {
                all
            };
            let n = last.filter(|t: u32| t + findtime >= now).len();
            let verdict = verdict_of(ring_of(s, key), now, findtime, maxretry);
            let after = map_after_hit(s, key, now, findtime, maxretry);
            &&& verdict == (if n >= maxretry {
                Verdict::Ban { hits: n as u32 }
            } else {
                Verdict::Below { hits: n as u32 }
            })
            &&& n >= maxretry ==> !after.contains_key(key)
            &&& n < maxretry ==> after.contains_key(key) && after[key].newest == now
            &&& after.remove(key) == s.remove(key)
        }),
{
    let cap = maxretry as int;
    let f = |m: Map<TrackKey, Ring>, t: u32| map_after_hit(m, key, t, findtime, maxretry);
    let s = times.fold_left(m, f);
    lemma_hits_on_record(m, key, times, findtime, maxretry);
    let ring = pushed_all(Ring::empty(), times, cap);
    lemma_pushed_all(times, cap);
    let all = times.push(now);
    assert(all.drop_last() =~= times);
    lemma_pushed_all(all, cap);
    assert(pushed_all(Ring::empty(), all, cap) == ring.pushed(now, cap));
    law_only_recent_hits_count(ring, now, findtime, maxretry);
    let after = map_after_hit(s, key, now, findtime, maxretry);
    assert(after.remove(key) =~= s.remove(key));
}

/// A full tracker makes room for a new key by dropping the oldest thirty-second of its
/// keys, at least one, by their newest hits; otherwise nothing is dropped.
pub proof fn law_room_is_made_from_the_oldest(
    before: Map<TrackKey, Ring>,
    after: Map<TrackKey, Ring>,
    key: TrackKey,
    max: nat,
)
    requires
        before.dom().finite(),
        before.dom().len() > 0,
        makes_room(before, after, key, max),
    ensures
        before.contains_key(key) || before.dom().len() < max ==> after == before,
        !before.contains_key(key) && before.dom().len() >= max ==> {
            let n = before.dom().len();
            let gone = n - after.dom().len();
            &&& gone >= 1
            &&& 32 * gone <= n || gone == 1
            &&& n < 32 * (gone + 1)
            &&& after.submap_of(before)
            &&& forall|g: TrackKey, k: TrackKey|
                before.contains_key(g) && !after.contains_key(g) && after.contains_key(k)
                    ==> #[trigger] before[g].newest <= #[trigger] before[k].newest
        },
{
    if !before.contains_key(key) && before.dom().len() >= max {
        let gone = choose|gone: Set<TrackKey>| evicts(before, after, gone);
        assert(after.dom() =~= before.dom().difference(gone));
        vstd::set_lib::lemma_len_subset(gone, before.dom());
        assert(before.dom().intersect(gone) =~= gone);
        vstd::set_lib::lemma_set_intersect_union_lens(before.dom().difference(gone), gone);
        assert(before.dom().difference(gone).union(gone) =~= before.dom());
        assert(before.dom().difference(gone).intersect(gone) =~= Set::<TrackKey>::empty());
        assert(after.submap_of(before));
    }
}

/// The count is full exactly if every time counts.
proof fn lemma_count_all(times: Seq<u32>, since: u32)
    ensures
        (count_from(times, since) == times.len()) == (forall|i: int|
            0 <= i < times.len() ==> #[trigger] times[i] >= since),
    decreases times.len(),
{
    if times.len() > 0 {
        let t = times.drop_last();
        lemma_count_all(t, since);
        lemma_count_bound(t, since);
        if count_from(times, since) == times.len() {
            assert forall|i: int| 0 <= i < times.len() implies #[trigger] times[i] >= since by {
                if i < times.len() - 1 {
                    assert(t[i] == times[i]);
                }
            }
        }
        if forall|i: int| 0 <= i < times.len() ==> #[trigger] times[i] >= since {
            assert(forall|i: int| 0 <= i < t.len() ==> t[i] == times[i]);
            assert(times.last() == times[times.len() - 1]);
        }
    }
}

impl View for Window {
    type V = Ring;

    closed spec fn view(&self) -> Ring {
        Ring {
            ts: self.ts@,
            head: self.head as int,
            len: self.len as int,
            newest: self.newest,
        }
    }
}

impl Window {
    fn new() -> (r: Window)
        ensures
            r@ == Ring::empty(),
            r@.wf(),
    {
        let r = Window { ts: [0u32; 32], head: 0, len: 0, newest: 0 };
        assert(r.ts@ =~= Seq::new(32, |i: int| 0u32));
        r
    }

    fn push(&mut self, now: u32, cap: u8)
        requires
            old(self)@.wf(),
            1 <= cap <= 32,
        ensures
            final(self)@ == old(self)@.pushed(now, cap as int),
            final(self)@.wf(),
    {
        let ghost before = self@;
        let c: usize = cap as usize;
        if (self.len as usize) < c {
            let idx: usize = (self.head as usize + self.len as usize) % c;
            self.ts[idx] = now;
            self.len = self.len + 1;
        } else {
            let idx: usize = self.head as usize;
            self.ts[idx] = now;
            self.head = ((self.head as usize + 1) % c) as u8;
        }
        self.newest = now;
        assert(self@.ts =~= before.pushed(now, cap as int).ts);
    }

    fn count_since(&self, since: u32, cap: u8) -> (r: u32)
        requires
            self@.wf(),
            1 <= cap <= 32,
        ensures
            r == self@.count_since(since, cap as int),
    {
        let c: usize = cap as usize;
        let n: usize = self.len as usize;
        let mut count: u32 = 0;
        let mut i: usize = 0;
        let ghost all = self@.hits(cap as int);
        while i < n
            invariant
                i <= n,
                n == self.len,
                n <= 32,
                c == cap,
                1 <= cap <= 32,
                self@.wf(),
                all == self@.hits(cap as int),
                count == count_from(all.take(i as int), since),
                count <= i,
            decreases n - i,
        {
            let at: usize = (self.head as usize + i) % c;
            let t: u32 = self.ts[at];
            assert(all[i as int] == t);
            assert(all.take(i + 1).drop_last() =~= all.take(i as int));
            if t >= since {
                count = count + 1;
            }
            i += 1;
        }
        assert(all.take(n as int) =~= all);
        count
    }

    /// When the newest hit happened.
    fn last(&self) -> (r: u32)
        ensures
            r == self@.newest,
    {
        self.newest
    }
}

/// What is tracked: a network, per filter.
#[derive(Clone, Copy, PartialEq, Eq, Structural, Debug, Hash)]
pub struct TrackKey {
    pub filter: u16,
    pub net: IpNet,
}

impl Key for TrackKey {
    type Id = TrackKey;

    open spec fn id(self) -> TrackKey {
        self
    }

    /// By filter, then by network.
    open spec fn rank(id: TrackKey) -> Seq<int> {
        seq![id.filter as int] + IpNet::rank(id.net)
    }

    proof fn lemma_rank_injective(a: TrackKey, b: TrackKey) {
        assert(Self::rank(a)[0] == a.filter as int);
        assert(Self::rank(b)[0] == b.filter as int);
        assert(IpNet::rank(a.net) =~= Self::rank(a).drop_first());
        assert(IpNet::rank(b.net) =~= Self::rank(b).drop_first());
        assert(IpNet::rank(a.net) == IpNet::rank(b.net));
        IpNet::lemma_rank_injective(a.net, b.net);
    }

    fn order(&self, other: &TrackKey) -> (r: Order) {
        proof {
            assert(IpNet::rank(self.net) =~= Self::rank(*self).drop_first());
            assert(IpNet::rank(other.net) =~= Self::rank(*other).drop_first());
            if self.filter == other.filter && self.net.order_equal(other.net) {
                assert(Self::rank(*self) =~= Self::rank(*other));
            }
        }
        if self.filter < other.filter {
            Order::Less
        } else if self.filter > other.filter {
            Order::Greater
        } else {
            self.net.order(&other.net)
        }
    }
}

impl IpNet {
    /// Equal rank.
    spec fn order_equal(self, other: IpNet) -> bool {
        IpNet::rank(self) == IpNet::rank(other)
    }
}

/// What a hit comes to.
#[derive(Debug, Clone, Copy, PartialEq, Eq, Structural)]
pub enum Verdict {
    /// Below threshold; `hits` in window so far.
    Below { hits: u32 },
    /// Threshold reached; the window has been reset.
    Ban { hits: u32 },
}

/// The windows of all tracked keys.
pub struct Tracker {
    map: SortedMap<TrackKey, Window>,
    max_entries: usize,
}

/// The ring of a key, empty if the key is not tracked.
pub open spec fn ring_of(m: Map<TrackKey, Ring>, key: TrackKey) -> Ring {
    if m.contains_key(key) {
        m[key]
    } else {
        Ring::empty()
    }
}

/// How many hits a window remembers under `maxretry`.
pub open spec fn cap_of(maxretry: u32) -> int {
    if maxretry < 1 {
        1
    } else if maxretry > MAX_RETRY_CAP {
        MAX_RETRY_CAP as int
    } else {
        maxretry as int
    }
}

/// The earliest time that is still inside the last `span` seconds.
pub open spec fn window_start(now: u32, span: u64) -> u32 {
    if span >= now {
        0
    } else {
        (now - span) as u32
    }
}

/// The verdict on a hit at `now` for a key whose ring was `ring`.
pub open spec fn verdict_of(ring: Ring, now: u32, findtime: u64, maxretry: u32) -> Verdict {
    let hits = ring.pushed(now, cap_of(maxretry)).count_since(
        window_start(now, findtime),
        cap_of(maxretry),
    ) as u32;
    if hits >= maxretry {
        Verdict::Ban { hits }
    } else {
        Verdict::Below { hits }
    }
}

/// The map after that hit: a ban forgets the key.
pub open spec fn map_after_hit(
    m: Map<TrackKey, Ring>,
    key: TrackKey,
    now: u32,
    findtime: u64,
    maxretry: u32,
) -> Map<TrackKey, Ring> {
    if verdict_of(ring_of(m, key), now, findtime, maxretry) is Ban {
        m.remove(key)
    } else {
        m.insert(key, ring_of(m, key).pushed(now, cap_of(maxretry)))
    }
}

/// How many entries one eviction takes out of `len`.
pub open spec fn batch_size(len: nat) -> nat {
    if len / 32 > 1 {
        len / 32
    } else if len > 0 {
        1
    } else {
        0
    }
}

/// `after` is `before` without the keys in `gone`: a batch of which none has a
/// newer last hit than a key that stays.
pub open spec fn evicts(
    before: Map<TrackKey, Ring>,
    after: Map<TrackKey, Ring>,
    gone: Set<TrackKey>,
) -> bool {
    &&& gone.finite()
    &&& gone.subset_of(before.dom())
    &&& gone.len() == batch_size(before.dom().len())
    &&& after == before.remove_keys(gone)
    &&& forall|g: TrackKey, k: TrackKey|
        gone.contains(g) && after.contains_key(k) ==> #[trigger] before[g].newest
            <= #[trigger] before[k].newest
}

/// The map that a hit on `key` works on: a full map first makes room for a key that
/// it does not have.
pub open spec fn makes_room(
    before: Map<TrackKey, Ring>,
    after: Map<TrackKey, Ring>,
    key: TrackKey,
    max: nat,
) -> bool {
    if !before.contains_key(key) && before.dom().len() >= max {
        exists|gone: Set<TrackKey>| evicts(before, after, gone)
    } else {
        after == before
    }
}

impl View for Tracker {
    type V = Map<TrackKey, Ring>;

    closed spec fn view(&self) -> Map<TrackKey, Ring> {
        self.map@.map_values(|w: Window| w@)
    }
}

impl Tracker {
    /// The most keys that are tracked at a time.
    pub closed spec fn max(&self) -> nat {
        self.max_entries as nat
    }

    /// The cap holds, and every ring is one.
    pub closed spec fn wf(&self) -> bool {
        &&& self.map.wf()
        &&& self.max_entries >= 16
        &&& self.map@.dom().len() <= self.max_entries
        &&& forall|k: TrackKey| #[trigger] self.map@.contains_key(k) ==> self.map@[k]@.wf()
    }

    /// Memory is bounded: never more than `max` keys.
    pub proof fn law_bounded(&self)
        requires
            self.wf(),
        ensures
            self@.dom().finite(),
            self@.dom().len() <= self.max(),
    {
        self.map.lemma_view();
        assert(self@.dom() =~= self.map@.dom());
    }

    pub fn new(max_entries: usize) -> (r: Tracker)
        ensures
            r.wf(),
            r@ == Map::<TrackKey, Ring>::empty(),
            r.max() == (if max_entries > 16 {
                max_entries as nat
            } else {
                16
            }),
    {
        let r = Tracker {
            map: SortedMap::new(),
            max_entries: if max_entries > 16 {
                max_entries
            } else {
                16
            },
        };
        proof {
            r.map.lemma_view();
            assert(r@ =~= Map::<TrackKey, Ring>::empty());
        }
        r
    }

    pub fn len(&self) -> (r: usize)
        requires
            self.wf(),
        ensures
            r == self@.dom().len(),
            r <= self.max(),
    {
        assert(self@.dom() =~= self.map@.dom());
        self.map.len()
    }

    pub fn is_empty(&self) -> (r: bool)
        requires
            self.wf(),
        ensures
            r == (self@ == Map::<TrackKey, Ring>::empty()),
    {
        let n = self.len();
        proof {
            self.map.lemma_view();
            assert(self@.dom() =~= self.map@.dom());
            if n == 0 {
                assert(self@.dom() =~= Set::<TrackKey>::empty());
                assert(self@ =~= Map::<TrackKey, Ring>::empty());
            } else {
                assert(self@.dom() != Set::<TrackKey>::empty());
            }
        }
        n == 0
    }

    /// Record a hit at `now` (unix seconds) and decide.
    pub fn hit(&mut self, key: TrackKey, now: u32, findtime: Duration, maxretry: u32) -> (r: Verdict)
        requires
            old(self).wf(),
        ensures
            final(self).wf(),
            final(self).max() == old(self).max(),
            r == verdict_of(ring_of(old(self)@, key), now, findtime@, maxretry),
            exists|room: Map<TrackKey, Ring>| #[trigger]
                makes_room(old(self)@, room, key, old(self).max()) && final(self)@
                    == map_after_hit(room, key, now, findtime@, maxretry),
    {
        let ghost start = self@;
        let cap: u8 = if maxretry < 1 {
            1
        } else if maxretry > MAX_RETRY_CAP {
            MAX_RETRY_CAP as u8
        } else {
            maxretry as u8
        };
        proof {
            self.map.lemma_view();
            assert(self@.dom() =~= self.map@.dom());
        }
        let have: bool = self.map.contains(&key);
        if !have && self.map.len() >= self.max_entries {
            self.evict_batch();
        }
        let ghost room = self@;
        assert(makes_room(start, room, key, old(self).max()));
        proof {
            self.map.lemma_view();
            assert(self@.dom() =~= self.map@.dom());
            if !have {
                assert(!room.contains_key(key));
            }
            assert(ring_of(room, key) == ring_of(start, key));
        }
        let mut w: Window = match self.map.get(&key) {
            Some(w) => *w,
            None => Window::new(),
        };
        assert(w@ == ring_of(room, key));
        w.push(now, cap);
        let span: u64 = findtime.as_secs();
        let since: u32 = now.saturating_sub(
            if span > 0xffff_ffff {
                0xffff_ffff
            } else {
                span as u32
            },
        );
        assert(since == window_start(now, span));
        let hits: u32 = w.count_since(since, cap);
        let ghost mid = self.map@;
        if hits >= maxretry {
            self.map.remove(&key);
            proof {
                self.map.lemma_view();
                assert(self@ =~= room.remove(key));
            }
            Verdict::Ban { hits }
        } else {
            self.map.insert(key, w);
            proof {
                self.map.lemma_view();
                assert(self@ =~= room.insert(key, w@));
                assert(self.map@.dom() =~= mid.dom().insert(key));
            }
            Verdict::Below { hits }
        }
    }

    pub fn forget(&mut self, key: &TrackKey)
        requires
            old(self).wf(),
        ensures
            final(self).wf(),
            final(self).max() == old(self).max(),
            final(self)@ == old(self)@.remove(*key),
    {
        proof {
            self.map.lemma_view();
        }
        self.map.remove(key);
        proof {
            self.map.lemma_view();
            assert(self@ =~= old(self)@.remove(*key));
        }
    }

    /// Drop entries whose newest hit is older than `idle`.
    pub fn sweep(&mut self, now: u32, idle: Duration) -> (r: usize)
        requires
            old(self).wf(),
        ensures
            final(self).wf(),
            final(self).max() == old(self).max(),
            final(self)@ == kept(old(self)@, |k: TrackKey, w: Ring| w.newest + idle@ >= now),
            r == old(self)@.dom().len() - final(self)@.dom().len(),
    {
        let span: u64 = idle.as_secs();
        let cutoff: u32 = now.saturating_sub(
            if span > 0xffff_ffff {
                0xffff_ffff
            } else {
                span as u32
            },
        );
        assert(cutoff == window_start(now, span));
        let before: usize = self.len();
        let ghost m0 = self.map@;
        let keep = |k: &TrackKey, w: &Window| -> (b: bool)
            ensures
                b == (w@.newest >= cutoff),
            { w.last() >= cutoff };
        let ghost p = |k: TrackKey, w: Window| w@.newest >= cutoff;
        proof {
            self.map.lemma_view();
        }
        self.map.retain(keep, Ghost(p));
        proof {
            self.map.lemma_view();
            assert(self.map@.dom().subset_of(m0.dom()));
            vstd::set_lib::lemma_len_subset(self.map@.dom(), m0.dom());
            assert(self@ =~= kept(
                old(self)@,
                |k: TrackKey, w: Ring| w.newest + idle@ >= now,
            ));
            assert(self@.dom() =~= self.map@.dom());
            assert(old(self)@.dom() =~= m0.dom());
        }
        before - self.len()
    }

    /// Make room for one new key: drop the oldest ~1/32 of entries (by last
    /// hit). Finding the oldest is O(n), so evicting one at a time would let a
    /// steady stream of fresh addresses at the cap cost a full scan per line.
    /// Evicting a batch amortises that to O(32) per insertion.
    fn evict_batch(&mut self)
        requires
            old(self).wf(),
            old(self)@.dom().len() >= 1,
        ensures
            final(self).wf(),
            final(self).max() == old(self).max(),
            exists|gone: Set<TrackKey>| evicts(old(self)@, final(self)@, gone),
            final(self)@.dom().len() < old(self)@.dom().len(),
    {
        let len: usize = self.map.len();
        proof {
            self.map.lemma_view();
            assert(self@.dom() =~= self.map@.dom());
        }
        let ghost keys = self.map.keys();
        let ghost m0 = self.map@;
        let n: usize = if len / EVICT_DIVISOR > 1 {
            len / EVICT_DIVISOR
        } else {
            1
        };
        let mut all: Vec<(u32, usize)> = Vec::new();
        let mut i: usize = 0;
        while i < len
            invariant
                i <= len,
                len == keys.len(),
                self.map.wf(),
                self.map@ == m0,
                self.map.keys() == keys,
                all@.len() == i,
                forall|j: int|
                    0 <= j < i ==> (#[trigger] all@[j]).1 == j && all@[j].0 == m0[keys[j]]@.newest,
            decreases len - i,
        {
            all.push((self.map.value_at(i).last(), i));
            i += 1;
        }
        let ghost first = all@;
        foreign::select_nth(&mut all, n - 1);
        proof {
            lemma_same_pairs(first, all@);
        }
        let mut gone: SortedMap<TrackKey, ()> = SortedMap::new();
        let mut j: usize = 0;
        while j < n
            invariant
                j <= n,
                n <= len,
                len == keys.len(),
                len == all@.len(),
                self.map.wf(),
                self.map.keys() == keys,
                self.map@ == m0,
                keys.no_duplicates(),
                gone.wf(),
                gone@.dom().finite(),
                gone@.dom().len() == j,
                forall|p: int, q: int|
                    0 <= p < q < all@.len() ==> (#[trigger] all@[p]).1 != (#[trigger] all@[q]).1,
                forall|p: int| 0 <= p < all@.len() ==> (#[trigger] all@[p]).1 < len,
                forall|k: TrackKey|
                    #[trigger] gone@.contains_key(k) <==> exists|p: int|
                        0 <= p < j && k == keys[(#[trigger] all@[p]).1 as int],
            decreases n - j,
        {
            let at: usize = all[j].1;
            let k: TrackKey = *self.map.key_at(at);
            let ghost g0 = gone@;
            assert(!g0.contains_key(k)) by {
                if g0.contains_key(k) {
                    let p = choose|p: int|
                        0 <= p < j && k == keys[(#[trigger] all@[p]).1 as int];
                    assert(all@[p].1 != all@[j as int].1);
                }
            }
            gone.insert(k, ());
            assert(gone@.dom() =~= g0.dom().insert(k));
            assert forall|x: TrackKey|
                #[trigger] gone@.contains_key(x) <==> exists|p: int|
                    0 <= p < j + 1 && x == keys[(#[trigger] all@[p]).1 as int] by {
                if gone@.contains_key(x) {
                    if x == k {
                        assert(x == keys[all@[j as int].1 as int]);
                    } else {
                        assert(g0.contains_key(x));
                    }
                }
            }
            j += 1;
        }
        let ghost gset = gone@.dom();
        let keep = |k: &TrackKey, w: &Window| -> (b: bool)
            requires
                gone.wf(),
            ensures
                b == !gone@.contains_key(*k),
            { !gone.contains(k) };
        let ghost p = |k: TrackKey, w: Window| !gset.contains(k);
        self.map.retain(keep, Ghost(p));
        proof {
            self.map.lemma_view();
            let before = old(self)@;
            assert(before.dom() =~= m0.dom());
            assert(self@.dom() =~= self.map@.dom());
            assert forall|k: TrackKey| gset.contains(k) implies m0.contains_key(k) by {
                assert(gone@.contains_key(k));
                let q = choose|q: int| 0 <= q < n && k == keys[(#[trigger] all@[q]).1 as int];
                assert(keys.contains(keys[all@[q].1 as int]));
                old(self).map.lemma_view();
            }
            assert(gset.subset_of(before.dom()));
            assert(self@ =~= before.remove_keys(gset));
            assert forall|g: TrackKey, k: TrackKey|
                gset.contains(g) && self@.contains_key(k) implies #[trigger] before[g].newest
                    <= #[trigger] before[k].newest by {
                assert(gone@.contains_key(g));
                let a = choose|a: int| 0 <= a < n && g == keys[(#[trigger] all@[a]).1 as int];
                old(self).map.lemma_view();
                assert(keys.contains(k));
                let q = choose|q: int| 0 <= q < keys.len() && keys[q] == k;
                let b = lemma_pair_place(first, all@, q);
                if b < n {
                    assert(gone@.contains_key(keys[all@[b].1 as int]));
                }
                assert(foreign::pair_le(all@[a], all@[n - 1]) || a == n - 1);
                assert(foreign::pair_le(all@[n - 1], all@[b]));
                assert(first[all@[a].1 as int].0 == m0[g]@.newest);
                assert(first[all@[b].1 as int].0 == m0[k]@.newest);
            }
            assert(evicts(before, self@, gset));
            assert(m0.dom().difference(gset) =~= self.map@.dom());
            let some = gset.choose();
            assert(gset.contains(some));
            assert(self.map@.dom().subset_of(m0.dom().remove(some)));
            vstd::set_lib::lemma_len_subset(self.map@.dom(), m0.dom().remove(some));
        }
    }
}

/// A reordering of `(value, position)` pairs holds every position once, each with
/// its value.
proof fn lemma_same_pairs(a: Seq<(u32, usize)>, b: Seq<(u32, usize)>)
    requires
        a.to_multiset() == b.to_multiset(),
        a.len() == b.len(),
        forall|j: int| 0 <= j < a.len() ==> (#[trigger] a[j]).1 == j,
    ensures
        forall|p: int| 0 <= p < b.len() ==> (#[trigger] b[p]).1 < a.len() && b[p] == a[b[p].1 as int],
        forall|p: int, q: int|
            0 <= p < q < b.len() ==> (#[trigger] b[p]).1 != (#[trigger] b[q]).1,
{
    a.to_multiset_ensures();
    b.to_multiset_ensures();
    assert forall|p: int| 0 <= p < b.len() implies (#[trigger] b[p]).1 < a.len() && b[p]
        == a[b[p].1 as int] by {
        assert(b.contains(b[p]));
        assert(b.to_multiset().count(b[p]) > 0);
        assert(a.contains(b[p]));
    }
    assert(a.no_duplicates());
    a.lemma_multiset_has_no_duplicates();
    b.lemma_multiset_has_no_duplicates_conv();
}

/// In such a reordering every position stands somewhere.
proof fn lemma_pair_place(a: Seq<(u32, usize)>, b: Seq<(u32, usize)>, q: int) -> (p: int)
    requires
        a.to_multiset() == b.to_multiset(),
        0 <= q < a.len(),
    ensures
        0 <= p < b.len(),
        b[p] == a[q],
{
    a.to_multiset_ensures();
    b.to_multiset_ensures();
    assert(a.contains(a[q]));
    assert(a.to_multiset().count(a[q]) > 0);
    assert(b.contains(a[q]));
    choose|p: int| 0 <= p < b.len() && b[p] == a[q]
}

} // verus!
