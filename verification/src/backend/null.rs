//! Dry-run backend: records bans in memory. Useful for `minsec test`, for running
//! alongside fail2ban to compare decisions, and for tests.

use vstd::prelude::*;

use super::{Ban, Call, Entry, Firewall};
use crate::duration::Duration;
use crate::ip::IpNet;
use crate::sorted::{kept, SortedMap};

verus! {

/// Bans by network, with the second at which each ends.
pub struct Null {
    bans: SortedMap<IpNet, u64>,
    allow: Vec<IpNet>,
    /// The current second.
    clock: u64,
    /// What it was asked for and answered.
    calls: Ghost<Seq<Call>>,
}

/// When something that lasts `ttl` ends.
pub open spec fn end_of(clock: u64, ttl: u64) -> u64 {
    if clock + ttl > u64::MAX {
        u64::MAX
    } else {
        (clock + ttl) as u64
    }
}

/// The bans after `more` at second `clock`.
pub open spec fn with_bans(m: Map<IpNet, u64>, more: Seq<Ban>, clock: u64) -> Map<IpNet, u64>
    decreases more.len(),
{
    if more.len() == 0 {
        m
    } else {
        with_bans(m, more.drop_last(), clock).insert(
            more.last().net,
            end_of(clock, more.last().ttl@),
        )
    }
}

/// The bans after `nets` were lifted.
pub open spec fn without(m: Map<IpNet, u64>, nets: Seq<IpNet>) -> Map<IpNet, u64>
    decreases nets.len(),
{
    if nets.len() == 0 {
        m
    } else {
        without(m, nets.drop_last()).remove(nets.last())
    }
}

/// The bans that still run at second `clock`.
pub open spec fn running(m: Map<IpNet, u64>, clock: u64) -> Map<IpNet, u64> {
    kept(m, |n: IpNet, until: u64| until > clock)
}

/// The bans as a list, in the order of `nets`.
pub open spec fn entries_of(nets: Seq<IpNet>, m: Map<IpNet, u64>, clock: u64) -> Seq<Entry> {
    nets.map_values(
        |n: IpNet|
            Entry {
                net: n,
                expires_in: Some(Duration { secs: (m[n] - clock) as u64 }),
            },
    )
}

impl Null {
    /// The table of bans is in order.
    #[verifier::type_invariant]
    spec fn inv(self) -> bool {
        self.bans.wf()
    }

    /// The bans on record.
    pub closed spec fn table(&self) -> Map<IpNet, u64> {
        self.bans@
    }

    /// The networks on record, in order.
    pub closed spec fn nets(&self) -> Seq<IpNet> {
        self.bans.keys()
    }

    /// The current second.
    pub closed spec fn second(&self) -> u64 {
        self.clock
    }

    /// The allow list.
    pub closed spec fn allowed(&self) -> Seq<IpNet> {
        self.allow@
    }

    pub fn new(clock: u64) -> (r: Self)
        ensures
            r.table() == Map::<IpNet, u64>::empty(),
            r.allowed().len() == 0,
            r.second() == clock,
            r.asked().len() == 0,
    {
        Null { bans: SortedMap::new(), allow: Vec::new(), clock, calls: Ghost(Seq::empty()) }
    }

    /// Lets time pass.
    pub fn set_clock(&mut self, clock: u64)
        ensures
            final(self).second() == clock,
            final(self).table() == old(self).table(),
            final(self).nets() == old(self).nets(),
            final(self).allowed() == old(self).allowed(),
            final(self).asked() == old(self).asked(),
    {
        proof {
            use_type_invariant(&*self);
        }
        self.clock = clock;
    }

    /// The allow list.
    pub fn allow(&self) -> (r: &Vec<IpNet>)
        ensures
            r@ == self.allowed(),
    {
        &self.allow
    }

    /// Whether a ban of the network runs.
    pub fn contains(&self, net: &IpNet) -> (r: bool)
        ensures
            r == running(self.table(), self.second()).contains_key(*net),
    {
        proof {
            use_type_invariant(self);
        }
        match self.bans.get(net) {
            Some(until) => *until > self.clock,
            None => false,
        }
    }

    /// How long a ban on record still runs.
    pub fn remaining(&self, net: &IpNet) -> (r: Option<Duration>)
        ensures
            self.table().contains_key(*net) ==> r == Some(
                Duration {
                    secs: if self.table()[*net] > self.second() {
                        (self.table()[*net] - self.second()) as u64
                    } else {
                        0
                    },
                },
            ),
            !self.table().contains_key(*net) ==> r is None,
    {
        proof {
            use_type_invariant(self);
        }
        match self.bans.get(net) {
            Some(until) => Some(Duration::from_secs(until.saturating_sub(self.clock))),
            None => None,
        }
    }

    /// Puts a call on record.
    fn note(&mut self, call: Ghost<Call>)
        ensures
            final(self).asked() == old(self).asked().push(call@),
            final(self).table() == old(self).table(),
            final(self).nets() == old(self).nets(),
            final(self).second() == old(self).second(),
            final(self).allowed() == old(self).allowed(),
    {
        proof {
            use_type_invariant(&*self);
        }
        self.calls = Ghost(self.calls@.push(call@));
    }

    /// Takes the table out.
    fn take_bans(&mut self) -> (r: SortedMap<IpNet, u64>)
        ensures
            r.wf(),
            r@ == old(self).table(),
            final(self).second() == old(self).second(),
            final(self).allowed() == old(self).allowed(),
            final(self).asked() == old(self).asked(),
    {
        proof {
            use_type_invariant(&*self);
        }
        let mut m = SortedMap::new();
        std::mem::swap(&mut m, &mut self.bans);
        m
    }
}

/// Puts bans on record.
fn record(m: &mut SortedMap<IpNet, u64>, bans: &Vec<Ban>, clock: u64)
    requires
        old(m).wf(),
    ensures
        final(m).wf(),
        final(m)@ == with_bans(old(m)@, bans@, clock),
{
    let ghost start = m@;
    let mut i: usize = 0;
    assert(bans@.take(0) =~= Seq::empty());
    while i < bans.len()
        invariant
            i <= bans@.len(),
            m.wf(),
            m@ == with_bans(start, bans@.take(i as int), clock),
        decreases bans@.len() - i,
    {
        let b = bans[i];
        assert(bans@.take(i + 1).drop_last() =~= bans@.take(i as int));
        m.insert(b.net, clock.saturating_add(b.ttl.as_secs()));
        i += 1;
    }
    assert(bans@.take(i as int) =~= bans@);
}

/// Takes networks off the record.
fn lift(m: &mut SortedMap<IpNet, u64>, nets: &Vec<IpNet>)
    requires
        old(m).wf(),
    ensures
        final(m).wf(),
        final(m)@ == without(old(m)@, nets@),
{
    let ghost start = m@;
    let mut i: usize = 0;
    assert(nets@.take(0) =~= Seq::empty());
    while i < nets.len()
        invariant
            i <= nets@.len(),
            m.wf(),
            m@ == without(start, nets@.take(i as int)),
        decreases nets@.len() - i,
    {
        assert(nets@.take(i + 1).drop_last() =~= nets@.take(i as int));
        m.remove(&nets[i]);
        i += 1;
    }
    assert(nets@.take(i as int) =~= nets@);
}

/// Drops what has ended, and hands out the rest in order.
fn current(m: &mut SortedMap<IpNet, u64>, clock: u64) -> (r: Vec<Entry>)
    requires
        old(m).wf(),
    ensures
        final(m).wf(),
        final(m)@ == running(old(m)@, clock),
        r@ == entries_of(final(m).keys(), final(m)@, clock),
{
    let keep = |n: &IpNet, until: &u64| -> (b: bool)
        ensures
            b == (*until > clock),
        { *until > clock };
    let ghost p = |n: IpNet, until: u64| until > clock;
    m.retain(keep, Ghost(p));
    assert(m@ =~= running(old(m)@, clock));
    let mut out: Vec<Entry> = Vec::new();
    let ghost nets = m.keys();
    let n: usize = m.len();
    let mut i: usize = 0;
    while i < n
        invariant
            i <= n,
            n == nets.len(),
            m.wf(),
            m@ == running(old(m)@, clock),
            nets == m.keys(),
            forall|k: IpNet| #[trigger] m@.contains_key(k) ==> m@[k] > clock,
            out@ == entries_of(nets, m@, clock).take(i as int),
        decreases n - i,
    {
        let net = *m.key_at(i);
        let until: u64 = *m.value_at(i);
        out.push(Entry { net, expires_in: Some(Duration::from_secs(until - clock)) });
        let ghost all = entries_of(nets, m@, clock);
        assert(all.take(i + 1) =~= all.take(i as int).push(all[i as int]));
        i += 1;
    }
    assert(entries_of(nets, m@, clock).take(i as int) =~= entries_of(nets, m@, clock));
    out
}

impl Firewall for Null {
    closed spec fn asked(&self) -> Seq<Call> {
        self.calls@
    }

    open spec fn title(&self) -> Seq<char> {
        "null"@
    }

    fn name(&self) -> (r: String) {
        "null".to_owned()
    }

    fn setup(&mut self) -> (r: Result<(), String>)
        ensures
            r is Ok,
            final(self).table() == old(self).table(),
            final(self).second() == old(self).second(),
            final(self).allowed() == old(self).allowed(),
    {
        self.note(Ghost(Call::Setup { error: None }));
        Ok(())
    }

    fn ban(&mut self, bans: &Vec<Ban>) -> (r: Result<(), String>)
        ensures
            r is Ok,
            final(self).table() == with_bans(old(self).table(), bans@, old(self).second()),
            final(self).second() == old(self).second(),
            final(self).allowed() == old(self).allowed(),
    {
        let clock: u64 = self.clock;
        let mut m = self.take_bans();
        record(&mut m, bans, clock);
        self.bans = m;
        self.note(Ghost(Call::Ban { bans: bans@, error: None }));
        Ok(())
    }

    fn unban(&mut self, nets: &Vec<IpNet>) -> (r: Result<(), String>)
        ensures
            r is Ok,
            final(self).table() == without(old(self).table(), nets@),
            final(self).second() == old(self).second(),
            final(self).allowed() == old(self).allowed(),
    {
        let mut m = self.take_bans();
        lift(&mut m, nets);
        self.bans = m;
        self.note(Ghost(Call::Unban { nets: nets@, error: None }));
        Ok(())
    }

    fn list(&mut self) -> (r: Result<Option<Vec<Entry>>, String>)
        ensures
            final(self).table() == running(old(self).table(), old(self).second()),
            final(self).second() == old(self).second(),
            final(self).allowed() == old(self).allowed(),
            r matches Ok(Some(v)) && v@ == entries_of(
                final(self).nets(),
                final(self).table(),
                old(self).second(),
            ),
    {
        let clock: u64 = self.clock;
        let mut m = self.take_bans();
        let out = current(&mut m, clock);
        self.bans = m;
        self.note(Ghost(Call::List { got: Ok(Some(out@)) }));
        Ok(Some(out))
    }

    fn set_allow(&mut self, nets: &Vec<IpNet>) -> (r: Result<(), String>)
        ensures
            r is Ok,
            final(self).allowed() == nets@,
            final(self).table() == old(self).table(),
            final(self).second() == old(self).second(),
    {
        proof {
            use_type_invariant(&*self);
        }
        self.allow = copy_nets(nets);
        self.note(Ghost(Call::SetAllow { nets: nets@, error: None }));
        Ok(())
    }
}

/// A copy of a list of networks.
pub fn copy_nets(v: &Vec<IpNet>) -> (r: Vec<IpNet>)
    ensures
        r@ == v@,
{
    let mut r: Vec<IpNet> = Vec::new();
    let mut i: usize = 0;
    while i < v.len()
        invariant
            i <= v@.len(),
            r@ == v@.take(i as int),
        decreases v@.len() - i,
    {
        r.push(v[i]);
        i += 1;
        assert(v@.take(i as int) =~= v@.take(i - 1).push(v@[i - 1]));
    }
    assert(v@.take(i as int) =~= v@);
    r
}

/// A ban that was put on record runs until its time is up, and no longer.
pub proof fn law_ban_runs_its_time(m: Map<IpNet, u64>, b: Ban, clock: u64, later: u64)
    requires
        clock + b.ttl@ <= u64::MAX,
    ensures
        running(with_bans(m, seq![b], clock), later).contains_key(b.net) == (later < clock
            + b.ttl@),
{
    let one = seq![b];
    assert(one.drop_last() =~= Seq::<Ban>::empty());
    assert(with_bans(m, one.drop_last(), clock) == m);
}

/// A ban that was lifted does not run.
pub proof fn law_unban_undoes_ban(m: Map<IpNet, u64>, b: Ban, clock: u64)
    ensures
        without(with_bans(m, seq![b], clock), seq![b.net]) == m.remove(b.net),
{
    let one = seq![b];
    let net = seq![b.net];
    assert(one.drop_last() =~= Seq::<Ban>::empty());
    assert(net.drop_last() =~= Seq::<IpNet>::empty());
    assert(with_bans(m, one.drop_last(), clock) == m);
    assert(without(with_bans(m, one, clock), net.drop_last()) == with_bans(m, one, clock));
    assert(without(with_bans(m, one, clock), net) =~= m.remove(b.net));
}

/// Every ban of a list is put on record until its time is up, the last one of a network
/// for good; other networks keep what they had.
pub proof fn law_bans_on_record(m: Map<IpNet, u64>, more: Seq<Ban>, clock: u64, net: IpNet)
    ensures
        (forall|i: int| 0 <= i < more.len() ==> (#[trigger] more[i]).net != net) ==> (with_bans(
            m,
            more,
            clock,
        ).contains_key(net) == m.contains_key(net) && (m.contains_key(net) ==> with_bans(
            m,
            more,
            clock,
        )[net] == m[net])),
        forall|i: int|
            0 <= i < more.len() && (#[trigger] more[i]).net == net && (forall|j: int|
                i < j < more.len() ==> (#[trigger] more[j]).net != net) ==> with_bans(
                m,
                more,
                clock,
            ).contains_key(net) && with_bans(m, more, clock)[net] == (if clock + more[i].ttl.secs
                < u64::MAX {
                clock + more[i].ttl.secs
            } else {
                u64::MAX as int
            }),
    decreases more.len(),
{
    if more.len() > 0 {
        let u = more.drop_last();
        law_bans_on_record(m, u, clock, net);
        assert(more[more.len() - 1] == more.last());
        if more.last().net != net {
            if forall|i: int| 0 <= i < more.len() ==> (#[trigger] more[i]).net != net {
                assert forall|i: int| 0 <= i < u.len() implies (#[trigger] u[i]).net != net by {
                    assert(u[i] == more[i]);
                }
            }
            assert forall|i: int|
                0 <= i < more.len() && (#[trigger] more[i]).net == net && (forall|j: int|
                    i < j < more.len() ==> (#[trigger] more[j]).net != net) implies with_bans(
                m,
                more,
                clock,
            ).contains_key(net) && with_bans(m, more, clock)[net] == (if clock + more[i].ttl.secs
                < u64::MAX {
                clock + more[i].ttl.secs
            } else {
                u64::MAX as int
            }) by {
                assert(u[i] == more[i]);
                assert forall|j: int| i < j < u.len() implies (#[trigger] u[j]).net != net by {
                    assert(u[j] == more[j]);
                }
            }
        }
    }
}

/// Lifting takes exactly the networks of the list off the record.
pub proof fn law_lifted_exactly(m: Map<IpNet, u64>, nets: Seq<IpNet>, net: IpNet)
    ensures
        without(m, nets).contains_key(net) == (m.contains_key(net) && !nets.contains(net)),
        without(m, nets).contains_key(net) ==> without(m, nets)[net] == m[net],
    decreases nets.len(),
{
    if nets.len() > 0 {
        let u = nets.drop_last();
        law_lifted_exactly(m, u, net);
        if nets.contains(net) {
            let i = choose|i: int| 0 <= i < nets.len() && nets[i] == net;
            if i < u.len() {
                assert(u[i] == net);
            }
        }
        if u.contains(net) {
            let i = choose|i: int| 0 <= i < u.len() && u[i] == net;
            assert(nets[i] == net);
        }
        if net == nets.last() {
            assert(nets[nets.len() - 1] == net);
        }
    }
}

/// A ban runs while its end is still to come; a list tells for every network how long
/// that is.
pub proof fn law_running_bans(m: Map<IpNet, u64>, nets: Seq<IpNet>, clock: u64, net: IpNet, i: int)
    requires
        0 <= i < nets.len(),
    ensures
        running(m, clock).contains_key(net) == (m.contains_key(net) && clock < m[net]),
        running(m, clock).contains_key(net) ==> running(m, clock)[net] == m[net],
        entries_of(nets, m, clock).len() == nets.len(),
        entries_of(nets, m, clock)[i].net == nets[i],
        m[nets[i]] >= clock ==> (entries_of(nets, m, clock)[i].expires_in matches Some(d) && d.secs
            == m[nets[i]] - clock),
{
}

} // verus!
