//! The engine: routes lines to filters, tracks failures, applies policy, and
//! drives the firewall backend. Single-threaded; no log text is retained.

use vstd::arithmetic::power::pow;
use vstd::prelude::*;
use vstd::string::*;

use crate::backend::{enumerated, Ban, Call, Driver, Entry, Firewall};
use crate::config::{copy_ports, resolved, Config, CustomFile, Defaults, Policy};
use crate::control::{BanInfo, FilterStatus, Status};
use crate::duration::Duration;
use crate::events::{events_of, Event, EventView};
use crate::filter::{
    line_match, prefixed, refusal, CompiledFilter, DefView, FilterDef, Found,
};
use crate::ip;
use crate::ip::{IpAddr, IpNet};
use crate::sorted::{ascending, kept, key_texts, Key, SortedMap};
use crate::source::{is_system, Line, Origin, FIRST_USER_UID};
use crate::text;
use crate::text::{opt_text, texts};
use crate::tracker::{
    makes_room, map_after_hit, ring_of, verdict_of, Ring, TrackKey, Tracker, Verdict,
};

verus! {

pub const VERSION: &'static str = "0.1.4";

/// Housekeeping is due after this many seconds.
pub const SWEEP_SECS: u32 = 60;

/// How long hits are kept where no filter says.
pub const DEFAULT_IDLE_SECS: u64 = 600;

/// Previous bans beyond this many no longer lengthen the next one.
pub const ESCALATION_STEPS: u32 = 32;

pub struct LoadedFilter {
    pub filter: CompiledFilter,
    pub policy: Policy,
    pub via_journal: bool,
    pub matched: u64,
    pub banned: u64,
}

/// The previous bans of a network.
#[derive(Clone, Copy, PartialEq, Eq, Structural, Debug)]
pub struct BanHistory {
    pub count: u32,
    pub last: u32,
}

/// A ban that is on, and the filter that it came from.
#[derive(Clone, Copy, PartialEq, Eq, Structural, Debug)]
pub struct ActiveBan {
    pub until: u32,
    pub filter: Option<u16>,
}

/// What became of a hit.
#[derive(Clone, Copy, PartialEq, Eq, Structural, Debug)]
pub struct Decision {
    pub filter: u16,
    pub net: IpNet,
    pub banned: bool,
    pub hits: u32,
}

/// Why the engine did not do something.
#[derive(Debug, Clone)]
pub enum EngineError {
    /// The network is on the allow list, or local.
    Refused { net: IpNet },
    /// The backend failed.
    Backend { error: String },
}

impl EngineError {
    /// How the error reads.
    pub open spec fn text(self) -> Seq<char> {
        match self {
            EngineError::Refused { net } => ip::net_text(net)
                + " is on the allow list (or local); refusing to ban"@,
            EngineError::Backend { error } => error@,
        }
    }

    pub fn message(&self) -> (r: String)
        requires
            self matches EngineError::Refused { net } ==> net.wf(),
        ensures
            r@ == self.text(),
    {
        match self {
            EngineError::Refused { net } => {
                let mut out = net.to_text();
                out.append(" is on the allow list (or local); refusing to ban");
                out
            },
            EngineError::Backend { error } => error.clone(),
        }
    }
}

/// What the engine was made with.
pub struct Setup {
    pub defaults: Defaults,
    pub defs: Seq<DefView>,
    pub policies: Seq<Policy>,
    pub via: Seq<bool>,
    pub allow: Seq<IpNet>,
    pub max: nat,
}

/// What the engine keeps as it runs.
#[verifier::ext_equal]
pub struct State {
    pub matched: Seq<u64>,
    pub banned: Seq<u64>,
    pub hits: Map<TrackKey, Ring>,
    pub history: Map<IpNet, BanHistory>,
    pub active: Map<IpNet, ActiveBan>,
    pub events: Seq<EventView>,
    pub calls: Seq<Call>,
    pub lines: u64,
    pub bans_total: u64,
    pub last_sweep: u32,
}

pub struct Engine<F: Firewall> {
    pub cfg: Config,
    pub filters: Vec<LoadedFilter>,
    /// The filters that read each followed file.
    pub routes_file: SortedMap<String, Vec<u16>>,
    pub tracker: Tracker,
    pub history: SortedMap<IpNet, BanHistory>,
    pub active: SortedMap<IpNet, ActiveBan>,
    pub backend: Driver<F>,
    pub allow: Vec<IpNet>,
    /// Events that have not been written out yet.
    pub events: Vec<Event>,
    pub lines: u64,
    pub bans_total: u64,
    pub last_sweep: u32,
}

/// A counter after one more, which stays at its largest value.
pub open spec fn next_count(n: u64) -> u64 {
    if n == u64::MAX {
        n
    } else {
        (n + 1) as u64
    }
}

/// A number of seconds, or the largest that the engine's clock counts.
pub open spec fn on_clock(n: u64) -> u32 {
    if n > u32::MAX {
        u32::MAX
    } else {
        n as u32
    }
}

/// `on_clock`.
pub fn clock_secs(n: u64) -> (r: u32)
    ensures
        r == on_clock(n),
{
    if n > 0xffff_ffff {
        0xffff_ffff
    } else {
        n as u32
    }
}

/// A time `n` seconds after `now`, or the last time there is.
pub open spec fn time_after(now: u32, n: u32) -> u32 {
    if now + n > u32::MAX {
        u32::MAX
    } else {
        (now + n) as u32
    }
}

/// How long ago `then` was.
pub open spec fn age(now: u32, then: u32) -> u32 {
    if now > then {
        (now - then) as u32
    } else {
        0
    }
}

/// `secs` multiplied by `factor` `n` times, but no more than `max` once it reaches it.
pub open spec fn grown(secs: u64, factor: u32, max: u64, n: nat) -> u64
    decreases n,
{
    if n == 0 {
        secs
    } else {
        let next = if secs * factor > u64::MAX {
            u64::MAX
        } else {
            (secs * factor) as u64
        };
        if next >= max {
            max
        } else {
            grown(next, factor, max, (n - 1) as nat)
        }
    }
}

/// How long a ban of a network with the history `h` lasts, and how many bans came
/// before it.
pub open spec fn escalation(d: Defaults, h: Option<BanHistory>, base: u64, now: u32) -> (u64, u32) {
    match h {
        Some(h) if d.escalate_enabled && age(now, h.last) <= d.escalate.memory.0@ => {
            let n = if h.count < ESCALATION_STEPS {
                h.count
            } else {
                ESCALATION_STEPS
            };
            let secs = grown(base, d.escalate.factor, d.escalate.max.0@, n as nat);
            (
                if secs > base {
                    secs
                } else {
                    base
                },
                h.count,
            )
        },
        _ => (base, 0),
    }
}

/// How long a ban lasts, after the bans before it.
pub fn escalate(d: &Defaults, h: Option<BanHistory>, base: Duration, now: u32) -> (r: (
    Duration,
    u32,
))
    ensures
        (r.0@, r.1) == escalation(*d, h, base@, now),
{
    if !d.escalate_enabled {
        return (base, 0);
    }
    let h = match h {
        Some(h) => h,
        None => {
            return (base, 0);
        },
    };
    if now.saturating_sub(h.last) as u64 > d.escalate.memory.secs() {
        return (base, 0);
    }
    let factor: u64 = d.escalate.factor as u64;
    let max: u64 = d.escalate.max.secs();
    let start: u64 = base.as_secs();
    let mut secs: u64 = start;
    let n: u32 = if h.count < ESCALATION_STEPS {
        h.count
    } else {
        ESCALATION_STEPS
    };
    let mut left: u32 = n;
    let ghost want = grown(start, d.escalate.factor, max, n as nat);
    while left > 0
        invariant
            factor == d.escalate.factor,
            want == grown(secs, d.escalate.factor, max, left as nat),
        decreases left,
    {
        let ghost was = secs;
        secs = match secs.checked_mul(factor) {
            Some(x) => x,
            None => u64::MAX,
        };
        left = left - 1;
        if secs >= max {
            secs = max;
            left = 0;
        }
    }
    let ttl: u64 = if secs > start {
        secs
    } else {
        start
    };
    (Duration::from_secs(ttl), h.count)
}

/// Growth stays between zero and the larger of the start and the bound.
proof fn lemma_grown_bound(secs: u64, factor: u32, max: u64, n: nat)
    ensures
        grown(secs, factor, max, n) <= (if secs > max {
            secs
        } else {
            max
        }),
    decreases n,
{
    if n > 0 {
        let next = if secs * factor > u64::MAX {
            u64::MAX
        } else {
            (secs * factor) as u64
        };
        if next < max {
            lemma_grown_bound(next, factor, max, (n - 1) as nat);
        }
    }
}

/// An escalated ban lasts at least as long as an ordinary one, and no longer than the
/// bound on escalated bans where the ordinary one does not.
pub proof fn law_escalation_bounds(d: Defaults, h: Option<BanHistory>, base: u64, now: u32)
    ensures
        escalation(d, h, base, now).0 >= base,
        escalation(d, h, base, now).0 <= (if base > d.escalate.max.0@ {
            base
        } else {
            d.escalate.max.0@
        }),
{
    if let Some(h) = h {
        let n = if h.count < ESCALATION_STEPS {
            h.count
        } else {
            ESCALATION_STEPS
        };
        lemma_grown_bound(base, d.escalate.factor, d.escalate.max.0@, n as nat);
    }
}

proof fn lemma_grown_step(secs: u64, factor: u32, max: u64, n: nat, base: u64)
    requires
        secs <= max || secs == base,
    ensures
        grown(secs, factor, max, n) <= grown(secs, factor, max, n + 1) || factor == 0 || grown(
            secs,
            factor,
            max,
            n,
        ) <= base,
    decreases n,
{
    let next = if secs * factor > u64::MAX {
        u64::MAX
    } else {
        (secs * factor) as u64
    };
    if factor > 0 {
        assert(secs * factor >= secs) by (nonlinear_arith)
            requires
                factor > 0,
        ;
    } else {
        assert(secs * factor == 0) by (nonlinear_arith)
            requires
                factor == 0,
        ;
    }
    assert(((n + 1) - 1) as nat == n);
    assert(grown(secs, factor, max, n + 1) == (if next >= max {
        max
    } else {
        grown(next, factor, max, n)
    }));
    if n > 0 && next < max {
        assert((((n - 1) as nat) + 1) as nat == n);
        lemma_grown_step(next, factor, max, (n - 1) as nat, base);
    }
}

/// A network that was banned more often is not banned for a shorter time.
pub proof fn law_escalation_grows(d: Defaults, last: u32, count: u32, base: u64, now: u32)
    requires
        count < u32::MAX,
    ensures
        escalation(d, Some(BanHistory { count, last }), base, now).0 <= escalation(
            d,
            Some(BanHistory { count: (count + 1) as u32, last }),
            base,
            now,
        ).0,
{
    let max = d.escalate.max.0@;
    if count < ESCALATION_STEPS {
        lemma_grown_step(base, d.escalate.factor, max, count as nat, base);
        if d.escalate.factor == 0 && count > 0 {
            lemma_grown_zero(base, max, count as nat);
        }
    }
}

/// Without growth the ban is never longer.
proof fn lemma_grown_zero(secs: u64, max: u64, n: nat)
    requires
        n > 0,
    ensures
        grown(secs, 0, max, n) == 0,
    decreases n,
{
    reveal_with_fuel(grown, 2);
    assert(secs * 0u32 == 0) by (nonlinear_arith);
    if max > 0 && n > 1 {
        lemma_grown_zero(0, max, (n - 1) as nat);
    }
}

/// The history of a network.
pub open spec fn past_of<V>(m: Map<IpNet, V>, net: IpNet) -> Option<V> {
    if m.contains_key(net) {
        Some(m[net])
    } else {
        None
    }
}

/// A history with one more ban.
pub open spec fn one_more(h: Option<BanHistory>, when: u32) -> BanHistory {
    match h {
        Some(h) => BanHistory {
            count: if h.count == u32::MAX {
                h.count
            } else {
                (h.count + 1) as u32
            },
            last: when,
        },
        None => BanHistory { count: 1, last: when },
    }
}

/// `one_more`.
fn add_ban(h: Option<BanHistory>, when: u32) -> (r: BanHistory)
    ensures
        r == one_more(h, when),
{
    match h {
        Some(h) => BanHistory { count: h.count.saturating_add(1), last: when },
        None => BanHistory { count: 1, last: when },
    }
}

/// Whether an address is never banned: loopback, unspecified, or on the allow list.
pub open spec fn is_exempt(allow: Seq<IpNet>, a: IpAddr) -> bool {
    ip::is_local(a) || exists|i: int| 0 <= i < allow.len() && (#[trigger] allow[i]).covers(a)
}

/// Whether one of the networks covers the address.
fn any_covers(nets: &Vec<IpNet>, a: &IpAddr) -> (r: bool)
    ensures
        r == exists|i: int| 0 <= i < nets@.len() && (#[trigger] nets@[i]).covers(*a),
{
    let mut i: usize = 0;
    while i < nets.len()
        invariant
            i <= nets@.len(),
            forall|j: int| 0 <= j < i ==> !(#[trigger] nets@[j]).covers(*a),
        decreases nets@.len() - i,
    {
        if nets[i].contains(a) {
            return true;
        }
        i += 1;
    }
    false
}

/// `idx` once for every time that `path` is among `files`.
pub open spec fn route_of(files: Seq<Seq<char>>, path: Seq<char>, idx: u16) -> Seq<u16>
    decreases files.len(),
{
    if files.len() == 0 {
        Seq::empty()
    } else if files.last() == path {
        route_of(files.drop_last(), path, idx).push(idx)
    } else {
        route_of(files.drop_last(), path, idx)
    }
}

/// Which of the first `n` filters read a file: those that do not use the journal, once
/// for every time that they name it.
pub open spec fn file_route(
    defs: Seq<DefView>,
    via: Seq<bool>,
    path: Seq<char>,
    n: int,
) -> Seq<u16>
    decreases n,
{
    if n <= 0 {
        Seq::empty()
    } else if via[n - 1] {
        file_route(defs, via, path, n - 1)
    } else {
        file_route(defs, via, path, n - 1) + route_of(
            defs[n - 1].files,
            path,
            (n - 1) as u16,
        )
    }
}

/// Whether a text that may be absent is among the texts.
pub open spec fn names_it(v: Seq<Seq<char>>, t: Option<String>) -> bool {
    t matches Some(s) && v.contains(s@)
}

/// Whether a filter selects a journal entry: by its unit, or by its identifier or
/// command where the sender is a system account.
pub open spec fn selects(
    def: DefView,
    unit: Option<String>,
    identifier: Option<String>,
    comm: Option<String>,
    uid: Option<u32>,
) -> bool {
    names_it(def.units, unit) || (is_system(uid) && (names_it(def.identifiers, identifier)
        || names_it(def.comm, comm)))
}

/// `names_it`.
fn list_names(v: &Vec<String>, t: &Option<String>) -> (r: bool)
    ensures
        r == names_it(texts(v@), *t),
{
    match t {
        Some(s) => text::holds_text(v, s.as_str()),
        None => false,
    }
}

/// Which of the first `n` filters a line goes to.
pub open spec fn route(su: Setup, origin: Origin, n: int) -> Seq<u16>
    decreases n,
{
    match origin {
        Origin::File(path) => file_route(su.defs, su.via, path@, n),
        Origin::Journal { unit, identifier, comm, uid } => if n <= 0 {
            Seq::empty()
        } else if su.via[n - 1] && selects(
            su.defs[n - 1],
            unit,
            identifier,
            comm,
            uid,
        ) {
            route(su, origin, n - 1).push((n - 1) as u16)
        } else {
            route(su, origin, n - 1)
        },
    }
}

/// What the routes say of a path.
pub open spec fn routed(m: Map<Seq<char>, Vec<u16>>, path: Seq<char>) -> Seq<u16> {
    if m.contains_key(path) {
        m[path]@
    } else {
        Seq::empty()
    }
}

/// Adds a filter to the route of a path.
fn add_route(routes: &mut SortedMap<String, Vec<u16>>, path: &String, idx: u16)
    requires
        old(routes).wf(),
        forall|p: Seq<char>| #[trigger] old(routes)@.contains_key(p) ==> old(routes)@[p]@.len() > 0,
    ensures
        final(routes).wf(),
        forall|p: Seq<char>|
            #[trigger] final(routes)@.contains_key(p) ==> final(routes)@[p]@.len() > 0,
        forall|p: Seq<char>| #[trigger]
            routed(final(routes)@, p) == (if p == path@ {
                routed(old(routes)@, p).push(idx)
            } else {
                routed(old(routes)@, p)
            }),
{
    let mut list = match routes.get(path) {
        Some(v) => copy_ports(v),
        None => Vec::new(),
    };
    list.push(idx);
    routes.insert(path.clone(), list);
}

/// The ban of a network by filter `idx`, which the backend took or answered with an
/// error.
pub open spec fn after_ban(
    su: Setup,
    s: State,
    idx: u16,
    net: IpNet,
    hits: u32,
    now: u32,
    error: Option<Seq<char>>,
) -> State {
    let (ttl, before) = escalation(
        su.defaults,
        past_of(s.history, net),
        su.policies[idx as int].bantime@,
        now,
    );
    let asked = State {
        calls: s.calls.push(
            Call::Ban { bans: seq![Ban { net, ttl: Duration { secs: ttl } }], error },
        ),
        ..s
    };
    if error is Some {
        asked
    } else {
        State {
            banned: s.banned.update(idx as int, next_count(s.banned[idx as int])),
            bans_total: next_count(s.bans_total),
            active: s.active.insert(
                net,
                ActiveBan { until: time_after(now, on_clock(ttl)), filter: Some(idx) },
            ),
            history: s.history.insert(net, one_more(past_of(s.history, net), now)),
            events: s.events.push(
                EventView::Ban {
                    ts: now as u64,
                    net,
                    filter: su.defs[idx as int].name,
                    ttl,
                    hits,
                    escalation: before,
                    manual: false,
                },
            ),
            ..asked
        }
    }
}

/// Whether a ban of the network is on.
pub open spec fn is_banned(s: State, net: IpNet, now: u32) -> bool {
    s.active.contains_key(net) && s.active[net].until > now
}

/// What a hit of filter `idx` from `a` does to the state, and the decision on it.
/// An exempt address leaves no trace. A hit from a banned network only counts as a
/// match. Any other hit is put on record, and may lead to a ban.
pub open spec fn recorded(
    su: Setup,
    s: State,
    s2: State,
    idx: u16,
    a: IpAddr,
    now: u32,
    d: Option<Decision>,
) -> bool {
    let net = ip::key_of(a, su.defaults.ipv6_prefix);
    let key = TrackKey { filter: idx, net };
    let seen = State {
        matched: s.matched.update(idx as int, next_count(s.matched[idx as int])),
        ..s
    };
    let p = su.policies[idx as int];
    if is_exempt(su.allow, a) {
        s2 == s && d is None
    } else if is_banned(s, net, now) {
        s2 == seen && d == Some(Decision { filter: idx, net, banned: false, hits: 0 })
    } else {
        exists|room: Map<TrackKey, Ring>, error: Option<Seq<char>>| #[trigger]
            counted(su, seen, s2, key, now, d, room, error)
    }
}

/// A hit that is put on record, with `room` made for it, and the backend's error,
/// if it was asked for a ban and failed.
pub open spec fn counted(
    su: Setup,
    seen: State,
    s2: State,
    key: TrackKey,
    now: u32,
    d: Option<Decision>,
    room: Map<TrackKey, Ring>,
    error: Option<Seq<char>>,
) -> bool {
    let p = su.policies[key.filter as int];
    let hit = State {
        hits: map_after_hit(room, key, now, p.findtime@, p.maxretry),
        ..seen
    };
    &&& makes_room(seen.hits, room, key, su.max)
    &&& match verdict_of(ring_of(seen.hits, key), now, p.findtime@, p.maxretry) {
        Verdict::Below { hits } => s2 == hit && d == Some(
            Decision { filter: key.filter, net: key.net, banned: false, hits },
        ),
        Verdict::Ban { hits } => s2 == after_ban(su, hit, key.filter, key.net, hits, now, error)
            && d == Some(Decision { filter: key.filter, net: key.net, banned: true, hits }),
    }
}

/// What a line that filter `idx` found `m` in does.
pub open spec fn stepped(
    su: Setup,
    s: State,
    s2: State,
    idx: u16,
    m: Option<Found>,
    now: u32,
    d: Option<Decision>,
) -> bool {
    match m {
        None => s2 == s && d is None,
        Some(m) => recorded(su, s, s2, idx, m.ip, now, d),
    }
}

/// What a line does at the first `n` filters of its route, one after the other, and
/// the decisions, in the same order.
pub open spec fn walked(
    su: Setup,
    s: State,
    s2: State,
    to: Seq<u16>,
    n: int,
    line: Line,
    now: u32,
    out: Seq<Decision>,
) -> bool
    decreases n,
{
    if n <= 0 {
        s2 == s && out.len() == 0
    } else {
        let m = line_match(
            su.defs[to[n - 1] as int],
            line.text@,
            line.origin is File,
        );
        exists|mid: State, d: Option<Decision>| #[trigger]
            stepped(su, mid, s2, to[n - 1], m, now, d) && match d {
                Some(x) => out.len() > 0 && out.last() == x && walked(
                    su,
                    s,
                    mid,
                    to,
                    n - 1,
                    line,
                    now,
                    out.drop_last(),
                ),
                None => walked(su, s, mid, to, n - 1, line, now, out),
            }
    }
}

/// The longest time in which a filter counts hits, or a default without filters.
pub open spec fn idle_of(policies: Seq<Policy>) -> u64
    decreases policies.len(),
{
    if policies.len() == 0 {
        DEFAULT_IDLE_SECS
    } else if policies.len() == 1 {
        policies[0].findtime@
    } else {
        let rest = idle_of(policies.drop_last());
        if policies.last().findtime@ > rest {
            policies.last().findtime@
        } else {
            rest
        }
    }
}

/// Housekeeping: bans that have ended, hits that are too old to count for any filter
/// and bans that are too old to lengthen another are forgotten.
pub open spec fn after_tick(su: Setup, s: State, now: u32) -> State {
    State {
        last_sweep: now,
        active: kept(s.active, |n: IpNet, b: ActiveBan| b.until > now),
        hits: kept(
            s.hits,
            |k: TrackKey, w: Ring| w.newest + idle_of(su.policies) >= now,
        ),
        history: kept(
            s.history,
            |n: IpNet, h: BanHistory|
                age(now, h.last) <= su.defaults.escalate.memory.0@,
        ),
        ..s
    }
}

/// The state with one more line seen.
pub open spec fn one_line_more(s: State) -> State {
    State { lines: next_count(s.lines), ..s }
}

/// Housekeeping where it is due.
pub open spec fn swept(su: Setup, s: State, s2: State, now: u32) -> bool {
    s2 == (if age(now, s.last_sweep) >= SWEEP_SECS {
        after_tick(su, s, now)
    } else {
        s
    })
}

/// What a line does: it is counted, goes to the filters on its route, and brings
/// housekeeping where that is due.
pub open spec fn handled(
    su: Setup,
    s: State,
    s2: State,
    line: Line,
    now: u32,
    out: Seq<Decision>,
) -> bool {
    let to = route(su, line.origin, su.defs.len() as int);
    exists|walk: State| #[trigger]
        swept(su, walk, s2, now) && walked(
            su,
            one_line_more(s),
            walk,
            to,
            to.len() as int,
            line,
            now,
            out,
        )
}

/// A ban by hand, when the backend said yes.
pub open spec fn after_manual_ban(s: State, net: IpNet, ttl: u64, now: u32) -> State {
    State {
        calls: s.calls.push(
            Call::Ban { bans: seq![Ban { net, ttl: Duration { secs: ttl } }], error: None },
        ),
        bans_total: next_count(s.bans_total),
        active: s.active.insert(
            net,
            ActiveBan { until: time_after(now, on_clock(ttl)), filter: None },
        ),
        events: s.events.push(
            EventView::Ban {
                ts: now as u64,
                net,
                filter: "manual"@,
                ttl,
                hits: 0,
                escalation: 0,
                manual: true,
            },
        ),
        ..s
    }
}

/// The hits without those of a network at the first `n` filters.
pub open spec fn forgotten(m: Map<TrackKey, Ring>, net: IpNet, n: int) -> Map<TrackKey, Ring> {
    kept(m, |k: TrackKey, w: Ring| !(k.net == net && k.filter < n))
}

/// A lifted ban, when the backend said yes.
pub open spec fn after_unban(su: Setup, s: State, net: IpNet, now: u32) -> State {
    State {
        calls: s.calls.push(Call::Unban { nets: seq![net], error: None }),
        active: s.active.remove(net),
        hits: forgotten(s.hits, net, su.defs.len() as int),
        events: s.events.push(EventView::Unban { ts: now as u64, net, manual: true }),
        ..s
    }
}

/// When a ban that the backend already holds ends.
pub open spec fn adopted_until(e: Entry, now: u32) -> u32 {
    time_after(
        now,
        match e.expires_in {
            Some(d) => on_clock(d@),
            None => (u32::MAX - now) as u32,
        },
    )
}

/// The bans on, with those that the backend already holds.
pub open spec fn adopted(
    m: Map<IpNet, ActiveBan>,
    entries: Seq<Entry>,
    now: u32,
) -> Map<IpNet, ActiveBan>
    decreases entries.len(),
{
    if entries.len() == 0 {
        m
    } else {
        adopted(m, entries.drop_last(), now).insert(
            entries.last().net,
            ActiveBan { until: adopted_until(entries.last(), now), filter: None },
        )
    }
}

/// The history after the events: every automatic ban since `cutoff` counts.
pub open spec fn replayed(
    m: Map<IpNet, BanHistory>,
    past: Seq<EventView>,
    cutoff: u64,
) -> Map<IpNet, BanHistory>
    decreases past.len(),
{
    if past.len() == 0 {
        m
    } else {
        let before = replayed(m, past.drop_last(), cutoff);
        match past.last() {
            EventView::Ban { ts, net, manual: false, .. } if ts >= cutoff => before.insert(
                net,
                one_more(past_of(before, net), on_clock(ts)),
            ),
            _ => before,
        }
    }
}

/// The earliest time of a ban that still counts.
pub open spec fn memory_start(su: Setup, now: u32) -> u64 {
    let memory = su.defaults.escalate.memory.0@;
    if now >= memory {
        (now - memory) as u64
    } else {
        0
    }
}

/// What the engine has once it has started: bans that the backend holds, and the
/// history that the event log tells.
pub open spec fn after_start(
    su: Setup,
    s: State,
    now: u32,
    listed: Option<Seq<Entry>>,
    past: Seq<EventView>,
) -> State {
    State {
        active: match listed {
            Some(entries) => adopted(s.active, entries, now),
            None => s.active,
        },
        history: replayed(s.history, past, memory_start(su, now)),
        events: s.events.push(EventView::Start { ts: now as u64, version: VERSION@ }),
        ..s
    }
}

/// A [`BanInfo`] as values.
pub struct InfoView {
    pub net: IpNet,
    pub expires_in: Option<u64>,
    pub filter: Option<Seq<char>>,
}

impl View for BanInfo {
    type V = InfoView;

    open spec fn view(&self) -> InfoView {
        InfoView { net: self.net, expires_in: self.expires_in, filter: opt_text(self.filter) }
    }
}

/// Bans as values.
pub open spec fn infos(v: Seq<BanInfo>) -> Seq<InfoView> {
    v.map_values(|b: BanInfo| b@)
}

/// The name of the filter that a ban came from, if it is on and came from one.
pub open spec fn ban_filter(su: Setup, s: State, net: IpNet) -> Option<Seq<char>> {
    match past_of(s.active, net) {
        Some(ActiveBan { filter: Some(i), .. }) => Some(su.defs[i as int].name),
        _ => None,
    }
}

/// `x` put behind all that do not come after it.
pub open spec fn placed(v: Seq<InfoView>, x: InfoView) -> Seq<InfoView>
    decreases v.len(),
{
    if v.len() == 0 || !crate::sorted::key_lt::<IpNet>(x.net, v.last().net) {
        v.push(x)
    } else {
        placed(v.drop_last(), x).push(v.last())
    }
}

/// Bans sorted by network, those of one network in the order in which they came.
pub open spec fn by_net(v: Seq<InfoView>) -> Seq<InfoView>
    decreases v.len(),
{
    if v.len() == 0 {
        v
    } else {
        placed(by_net(v.drop_last()), v.last())
    }
}

/// What the backend's list says, with the names of the filters.
pub open spec fn listed_infos(su: Setup, s: State, entries: Seq<Entry>) -> Seq<InfoView> {
    entries.map_values(
        |e: Entry|
            InfoView {
                net: e.net,
                expires_in: match e.expires_in {
                    Some(d) => Some(d@),
                    None => None,
                },
                filter: ban_filter(su, s, e.net),
            },
    )
}

/// What the mirror says of the bans on the networks `nets`.
pub open spec fn mirror_infos(su: Setup, s: State, nets: Seq<IpNet>, now: u32) -> Seq<InfoView> {
    nets.map_values(
        |n: IpNet|
            InfoView {
                net: n,
                expires_in: Some((s.active[n].until - now) as u64),
                filter: ban_filter(su, s, n),
            },
    )
}

/// Whether one of the entries is of the network.
pub open spec fn holds_net(entries: Seq<Entry>, net: IpNet) -> bool {
    exists|i: int| 0 <= i < entries.len() && (#[trigger] entries[i]).net == net
}

/// The state after a look at the bans: the mirror follows the backend where it can
/// enumerate them, and drops what has ended where it cannot.
pub open spec fn after_list(s: State, got: Option<Seq<Entry>>, now: u32) -> State {
    match got {
        Some(entries) => State {
            active: kept(s.active, |n: IpNet, b: ActiveBan| holds_net(entries, n)),
            ..s
        },
        None => State { active: kept(s.active, |n: IpNet, b: ActiveBan| b.until > now), ..s },
    }
}

/// What the status says of the state.
pub open spec fn reports(su: Setup, s: State, label: Seq<char>, uptime: u64, r: Status) -> bool {
    &&& r.version@ == VERSION@
    &&& r.backend@ == label
    &&& r.uptime == uptime
    &&& r.tracking == s.hits.dom().len()
    &&& r.lines == s.lines
    &&& r.bans_total == s.bans_total
    &&& r.active_bans == s.active.dom().len()
    &&& r.filters@.len() == su.defs.len()
    &&& forall|i: int| 0 <= i < r.filters@.len() ==> is_status(su, s, i, #[trigger] r.filters@[i])
}

/// The list of bans `v`, and the state after it, when the backend's answer is `got`;
/// `nets` are the networks on the mirror, in order.
pub open spec fn lists(
    su: Setup,
    s: State,
    s2: State,
    nets: Seq<IpNet>,
    now: u32,
    got: Option<Seq<Entry>>,
    v: Seq<InfoView>,
) -> bool {
    &&& s2 == after_list(s, got, now)
    &&& v == (match got {
        Some(entries) => by_net(listed_infos(su, s, entries)),
        None => mirror_infos(su, s2, nets, now),
    })
}

/// The list of bans `v`, and the state after it, where the backend was asked for the
/// list and answered.
pub open spec fn lists_for_some(
    su: Setup,
    s: State,
    s2: State,
    nets: Seq<IpNet>,
    now: u32,
    v: Seq<InfoView>,
) -> bool {
    exists|got: Option<Seq<Entry>>| #[trigger]
        lists(su, asked_list(s, Ok(got)), s2, nets, now, got, v)
}

/// The state after a question for the list, and its answer.
pub open spec fn asked_list(s: State, got: Result<Option<Seq<Entry>>, Seq<char>>) -> State {
    State { calls: s.calls.push(Call::List { got }), ..s }
}

/// The state after a request for a ban at which the backend failed.
pub open spec fn asked_ban(s: State, net: IpNet, ttl: u64, error: Seq<char>) -> State {
    State {
        calls: s.calls.push(
            Call::Ban {
                bans: seq![Ban { net, ttl: Duration { secs: ttl } }],
                error: Some(error),
            },
        ),
        ..s
    }
}

/// The state after a request to lift a ban at which the backend failed.
pub open spec fn asked_unban(s: State, net: IpNet, error: Seq<char>) -> State {
    State { calls: s.calls.push(Call::Unban { nets: seq![net], error: Some(error) }), ..s }
}

/// A filter's counters.
pub open spec fn is_status(su: Setup, s: State, i: int, f: FilterStatus) -> bool {
    &&& f.name@ == su.defs[i].name
    &&& texts(f.files@) == su.defs[i].files
    &&& f.journal == su.via[i]
    &&& f.maxretry == su.policies[i].maxretry
    &&& f.findtime == su.policies[i].findtime@
    &&& f.bantime == su.policies[i].bantime@
    &&& f.matched == s.matched[i]
    &&& f.banned == s.banned[i]
}

impl<F: Firewall> Engine<F> {
    /// What the engine was made with.
    pub open spec fn setup(&self) -> Setup {
        Setup {
            defaults: self.cfg.defaults,
            defs: self.filters@.map_values(|f: LoadedFilter| f.filter.def@),
            policies: self.filters@.map_values(|f: LoadedFilter| f.policy),
            via: self.filters@.map_values(|f: LoadedFilter| f.via_journal),
            allow: self.allow@,
            max: self.tracker.max(),
        }
    }

    /// What the engine keeps as it runs.
    pub open spec fn state(&self) -> State {
        State {
            matched: self.filters@.map_values(|f: LoadedFilter| f.matched),
            banned: self.filters@.map_values(|f: LoadedFilter| f.banned),
            hits: self.tracker@,
            history: self.history@,
            active: self.active@,
            events: events_of(self.events@),
            calls: self.backend.inner.asked(),
            lines: self.lines,
            bans_total: self.bans_total,
            last_sweep: self.last_sweep,
        }
    }

    /// Every part is in order, the routes are those of the filters, and bans name
    /// filters that there are.
    pub open spec fn wf(&self) -> bool {
        &&& self.cfg.wf()
        &&& self.filters@.len() <= 65536
        &&& forall|i: int| 0 <= i < self.filters@.len() ==> (#[trigger] self.filters@[i]).filter.wf()
        &&& self.routes_file.wf()
        &&& forall|p: Seq<char>| #[trigger]
            self.routes_file@.contains_key(p) ==> self.routes_file@[p]@.len() > 0
        &&& forall|p: Seq<char>| #[trigger]
            routed(self.routes_file@, p) == file_route(
                self.setup().defs,
                self.setup().via,
                p,
                self.filters@.len() as int,
            )
        &&& self.tracker.wf()
        &&& self.history.wf()
        &&& self.active.wf()
        &&& forall|n: IpNet| #[trigger]
            self.active@.contains_key(n) ==> match self.active@[n].filter {
                Some(i) => i < self.filters@.len(),
                None => true,
            }
    }

    /// In order, and made with the same things as `o`.
    pub open spec fn goes_on(&self, o: &Self) -> bool {
        &&& self.wf()
        &&& self.setup() == o.setup()
        &&& self.cfg == o.cfg
        &&& self.filters@.len() == o.filters@.len()
        &&& self.routes_file == o.routes_file
        &&& self.backend.label == o.backend.label
    }

    /// Counts a match of a filter.
    fn note_match(&mut self, idx: u16)
        requires
            old(self).wf(),
            idx < old(self).filters@.len(),
        ensures
            final(self).goes_on(old(self)),
            final(self).state() == (State {
                matched: old(self).state().matched.update(
                    idx as int,
                    next_count(old(self).state().matched[idx as int]),
                ),
                ..old(self).state()
            }),
    {
        let i: usize = idx as usize;
        let n: u64 = self.filters[i].matched.saturating_add(1);
        self.filters[i].matched = n;
        proof {
            assert(self.setup().defs =~= old(self).setup().defs);
            assert(self.setup().policies =~= old(self).setup().policies);
            assert(self.setup().via =~= old(self).setup().via);
            assert(self.state().matched =~= old(self).state().matched.update(
                idx as int,
                next_count(old(self).state().matched[idx as int]),
            ));
            assert(self.state().banned =~= old(self).state().banned);
        }
    }

    /// Counts a ban by a filter.
    fn note_ban(&mut self, idx: u16)
        requires
            old(self).wf(),
            idx < old(self).filters@.len(),
        ensures
            final(self).goes_on(old(self)),
            final(self).state() == (State {
                banned: old(self).state().banned.update(
                    idx as int,
                    next_count(old(self).state().banned[idx as int]),
                ),
                ..old(self).state()
            }),
    {
        let i: usize = idx as usize;
        let n: u64 = self.filters[i].banned.saturating_add(1);
        self.filters[i].banned = n;
        proof {
            assert(self.setup().defs =~= old(self).setup().defs);
            assert(self.setup().policies =~= old(self).setup().policies);
            assert(self.setup().via =~= old(self).setup().via);
            assert(self.state().banned =~= old(self).state().banned.update(
                idx as int,
                next_count(old(self).state().banned[idx as int]),
            ));
            assert(self.state().matched =~= old(self).state().matched);
        }
    }

    /// Puts an event into the outbox.
    fn note_event(&mut self, ev: Event)
        requires
            old(self).wf(),
        ensures
            final(self).goes_on(old(self)),
            final(self).state() == (State {
                events: old(self).state().events.push(ev@),
                ..old(self).state()
            }),
    {
        self.events.push(ev);
        assert(events_of(self.events@) =~= events_of(old(self).events@).push(ev@));
    }

    /// Hands out the events that have not been written out yet.
    pub fn take_events(&mut self) -> (r: Vec<Event>)
        requires
            old(self).wf(),
        ensures
            final(self).goes_on(old(self)),
            events_of(r@) == old(self).state().events,
            final(self).state() == (State { events: Seq::empty(), ..old(self).state() }),
    {
        let mut out: Vec<Event> = Vec::new();
        std::mem::swap(&mut out, &mut self.events);
        assert(events_of(self.events@) =~= Seq::<EventView>::empty());
        out
    }

    pub fn is_allowed(&self, a: IpAddr) -> (r: bool)
        ensures
            r == is_exempt(self.allow@, a),
    {
        ip::is_loopback_or_unspecified(a) || any_covers(&self.allow, &a)
    }

    /// The filters that a line goes to, in order.
    pub fn filters_for(&self, origin: &Origin) -> (r: Vec<u16>)
        requires
            self.wf(),
        ensures
            r@ == route(self.setup(), *origin, self.filters@.len() as int),
    {
        match origin {
            Origin::File(p) => match self.routes_file.get(p) {
                Some(v) => {
                    assert(routed(self.routes_file@, p@) == v@);
                    copy_ports(v)
                },
                None => {
                    assert(routed(self.routes_file@, p@) == Seq::<u16>::empty());
                    Vec::new()
                },
            },
            Origin::Journal { unit, identifier, comm, uid } => {
                let mut out: Vec<u16> = Vec::new();
                let mut i: usize = 0;
                while i < self.filters.len()
                    invariant
                        i <= self.filters@.len(),
                        self.filters@.len() <= 65536,
                        *origin == (Origin::Journal {
                            unit: *unit,
                            identifier: *identifier,
                            comm: *comm,
                            uid: *uid,
                        }),
                        out@ == route(self.setup(), *origin, i as int),
                    decreases self.filters@.len() - i,
                {
                    let f = &self.filters[i];
                    let sel = &f.filter.def.journal;
                    assert(self.setup().defs[i as int] == f.filter.def@);
                    assert(self.setup().via[i as int] == f.via_journal);
                    let system: bool = match uid {
                        Some(u) => *u < FIRST_USER_UID,
                        None => false,
                    };
                    if f.via_journal && (list_names(&sel.units, unit) || (system && (list_names(
                        &sel.identifiers,
                        identifier,
                    ) || list_names(&sel.comm, comm)))) {
                        out.push(i as u16);
                    }
                    i += 1;
                }
                out
            },
        }
    }

    pub fn escalated_ttl(&self, base: Duration, net: &IpNet, now: u32) -> (r: (Duration, u32))
        requires
            self.wf(),
        ensures
            (r.0@, r.1) == escalation(
                self.cfg.defaults,
                past_of(self.history@, *net),
                base@,
                now,
            ),
    {
        let h = match self.history.get(net) {
            Some(h) => Some(*h),
            None => None,
        };
        escalate(&self.cfg.defaults, h, base, now)
    }

    /// Bans a network for a filter, and keeps count of it if the backend could.
    fn apply_ban(&mut self, idx: u16, net: IpNet, hits: u32, now: u32)
        requires
            old(self).wf(),
            idx < old(self).filters@.len(),
        ensures
            final(self).goes_on(old(self)),
            exists|error: Option<Seq<char>>|
                final(self).state() == #[trigger] after_ban(
                    old(self).setup(),
                    old(self).state(),
                    idx,
                    net,
                    hits,
                    now,
                    error,
                ),
    {
        let ghost su = self.setup();
        let ghost s = self.state();
        let i: usize = idx as usize;
        let base = self.filters[i].policy.bantime;
        assert(su.policies[idx as int].bantime == base);
        let (ttl, before) = self.escalated_ttl(base, &net, now);
        let name = self.filters[i].filter.name().to_owned();
        assert(name@ == su.defs[idx as int].name);
        let mut bans: Vec<Ban> = Vec::new();
        bans.push(Ban { net, ttl });
        assert(bans@ =~= seq![Ban { net, ttl: Duration { secs: ttl@ } }]);
        match self.backend.inner.ban(&bans) {
            Err(e) => {
                assert(self.state() =~= after_ban(su, s, idx, net, hits, now, Some(e@)));
            },
            Ok(()) => {
                self.note_ban(idx);
                self.bans_total = self.bans_total.saturating_add(1);
                let until: u32 = now.saturating_add(clock_secs(ttl.as_secs()));
                self.active.insert(net, ActiveBan { until, filter: Some(idx) });
                let h = match self.history.get(&net) {
                    Some(h) => Some(*h),
                    None => None,
                };
                self.history.insert(net, add_ban(h, now));
                self.note_event(
                    Event::Ban {
                        ts: now as u64,
                        net,
                        filter: name,
                        ttl: ttl.as_secs(),
                        hits,
                        escalation: before,
                        manual: false,
                    },
                );
                assert(self.state() =~= after_ban(su, s, idx, net, hits, now, None));
            },
        }
    }

    /// Puts a hit of filter `idx` from `a` on record, and bans where that is due.
    pub fn record_hit(&mut self, idx: u16, a: IpAddr, now: u32) -> (r: Option<Decision>)
        requires
            old(self).wf(),
            idx < old(self).filters@.len(),
        ensures
            final(self).goes_on(old(self)),
            recorded(old(self).setup(), old(self).state(), final(self).state(), idx, a, now, r),
    {
        if self.is_allowed(a) {
            return None;
        }
        let ghost su = self.setup();
        let net = ip::to_key(a, self.cfg.defaults.ipv6_prefix);
        self.note_match(idx);
        let ghost seen = self.state();
        let banned: bool = match self.active.get(&net) {
            Some(b) => b.until > now,
            None => false,
        };
        if banned {
            return Some(Decision { filter: idx, net, banned: false, hits: 0 });
        }
        let i: usize = idx as usize;
        let findtime = self.filters[i].policy.findtime;
        let maxretry: u32 = self.filters[i].policy.maxretry;
        assert(su.policies[idx as int] == self.filters@[idx as int].policy);
        let key = TrackKey { filter: idx, net };
        let verdict = self.tracker.hit(key, now, findtime, maxretry);
        let ghost room = choose|room: Map<TrackKey, Ring>| #[trigger]
            makes_room(seen.hits, room, key, su.max) && self.tracker@ == map_after_hit(
                room,
                key,
                now,
                findtime@,
                maxretry,
            );
        let ghost hit = self.state();
        assert(hit =~= State {
            hits: map_after_hit(room, key, now, findtime@, maxretry),
            ..seen
        });
        match verdict {
            Verdict::Below { hits } => {
                let d = Some(Decision { filter: idx, net, banned: false, hits });
                assert(counted(su, seen, self.state(), key, now, d, room, None));
                d
            },
            Verdict::Ban { hits } => {
                self.apply_ban(idx, net, hits, now);
                let d = Some(Decision { filter: idx, net, banned: true, hits });
                proof {
                    let error = choose|error: Option<Seq<char>>|
                        self.state() == #[trigger] after_ban(su, hit, idx, net, hits, now, error);
                    assert(counted(su, seen, self.state(), key, now, d, room, error));
                }
                d
            },
        }
    }

    /// Process one line. Returns decisions for every filter that matched.
    pub fn handle_line(&mut self, line: &Line, now: u32) -> (r: Vec<Decision>)
        requires
            old(self).wf(),
        ensures
            final(self).goes_on(old(self)),
            handled(old(self).setup(), old(self).state(), final(self).state(), *line, now, r@),
    {
        let ghost su = self.setup();
        let ghost first = one_line_more(self.state());
        self.lines = self.lines.saturating_add(1);
        let from_file: bool = match line.origin {
            Origin::File(_) => true,
            Origin::Journal { .. } => false,
        };
        let mut out: Vec<Decision> = Vec::new();
        let to = self.filters_for(&line.origin);
        let ghost all = route(su, line.origin, su.defs.len() as int);
        proof {
            lemma_route_bound(su, line.origin, su.defs.len() as int);
            assert(self.state() =~= first);
        }
        let mut i: usize = 0;
        while i < to.len()
            invariant
                i <= to@.len(),
                to@ == all,
                self.goes_on(old(self)),
                su == old(self).setup(),
                su.defs.len() == self.filters@.len(),
                from_file == (line.origin is File),
                forall|j: int| 0 <= j < all.len() ==> (#[trigger] all[j]) < su.defs.len(),
                walked(su, first, self.state(), all, i as int, *line, now, out@),
            decreases to@.len() - i,
        {
            let idx: u16 = to[i];
            let ghost mid = self.state();
            let ghost before = out@;
            assert(idx == all[i as int]);
            let k: usize = idx as usize;
            let m = self.filters[k].filter.match_line_opts(line.text.as_str(), from_file);
            let ghost mv = crate::filter::found(m);
            assert(su.defs[idx as int] == self.filters@[idx as int].filter.def@);
            let d = match m {
                Some(m) => self.record_hit(idx, m.ip, now),
                None => None,
            };
            assert(stepped(su, mid, self.state(), idx, mv, now, d));
            if let Some(x) = d {
                out.push(x);
                assert(out@.drop_last() =~= before);
            }
            i += 1;
            assert(walked(su, first, self.state(), all, i as int, *line, now, out@));
        }
        let ghost walk = self.state();
        assert(walked(su, first, walk, all, all.len() as int, *line, now, out@));
        if now.saturating_sub(self.last_sweep) >= SWEEP_SECS {
            self.tick(now);
        }
        assert(swept(su, walk, self.state(), now));
        out
    }

    /// Periodic housekeeping: expire mirror entries, sweep idle trackers,
    /// forget stale ban history.
    pub fn tick(&mut self, now: u32)
        requires
            old(self).wf(),
        ensures
            final(self).goes_on(old(self)),
            final(self).state() == after_tick(old(self).setup(), old(self).state(), now),
    {
        let ghost su = self.setup();
        let ghost s = self.state();
        self.last_sweep = now;
        self.expire(now);
        let mut idle: u64 = DEFAULT_IDLE_SECS;
        let mut i: usize = 0;
        while i < self.filters.len()
            invariant
                i <= self.filters@.len(),
                su == self.setup(),
                idle == idle_of(su.policies.take(i as int)),
            decreases self.filters@.len() - i,
        {
            let f: u64 = self.filters[i].policy.findtime.as_secs();
            assert(su.policies[i as int].findtime@ == f);
            assert(su.policies.take(i + 1).drop_last() =~= su.policies.take(i as int));
            if i == 0 || f > idle {
                idle = f;
            }
            i += 1;
        }
        assert(su.policies.take(i as int) =~= su.policies);
        let _ = self.tracker.sweep(now, Duration::from_secs(idle));
        let memory: u64 = self.cfg.defaults.escalate.memory.secs();
        let keep = |n: &IpNet, h: &BanHistory| -> (b: bool)
            ensures
                b == (age(now, h.last) <= memory),
            { now.saturating_sub(h.last) as u64 <= memory };
        let ghost p = |n: IpNet, h: BanHistory| age(now, h.last) <= memory;
        self.history.retain(keep, Ghost(p));
        proof {
            let want = after_tick(su, s, now);
            assert(self.state().active =~= want.active);
            assert(self.state().hits =~= want.hits);
            assert(self.state().history =~= want.history);
            assert(self.state() =~= want);
        }
    }

    /// Drops bans that have ended from the mirror.
    fn expire(&mut self, now: u32)
        requires
            old(self).wf(),
        ensures
            final(self).goes_on(old(self)),
            final(self).state() == (State {
                active: kept(old(self).state().active, |n: IpNet, b: ActiveBan| b.until > now),
                ..old(self).state()
            }),
    {
        let keep = |n: &IpNet, b: &ActiveBan| -> (r: bool)
            ensures
                r == (b.until > now),
            { b.until > now };
        let ghost p = |n: IpNet, b: ActiveBan| b.until > now;
        self.active.retain(keep, Ghost(p));
        assert(self.active@ =~= kept(
            old(self).state().active,
            |n: IpNet, b: ActiveBan| b.until > now,
        ));
    }

    pub fn manual_ban(&mut self, net: IpNet, ttl: Option<Duration>, now: u32) -> (r: Result<
        (),
        EngineError,
    >)
        requires
            old(self).wf(),
        ensures
            final(self).goes_on(old(self)),
            ({
                let su = old(self).setup();
                let s = old(self).state();
                let secs = match ttl {
                    Some(d) => d@,
                    None => su.defaults.bantime.0@,
                };
                match r {
                    Ok(()) => !is_exempt(su.allow, net.addr) && final(self).state()
                        == after_manual_ban(s, net, secs, now),
                    Err(EngineError::Refused { net: n }) => is_exempt(su.allow, net.addr) && n
                        == net && final(self).state() == s,
                    Err(EngineError::Backend { error }) => !is_exempt(su.allow, net.addr)
                        && final(self).state() == asked_ban(s, net, secs, error@),
                }
            }),
    {
        if any_covers(&self.allow, &net.addr) || ip::is_loopback_or_unspecified(net.addr) {
            return Err(EngineError::Refused { net });
        }
        let ghost s = self.state();
        let ttl = match ttl {
            Some(d) => d,
            None => self.cfg.defaults.bantime.0,
        };
        let mut bans: Vec<Ban> = Vec::new();
        bans.push(Ban { net, ttl });
        assert(bans@ =~= seq![Ban { net, ttl: Duration { secs: ttl@ } }]);
        if let Err(error) = self.backend.inner.ban(&bans) {
            return Err(EngineError::Backend { error });
        }
        self.bans_total = self.bans_total.saturating_add(1);
        let until: u32 = now.saturating_add(clock_secs(ttl.as_secs()));
        self.active.insert(net, ActiveBan { until, filter: None });
        self.note_event(
            Event::Ban {
                ts: now as u64,
                net,
                filter: "manual".to_owned(),
                ttl: ttl.as_secs(),
                hits: 0,
                escalation: 0,
                manual: true,
            },
        );
        assert(self.state() =~= after_manual_ban(s, net, ttl@, now));
        Ok(())
    }

    pub fn unban(&mut self, net: IpNet, now: u32) -> (r: Result<(), EngineError>)
        requires
            old(self).wf(),
        ensures
            final(self).goes_on(old(self)),
            match r {
                Ok(()) => final(self).state() == after_unban(
                    old(self).setup(),
                    old(self).state(),
                    net,
                    now,
                ),
                Err(EngineError::Backend { error }) => final(self).state() == asked_unban(
                    old(self).state(),
                    net,
                    error@,
                ),
                Err(EngineError::Refused { .. }) => false,
            },
    {
        let ghost su = self.setup();
        let ghost s = self.state();
        let mut nets: Vec<IpNet> = Vec::new();
        nets.push(net);
        assert(nets@ =~= seq![net]);
        if let Err(error) = self.backend.inner.unban(&nets) {
            return Err(EngineError::Backend { error });
        }
        self.active.remove(&net);
        let ghost mid = self.state();
        let mut i: usize = 0;
        assert(self.tracker@ =~= forgotten(s.hits, net, 0));
        while i < self.filters.len()
            invariant
                i <= self.filters@.len(),
                self.goes_on(old(self)),
                self.state() == (State { hits: forgotten(s.hits, net, i as int), ..mid }),
            decreases self.filters@.len() - i,
        {
            let key = TrackKey { filter: i as u16, net };
            self.tracker.forget(&key);
            i += 1;
            assert(self.tracker@ =~= forgotten(s.hits, net, i as int));
            assert(self.state() =~= State { hits: forgotten(s.hits, net, i as int), ..mid });
        }
        self.note_event(Event::Unban { ts: now as u64, net, manual: true });
        assert(self.state() =~= after_unban(su, s, net, now));
        Ok(())
    }

    pub fn stop(&mut self, now: u32)
        requires
            old(self).wf(),
        ensures
            final(self).goes_on(old(self)),
            final(self).state() == (State {
                events: old(self).state().events.push(EventView::Stop { ts: now as u64 }),
                ..old(self).state()
            }),
    {
        self.note_event(Event::Stop { ts: now as u64 });
    }
}

/// Why a definition cannot be loaded, in words.
pub open spec fn compile_fault(def: DefView) -> Option<Seq<char>> {
    match refusal(def) {
        Some(e) => Some(e.text()),
        None => None,
    }
}

/// Where a filter's definition may come from: a file of its own, or the built-in one.
pub struct DefSource {
    /// What reading the file of its own came to.
    pub custom: CustomFile,
    /// Whether that path names a regular file. An inspection shows only such a file.
    pub is_file: bool,
    pub builtin: Option<Result<FilterDef, String>>,
}

/// Why the filter `name` cannot be loaded from `src`.
pub open spec fn load_fault(cfg: Config, name: Seq<char>, src: DefSource) -> Option<Seq<char>> {
    match resolved(cfg, name, src.custom, src.builtin) {
        Err(e) => Some(e),
        Ok(def) => compile_fault(def),
    }
}

/// Compiles a definition, or says in words why not.
pub fn load_filter(def: FilterDef) -> (r: Result<CompiledFilter, String>)
    ensures
        match r {
            Ok(f) => compile_fault(def@) is None && f.wf() && f.def@ == def@,
            Err(e) => compile_fault(def@) == Some(e@),
        },
{
    match CompiledFilter::compile(def) {
        Ok(f) => Ok(f),
        Err(e) => Err(e.message()),
    }
}

/// Why the `i`th enabled filter cannot be loaded.
pub open spec fn fault_at(cfg: Config, sources: Seq<DefSource>, i: int) -> Option<Seq<char>> {
    load_fault(cfg, cfg.enabled_names()[i], sources[i])
}

/// Whether `f` is the `i`th enabled filter.
pub open spec fn loads_as(
    cfg: Config,
    sources: Seq<DefSource>,
    i: int,
    f: CompiledFilter,
) -> bool {
    &&& f.wf()
    &&& resolved(cfg, cfg.enabled_names()[i], sources[i].custom, sources[i].builtin) == Ok::<
        DefView,
        Seq<char>,
    >(f.def@)
}

/// Loads the enabled filters, each from its source; the first one that cannot be
/// loaded ends it.
pub fn load_filters(cfg: &Config, sources: Vec<DefSource>) -> (r: Result<
    Vec<CompiledFilter>,
    String,
>)
    requires
        cfg.wf(),
        sources@.len() == cfg.enabled_names().len(),
    ensures
        match r {
            Ok(v) => {
                &&& v@.len() == sources@.len()
                &&& forall|i: int|
                    0 <= i < v@.len() ==> loads_as(*cfg, sources@, i, #[trigger] v@[i])
                &&& forall|i: int|
                    0 <= i < v@.len() ==> #[trigger] fault_at(*cfg, sources@, i) is None
            },
            Err(e) => exists|i: int|
                0 <= i < sources@.len() && #[trigger] fault_at(*cfg, sources@, i) == Some(e@)
                    && forall|j: int|
                    0 <= j < i ==> #[trigger] fault_at(*cfg, sources@, j) is None,
        },
{
    let names = cfg.enabled_filters();
    assert(texts(names@).len() == names@.len());
    let ghost all = sources@;
    let mut rest = sources;
    let mut out: Vec<CompiledFilter> = Vec::new();
    let mut i: usize = 0;
    assert(rest@ =~= all.skip(0));
    while i < names.len()
        invariant
            i <= names@.len(),
            cfg.wf(),
            texts(names@) == cfg.enabled_names(),
            all == sources@,
            names@.len() == all.len(),
            rest@ == all.skip(i as int),
            out@.len() == i,
            forall|j: int| 0 <= j < i ==> loads_as(*cfg, all, j, #[trigger] out@[j]),
            forall|j: int| 0 <= j < i ==> #[trigger] fault_at(*cfg, all, j) is None,
        decreases names@.len() - i,
    {
        assert(rest@[0] == all[i as int]);
        assert(rest@.remove(0) =~= all.skip(i + 1));
        let src = rest.remove(0);
        assert(texts(names@)[i as int] == names@[i as int]@);
        match cfg.filter_def(names[i].as_str(), src.custom, src.builtin) {
            Ok(def) => match load_filter(def) {
                Ok(f) => {
                    out.push(f);
                    assert(fault_at(*cfg, all, i as int) is None);
                    assert(loads_as(*cfg, all, i as int, out@[i as int]));
                },
                Err(e) => {
                    assert(fault_at(*cfg, all, i as int) == Some(e@));
                    return Err(e);
                },
            },
            Err(e) => {
                assert(fault_at(*cfg, all, i as int) == Some(e@));
                return Err(e);
            },
        }
        i += 1;
    }
    Ok(out)
}

impl<F: Firewall> Engine<F> {
    /// An engine for the filters that the configuration enables, which have been
    /// loaded in that order. A filter with journal selectors reads the journal where
    /// the configuration wants it and there is one; otherwise it reads its files.
    pub fn new(
        cfg: Config,
        backend: F,
        loaded: Vec<CompiledFilter>,
        journal_available: bool,
        local: &Vec<IpAddr>,
    ) -> (r: Self)
        requires
            cfg.wf(),
            loaded@.len() == cfg.enabled_names().len(),
            loaded@.len() <= 65536,
            forall|i: int| 0 <= i < loaded@.len() ==> (#[trigger] loaded@[i]).wf(),
        ensures
            r.wf(),
            r.cfg == cfg,
            r.backend.inner == backend,
            r.backend.label@ == backend.title(),
            r.filters@.len() == loaded@.len(),
            forall|i: int|
                0 <= i < loaded@.len() ==> (#[trigger] r.filters@[i]).filter == loaded@[i]
                    && cfg.is_policy(
                    cfg.enabled_names()[i],
                    loaded@[i].def.ports@,
                    r.filters@[i].policy,
                ) && r.filters@[i].via_journal == (cfg.defaults.journal && journal_available
                    && !(loaded@[i].def@.units.len() == 0 && loaded@[i].def@.identifiers.len() == 0
                    && loaded@[i].def@.comm.len() == 0)),
            ascending::<IpNet>(r.setup().allow),
            r.setup().allow.to_set() == allow_list(cfg.defaults.allow@, local@),
            r.setup().max == (if cfg.defaults.max_tracked > 16 {
                cfg.defaults.max_tracked as nat
            } else {
                16
            }),
            r.state() == (State {
                matched: Seq::new(loaded@.len(), |i: int| 0u64),
                banned: Seq::new(loaded@.len(), |i: int| 0u64),
                hits: Map::empty(),
                history: Map::empty(),
                active: Map::empty(),
                events: Seq::empty(),
                calls: backend.asked(),
                lines: 0,
                bans_total: 0,
                last_sweep: 0,
            }),
    {
        let names = cfg.enabled_filters();
        let ghost want = cfg.enabled_names();
        let use_journal: bool = cfg.defaults.journal && journal_available;
        assert(texts(names@).len() == names@.len());
        let ghost all = loaded@;
        let mut loaded = loaded;
        let mut filters: Vec<LoadedFilter> = Vec::new();
        let mut routes: SortedMap<String, Vec<u16>> = SortedMap::new();
        let mut i: usize = 0;
        while i < names.len()
            invariant
                i <= names@.len(),
                names@.len() <= 65536,
                cfg.wf(),
                want == cfg.enabled_names(),
                texts(names@) == want,
                names@.len() == all.len(),
                loaded@ == all.skip(i as int),
                use_journal == (cfg.defaults.journal && journal_available),
                filters@.len() == i,
                routes.wf(),
                forall|j: int| 0 <= j < all.len() ==> (#[trigger] all[j]).wf(),
                forall|j: int|
                    0 <= j < i ==> (#[trigger] filters@[j]).filter == all[j] && cfg.is_policy(
                        want[j],
                        all[j].def.ports@,
                        filters@[j].policy,
                    ) && filters@[j].via_journal == (use_journal && !(all[j].def@.units.len() == 0
                        && all[j].def@.identifiers.len() == 0 && all[j].def@.comm.len() == 0))
                        && filters@[j].matched == 0 && filters@[j].banned == 0,
                forall|p: Seq<char>| #[trigger]
                    routes@.contains_key(p) ==> routes@[p]@.len() > 0,
                forall|p: Seq<char>| #[trigger]
                    routed(routes@, p) == file_route(
                        filters@.map_values(|f: LoadedFilter| f.filter.def@),
                        filters@.map_values(|f: LoadedFilter| f.via_journal),
                        p,
                        i as int,
                    ),
            decreases names@.len() - i,
        {
            assert(loaded@[0] == all[i as int]);
            assert(loaded@.remove(0) =~= all.skip(i + 1));
            let filter = loaded.remove(0);
            assert(texts(names@)[i as int] == names@[i as int]@);
            let policy = cfg.policy_for(names[i].as_str(), &filter.def);
            let via_journal: bool = use_journal && !filter.def.journal.is_empty();
            let ghost was = filters@;
            let ghost defs0 = was.map_values(|f: LoadedFilter| f.filter.def@);
            let ghost via0 = was.map_values(|f: LoadedFilter| f.via_journal);
            if !via_journal {
                add_routes(&mut routes, &filter.def.files, i as u16);
            }
            let ghost def = filter.def@;
            filters.push(LoadedFilter { filter, policy, via_journal, matched: 0, banned: 0 });
            proof {
                let defs1 = filters@.map_values(|f: LoadedFilter| f.filter.def@);
                let via1 = filters@.map_values(|f: LoadedFilter| f.via_journal);
                assert(defs1 =~= defs0.push(def));
                assert(via1 =~= via0.push(via_journal));
                assert forall|p: Seq<char>| #[trigger] routed(routes@, p) == file_route(
                    defs1,
                    via1,
                    p,
                    i + 1,
                ) by {
                    lemma_file_route_grows(defs0, via0, def, via_journal, p, i as int);
                    assert(file_route(defs0, via0, p, i as int) + Seq::<u16>::empty()
                        =~= file_route(defs0, via0, p, i as int));
                }
            }
            i += 1;
        }
        let allow = build_allow(&cfg.defaults.allow, local);
        let tracker = Tracker::new(cfg.defaults.max_tracked);
        let r = Engine {
            cfg,
            filters,
            routes_file: routes,
            tracker,
            history: SortedMap::new(),
            active: SortedMap::new(),
            backend: Driver::new(backend),
            allow,
            events: Vec::new(),
            lines: 0,
            bans_total: 0,
            last_sweep: 0,
        };
        proof {
            assert(r.state().matched =~= Seq::new(all.len(), |i: int| 0u64));
            assert(r.state().banned =~= Seq::new(all.len(), |i: int| 0u64));
            assert(r.state().events =~= Seq::empty());
        }
        r
    }

    /// The followed files, each once.
    pub fn file_patterns(&self) -> (r: Vec<String>)
        requires
            self.wf(),
        ensures
            texts(r@).no_duplicates(),
            forall|p: Seq<char>| #[trigger]
                texts(r@).contains(p) <==> file_route(
                    self.setup().defs,
                    self.setup().via,
                    p,
                    self.setup().defs.len() as int,
                ).len() > 0,
    {
        let out = key_texts(&self.routes_file);
        proof {
            self.routes_file.lemma_view();
            assert forall|p: Seq<char>| #[trigger] texts(out@).contains(p) <==> file_route(
                self.setup().defs,
                self.setup().via,
                p,
                self.setup().defs.len() as int,
            ).len() > 0 by {
                assert(routed(self.routes_file@, p) == file_route(
                    self.setup().defs,
                    self.setup().via,
                    p,
                    self.filters@.len() as int,
                ));
            }
        }
        out
    }

    /// The match expressions of all filters that read the journal, sorted, each once.
    pub fn journal_matches(&self) -> (r: Vec<String>)
        requires
            self.wf(),
        ensures
            ascending::<String>(texts(r@)),
            texts(r@).to_set() == expressions_of(
                self.setup().defs,
                self.setup().via,
                self.setup().defs.len() as int,
            ),
    {
        let mut m: SortedMap<String, ()> = SortedMap::new();
        let ghost su = self.setup();
        let mut i: usize = 0;
        assert(m@.dom() =~= expressions_of(su.defs, su.via, 0));
        while i < self.filters.len()
            invariant
                i <= self.filters@.len(),
                su == self.setup(),
                m.wf(),
                m@.dom() == expressions_of(su.defs, su.via, i as int),
            decreases self.filters@.len() - i,
        {
            let f = &self.filters[i];
            assert(su.defs[i as int] == f.filter.def@);
            assert(su.via[i as int] == f.via_journal);
            if f.via_journal {
                let list = f.filter.def.journal.matches();
                let ghost base = m@.dom();
                let mut j: usize = 0;
                assert(texts(list@).take(0).to_set() =~= Set::empty());
                assert(m@.dom() =~= base.union(texts(list@).take(0).to_set()));
                while j < list.len()
                    invariant
                        j <= list@.len(),
                        m.wf(),
                        m@.dom() == base.union(texts(list@).take(j as int).to_set()),
                    decreases list@.len() - j,
                {
                    m.insert(list[j].clone(), ());
                    proof {
                        let t = texts(list@);
                        assert(t.take(j + 1) =~= t.take(j as int).push(t[j as int]));
                        lemma_push_set(t.take(j as int), t[j as int]);
                        assert(m@.dom() =~= base.union(t.take(j + 1).to_set()));
                    }
                    j += 1;
                }
                assert(texts(list@).take(j as int) =~= texts(list@));
            }
            i += 1;
        }
        proof {
            m.lemma_view();
        }
        key_texts(&m)
    }

    /// Prepare the backend and reconcile our mirror with what it already holds.
    /// `past` is what the event log holds; the escalation history is rebuilt from it.
    pub fn start(&mut self, now: u32, past: &Vec<Event>) -> (r: Result<(), EngineError>)
        requires
            old(self).wf(),
        ensures
            final(self).goes_on(old(self)),
            ({
                let su = old(self).setup();
                let s = old(self).state();
                let asked = s.calls.push(Call::Setup { error: None });
                let told = asked.push(Call::SetAllow { nets: su.allow, error: None });
                match r {
                    Ok(()) => exists|listed: Option<Seq<Entry>>|
                        final(self).state() == #[trigger] after_start(
                            su,
                            State { calls: told.push(Call::List { got: Ok(listed) }), ..s },
                            now,
                            listed,
                            events_of(past@),
                        ),
                    Err(EngineError::Backend { error }) => {
                        let e = error@;
                        let calls = final(self).state().calls;
                        &&& final(self).state() == State { calls, ..s }
                        &&& calls == s.calls.push(Call::Setup { error: Some(e) }) || calls
                            == asked.push(Call::SetAllow { nets: su.allow, error: Some(e) })
                            || calls == told.push(Call::List { got: Err(e) })
                    },
                    Err(EngineError::Refused { .. }) => false,
                }
            }),
    {
        let ghost su = self.setup();
        let ghost s = self.state();
        if let Err(error) = self.backend.inner.setup() {
            return Err(EngineError::Backend { error });
        }
        if let Err(error) = self.backend.inner.set_allow(&self.allow) {
            return Err(EngineError::Backend { error });
        }
        match self.backend.inner.list() {
            Err(error) => Err(EngineError::Backend { error }),
            Ok(listed) => {
                let ghost asked = self.state();
                let ghost lv = enumerated(listed);
                self.adopt(now, listed, past);
                proof {
                    let told = s.calls.push(Call::Setup { error: None }).push(
                        Call::SetAllow { nets: su.allow, error: None },
                    );
                    assert(asked =~= State { calls: told.push(Call::List { got: Ok(lv) }), ..s });
                    assert(self.state() == after_start(su, asked, now, lv, events_of(past@)));
                }
                Ok(())
            },
        }
    }

    /// Take over what the backend holds (`listed`, where it can enumerate its bans)
    /// and what the event log tells.
    pub fn adopt(&mut self, now: u32, listed: Option<Vec<Entry>>, past: &Vec<Event>)
        requires
            old(self).wf(),
        ensures
            final(self).goes_on(old(self)),
            final(self).state() == after_start(
                old(self).setup(),
                old(self).state(),
                now,
                enumerated(listed),
                events_of(past@),
            ),
    {
        let n: usize = self.filters.len();
        if let Some(entries) = &listed {
            adopt_entries(&mut self.active, entries, now, n);
        }
        let memory: u64 = self.cfg.defaults.escalate.memory.secs();
        let cutoff: u64 = (now as u64).saturating_sub(memory);
        replay(&mut self.history, past, cutoff);
        self.note_event(Event::Start { ts: now as u64, version: VERSION.to_owned() });
    }

    /// Counters; `uptime` is how long the daemon has run.
    pub fn status(&mut self, now: u32, uptime: u64) -> (r: Status)
        requires
            old(self).wf(),
        ensures
            final(self).goes_on(old(self)),
            final(self).state() == after_list(old(self).state(), None, now),
            reports(
                old(self).setup(),
                final(self).state(),
                old(self).backend.label@,
                uptime,
                r,
            ),
    {
        let ghost su = self.setup();
        self.expire(now);
        let ghost s = self.state();
        let mut filters: Vec<FilterStatus> = Vec::new();
        let mut i: usize = 0;
        while i < self.filters.len()
            invariant
                i <= self.filters@.len(),
                su == self.setup(),
                s == self.state(),
                filters@.len() == i,
                forall|j: int| 0 <= j < i ==> is_status(su, s, j, #[trigger] filters@[j]),
            decreases self.filters@.len() - i,
        {
            let f = &self.filters[i];
            assert(su.defs[i as int] == f.filter.def@);
            filters.push(
                FilterStatus {
                    name: f.filter.name().to_owned(),
                    files: text::copy_texts(&f.filter.def.files),
                    journal: f.via_journal,
                    maxretry: f.policy.maxretry,
                    findtime: f.policy.findtime.as_secs(),
                    bantime: f.policy.bantime.as_secs(),
                    matched: f.matched,
                    banned: f.banned,
                },
            );
            i += 1;
        }
        Status {
            version: VERSION.to_owned(),
            backend: self.backend.label.clone(),
            uptime,
            tracking: self.tracker.len(),
            lines: self.lines,
            bans_total: self.bans_total,
            active_bans: self.active.len(),
            filters,
        }
    }

    /// The name of the filter that a ban on the mirror came from.
    fn filter_of(&self, net: &IpNet) -> (r: Option<String>)
        requires
            self.wf(),
        ensures
            opt_text(r) == ban_filter(self.setup(), self.state(), *net),
    {
        match self.active.get(net) {
            Some(b) => match b.filter {
                Some(i) => {
                    let k: usize = i as usize;
                    assert(self.setup().defs[i as int] == self.filters@[i as int].filter.def@);
                    Some(self.filters[k].filter.name().to_owned())
                },
                None => None,
            },
            None => None,
        }
    }

    /// Active bans. Asks the backend (kernel truth) when it can enumerate,
    /// enriched with the filter name from our mirror.
    pub fn list(&mut self, now: u32) -> (r: Result<Vec<BanInfo>, EngineError>)
        requires
            old(self).wf(),
        ensures
            final(self).goes_on(old(self)),
            match r {
                Ok(v) => lists_for_some(
                    old(self).setup(),
                    old(self).state(),
                    final(self).state(),
                    final(self).active.keys(),
                    now,
                    infos(v@),
                ),
                Err(EngineError::Backend { error }) => final(self).state() == asked_list(
                    old(self).state(),
                    Err(error@),
                ),
                Err(EngineError::Refused { .. }) => false,
            },
    {
        let ghost su = self.setup();
        let ghost s = self.state();
        match self.backend.inner.list() {
            Err(error) => {
                assert(self.state() =~= asked_list(s, Err(error@)));
                Err(EngineError::Backend { error })
            },
            Ok(got) => {
                let ghost gv = enumerated(got);
                let ghost asked = asked_list(s, Ok(gv));
                assert(self.state() =~= asked);
                let out = self.list_from(got, now);
                assert(lists(su, asked, self.state(), self.active.keys(), now, gv, infos(out@)));
                Ok(out)
            },
        }
    }

    /// The active bans when the backend's answer is `got`.
    pub fn list_from(&mut self, got: Option<Vec<Entry>>, now: u32) -> (r: Vec<BanInfo>)
        requires
            old(self).wf(),
        ensures
            final(self).goes_on(old(self)),
            lists(
                old(self).setup(),
                old(self).state(),
                final(self).state(),
                final(self).active.keys(),
                now,
                enumerated(got),
                infos(r@),
            ),
    {
        let ghost su = self.setup();
        let ghost s = self.state();
        let mut out: Vec<BanInfo> = Vec::new();
        match got {
            Some(entries) => {
                let ghost want = listed_infos(su, s, entries@);
                let mut kernel: SortedMap<IpNet, ()> = SortedMap::new();
                let mut i: usize = 0;
                assert(want.take(0) =~= Seq::empty());
                assert(infos(out@) =~= by_net(want.take(0)));
                while i < entries.len()
                    invariant
                        i <= entries@.len(),
                        self.goes_on(old(self)),
                        self.state() == s,
                        self.setup() == su,
                        want == listed_infos(su, s, entries@),
                        infos(out@) == by_net(want.take(i as int)),
                        kernel.wf(),
                        forall|n: IpNet| #[trigger]
                            kernel@.contains_key(n) <==> holds_net(entries@.take(i as int), n),
                    decreases entries@.len() - i,
                {
                    let e = entries[i];
                    let expires_in: Option<u64> = match e.expires_in {
                        Some(d) => Some(d.as_secs()),
                        None => None,
                    };
                    let info = BanInfo { net: e.net, expires_in, filter: self.filter_of(&e.net) };
                    assert(info@ == want[i as int]);
                    assert(want.take(i + 1).drop_last() =~= want.take(i as int));
                    place(&mut out, info);
                    kernel.insert(e.net, ());
                    proof {
                        let a = entries@.take(i as int);
                        let b = entries@.take(i + 1);
                        assert(b[i as int] == e);
                        assert forall|n: IpNet| #[trigger] kernel@.contains_key(n) <==> holds_net(
                            b,
                            n,
                        ) by {
                            if holds_net(a, n) {
                                let k = choose|k: int| 0 <= k < a.len() && (#[trigger] a[k]).net == n;
                                assert(b[k] == a[k]);
                            }
                            if holds_net(b, n) {
                                let k = choose|k: int| 0 <= k < b.len() && (#[trigger] b[k]).net == n;
                                if k < i {
                                    assert(a[k] == b[k]);
                                }
                            }
                        }
                    }
                    i += 1;
                }
                assert(want.take(i as int) =~= want);
                assert(entries@.take(i as int) =~= entries@);
                let keep = |n: &IpNet, b: &ActiveBan| -> (r: bool)
                    requires
                        kernel.wf(),
                    ensures
                        r == kernel@.contains_key(*n),
                    { kernel.contains(n) };
                let ghost p = |n: IpNet, b: ActiveBan| holds_net(entries@, n);
                self.active.retain(keep, Ghost(p));
                assert(self.active@ =~= kept(
                    s.active,
                    |n: IpNet, b: ActiveBan| holds_net(entries@, n),
                ));
            },
            None => {
                self.expire(now);
                let ghost after = self.state();
                let ghost nets = self.active.keys();
                let ghost want = mirror_infos(su, after, nets, now);
                let n: usize = self.active.len();
                let mut i: usize = 0;
                assert(infos(out@) =~= want.take(0));
                while i < n
                    invariant
                        i <= n,
                        n == nets.len(),
                        self.goes_on(old(self)),
                        self.state() == after,
                        self.setup() == su,
                        nets == self.active.keys(),
                        want == mirror_infos(su, after, nets, now),
                        forall|k: IpNet| #[trigger]
                            self.active@.contains_key(k) ==> self.active@[k].until > now,
                        infos(out@) == want.take(i as int),
                    decreases n - i,
                {
                    let net = *self.active.key_at(i);
                    let b = *self.active.value_at(i);
                    let ghost before = out@;
                    let left: u64 = (b.until - now) as u64;
                    let info = BanInfo {
                        net,
                        expires_in: Some(left),
                        filter: self.filter_of(&net),
                    };
                    assert(info@ == want[i as int]);
                    out.push(info);
                    assert(infos(out@) =~= infos(before).push(want[i as int]));
                    assert(want.take(i + 1) =~= want.take(i as int).push(want[i as int]));
                    i += 1;
                }
                assert(want.take(i as int) =~= want);
            },
        }
        out
    }

    pub fn filter_names(&self) -> (r: Vec<String>)
        ensures
            texts(r@) == self.setup().defs.map_values(|d: DefView| d.name),
    {
        let ghost want = self.setup().defs.map_values(|d: DefView| d.name);
        let mut out: Vec<String> = Vec::new();
        let mut i: usize = 0;
        assert(texts(out@) =~= want.take(0));
        while i < self.filters.len()
            invariant
                i <= self.filters@.len(),
                want == self.setup().defs.map_values(|d: DefView| d.name),
                texts(out@) == want.take(i as int),
            decreases self.filters@.len() - i,
        {
            let ghost before = out@;
            out.push(self.filters[i].filter.name().to_owned());
            assert(texts(out@) =~= texts(before).push(want[i as int]));
            assert(want.take(i + 1) =~= want.take(i as int).push(want[i as int]));
            i += 1;
        }
        assert(want.take(i as int) =~= want);
        out
    }
}

/// The match expressions of a definition.
pub open spec fn def_expressions(def: DefView) -> Seq<Seq<char>> {
    prefixed("_SYSTEMD_UNIT="@, def.units) + prefixed("SYSLOG_IDENTIFIER="@, def.identifiers)
        + prefixed("_COMM="@, def.comm)
}

/// The match expressions of the first `n` filters that read the journal.
pub open spec fn expressions_of(defs: Seq<DefView>, via: Seq<bool>, n: int) -> Set<Seq<char>>
    decreases n,
{
    if n <= 0 {
        Set::empty()
    } else if via[n - 1] {
        expressions_of(defs, via, n - 1).union(def_expressions(defs[n - 1]).to_set())
    } else {
        expressions_of(defs, via, n - 1)
    }
}

/// Adds a filter to the routes of all its files.
fn add_routes(routes: &mut SortedMap<String, Vec<u16>>, files: &Vec<String>, idx: u16)
    requires
        old(routes).wf(),
        forall|p: Seq<char>| #[trigger] old(routes)@.contains_key(p) ==> old(routes)@[p]@.len() > 0,
    ensures
        final(routes).wf(),
        forall|p: Seq<char>|
            #[trigger] final(routes)@.contains_key(p) ==> final(routes)@[p]@.len() > 0,
        forall|p: Seq<char>| #[trigger]
            routed(final(routes)@, p) == routed(old(routes)@, p) + route_of(texts(files@), p, idx),
{
    let ghost start = routes@;
    let ghost all = texts(files@);
    let mut i: usize = 0;
    proof {
        assert(all.take(0) =~= Seq::empty());
        assert forall|p: Seq<char>| #[trigger] routed(routes@, p) == routed(start, p) + route_of(
            all.take(0),
            p,
            idx,
        ) by {
            assert(routed(start, p) + Seq::<u16>::empty() =~= routed(start, p));
        }
    }
    while i < files.len()
        invariant
            i <= files@.len(),
            all == texts(files@),
            routes.wf(),
            forall|p: Seq<char>| #[trigger] routes@.contains_key(p) ==> routes@[p]@.len() > 0,
            forall|p: Seq<char>| #[trigger]
                routed(routes@, p) == routed(start, p) + route_of(all.take(i as int), p, idx),
        decreases files@.len() - i,
    {
        let ghost before = routes@;
        add_route(routes, &files[i], idx);
        proof {
            let now = all.take(i + 1);
            assert(now.drop_last() =~= all.take(i as int));
            assert(now.last() == files@[i as int]@);
            assert forall|p: Seq<char>| #[trigger] routed(routes@, p) == routed(start, p)
                + route_of(now, p, idx) by {
                assert(routed(before, p) == routed(start, p) + route_of(all.take(i as int), p, idx));
                assert(routed(routes@, p) =~= routed(start, p) + route_of(now, p, idx));
            }
        }
        i += 1;
    }
    assert(all.take(i as int) =~= all);
}

/// The routes of the filters so far do not change when one more comes.
proof fn lemma_file_route_grows(
    defs: Seq<DefView>,
    via: Seq<bool>,
    def: DefView,
    v: bool,
    p: Seq<char>,
    n: int,
)
    requires
        0 <= n <= defs.len(),
        defs.len() == via.len(),
    ensures
        file_route(defs.push(def), via.push(v), p, n) == file_route(defs, via, p, n),
    decreases n,
{
    if n > 0 {
        lemma_file_route_grows(defs, via, def, v, p, n - 1);
    }
}

/// Puts the bans of the backend on the mirror.
fn adopt_entries(m: &mut SortedMap<IpNet, ActiveBan>, entries: &Vec<Entry>, now: u32, n: usize)
    requires
        old(m).wf(),
        forall|k: IpNet| #[trigger]
            old(m)@.contains_key(k) ==> match old(m)@[k].filter {
                Some(i) => i < n,
                None => true,
            },
    ensures
        final(m).wf(),
        final(m)@ == adopted(old(m)@, entries@, now),
        forall|k: IpNet| #[trigger]
            final(m)@.contains_key(k) ==> match final(m)@[k].filter {
                Some(i) => i < n,
                None => true,
            },
{
    let ghost start = m@;
    let mut i: usize = 0;
    assert(entries@.take(0) =~= Seq::empty());
    while i < entries.len()
        invariant
            i <= entries@.len(),
            m.wf(),
            m@ == adopted(start, entries@.take(i as int), now),
            forall|k: IpNet| #[trigger]
                m@.contains_key(k) ==> match m@[k].filter {
                    Some(i) => i < n,
                    None => true,
                },
        decreases entries@.len() - i,
    {
        let e = entries[i];
        assert(entries@.take(i + 1).drop_last() =~= entries@.take(i as int));
        let secs: u32 = match e.expires_in {
            Some(d) => clock_secs(d.as_secs()),
            None => u32::MAX - now,
        };
        let until: u32 = now.saturating_add(secs);
        m.insert(e.net, ActiveBan { until, filter: None });
        i += 1;
    }
    assert(entries@.take(i as int) =~= entries@);
}

/// Rebuilds the history from past events.
fn replay(m: &mut SortedMap<IpNet, BanHistory>, past: &Vec<Event>, cutoff: u64)
    requires
        old(m).wf(),
    ensures
        final(m).wf(),
        final(m)@ == replayed(old(m)@, events_of(past@), cutoff),
{
    let ghost start = m@;
    let ghost all = events_of(past@);
    let mut i: usize = 0;
    assert(all.take(0) =~= Seq::empty());
    while i < past.len()
        invariant
            i <= past@.len(),
            all == events_of(past@),
            m.wf(),
            m@ == replayed(start, all.take(i as int), cutoff),
        decreases past@.len() - i,
    {
        assert(all.take(i + 1).drop_last() =~= all.take(i as int));
        assert(all.take(i + 1).last() == past@[i as int]@);
        if let Event::Ban { ts, net, manual, .. } = &past[i] {
            if !*manual && *ts >= cutoff {
                let h = match m.get(net) {
                    Some(h) => Some(*h),
                    None => None,
                };
                m.insert(*net, add_ban(h, clock_secs(*ts)));
            }
        }
        i += 1;
    }
    assert(all.take(i as int) =~= all);
}

/// Sorts the networks and drops repeated ones.
pub fn sorted_nets(v: &Vec<IpNet>) -> (r: Vec<IpNet>)
    ensures
        ascending::<IpNet>(r@),
        r@.to_set() == v@.to_set(),
{
    let mut m: SortedMap<IpNet, ()> = SortedMap::new();
    let mut i: usize = 0;
    while i < v.len()
        invariant
            i <= v@.len(),
            m.wf(),
            m@.dom() == v@.take(i as int).to_set(),
        decreases v@.len() - i,
    {
        m.insert(v[i], ());
        assert(v@.take(i + 1) =~= v@.take(i as int).push(v@[i as int]));
        assert(v@.take(i + 1).to_set() =~= v@.take(i as int).to_set().insert(v@[i as int])) by {
            lemma_push_set(v@.take(i as int), v@[i as int]);
        }
        assert(m@.dom() =~= v@.take(i + 1).to_set());
        i += 1;
    }
    assert(v@.take(i as int) =~= v@);
    let mut out: Vec<IpNet> = Vec::new();
    let n: usize = m.len();
    let ghost keys = m.keys();
    let mut j: usize = 0;
    while j < n
        invariant
            j <= n,
            n == keys.len(),
            m.wf(),
            keys == m.keys(),
            out@ == keys.take(j as int),
        decreases n - j,
    {
        out.push(*m.key_at(j));
        assert(keys.take(j + 1) =~= keys.take(j as int).push(keys[j as int]));
        j += 1;
    }
    proof {
        assert(keys.take(j as int) =~= keys);
        m.lemma_view();
    }
    out
}

/// A sequence's set, after one more.
proof fn lemma_push_set<T>(s: Seq<T>, x: T)
    ensures
        s.push(x).to_set() == s.to_set().insert(x),
{
    assert forall|y: T| s.push(x).to_set().contains(y) <==> s.to_set().insert(x).contains(y) by {
        if s.push(x).contains(y) {
            let i = choose|i: int| 0 <= i < s.push(x).len() && s.push(x)[i] == y;
            if i < s.len() {
                assert(s[i] == y);
            }
        }
        if s.contains(y) {
            let i = choose|i: int| 0 <= i < s.len() && s[i] == y;
            assert(s.push(x)[i] == y);
        }
        assert(s.push(x)[s.len() as int] == x);
    }
    assert(s.push(x).to_set() =~= s.to_set().insert(x));
}

/// The networks that are never banned: those that the operator allows, and the host's
/// own addresses.
pub open spec fn allow_list(allow: Seq<IpNet>, local: Seq<IpAddr>) -> Set<IpNet> {
    Set::new(
        |n: IpNet|
            allow.contains(n) || exists|i: int|
                0 <= i < local.len() && is_specified(#[trigger] local[i]) && n == host_net(local[i]),
    )
}

/// Whether an address is not the unspecified one.
pub open spec fn is_specified(a: IpAddr) -> bool {
    match a {
        IpAddr::V4(x) => x != 0,
        IpAddr::V6(x) => x != 0,
    }
}

/// The network of one address.
pub open spec fn host_net(a: IpAddr) -> IpNet {
    IpNet { addr: a, prefix: a.bits() }
}

/// The allow list in order.
pub fn build_allow(allow: &Vec<IpNet>, local: &Vec<IpAddr>) -> (r: Vec<IpNet>)
    ensures
        ascending::<IpNet>(r@),
        r@.to_set() == allow_list(allow@, local@),
{
    let mut all = crate::backend::null::copy_nets(allow);
    let mut i: usize = 0;
    assert(local@.take(0) =~= Seq::empty());
    assert(all@.to_set() =~= allow_list(allow@, local@.take(0)));
    while i < local.len()
        invariant
            i <= local@.len(),
            all@.to_set() == allow_list(allow@, local@.take(i as int)),
        decreases local@.len() - i,
    {
        let a = local[i];
        let specified: bool = match a {
            IpAddr::V4(x) => x != 0,
            IpAddr::V6(x) => x != 0,
        };
        let ghost now = local@.take(i + 1);
        let ghost before = local@.take(i as int);
        let ghost was = all@;
        if specified {
            all.push(IpNet::host(a));
            proof {
                lemma_push_set(was, host_net(a));
            }
        }
        proof {
            assert(now[i as int] == a);
            assert forall|n: IpNet| all@.to_set().contains(n) <==> allow_list(
                allow@,
                now,
            ).contains(n) by {
                if allow_list(allow@, before).contains(n) && !allow@.contains(n) {
                    let k = choose|k: int|
                        0 <= k < before.len() && is_specified(#[trigger] before[k]) && n
                            == host_net(before[k]);
                    assert(now[k] == before[k]);
                }
                if allow_list(allow@, now).contains(n) && !allow@.contains(n) {
                    let k = choose|k: int|
                        0 <= k < now.len() && is_specified(#[trigger] now[k]) && n == host_net(
                            now[k],
                        );
                    if k < i {
                        assert(now[k] == before[k]);
                    }
                }
            }
            assert(all@.to_set() =~= allow_list(allow@, now));
        }
        i += 1;
    }
    assert(local@.take(i as int) =~= local@);
    sorted_nets(&all)
}

/// `placed`, on a list of bans.
fn place(v: &mut Vec<BanInfo>, x: BanInfo)
    ensures
        infos(final(v)@) == placed(infos(old(v)@), x@),
{
    let ghost all = infos(v@);
    let ghost was = v@;
    let n: usize = v.len();
    let mut at: usize = n;
    assert(all.take(n as int) =~= all);
    assert(placed(all, x@) =~= placed(all.take(at as int), x@) + all.skip(at as int));
    while at > 0 && x.net.order(&v[at - 1].net).is_less()
        invariant
            at <= n,
            n == v@.len(),
            v@ == was,
            all == infos(was),
            placed(all, x@) == placed(all.take(at as int), x@) + all.skip(at as int),
        decreases at,
    {
        let ghost head = all.take(at as int);
        assert(head.last() == v@[at - 1]@);
        assert(head.drop_last() =~= all.take(at - 1));
        assert(placed(head, x@) == placed(head.drop_last(), x@).push(head.last()));
        assert(placed(all, x@) =~= placed(all.take(at - 1), x@) + all.skip(at - 1));
        at = at - 1;
    }
    let ghost head = all.take(at as int);
    if at > 0 {
        assert(head.last() == v@[at - 1]@);
    }
    assert(placed(head, x@) == head.push(x@));
    let ghost xv = x@;
    v.insert(at, x);
    assert(infos(v@) =~= head.push(xv) + all.skip(at as int));
}

/// Sorting keeps every ban and puts the networks in order.
pub proof fn law_list_sorted(v: Seq<InfoView>)
    ensures
        by_net(v).to_multiset() == v.to_multiset(),
        forall|i: int, j: int|
            0 <= i < j < by_net(v).len() ==> !crate::sorted::key_lt::<IpNet>(
                (#[trigger] by_net(v)[j]).net,
                (#[trigger] by_net(v)[i]).net,
            ),
    decreases v.len(),
{
    if v.len() > 0 {
        let u = v.drop_last();
        law_list_sorted(u);
        lemma_placed(by_net(u), v.last());
        assert(u.push(v.last()) =~= v);
        u.to_multiset_ensures();
    }
}

/// No later one comes before an earlier one.
spec fn in_order(v: Seq<InfoView>) -> bool {
    forall|i: int, j: int|
        0 <= i < j < v.len() ==> !crate::sorted::key_lt::<IpNet>(
            (#[trigger] v[j]).net,
            (#[trigger] v[i]).net,
        )
}

proof fn lemma_placed(v: Seq<InfoView>, x: InfoView)
    requires
        in_order(v),
    ensures
        placed(v, x).to_multiset() == v.to_multiset().insert(x),
        in_order(placed(v, x)),
        forall|i: int|
            0 <= i < placed(v, x).len() ==> (#[trigger] placed(v, x)[i]) == x || v.contains(
                placed(v, x)[i],
            ),
    decreases v.len(),
{
    let out = placed(v, x);
    v.to_multiset_ensures();
    if v.len() == 0 || !crate::sorted::key_lt::<IpNet>(x.net, v.last().net) {
        assert forall|i: int, j: int| 0 <= i < j < out.len() implies !crate::sorted::key_lt::<
            IpNet,
        >((#[trigger] out[j]).net, (#[trigger] out[i]).net) by {
            if j < v.len() {
                assert(out[i] == v[i]);
                assert(out[j] == v[j]);
            } else {
                assert(out[i] == v[i]);
                if crate::sorted::key_lt::<IpNet>(x.net, v[i].net) {
                    lemma_below_all(v, x, i);
                }
            }
        }
        assert forall|i: int| 0 <= i < out.len() implies (#[trigger] out[i]) == x || v.contains(
            out[i],
        ) by {
            if i < v.len() {
                assert(out[i] == v[i]);
            }
        }
    } else {
        let u = v.drop_last();
        assert forall|i: int, j: int| 0 <= i < j < u.len() implies !crate::sorted::key_lt::<IpNet>(
            (#[trigger] u[j]).net,
            (#[trigger] u[i]).net,
        ) by {
            assert(u[i] == v[i]);
            assert(u[j] == v[j]);
        }
        lemma_placed(u, x);
        let p = placed(u, x);
        u.to_multiset_ensures();
        p.to_multiset_ensures();
        assert(u.push(v.last()) =~= v);
        assert(out.to_multiset() =~= v.to_multiset().insert(x));
        assert forall|i: int, j: int| 0 <= i < j < out.len() implies !crate::sorted::key_lt::<
            IpNet,
        >((#[trigger] out[j]).net, (#[trigger] out[i]).net) by {
            if j < p.len() {
                assert(out[i] == p[i]);
                assert(out[j] == p[j]);
            } else {
                assert(out[i] == p[i]);
                assert(out[j] == v.last());
                if p[i] == x {
                    lemma_not_both(x.net, v.last().net);
                } else {
                    let k = choose|k: int| 0 <= k < u.len() && u[k] == p[i];
                    assert(v[k] == u[k]);
                    assert(v[v.len() - 1] == v.last());
                }
            }
        }
        assert forall|i: int| 0 <= i < out.len() implies (#[trigger] out[i]) == x || v.contains(
            out[i],
        ) by {
            if i < p.len() {
                assert(out[i] == p[i]);
                if p[i] != x {
                    let k = choose|k: int| 0 <= k < u.len() && u[k] == p[i];
                    assert(v[k] == p[i]);
                }
            } else {
                assert(v[v.len() - 1] == out[i]);
            }
        }
    }
}

proof fn lemma_not_both(a: IpNet, b: IpNet)
    requires
        crate::sorted::key_lt::<IpNet>(a, b),
    ensures
        !crate::sorted::key_lt::<IpNet>(b, a),
{
    if crate::sorted::key_lt::<IpNet>(b, a) {
        crate::sorted::lemma_lex_transitive(IpNet::rank(a), IpNet::rank(b), IpNet::rank(a));
        crate::sorted::lemma_lex_irreflexive(IpNet::rank(a));
    }
}

/// What comes before one of a list in order comes before its last.
proof fn lemma_below_all(v: Seq<InfoView>, x: InfoView, i: int)
    requires
        in_order(v),
        0 <= i < v.len(),
        crate::sorted::key_lt::<IpNet>(x.net, v[i].net),
    ensures
        crate::sorted::key_lt::<IpNet>(x.net, v.last().net),
{
    if i < v.len() - 1 {
        let a = IpNet::rank(v[i].net);
        let b = IpNet::rank(v[v.len() - 1].net);
        crate::sorted::lemma_lex_total(a, b);
        if crate::sorted::lex_lt(a, b) {
            crate::sorted::lemma_lex_transitive(IpNet::rank(x.net), a, b);
        }
    }
}

/// A route only names filters that there are.
pub proof fn lemma_route_bound(su: Setup, origin: Origin, n: int)
    requires
        n <= 65536,
    ensures
        forall|j: int|
            0 <= j < route(su, origin, n).len() ==> (#[trigger] route(su, origin, n)[j]) < n,
    decreases n,
{
    if n > 0 {
        lemma_route_bound(su, origin, n - 1);
        if let Origin::File(path) = origin {
            let before = file_route(su.defs, su.via, path@, n - 1);
            assert(before == route(su, origin, n - 1));
            if !su.via[n - 1] {
                let more = route_of(su.defs[n - 1].files, path@, (n - 1) as u16);
                lemma_route_of(su.defs[n - 1].files, path@, (n - 1) as u16);
                assert forall|j: int| 0 <= j < (before + more).len() implies (#[trigger] (before
                    + more)[j]) < n by {
                    if j < before.len() {
                        assert((before + more)[j] == before[j]);
                    } else {
                        assert((before + more)[j] == more[j - before.len()]);
                    }
                }
            }
        }
    }
}

/// The part of a route that one filter has names only that filter.
proof fn lemma_route_of(files: Seq<Seq<char>>, path: Seq<char>, idx: u16)
    ensures
        forall|j: int|
            0 <= j < route_of(files, path, idx).len() ==> (#[trigger] route_of(
                files,
                path,
                idx,
            )[j]) == idx,
    decreases files.len(),
{
    if files.len() > 0 {
        lemma_route_of(files.drop_last(), path, idx);
        let before = route_of(files.drop_last(), path, idx);
        let all = route_of(files, path, idx);
        assert forall|j: int| 0 <= j < all.len() implies (#[trigger] all[j]) == idx by {
            if j < before.len() {
                assert(all[j] == before[j]);
            }
        }
    }
}

/// A hit from an exempt address changes nothing and leads to no decision.
pub proof fn law_exempt_untouched(
    su: Setup,
    s: State,
    s2: State,
    idx: u16,
    a: IpAddr,
    now: u32,
    d: Option<Decision>,
)
    requires
        is_exempt(su.allow, a),
        recorded(su, s, s2, idx, a, now, d),
    ensures
        s2 == s,
        d is None,
{
}

/// A line in which every filter finds an exempt address, or nothing, changes nothing
/// at the filters and leads to no decision.
pub proof fn law_exempt_line(
    su: Setup,
    s: State,
    s2: State,
    to: Seq<u16>,
    n: int,
    line: Line,
    now: u32,
    out: Seq<Decision>,
)
    requires
        0 <= n <= to.len(),
        walked(su, s, s2, to, n, line, now, out),
        forall|i: int|
            0 <= i < n ==> match line_match(
                su.defs[(#[trigger] to[i]) as int],
                line.text@,
                line.origin is File,
            ) {
                Some(m) => is_exempt(su.allow, m.ip),
                None => true,
            },
    ensures
        s2 == s,
        out.len() == 0,
    decreases n,
{
    if n > 0 {
        let m = line_match(su.defs[to[n - 1] as int], line.text@, line.origin is File);
        let (mid, d) = choose|mid: State, d: Option<Decision>| #[trigger]
            stepped(su, mid, s2, to[n - 1], m, now, d) && match d {
                Some(x) => out.len() > 0 && out.last() == x && walked(
                    su,
                    s,
                    mid,
                    to,
                    n - 1,
                    line,
                    now,
                    out.drop_last(),
                ),
                None => walked(su, s, mid, to, n - 1, line, now, out),
            };
        assert(d is None && s2 == mid);
        law_exempt_line(su, s, mid, to, n - 1, line, now, out);
    }
}

/// Whether one of the first `n` filters on the route finds an address of the network in
/// the line, and that address is not exempt.
pub open spec fn offends(su: Setup, to: Seq<u16>, n: int, line: Line, net: IpNet) -> bool {
    exists|i: int|
        0 <= i < n && match line_match(
            su.defs[(#[trigger] to[i]) as int],
            line.text@,
            line.origin is File,
        ) {
            Some(m) => !is_exempt(su.allow, m.ip) && ip::key_of(m.ip, su.defaults.ipv6_prefix)
                == net,
            None => false,
        }
}

/// Whether a call asks for the ban of one network that offends in the line.
pub open spec fn bans_offender(su: Setup, to: Seq<u16>, n: int, line: Line, c: Call) -> bool {
    match c {
        Call::Ban { bans, .. } => bans.len() == 1 && offends(su, to, n, line, bans[0].net),
        _ => false,
    }
}

/// What a line asks of the backend are bans of networks that offend in it.
proof fn lemma_only_offenders(
    su: Setup,
    s: State,
    s2: State,
    to: Seq<u16>,
    n: int,
    line: Line,
    now: u32,
    out: Seq<Decision>,
)
    requires
        0 <= n <= to.len(),
        walked(su, s, s2, to, n, line, now, out),
    ensures
        s.calls.is_prefix_of(s2.calls),
        forall|k: int|
            s.calls.len() <= k < s2.calls.len() ==> bans_offender(
                su,
                to,
                n,
                line,
                #[trigger] s2.calls[k],
            ),
    decreases n,
{
    if n > 0 {
        let m = line_match(su.defs[to[n - 1] as int], line.text@, line.origin is File);
        let (mid, d) = choose|mid: State, d: Option<Decision>| #[trigger]
            stepped(su, mid, s2, to[n - 1], m, now, d) && match d {
                Some(x) => out.len() > 0 && out.last() == x && walked(
                    su,
                    s,
                    mid,
                    to,
                    n - 1,
                    line,
                    now,
                    out.drop_last(),
                ),
                None => walked(su, s, mid, to, n - 1, line, now, out),
            };
        let rest = match d {
            Some(x) => out.drop_last(),
            None => out,
        };
        lemma_only_offenders(su, s, mid, to, n - 1, line, now, rest);
        assert forall|k: int| s.calls.len() <= k < s2.calls.len() implies bans_offender(
            su,
            to,
            n,
            line,
            #[trigger] s2.calls[k],
        ) by {
            if k < mid.calls.len() {
                assert(s2.calls[k] == mid.calls[k]);
                let net = mid.calls[k]->Ban_bans[0].net;
                assert(offends(su, to, n - 1, line, net));
                assert(offends(su, to, n, line, net));
            } else {
                let net = ip::key_of(m->0.ip, su.defaults.ipv6_prefix);
                assert(s2.calls[k]->Ban_bans[0].net == net);
                assert(to[n - 1] == to[n - 1]);
                assert(offends(su, to, n, line, net));
            }
        }
    }
}

/// What a line asks of the backend are bans, each of one network from which a filter
/// on the line's route found an address that is not exempt: an address on the allow
/// list is never banned for a line, and neither is one that is not in it.
pub proof fn law_only_offenders_banned(
    su: Setup,
    s: State,
    s2: State,
    line: Line,
    now: u32,
    out: Seq<Decision>,
)
    requires
        handled(su, s, s2, line, now, out),
    ensures
        s.calls.is_prefix_of(s2.calls),
        forall|k: int|
            s.calls.len() <= k < s2.calls.len() ==> bans_offender(
                su,
                route(su, line.origin, su.defs.len() as int),
                route(su, line.origin, su.defs.len() as int).len() as int,
                line,
                #[trigger] s2.calls[k],
            ),
{
    let to = route(su, line.origin, su.defs.len() as int);
    let walk = choose|walk: State| #[trigger]
        swept(su, walk, s2, now) && walked(
            su,
            one_line_more(s),
            walk,
            to,
            to.len() as int,
            line,
            now,
            out,
        );
    lemma_only_offenders(su, one_line_more(s), walk, to, to.len() as int, line, now, out);
}

/// A hit from a network that is banned asks nothing of the backend.
pub proof fn law_banned_not_banned_again(
    su: Setup,
    s: State,
    s2: State,
    idx: u16,
    a: IpAddr,
    now: u32,
    d: Option<Decision>,
)
    requires
        is_banned(s, ip::key_of(a, su.defaults.ipv6_prefix), now),
        recorded(su, s, s2, idx, a, now, d),
    ensures
        s2.calls == s.calls,
        s2.active == s.active,
        s2.events == s.events,
        d matches Some(x) ==> !x.banned,
{
}

/// A ban that the backend took is on.
pub proof fn law_ban_is_on(
    su: Setup,
    s: State,
    idx: u16,
    net: IpNet,
    hits: u32,
    now: u32,
)
    requires
        now < u32::MAX,
        su.policies[idx as int].bantime@ > 0,
    ensures
        is_banned(after_ban(su, s, idx, net, hits, now, None), net, now),
{
}

/// After an unban the network is neither banned nor does a filter remember a hit of it.
pub proof fn law_unban_clears(su: Setup, s: State, net: IpNet, now: u32)
    ensures
        !after_unban(su, s, net, now).active.contains_key(net),
        forall|k: TrackKey|
            k.net == net && k.filter < su.defs.len()
                ==> !(#[trigger] after_unban(su, s, net, now).hits.contains_key(k)),
{
}

/// An unban undoes a ban by hand, as far as the list of bans goes.
pub proof fn law_unban_undoes_manual_ban(su: Setup, s: State, net: IpNet, ttl: u64, now: u32)
    requires
        !s.active.contains_key(net),
    ensures
        after_unban(su, after_manual_ban(s, net, ttl, now), net, now).active == s.active,
{
    assert(after_unban(su, after_manual_ban(s, net, ttl, now), net, now).active =~= s.active);
}

/// Housekeeping ends no ban before its time, and leaves none after it.
pub proof fn law_tick_expires(su: Setup, s: State, now: u32, net: IpNet)
    ensures
        after_tick(su, s, now).active.contains_key(net) <==> is_banned(s, net, now),
        is_banned(s, net, now) ==> after_tick(su, s, now).active[net] == s.active[net],
{
}

/// A journal entry of an ordinary user is selected by its unit alone.
pub proof fn law_user_fields_not_honoured(
    def: DefView,
    unit: Option<String>,
    identifier: Option<String>,
    comm: Option<String>,
    uid: Option<u32>,
)
    requires
        !is_system(uid),
    ensures
        selects(def, unit, identifier, comm, uid) == selects(def, unit, None, None, uid),
{
}

/// The event log tells the escalation history: while every event is logged, replaying
/// the log gives the history, whatever is banned or unbanned.
pub proof fn law_log_tells_history(
    su: Setup,
    s: State,
    idx: u16,
    net: IpNet,
    hits: u32,
    ttl: u64,
    now: u32,
    error: Option<Seq<char>>,
    cutoff: u64,
)
    requires
        s.history == replayed(Map::empty(), s.events, cutoff),
        now >= cutoff,
    ensures
        after_ban(su, s, idx, net, hits, now, error).history == replayed(
            Map::empty(),
            after_ban(su, s, idx, net, hits, now, error).events,
            cutoff,
        ),
        after_manual_ban(s, net, ttl, now).history == replayed(
            Map::empty(),
            after_manual_ban(s, net, ttl, now).events,
            cutoff,
        ),
        after_unban(su, s, net, now).history == replayed(
            Map::empty(),
            after_unban(su, s, net, now).events,
            cutoff,
        ),
{
    let banned = after_ban(su, s, idx, net, hits, now, None).events;
    let by_hand = after_manual_ban(s, net, ttl, now).events;
    let lifted = after_unban(su, s, net, now).events;
    assert(banned.drop_last() =~= s.events);
    assert(by_hand.drop_last() =~= s.events);
    assert(lifted.drop_last() =~= s.events);
    assert(on_clock(now as u64) == now);
}

/// How many automatic bans of a network the events tell since `cutoff`.
pub open spec fn automatic_bans(past: Seq<EventView>, net: IpNet, cutoff: u64) -> nat
    decreases past.len(),
{
    if past.len() == 0 {
        0
    } else {
        automatic_bans(past.drop_last(), net, cutoff) + match past.last() {
            EventView::Ban { ts, net: n, manual: false, .. } if ts >= cutoff && n == net => 1nat,
            _ => 0nat,
        }
    }
}

/// A count that stays at the largest value.
pub open spec fn capped(n: nat) -> u32 {
    if n > u32::MAX {
        u32::MAX
    } else {
        n as u32
    }
}

/// What a replay of events remembers of a network.
proof fn lemma_replayed(past: Seq<EventView>, net: IpNet, cutoff: u64)
    requires
        cutoff <= u32::MAX,
    ensures
        match past_of(replayed(Map::empty(), past, cutoff), net) {
            Some(h) => {
                &&& automatic_bans(past, net, cutoff) > 0
                &&& h.count == capped(automatic_bans(past, net, cutoff))
                &&& h.last >= cutoff
            },
            None => automatic_bans(past, net, cutoff) == 0,
        },
    decreases past.len(),
{
    if past.len() > 0 {
        lemma_replayed(past.drop_last(), net, cutoff);
    }
}

/// A restart keeps the escalation history: in a fresh engine that has started, the
/// number of previous bans of every network is the number of its automatic bans that
/// the event log tells within the memory (up to the largest that is counted), and that
/// is the number that the next ban escalates by. One start event is logged.
pub proof fn law_restart_counts_bans(
    su: Setup,
    s: State,
    now: u32,
    listed: Option<Seq<Entry>>,
    past: Seq<EventView>,
    net: IpNet,
    base: u64,
)
    requires
        s.history == Map::<IpNet, BanHistory>::empty(),
    ensures
        ({
            let after = after_start(su, s, now, listed, past);
            let n = capped(automatic_bans(past, net, memory_start(su, now)));
            &&& match past_of(after.history, net) {
                Some(h) => n > 0 && h.count == n,
                None => n == 0,
            }
            &&& su.defaults.escalate_enabled ==> escalation(
                su.defaults,
                past_of(after.history, net),
                base,
                now,
            ).1 == n
            &&& after.events == s.events.push(EventView::Start { ts: now as u64, version: VERSION@ })
        }),
{
    lemma_replayed(past, net, memory_start(su, now));
}

/// Growth is a power of the factor, up to the bound.
proof fn lemma_grown_power(secs: u64, factor: u32, max: u64, n: nat)
    requires
        n > 0,
    ensures
        grown(secs, factor, max, n) == (if secs * pow(factor as int, n) < max {
            secs * pow(factor as int, n)
        } else {
            max as int
        }),
    decreases n,
{
    let f = factor as int;
    let m = (n - 1) as nat;
    let next = if secs * factor > u64::MAX {
        u64::MAX
    } else {
        (secs * factor) as u64
    };
    reveal(pow);
    assert(pow(f, n) == f * pow(f, m));
    let p = pow(f, m);
    if factor > 0 {
        vstd::arithmetic::power::lemma_pow_positive(f, m);
        assert(secs * (f * p) == (secs * f) * p && (secs * f) * p >= secs * f) by (nonlinear_arith)
            requires
                p >= 1,
                secs * f >= 0,
        ;
        assert(secs * f >= 0) by (nonlinear_arith)
            requires
                f >= 0,
        ;
    } else {
        assert(secs * (f * p) == 0 && secs * f == 0) by (nonlinear_arith)
            requires
                f == 0,
        ;
    }
    assert(grown(secs, factor, max, n) == (if next >= max {
        max
    } else {
        grown(next, factor, max, m)
    }));
    if next < max {
        if m > 0 {
            lemma_grown_power(next, factor, max, m);
            if factor == 0 {
                assert(next * p == 0) by (nonlinear_arith)
                    requires
                        next == 0,
                ;
            }
        } else {
            assert(p == 1);
        }
    }
}

/// A repeat offender is banned longer: after `count` previous bans, the last of them
/// within the memory, the ban lasts the ordinary time multiplied by the factor to the
/// power of the number of previous bans (at most 32), but no more than the bound, and
/// never less than the ordinary time. Without such bans, or where escalation is off, it
/// is an ordinary ban.
pub proof fn law_escalation_is_a_power(d: Defaults, h: Option<BanHistory>, base: u64, now: u32)
    ensures
        match h {
            Some(b) if d.escalate_enabled && b.last + d.escalate.memory.0.secs >= now => {
                let k: nat = if b.count < 32 { b.count as nat } else { 32 };
                let grown = base * pow(d.escalate.factor as int, k);
                let capped = if grown < d.escalate.max.0.secs {
                    grown
                } else {
                    d.escalate.max.0.secs as int
                };
                &&& escalation(d, h, base, now).0 == (if capped > base {
                    capped
                } else {
                    base as int
                })
                &&& escalation(d, h, base, now).1 == b.count
            },
            _ => escalation(d, h, base, now) == (base, 0u32),
        },
{
    if let Some(b) = h {
        let k: nat = if b.count < 32 { b.count as nat } else { 32 };
        reveal(pow);
        if k > 0 {
            lemma_grown_power(base, d.escalate.factor, d.escalate.max.0.secs, k);
        } else {
            assert(pow(d.escalate.factor as int, 0) == 1);
            assert(base * 1 == base);
        }
    }
}

/// A ban that the backend took: the backend was asked for exactly this network, for the
/// time that escalation gives; the ban runs from now for that time; the network has one
/// more ban in its history; the counters go up by one; and one event tells all of it.
/// Where the backend failed, it was asked, and that is all.
pub proof fn law_ban_effects(
    su: Setup,
    s: State,
    idx: u16,
    net: IpNet,
    hits: u32,
    now: u32,
    error: Option<Seq<char>>,
)
    requires
        idx < s.banned.len(),
    ensures
        ({
            let after = after_ban(su, s, idx, net, hits, now, error);
            let past = if s.history.contains_key(net) { Some(s.history[net]) } else { None };
            let (ttl, before) = escalation(
                su.defaults,
                past,
                su.policies[idx as int].bantime.secs,
                now,
            );
            let call = Call::Ban {
                bans: seq![Ban { net, ttl: Duration { secs: ttl } }],
                error,
            };
            &&& after.calls == s.calls.push(call)
            &&& after.matched == s.matched && after.hits == s.hits && after.lines == s.lines
                && after.last_sweep == s.last_sweep
            &&& error is Some ==> after.banned == s.banned && after.history == s.history
                && after.active == s.active && after.events == s.events && after.bans_total
                == s.bans_total
            &&& error is None ==> {
                &&& after.active.remove(net) == s.active.remove(net)
                &&& after.active.contains_key(net)
                &&& after.active[net].filter == Some(idx)
                &&& after.active[net].until == (if now + ttl < u32::MAX {
                    now + ttl
                } else {
                    u32::MAX as int
                })
                &&& after.history.remove(net) == s.history.remove(net)
                &&& after.history.contains_key(net)
                &&& after.history[net].last == now
                &&& after.history[net].count == (match past {
                    Some(h) => if h.count < u32::MAX { h.count + 1 } else { u32::MAX as int },
                    None => 1,
                })
                &&& forall|i: int|
                    0 <= i < s.banned.len() && i != idx ==> after.banned[i] == s.banned[i]
                &&& after.banned.len() == s.banned.len()
                &&& s.banned[idx as int] < u64::MAX ==> after.banned[idx as int]
                    == s.banned[idx as int] + 1
                &&& s.bans_total < u64::MAX ==> after.bans_total == s.bans_total + 1
                &&& after.events == s.events.push(
                    EventView::Ban {
                        ts: now as u64,
                        net,
                        filter: su.defs[idx as int].name,
                        ttl,
                        hits,
                        escalation: before,
                        manual: false,
                    },
                )
            }
        }),
{
    let after = after_ban(su, s, idx, net, hits, now, error);
    if error is None {
        assert(after.active.remove(net) =~= s.active.remove(net));
        assert(after.history.remove(net) =~= s.history.remove(net));
    }
}

/// Never banned are the loopback and unspecified addresses and those in a network of the
/// allow list, and no others.
pub proof fn law_exempt_exactly(allow: Seq<IpNet>, a: IpAddr)
    ensures
        is_exempt(allow, a) == ((match a {
            IpAddr::V4(x) => x == 0 || 2_130_706_432 <= x <= 2_147_483_647,
            IpAddr::V6(x) => x <= 1,
        }) || exists|i: int| 0 <= i < allow.len() && (#[trigger] allow[i]).covers(a)),
{
    ip::law_local_range(a);
}

/// The allow list holds what the operator allows and the host's own addresses, each as
/// a network of one address, but for unspecified ones.
pub proof fn law_allow_list(allow: Seq<IpNet>, local: Seq<IpAddr>, n: IpNet)
    ensures
        allow_list(allow, local).contains(n) == (allow.contains(n) || (match n.addr {
            IpAddr::V4(x) => n.prefix == 32 && x != 0,
            IpAddr::V6(x) => n.prefix == 128 && x != 0,
        } && local.contains(n.addr))),
{
    if local.contains(n.addr) {
        let i = choose|i: int| 0 <= i < local.len() && local[i] == n.addr;
        assert(local[i] == n.addr);
    }
}

/// A hit from an address that is neither exempt nor banned counts for its filter and is
/// judged by the tracker, as a hit of that filter from the network that the address is
/// tracked as; the decision says so.
pub proof fn law_hit_is_judged(
    su: Setup,
    s: State,
    s2: State,
    idx: u16,
    a: IpAddr,
    now: u32,
    d: Option<Decision>,
)
    requires
        idx < s.matched.len(),
        !is_exempt(su.allow, a),
        recorded(su, s, s2, idx, a, now, d),
    ensures
        ({
            let net = ip::key_of(a, su.defaults.ipv6_prefix);
            let key = TrackKey { filter: idx, net };
            let p = su.policies[idx as int];
            let on = s.active.contains_key(net) && s.active[net].until > now;
            let verdict = verdict_of(ring_of(s.hits, key), now, p.findtime.secs, p.maxretry);
            &&& d matches Some(x) && x.filter == idx && x.net == net
            &&& s2.matched.len() == s.matched.len()
            &&& s.matched[idx as int] < u64::MAX ==> s2.matched[idx as int] == s.matched[idx as int]
                + 1
            &&& forall|i: int|
                0 <= i < s.matched.len() && i != idx ==> s2.matched[i] == s.matched[i]
            &&& s2.lines == s.lines && s2.last_sweep == s.last_sweep
            &&& !on ==> exists|room: Map<TrackKey, Ring>| #[trigger]
                makes_room(s.hits, room, key, su.max) && s2.hits == map_after_hit(
                    room,
                    key,
                    now,
                    p.findtime.secs,
                    p.maxretry,
                )
            &&& on ==> !d->0.banned && d->0.hits == 0 && s2.calls == s.calls && s2.hits == s.hits
                && s2.active == s.active && s2.history == s.history && s2.events == s.events
            &&& !on ==> match verdict {
                Verdict::Below { hits } => !d->0.banned && d->0.hits == hits && s2.calls == s.calls
                    && s2.active == s.active && s2.history == s.history && s2.events == s.events
                    && s2.banned == s.banned && s2.bans_total == s.bans_total,
                Verdict::Ban { hits } => d->0.banned && d->0.hits == hits && exists|
                    seen: State,
                    error: Option<Seq<char>>,
                |
                    seen.calls == s.calls && seen.active == s.active && seen.history == s.history
                        && seen.events == s.events && seen.banned == s.banned && seen.bans_total
                        == s.bans_total && s2 == #[trigger] after_ban(
                        su,
                        seen,
                        idx,
                        net,
                        hits,
                        now,
                        error,
                    ),
            }
        }),
{
    let net = ip::key_of(a, su.defaults.ipv6_prefix);
    let key = TrackKey { filter: idx, net };
    let seen = State {
        matched: s.matched.update(idx as int, next_count(s.matched[idx as int])),
        ..s
    };
    if !is_banned(s, net, now) {
        let (room, error) = choose|room: Map<TrackKey, Ring>, error: Option<Seq<char>>| #[trigger]
            counted(su, seen, s2, key, now, d, room, error);
        let p = su.policies[idx as int];
        let hit = State { hits: map_after_hit(room, key, now, p.findtime@, p.maxretry), ..seen };
        assert(makes_room(s.hits, room, key, su.max));
        if let Verdict::Ban { hits } = verdict_of(
            ring_of(s.hits, key),
            now,
            p.findtime@,
            p.maxretry,
        ) {
            assert(s2 == after_ban(su, hit, idx, net, hits, now, error));
        }
    }
}

/// A line of a file goes to exactly the filters that do not use the journal and name the
/// file, in the order of the filters.
pub proof fn law_file_routes(su: Setup, path: String, n: int, i: int)
    requires
        0 <= i < n <= 65536,
    ensures
        route(su, Origin::File(path), n).contains(i as u16) == (!su.via[i]
            && su.defs[i].files.contains(path@)),
        forall|a: int, b: int|
            0 <= a < b < route(su, Origin::File(path), n).len() ==> (#[trigger] route(
                su,
                Origin::File(path),
                n,
            )[a]) <= (#[trigger] route(su, Origin::File(path), n)[b]),
    decreases n,
{
    let o = Origin::File(path);
    let all = route(su, o, n);
    let before = route(su, o, n - 1);
    let files = su.defs[n - 1].files;
    let more = route_of(files, path@, (n - 1) as u16);
    lemma_route_bound(su, o, n - 1);
    lemma_route_of(files, path@, (n - 1) as u16);
    lemma_route_of_holds(files, path@, (n - 1) as u16);
    assert(all == if su.via[n - 1] { before } else { before + more });
    if n > 1 {
        law_file_routes(su, path, n - 1, if i < n - 1 { i } else { 0 });
    }
    if i < n - 1 {
        if all.contains(i as u16) {
            let k = choose|k: int| 0 <= k < all.len() && all[k] == i as u16;
            if k < before.len() {
                assert(before[k] == i as u16);
            } else {
                assert(more[k - before.len()] == (n - 1) as u16);
            }
        }
        if before.contains(i as u16) {
            let k = choose|k: int| 0 <= k < before.len() && before[k] == i as u16;
            assert(all[k] == i as u16);
        }
    } else {
        if all.contains(i as u16) {
            let k = choose|k: int| 0 <= k < all.len() && all[k] == i as u16;
            if k < before.len() {
                assert(before[k] < n - 1);
            } else {
                assert(!su.via[n - 1]);
                assert(more.len() > 0);
            }
        }
        if !su.via[n - 1] && files.contains(path@) {
            assert(all[before.len() as int] == more[0]);
        }
    }
    assert forall|a: int, b: int| 0 <= a < b < all.len() implies (#[trigger] all[a]) <= (
    #[trigger] all[b]) by {
        if b < before.len() {
            assert(all[a] == before[a] && all[b] == before[b]);
        } else if a < before.len() {
            assert(all[a] == before[a]);
            assert(all[b] == more[b - before.len()]);
        } else {
            assert(all[a] == more[a - before.len()]);
            assert(all[b] == more[b - before.len()]);
        }
    }
}

/// The part of a route that one filter has is there exactly if it names the file.
proof fn lemma_route_of_holds(files: Seq<Seq<char>>, path: Seq<char>, idx: u16)
    ensures
        (route_of(files, path, idx).len() > 0) == files.contains(path),
    decreases files.len(),
{
    if files.len() > 0 {
        let rest = files.drop_last();
        lemma_route_of_holds(rest, path, idx);
        if files.contains(path) {
            let k = choose|k: int| 0 <= k < files.len() && files[k] == path;
            if k < rest.len() {
                assert(rest[k] == path);
            }
        }
        if rest.contains(path) {
            let k = choose|k: int| 0 <= k < rest.len() && rest[k] == path;
            assert(files[k] == path);
        }
        if files.last() == path {
            assert(files[files.len() - 1] == path);
        }
    }
}

/// A journal entry goes to exactly the filters that use the journal and name its unit,
/// or its identifier or command where its sender is a system account (a user id below
/// 1000), each once, in the order of the filters.
pub proof fn law_journal_routes(su: Setup, o: Origin, n: int, i: int)
    requires
        0 <= i < n <= 65536,
        o is Journal,
    ensures
        o matches Origin::Journal { unit, identifier, comm, uid } ==> route(su, o, n).contains(
            i as u16,
        ) == (su.via[i] && ((unit is Some && su.defs[i].units.contains(unit->0@)) || (uid is Some
            && uid->0 < 1000 && ((identifier is Some && su.defs[i].identifiers.contains(
            identifier->0@,
        )) || (comm is Some && su.defs[i].comm.contains(comm->0@)))))),
        forall|a: int, b: int|
            0 <= a < b < route(su, o, n).len() ==> (#[trigger] route(su, o, n)[a]) < (
            #[trigger] route(su, o, n)[b]),
    decreases n,
{
    let all = route(su, o, n);
    let before = route(su, o, n - 1);
    lemma_route_bound(su, o, n - 1);
    if n > 1 {
        law_journal_routes(su, o, n - 1, if i < n - 1 { i } else { 0 });
    }
    if all.contains(i as u16) {
        let k = choose|k: int| 0 <= k < all.len() && all[k] == i as u16;
        if k < before.len() {
            assert(before[k] == i as u16);
        }
    }
    if before.contains(i as u16) {
        let k = choose|k: int| 0 <= k < before.len() && before[k] == i as u16;
        assert(all[k] == i as u16);
        assert(before[k] < n - 1);
    }
    if all != before {
        assert(all == before.push((n - 1) as u16));
        assert(all[before.len() as int] == (n - 1) as u16);
    }
    assert forall|a: int, b: int| 0 <= a < b < all.len() implies (#[trigger] all[a]) < (
    #[trigger] all[b]) by {
        assert(all[a] == before[a]);
        if b < before.len() {
            assert(all[b] == before[b]);
        }
    }
}

/// Hits are kept for the longest time in which any filter counts them, and for ten
/// minutes where there is no filter.
pub proof fn law_idle_is_the_longest(policies: Seq<Policy>)
    ensures
        policies.len() == 0 ==> idle_of(policies) == 600,
        policies.len() > 0 ==> exists|i: int|
            0 <= i < policies.len() && (#[trigger] policies[i]).findtime.secs == idle_of(policies),
        forall|i: int|
            0 <= i < policies.len() ==> (#[trigger] policies[i]).findtime.secs <= idle_of(policies),
    decreases policies.len(),
{
    if policies.len() == 1 {
        assert(policies[0].findtime.secs == idle_of(policies));
    } else if policies.len() > 1 {
        let rest = policies.drop_last();
        law_idle_is_the_longest(rest);
        assert forall|i: int| 0 <= i < policies.len() implies (
        #[trigger] policies[i]).findtime.secs <= idle_of(policies) by {
            if i < rest.len() {
                assert(rest[i] == policies[i]);
            }
        }
        let k = choose|k: int|
            0 <= k < rest.len() && (#[trigger] rest[k]).findtime.secs == idle_of(rest);
        assert(policies[k] == rest[k]);
        assert(policies[policies.len() - 1] == policies.last());
    }
}

/// Housekeeping at `now` keeps exactly the bans that end later, the keys with a hit that
/// some filter may still count, and the histories whose last ban is within the memory;
/// it asks nothing of the backend and logs nothing.
pub proof fn law_tick_keeps_exactly(su: Setup, s: State, now: u32, net: IpNet, key: TrackKey)
    ensures
        ({
            let after = after_tick(su, s, now);
            &&& after.active.contains_key(net) == (s.active.contains_key(net)
                && s.active[net].until > now)
            &&& after.active.contains_key(net) ==> after.active[net] == s.active[net]
            &&& after.history.contains_key(net) == (s.history.contains_key(net)
                && s.history[net].last + su.defaults.escalate.memory.0.secs >= now)
            &&& after.history.contains_key(net) ==> after.history[net] == s.history[net]
            &&& after.hits.contains_key(key) == (s.hits.contains_key(key) && s.hits[key].newest
                + idle_of(su.policies) >= now)
            &&& after.hits.contains_key(key) ==> after.hits[key] == s.hits[key]
            &&& after.last_sweep == now
            &&& after.calls == s.calls && after.events == s.events && after.lines == s.lines
                && after.bans_total == s.bans_total && after.matched == s.matched && after.banned
                == s.banned
        }),
{
}

/// Whether a filter finds an address in a line that is not exempt.
pub open spec fn strikes(su: Setup, line: Line, f: u16) -> bool {
    line_match(su.defs[f as int], line.text@, line.origin is File) matches Some(m) && !is_exempt(
        su.allow,
        m.ip,
    )
}

/// The decisions of a walk are those of the filters that found an address.
proof fn lemma_walk_decisions(
    su: Setup,
    s: State,
    s2: State,
    to: Seq<u16>,
    n: int,
    line: Line,
    now: u32,
    out: Seq<Decision>,
)
    requires
        0 <= n <= to.len(),
        walked(su, s, s2, to, n, line, now, out),
    ensures
        s2.lines == s.lines,
        s2.last_sweep == s.last_sweep,
        out.len() == to.take(n).filter(|f: u16| strikes(su, line, f)).len(),
        forall|k: int|
            #![trigger out[k]]
            0 <= k < out.len() ==> {
                let f = to.take(n).filter(|f: u16| strikes(su, line, f))[k];
                &&& out[k].filter == f
                &&& line_match(su.defs[f as int], line.text@, line.origin is File) matches Some(m)
                    && out[k].net == ip::key_of(m.ip, su.defaults.ipv6_prefix)
            },
    decreases n,
{
    reveal(Seq::filter);
    let p = |f: u16| strikes(su, line, f);
    if n > 0 {
        let f = to[n - 1];
        let m = line_match(su.defs[f as int], line.text@, line.origin is File);
        let (mid, d) = choose|mid: State, d: Option<Decision>| #[trigger]
            stepped(su, mid, s2, f, m, now, d) && match d {
                Some(x) => out.len() > 0 && out.last() == x && walked(
                    su,
                    s,
                    mid,
                    to,
                    n - 1,
                    line,
                    now,
                    out.drop_last(),
                ),
                None => walked(su, s, mid, to, n - 1, line, now, out),
            };
        let rest = match d {
            Some(x) => out.drop_last(),
            None => out,
        };
        lemma_walk_decisions(su, s, mid, to, n - 1, line, now, rest);
        assert(to.take(n).drop_last() =~= to.take(n - 1));
        assert(to.take(n).last() == f);
        let before = to.take(n - 1).filter(p);
        let all = to.take(n).filter(p);
        assert(all == if p(f) { before.push(f) } else { before });
        assert((d is Some) == p(f));
        assert forall|k: int|
            #![trigger out[k]]
            0 <= k < out.len() implies {
            let f = all[k];
            &&& out[k].filter == f
            &&& line_match(su.defs[f as int], line.text@, line.origin is File) matches Some(m)
                && out[k].net == ip::key_of(m.ip, su.defaults.ipv6_prefix)
        } by {
            if k < rest.len() {
                assert(out[k] == rest[k]);
                assert(all[k] == before[k]);
            } else {
                assert(out[k] == d->0);
            }
        }
    } else {
        assert(to.take(0) =~= Seq::empty());
    }
}

/// A line is counted, gets one decision from every filter on its route that finds an
/// address in it that is not exempt, in order and on the network that the address is
/// tracked as, and brings housekeeping once a minute has passed since the last.
pub proof fn law_line_decisions(
    su: Setup,
    s: State,
    s2: State,
    line: Line,
    now: u32,
    out: Seq<Decision>,
)
    requires
        handled(su, s, s2, line, now, out),
    ensures
        s.lines < u64::MAX ==> s2.lines == s.lines + 1,
        s2.last_sweep == (if now >= s.last_sweep + 60 {
            now
        } else {
            s.last_sweep
        }),
        ({
            let struck = route(su, line.origin, su.defs.len() as int).filter(
                |f: u16| strikes(su, line, f),
            );
            &&& out.len() == struck.len()
            &&& forall|k: int|
                #![trigger out[k]]
                0 <= k < out.len() ==> {
                    &&& out[k].filter == struck[k]
                    &&& line_match(
                        su.defs[struck[k] as int],
                        line.text@,
                        line.origin is File,
                    ) matches Some(m) && out[k].net == ip::key_of(m.ip, su.defaults.ipv6_prefix)
                }
        }),
{
    let to = route(su, line.origin, su.defs.len() as int);
    let walk = choose|walk: State| #[trigger]
        swept(su, walk, s2, now) && walked(
            su,
            one_line_more(s),
            walk,
            to,
            to.len() as int,
            line,
            now,
            out,
        );
    lemma_walk_decisions(su, one_line_more(s), walk, to, to.len() as int, line, now, out);
    assert(to.take(to.len() as int) =~= to);
}

/// A ban by hand runs from now for its time, is asked of the backend and logged as made
/// by hand, and leaves hits and histories alone. Lifting a ban takes exactly that
/// network off the bans and off the record of every filter, and leaves the rest.
pub proof fn law_bans_by_hand(su: Setup, s: State, net: IpNet, ttl: u64, now: u32, key: TrackKey)
    ensures
        ({
            let b = after_manual_ban(s, net, ttl, now);
            let call = Call::Ban {
                bans: seq![Ban { net, ttl: Duration { secs: ttl } }],
                error: None,
            };
            &&& b.active.remove(net) == s.active.remove(net)
            &&& b.active.contains_key(net) && b.active[net].filter is None
            &&& b.active[net].until == (if now + ttl < u32::MAX {
                now + ttl
            } else {
                u32::MAX as int
            })
            &&& b.calls == s.calls.push(call)
            &&& b.hits == s.hits && b.history == s.history && b.matched == s.matched && b.banned
                == s.banned && b.lines == s.lines && b.last_sweep == s.last_sweep
            &&& s.bans_total < u64::MAX ==> b.bans_total == s.bans_total + 1
            &&& b.events.len() == s.events.len() + 1 && b.events.drop_last() == s.events
            &&& b.events.last() matches EventView::Ban { ts, net: n, ttl: t, manual, filter, .. }
                && ts == now && n == net && t == ttl && manual && filter == "manual"@
        }),
        ({
            let u = after_unban(su, s, net, now);
            &&& u.active == s.active.remove(net)
            &&& u.hits.contains_key(key) == (s.hits.contains_key(key) && !(key.net == net
                && key.filter < su.defs.len()))
            &&& u.hits.contains_key(key) ==> u.hits[key] == s.hits[key]
            &&& u.calls == s.calls.push(Call::Unban { nets: seq![net], error: None })
            &&& u.events == s.events.push(EventView::Unban { ts: now as u64, net, manual: true })
            &&& u.history == s.history && u.matched == s.matched && u.banned == s.banned && u.lines
                == s.lines && u.bans_total == s.bans_total && u.last_sweep == s.last_sweep
        }),
{
    let b = after_manual_ban(s, net, ttl, now);
    assert(b.active.remove(net) =~= s.active.remove(net));
    assert(b.events.drop_last() =~= s.events);
}

/// A start takes over every ban that the backend holds, for the time that it has left
/// (without end where that is not known), and keeps what it knew of other networks.
pub proof fn law_start_adopts(
    m: Map<IpNet, ActiveBan>,
    entries: Seq<Entry>,
    now: u32,
    net: IpNet,
)
    ensures
        (forall|i: int| 0 <= i < entries.len() ==> (#[trigger] entries[i]).net != net) ==> (
        adopted(m, entries, now).contains_key(net) == m.contains_key(net) && (m.contains_key(net)
            ==> adopted(m, entries, now)[net] == m[net])),
        forall|i: int|
            0 <= i < entries.len() && (#[trigger] entries[i]).net == net && (forall|j: int|
                i < j < entries.len() ==> (#[trigger] entries[j]).net != net) ==> {
                &&& adopted(m, entries, now).contains_key(net)
                &&& adopted(m, entries, now)[net].filter is None
                &&& adopted(m, entries, now)[net].until == (match entries[i].expires_in {
                    Some(d) if now + d.secs < u32::MAX => now + d.secs,
                    _ => u32::MAX as int,
                })
            },
    decreases entries.len(),
{
    if entries.len() > 0 {
        let u = entries.drop_last();
        law_start_adopts(m, u, now, net);
        assert(entries[entries.len() - 1] == entries.last());
        if entries.last().net != net {
            assert forall|i: int| 0 <= i < u.len() implies (#[trigger] u[i]).net
                == entries[i].net by {}
            if forall|i: int| 0 <= i < entries.len() ==> (#[trigger] entries[i]).net != net {
                assert forall|i: int| 0 <= i < u.len() implies (#[trigger] u[i]).net != net by {
                    assert(u[i] == entries[i]);
                }
            }
            assert forall|i: int|
                0 <= i < entries.len() && (#[trigger] entries[i]).net == net && (forall|j: int|
                    i < j < entries.len() ==> (#[trigger] entries[j]).net != net) implies {
                &&& adopted(m, entries, now).contains_key(net)
                &&& adopted(m, entries, now)[net].filter is None
                &&& adopted(m, entries, now)[net].until == (match entries[i].expires_in {
                    Some(d) if now + d.secs < u32::MAX => now + d.secs,
                    _ => u32::MAX as int,
                })
            } by {
                assert(u[i] == entries[i]);
                assert forall|j: int| i < j < u.len() implies (#[trigger] u[j]).net != net by {
                    assert(u[j] == entries[j]);
                }
            }
        }
    }
}

/// What a list of bans tells. Where the backend enumerates its bans, all of them, with
/// what it says of their time, and the mirror keeps exactly the networks among them;
/// otherwise the bans on the mirror that have not ended, with the time they have left.
/// The filter is that of the mirror's ban of the network.
pub proof fn law_list_tells(
    su: Setup,
    s: State,
    s2: State,
    nets: Seq<IpNet>,
    now: u32,
    got: Option<Seq<Entry>>,
    v: Seq<InfoView>,
    net: IpNet,
)
    requires
        lists(su, s, s2, nets, now, got, v),
        forall|n: IpNet| nets.contains(n) <==> #[trigger] s2.active.contains_key(n),
    ensures
        match got {
            Some(entries) => {
                &&& v.len() == entries.len()
                &&& s2.active.contains_key(net) == (s.active.contains_key(net) && exists|i: int|
                    0 <= i < entries.len() && (#[trigger] entries[i]).net == net)
                &&& forall|i: int|
                    0 <= i < entries.len() ==> v.contains(
                        InfoView {
                            net: (#[trigger] entries[i]).net,
                            expires_in: match entries[i].expires_in {
                                Some(d) => Some(d.secs),
                                None => None,
                            },
                            filter: if s.active.contains_key(entries[i].net) {
                                match s.active[entries[i].net].filter {
                                    Some(f) => Some(su.defs[f as int].name),
                                    None => None,
                                }
                            } else {
                                None
                            },
                        },
                    )
            },
            None => {
                &&& v.len() == nets.len()
                &&& s2.active.contains_key(net) == (s.active.contains_key(net)
                    && s.active[net].until > now)
                &&& forall|i: int|
                    0 <= i < nets.len() ==> (#[trigger] v[i]).net == nets[i] && v[i].expires_in
                        == Some((s.active[nets[i]].until - now) as u64) && v[i].filter == (
                    match s.active[nets[i]].filter {
                        Some(f) => Some(su.defs[f as int].name),
                        None => None,
                    })
            },
        },
        s2.active.contains_key(net) ==> s2.active[net] == s.active[net],
        s2.calls == s.calls && s2.events == s.events && s2.hits == s.hits && s2.history
            == s.history && s2.lines == s.lines && s2.bans_total == s.bans_total,
{
    match got {
        Some(entries) => {
            let all = listed_infos(su, s, entries);
            law_list_sorted(all);
            all.to_multiset_ensures();
            v.to_multiset_ensures();
            assert forall|i: int| 0 <= i < entries.len() implies v.contains(
                #[trigger] all[i],
            ) by {
                assert(all.contains(all[i]));
                assert(all.to_multiset().count(all[i]) > 0);
            }
            assert forall|i: int| 0 <= i < entries.len() implies v.contains(
                InfoView {
                    net: (#[trigger] entries[i]).net,
                    expires_in: match entries[i].expires_in {
                        Some(d) => Some(d.secs),
                        None => None,
                    },
                    filter: if s.active.contains_key(entries[i].net) {
                        match s.active[entries[i].net].filter {
                            Some(f) => Some(su.defs[f as int].name),
                            None => None,
                        }
                    } else {
                        None
                    },
                },
            ) by {
                assert(v.contains(all[i]));
            }
        },
        None => {
            assert forall|i: int| 0 <= i < nets.len() implies s2.active.contains_key(
                #[trigger] nets[i],
            ) by {
                assert(nets.contains(nets[i]));
            }
        },
    }
}

/// What the status tells, field by field.
pub proof fn law_status_tells(su: Setup, s: State, label: Seq<char>, uptime: u64, r: Status, i: int)
    requires
        reports(su, s, label, uptime, r),
        0 <= i < su.defs.len(),
    ensures
        r.version@ == "0.1.4"@,
        r.backend@ == label,
        r.uptime == uptime,
        r.tracking == s.hits.dom().len(),
        r.lines == s.lines,
        r.bans_total == s.bans_total,
        r.active_bans == s.active.dom().len(),
        r.filters@.len() == su.defs.len(),
        r.filters@[i].name@ == su.defs[i].name,
        texts(r.filters@[i].files@) == su.defs[i].files,
        r.filters@[i].journal == su.via[i],
        r.filters@[i].maxretry == su.policies[i].maxretry,
        r.filters@[i].findtime == su.policies[i].findtime.secs,
        r.filters@[i].bantime == su.policies[i].bantime.secs,
        r.filters@[i].matched == s.matched[i],
        r.filters@[i].banned == s.banned[i],
{
}

/// The journal is asked for exactly the units, identifiers and commands that the filters
/// that use it name.
pub proof fn law_journal_expressions(defs: Seq<DefView>, via: Seq<bool>, n: int, e: Seq<char>)
    ensures
        expressions_of(defs, via, n).contains(e) == exists|i: int|
            0 <= i < n && #[trigger] via[i] && ((exists|u: Seq<char>|
                #[trigger] defs[i].units.contains(u) && e == "_SYSTEMD_UNIT="@ + u) || (exists|
                u: Seq<char>,
            | #[trigger] defs[i].identifiers.contains(u) && e == "SYSLOG_IDENTIFIER="@ + u) || (
            exists|u: Seq<char>| #[trigger] defs[i].comm.contains(u) && e == "_COMM="@ + u)),
    decreases n,
{
    if n > 0 {
        law_journal_expressions(defs, via, n - 1, e);
        let d = defs[n - 1];
        let a = prefixed("_SYSTEMD_UNIT="@, d.units);
        let b = prefixed("SYSLOG_IDENTIFIER="@, d.identifiers);
        let c = prefixed("_COMM="@, d.comm);
        lemma_prefixed("_SYSTEMD_UNIT="@, d.units, e);
        lemma_prefixed("SYSLOG_IDENTIFIER="@, d.identifiers, e);
        lemma_prefixed("_COMM="@, d.comm, e);
        let all = def_expressions(d);
        assert(all =~= a + b + c);
        assert(all.contains(e) == (a.contains(e) || b.contains(e) || c.contains(e))) by {
            lemma_concat_contains(a, b, e);
            lemma_concat_contains(a + b, c, e);
        }
        assert(via[n - 1] == via[n - 1]);
    }
}

proof fn lemma_concat_contains<T>(a: Seq<T>, b: Seq<T>, x: T)
    ensures
        (a + b).contains(x) == (a.contains(x) || b.contains(x)),
{
    if (a + b).contains(x) {
        let i = choose|i: int| 0 <= i < (a + b).len() && (a + b)[i] == x;
        if i < a.len() {
            assert(a[i] == x);
        } else {
            assert(b[i - a.len()] == x);
        }
    }
    if a.contains(x) {
        let i = choose|i: int| 0 <= i < a.len() && a[i] == x;
        assert((a + b)[i] == x);
    }
    if b.contains(x) {
        let i = choose|i: int| 0 <= i < b.len() && b[i] == x;
        assert((a + b)[i + a.len()] == x);
    }
}

proof fn lemma_prefixed(prefix: Seq<char>, v: Seq<Seq<char>>, e: Seq<char>)
    ensures
        prefixed(prefix, v).contains(e) == exists|u: Seq<char>|
            #[trigger] v.contains(u) && e == prefix + u,
{
    let all = prefixed(prefix, v);
    if all.contains(e) {
        let i = choose|i: int| 0 <= i < all.len() && all[i] == e;
        assert(v.contains(v[i]));
    }
    if exists|u: Seq<char>| #[trigger] v.contains(u) && e == prefix + u {
        let u = choose|u: Seq<char>| #[trigger] v.contains(u) && e == prefix + u;
        let i = choose|i: int| 0 <= i < v.len() && v[i] == u;
        assert(all[i] == e);
    }
}

/// What an engine was made with and keeps, read off its fields.
pub proof fn law_state_tells_all<F: Firewall>(e: Engine<F>, i: int)
    requires
        0 <= i < e.filters@.len(),
    ensures
        ({
            let su = e.setup();
            let s = e.state();
            &&& su.defaults == e.cfg.defaults && su.allow == e.allow@ && su.max == e.tracker.max()
            &&& su.defs.len() == e.filters@.len() && su.policies.len() == e.filters@.len()
                && su.via.len() == e.filters@.len()
            &&& su.defs[i] == e.filters@[i].filter.def@ && su.policies[i] == e.filters@[i].policy
                && su.via[i] == e.filters@[i].via_journal
            &&& s.matched.len() == e.filters@.len() && s.banned.len() == e.filters@.len()
            &&& s.matched[i] == e.filters@[i].matched && s.banned[i] == e.filters@[i].banned
            &&& s.hits == e.tracker@ && s.history == e.history@ && s.active == e.active@
            &&& s.calls == e.backend.inner.asked()
            &&& s.lines == e.lines && s.bans_total == e.bans_total && s.last_sweep == e.last_sweep
            &&& s.events.len() == e.events@.len()
            &&& forall|k: int|
                0 <= k < e.events@.len() ==> #[trigger] s.events[k] == e.events@[k]@
        }),
{
}

/// A ban in a list tells all of its fields as values.
pub proof fn law_infos_tell_all(b: BanInfo, v: Seq<BanInfo>, i: int)
    requires
        0 <= i < v.len(),
    ensures
        b@.net == b.net && b@.expires_in == b.expires_in,
        b@.filter == (match b.filter {
            Some(f) => Some(f@),
            None => None,
        }),
        infos(v).len() == v.len() && infos(v)[i] == v[i]@,
{
}

/// A filter cannot be loaded where its definition cannot be had or is refused, and the
/// reason is told in the words of that.
pub proof fn law_load_faults(cfg: Config, name: Seq<char>, src: DefSource)
    ensures
        load_fault(cfg, name, src) == (match resolved(cfg, name, src.custom, src.builtin) {
            Err(e) => Some(e),
            Ok(def) => match refusal(def) {
                Some(e) => Some(e.text()),
                None => None,
            },
        }),
{
}

/// A request at which the backend failed leaves nothing behind but the request.
pub proof fn law_failures_change_nothing(s: State, net: IpNet, ttl: u64, error: Seq<char>)
    ensures
        ({
            let b = asked_ban(s, net, ttl, error);
            let u = asked_unban(s, net, error);
            let l = asked_list(s, Err(error));
            &&& b.calls == s.calls.push(
                Call::Ban {
                    bans: seq![Ban { net, ttl: Duration { secs: ttl } }],
                    error: Some(error),
                },
            )
            &&& u.calls == s.calls.push(Call::Unban { nets: seq![net], error: Some(error) })
            &&& l.calls == s.calls.push(Call::List { got: Err(error) })
            &&& b.active == s.active && u.active == s.active && l.active == s.active
            &&& b.hits == s.hits && u.hits == s.hits && l.hits == s.hits
            &&& b.history == s.history && u.history == s.history && l.history == s.history
            &&& b.events == s.events && u.events == s.events && l.events == s.events
            &&& b.bans_total == s.bans_total && u.bans_total == s.bans_total && l.bans_total
                == s.bans_total
            &&& b.lines == s.lines && u.lines == s.lines && l.lines == s.lines
            &&& b.matched == s.matched && u.matched == s.matched && l.matched == s.matched
            &&& b.banned == s.banned && u.banned == s.banned && l.banned == s.banned
            &&& b.last_sweep == s.last_sweep && u.last_sweep == s.last_sweep && l.last_sweep
                == s.last_sweep
        }),
{
}

/// A look at the mirror, where the backend is not asked, drops exactly the bans that
/// have ended.
pub proof fn law_looks_drop_what_ended(s: State, now: u32, net: IpNet)
    ensures
        ({
            let a = after_list(s, None, now);
            &&& a.active.contains_key(net) == (s.active.contains_key(net) && s.active[net].until
                > now)
            &&& a.active.contains_key(net) ==> a.active[net] == s.active[net]
            &&& a.hits == s.hits && a.history == s.history && a.events == s.events && a.calls
                == s.calls && a.lines == s.lines && a.bans_total == s.bans_total && a.matched
                == s.matched && a.banned == s.banned && a.last_sweep == s.last_sweep
        }),
{
}

/// A list that was asked of the backend follows one of its answers, which is on record.
pub proof fn law_lists_follow_an_answer(
    su: Setup,
    s: State,
    s2: State,
    nets: Seq<IpNet>,
    now: u32,
    v: Seq<InfoView>,
)
    requires
        lists_for_some(su, s, s2, nets, now, v),
    ensures
        s2.calls.len() == s.calls.len() + 1,
        s2.calls.drop_last() == s.calls,
        s2.calls.last() matches Call::List { got } && (got matches Ok(g) && lists(
            su,
            State { calls: s2.calls, ..s },
            s2,
            nets,
            now,
            g,
            v,
        )),
{
    let got = choose|got: Option<Seq<Entry>>| #[trigger]
        lists(su, asked_list(s, Ok(got)), s2, nets, now, got, v);
    assert(s2.calls.drop_last() =~= s.calls);
    assert(State { calls: s2.calls, ..s } == asked_list(s, Ok(got)));
}

/// Whatever an engine does, it stays in order and keeps what it was made with.
pub proof fn law_engine_keeps_its_setup<F: Firewall>(e: Engine<F>, o: Engine<F>)
    requires
        e.goes_on(&o),
    ensures
        e.wf(),
        e.cfg == o.cfg,
        e.allow@ == o.allow@,
        e.tracker.max() == o.tracker.max(),
        e.backend.label == o.backend.label,
        e.routes_file == o.routes_file,
        e.filters@.len() == o.filters@.len(),
        forall|i: int|
            0 <= i < e.filters@.len() ==> (#[trigger] e.filters@[i]).policy == o.filters@[i].policy
                && e.filters@[i].via_journal == o.filters@[i].via_journal
                && e.filters@[i].filter.def@ == o.filters@[i].filter.def@,
{
    assert(e.setup().allow == o.setup().allow);
    assert forall|i: int| 0 <= i < e.filters@.len() implies (#[trigger] e.filters@[i]).policy
        == o.filters@[i].policy && e.filters@[i].via_journal == o.filters@[i].via_journal
        && e.filters@[i].filter.def@ == o.filters@[i].filter.def@ by {
        assert(e.setup().policies[i] == o.setup().policies[i]);
        assert(e.setup().via[i] == o.setup().via[i]);
        assert(e.setup().defs[i] == o.setup().defs[i]);
    }
}

/// What is loaded for an enabled filter is its definition, compiled; what it cannot be
/// loaded for is the fault of that filter.
pub proof fn law_loaded_filters(
    cfg: Config,
    sources: Seq<DefSource>,
    i: int,
    f: CompiledFilter,
    def: DefView,
)
    ensures
        loads_as(cfg, sources, i, f) ==> f.wf() && resolved(
            cfg,
            cfg.enabled_names()[i],
            sources[i].custom,
            sources[i].builtin,
        ) == Ok::<DefView, Seq<char>>(f.def@),
        fault_at(cfg, sources, i) == load_fault(cfg, cfg.enabled_names()[i], sources[i]),
        (compile_fault(def) is None) == (refusal(def) is None),
        refusal(def) matches Some(e) ==> compile_fault(def) == Some(e.text()),
{
}

/// How refusals to ban read, and errors of the backend.
pub proof fn law_engine_errors_read(net: IpNet, e: String)
    ensures
        (EngineError::Refused { net }).text() == ip::net_text(net)
            + " is on the allow list (or local); refusing to ban"@,
        (EngineError::Backend { error: e }).text() == e@,
{
}

/// A file that a filter names more than once brings it every line as often.
pub proof fn law_files_named_twice(su: Setup, path: String, n: int, i: int)
    requires
        0 <= i < n <= 65536,
        !su.via[i],
    ensures
        route(su, Origin::File(path), n).filter(|x: u16| x == i).len() == su.defs[i].files.filter(
            |f: Seq<char>| f == path@,
        ).len(),
    decreases n,
{
    let o = Origin::File(path);
    let p = |x: u16| x == i;
    let before = route(su, o, n - 1);
    let more = route_of(su.defs[n - 1].files, path@, (n - 1) as u16);
    lemma_route_of(su.defs[n - 1].files, path@, (n - 1) as u16);
    lemma_route_bound(su, o, n - 1);
    let all = route(su, o, n);
    assert(all == if su.via[n - 1] { before } else { before + more });
    Seq::filter_distributes_over_add(before, more, p);
    if i < n - 1 {
        law_files_named_twice(su, path, n - 1, i);
        lemma_filter_none(more, p);
        assert(before.filter(p) + more.filter(p) =~= before.filter(p));
    } else {
        lemma_filter_none(before, p);
        let q = |f: Seq<char>| f == path@;
        lemma_route_of_count(su.defs[i].files, path@, i as u16, q);
        lemma_filter_all(more, p);
        assert(before.filter(p) + more.filter(p) =~= more);
        assert(all.filter(p) == more);
        assert(more.len() == su.defs[i].files.filter(q).len());
    }
}

proof fn lemma_filter_none<T>(s: Seq<T>, p: spec_fn(T) -> bool)
    requires
        forall|j: int| 0 <= j < s.len() ==> !p(#[trigger] s[j]),
    ensures
        s.filter(p) == Seq::<T>::empty(),
    decreases s.len(),
{
    reveal(Seq::filter);
    if s.len() > 0 {
        assert(!p(s[s.len() - 1]));
        assert forall|j: int| 0 <= j < s.len() - 1 implies !p(#[trigger] s.drop_last()[j]) by {
            assert(s.drop_last()[j] == s[j]);
        }
        lemma_filter_none(s.drop_last(), p);
    } else {
        assert(s =~= Seq::<T>::empty());
    }
}

proof fn lemma_filter_all<T>(s: Seq<T>, p: spec_fn(T) -> bool)
    requires
        forall|j: int| 0 <= j < s.len() ==> p(#[trigger] s[j]),
    ensures
        s.filter(p) == s,
    decreases s.len(),
{
    reveal(Seq::filter);
    if s.len() > 0 {
        assert(p(s[s.len() - 1]));
        assert forall|j: int| 0 <= j < s.len() - 1 implies p(#[trigger] s.drop_last()[j]) by {
            assert(s.drop_last()[j] == s[j]);
        }
        lemma_filter_all(s.drop_last(), p);
        assert(s.drop_last().push(s.last()) =~= s);
    }
}

proof fn lemma_route_of_count(
    files: Seq<Seq<char>>,
    path: Seq<char>,
    idx: u16,
    q: spec_fn(Seq<char>) -> bool,
)
    requires
        forall|f: Seq<char>| #[trigger] q(f) == (f == path),
    ensures
        route_of(files, path, idx).len() == files.filter(q).len(),
    decreases files.len(),
{
    reveal(Seq::filter);
    if files.len() > 0 {
        lemma_route_of_count(files.drop_last(), path, idx, q);
    }
}

/// The filters on a line's route take it one after the other: each one that finds an
/// address records a hit on what the ones before it left, and the others leave it.
/// Returned are the state before the last filter, its decision, and those before it.
pub proof fn law_filters_take_turns(
    su: Setup,
    s: State,
    s2: State,
    to: Seq<u16>,
    n: int,
    line: Line,
    now: u32,
    out: Seq<Decision>,
) -> (r: (State, Option<Decision>, Seq<Decision>))
    requires
        0 < n <= to.len(),
        walked(su, s, s2, to, n, line, now, out),
    ensures
        walked(su, s, r.0, to, n - 1, line, now, r.2),
        match r.1 {
            Some(x) => out == r.2.push(x),
            None => out == r.2,
        },
        match line_match(su.defs[to[n - 1] as int], line.text@, line.origin is File) {
            Some(m) => recorded(su, r.0, s2, to[n - 1], m.ip, now, r.1),
            None => s2 == r.0 && r.1 is None,
        },
{
    let m = line_match(su.defs[to[n - 1] as int], line.text@, line.origin is File);
    let (mid, d) = choose|mid: State, d: Option<Decision>| #[trigger]
        stepped(su, mid, s2, to[n - 1], m, now, d) && match d {
            Some(x) => out.len() > 0 && out.last() == x && walked(
                su,
                s,
                mid,
                to,
                n - 1,
                line,
                now,
                out.drop_last(),
            ),
            None => walked(su, s, mid, to, n - 1, line, now, out),
        };
    let rest = match d {
        Some(x) => out.drop_last(),
        None => out,
    };
    if let Some(x) = d {
        assert(out =~= rest.push(x));
    }
    (mid, d, rest)
}

/// How often a network was banned, and when last, according to the log: the number of
/// its automatic bans since the memory starts, and the time of the last of them.
pub proof fn law_history_from_log(past: Seq<EventView>, net: IpNet, cutoff: u64, su: Setup, now: u32)
    ensures
        memory_start(su, now) == (if now > su.defaults.escalate.memory.0.secs {
            now - su.defaults.escalate.memory.0.secs
        } else {
            0
        }),
        ({
            let told = past.filter(
                |e: EventView|
                    e matches EventView::Ban { ts, net: n, manual, .. } && n == net && !manual && ts
                        >= cutoff,
            );
            &&& automatic_bans(past, net, cutoff) == told.len()
            &&& replayed(Map::empty(), past, cutoff).contains_key(net) == (told.len() > 0)
            &&& told.len() > 0 ==> replayed(Map::empty(), past, cutoff)[net].last == (
            if told.last()->Ban_ts < u32::MAX {
                told.last()->Ban_ts
            } else {
                u32::MAX as u64
            })
            &&& told.len() > 0 ==> replayed(Map::empty(), past, cutoff)[net].count == (
            if told.len() < u32::MAX {
                told.len()
            } else {
                u32::MAX as nat
            })
        }),
    decreases past.len(),
{
    reveal(Seq::filter);
    if past.len() > 0 {
        law_history_from_log(past.drop_last(), net, cutoff, su, now);
    }
}

} // verus!
