//! `minsec-sync report`: normalize automatic bans to the wire rules, and cut them into
//! batches.
//!
//! Sequence numbers: the server requires a strictly increasing `seq` per
//! agent and treats `seq <= last_seq` as an idempotent duplicate. We use
//! `max(stored next_seq, unix time)` so seq survives a lost or restored
//! state file without help from the server. If the server still reports a
//! duplicate (clock rollback), we jump a day ahead and retry once:
//! re-sending events is harmless (server-side votes are deduplicated per
//! reporter), losing them is not.

use vstd::arithmetic::power2::pow2;
use vstd::prelude::*;
use vstd::string::*;

use crate::foreign;
use crate::ip;
use crate::ip::{IpAddr, IpNet};
use crate::proto::types::{reports_of, Report, ReportBatch, ReportResponse, ReportView};
use crate::proto::MAX_BATCH_ITEMS;
use crate::sync::events::{BanEvent, BanView};
use crate::sync::state::{Cursor, State};
use crate::text;
use crate::text::decimal;

verus! {

/// Events older than this are dropped client-side; the server rejects at
/// 24 h and we leave an hour of margin.
pub const MAX_EVENT_AGE: u64 = 82800;

/// How far ahead of the clock an event may be.
pub const MAX_SKEW: u64 = 60;

pub const SEQ_JUMP: u64 = 86400;

pub const AGENT_VERSION: &'static str = "minsec-sync/0.1.4";

pub const MAX_FILTER_CHARS: usize = 64;

/// A character that filter names may have.
pub open spec fn filter_char(c: char) -> bool {
    'a' <= c <= 'z' || '0' <= c <= '9' || c == '.' || c == '_' || c == '-'
}

/// A filter name that the server takes.
pub open spec fn filter_ok(name: Seq<char>) -> bool {
    &&& 1 <= name.len() <= MAX_FILTER_CHARS
    &&& forall|i: int| 0 <= i < name.len() ==> filter_char(#[trigger] name[i])
}

pub fn valid_filter(name: &str) -> (r: bool)
    ensures
        r == filter_ok(name@),
{
    let v = text::chars(name);
    if v.len() == 0 || v.len() > MAX_FILTER_CHARS {
        return false;
    }
    let mut i: usize = 0;
    while i < v.len()
        invariant
            i <= v@.len(),
            v@ == name@,
            forall|j: int| 0 <= j < i ==> filter_char(#[trigger] name@[j]),
        decreases v@.len() - i,
    {
        let c = v[i];
        let ok: bool = ('a' <= c && c <= 'z') || ('0' <= c && c <= '9') || c == '.' || c == '_' || c
            == '-';
        if !ok {
            assert(!filter_char(name@[i as int]));
            return false;
        }
        i += 1;
    }
    true
}

/// A number of 64 bits read as a signed one.
pub open spec fn as_signed(n: u64) -> i64 {
    if n <= i64::MAX {
        n as i64
    } else {
        (n - 0x1_0000_0000_0000_0000) as i64
    }
}

/// `as_signed`.
fn to_signed(n: u64) -> (r: i64)
    ensures
        r == as_signed(n),
{
    if n <= 0x7fff_ffff_ffff_ffff {
        n as i64
    } else {
        -((u64::MAX - n) as i64) - 1
    }
}

/// The network that is reported for a ban: nothing wider than the server takes, and
/// nothing narrower than a /64 for IPv6, where attackers rotate within allocations.
pub open spec fn report_net(n: IpNet) -> Option<IpNet> {
    match n.addr {
        IpAddr::V4(_) => if n.prefix < 24 {
            None
        } else {
            Some(n.truncated())
        },
        IpAddr::V6(_) => if n.prefix < 48 {
            None
        } else if n.prefix > 64 {
            Some(IpNet { addr: n.addr, prefix: 64 }.truncated())
        } else {
            Some(n.truncated())
        },
    }
}

/// `report_net`.
pub fn normalize_net(n: IpNet) -> (r: Option<IpNet>)
    requires
        n.wf(),
    ensures
        r == report_net(n),
        r matches Some(m) ==> m.wf(),
{
    match n.addr {
        IpAddr::V4(_) => if n.prefix < 24 {
            None
        } else {
            Some(n.trunc())
        },
        IpAddr::V6(_) => if n.prefix < 48 {
            None
        } else if n.prefix > 64 {
            let wide = IpNet { addr: n.addr, prefix: 64 };
            Some(wide.trunc())
        } else {
            Some(n.trunc())
        },
    }
}

/// Whether an event is of the kind and the age that is reported.
pub open spec fn is_recent(ev: BanView, now: u64) -> bool {
    !ev.manual && ev.ts + MAX_EVENT_AGE >= now && ev.ts <= now + MAX_SKEW
}

/// The report of an event whose network reads as `net`.
pub open spec fn report_of(ev: BanView, net: Option<IpNet>, now: u64) -> Option<ReportView> {
    if !is_recent(ev, now) || !filter_ok(ev.filter) {
        None
    } else {
        match net {
            None => None,
            Some(n) => match report_net(n) {
                None => None,
                Some(m) => Some(
                    ReportView {
                        ts: as_signed(ev.ts),
                        ip: ip::net_text(m),
                        filter: ev.filter,
                        count: if ev.hits > 1 {
                            ev.hits as i64
                        } else {
                            1
                        },
                        ban_ttl: as_signed(ev.ttl),
                        escalation: ev.escalation,
                    },
                ),
            },
        }
    }
}

/// A report that may be absent, as values.
pub open spec fn shown(r: Option<Report>) -> Option<ReportView> {
    match r {
        Some(r) => Some(r@),
        None => None,
    }
}

/// The report of an event whose network reads as `net`.
pub fn build_report(ev: &BanEvent, net: Option<IpNet>, now: u64) -> (r: Option<Report>)
    requires
        net matches Some(n) ==> n.wf(),
    ensures
        shown(r) == report_of(ev@, net, now),
{
    if ev.manual || (now > ev.ts && now - ev.ts > MAX_EVENT_AGE) || (ev.ts > now && ev.ts - now
        > MAX_SKEW) {
        return None;
    }
    let net = match net {
        Some(n) => n,
        None => {
            return None;
        },
    };
    let net = match normalize_net(net) {
        Some(n) => n,
        None => {
            return None;
        },
    };
    if !valid_filter(ev.filter.as_str()) {
        return None;
    }
    let count: i64 = if ev.hits > 1 {
        ev.hits as i64
    } else {
        1
    };
    Some(
        Report {
            ts: to_signed(ev.ts),
            ip: net.to_text(),
            filter: ev.filter.clone(),
            count,
            ban_ttl: to_signed(ev.ttl),
            escalation: ev.escalation,
        },
    )
}

/// Normalize one ban event to a wire report, or None if it is not
/// reportable.
pub fn to_report(ev: &BanEvent, now: u64) -> (r: Option<Report>)
    ensures
        shown(r) == report_of(ev@, foreign::net_of_text(ev.net@), now),
{
    let net = foreign::parse_net(ev.net.as_str());
    build_report(ev, net, now)
}

/// The reports of the events, in order.
pub open spec fn reports_for(bans: Seq<BanView>, now: u64) -> Seq<ReportView>
    decreases bans.len(),
{
    if bans.len() == 0 {
        Seq::empty()
    } else {
        let b = bans.last();
        match report_of(b, foreign::net_of_text(b.net), now) {
            Some(r) => reports_for(bans.drop_last(), now).push(r),
            None => reports_for(bans.drop_last(), now),
        }
    }
}

/// The events as values.
pub open spec fn bans_of(v: Seq<BanEvent>) -> Seq<BanView> {
    v.map_values(|b: BanEvent| b@)
}

/// The reports of the events, and how many events are not reported.
pub fn collect(bans: &Vec<BanEvent>, now: u64) -> (r: (Vec<Report>, usize))
    ensures
        reports_of(r.0@) == reports_for(bans_of(bans@), now),
        r.1 == bans@.len() - r.0@.len(),
{
    let ghost all = bans_of(bans@);
    let mut out: Vec<Report> = Vec::new();
    let mut i: usize = 0;
    assert(all.take(0) =~= Seq::empty());
    assert(reports_of(out@) =~= Seq::empty());
    while i < bans.len()
        invariant
            i <= bans@.len(),
            all == bans_of(bans@),
            reports_of(out@) == reports_for(all.take(i as int), now),
            out@.len() <= i,
        decreases bans@.len() - i,
    {
        assert(all.take(i + 1).drop_last() =~= all.take(i as int));
        assert(all.take(i + 1).last() == bans@[i as int]@);
        let ghost before = out@;
        if let Some(r) = to_report(&bans[i], now) {
            out.push(r);
            assert(reports_of(out@) =~= reports_of(before).push(r@));
        }
        i += 1;
    }
    assert(all.take(i as int) =~= all);
    let skipped: usize = bans.len() - out.len();
    (out, skipped)
}

/// A sum that stays at the largest value.
pub open spec fn sum(a: u64, b: u64) -> u64 {
    if a + b > u64::MAX {
        u64::MAX
    } else {
        (a + b) as u64
    }
}

/// The sequence number of a batch.
pub open spec fn batch_seq(next_seq: u64, now: u64) -> u64 {
    if next_seq > now {
        next_seq
    } else {
        now
    }
}

/// The reports of the batch that starts at `from`.
pub open spec fn batch_of(all: Seq<ReportView>, from: int) -> Seq<ReportView> {
    if all.len() - from <= MAX_BATCH_ITEMS {
        all.skip(from)
    } else {
        all.subrange(from, from + MAX_BATCH_ITEMS)
    }
}

/// The batch that starts at report `from`.
pub fn next_batch(reports: &Vec<Report>, from: usize, next_seq: u64, now: u64) -> (r: ReportBatch)
    requires
        from < reports@.len(),
    ensures
        r.seq == batch_seq(next_seq, now),
        r.agent_version@ == AGENT_VERSION@,
        reports_of(r.reports@) == batch_of(reports_of(reports@), from as int),
        1 <= r.reports@.len() <= MAX_BATCH_ITEMS,
{
    let to: usize = if reports.len() - from <= MAX_BATCH_ITEMS {
        reports.len()
    } else {
        from + MAX_BATCH_ITEMS
    };
    let ghost all = reports_of(reports@);
    let mut chunk: Vec<Report> = Vec::new();
    let mut i: usize = from;
    assert(reports_of(chunk@) =~= all.subrange(from as int, from as int));
    while i < to
        invariant
            from <= i <= to <= reports@.len(),
            all == reports_of(reports@),
            chunk@.len() == i - from,
            reports_of(chunk@) == all.subrange(from as int, i as int),
        decreases to - i,
    {
        let ghost before = chunk@;
        let r = reports[i].copy();
        chunk.push(r);
        assert(reports_of(chunk@) =~= reports_of(before).push(r@));
        assert(all.subrange(from as int, i + 1) =~= all.subrange(from as int, i as int).push(
            all[i as int],
        ));
        i += 1;
    }
    assert(all.subrange(from as int, to as int) =~= batch_of(all, from as int));
    let seq: u64 = if next_seq > now {
        next_seq
    } else {
        now
    };
    ReportBatch { seq, agent_version: AGENT_VERSION.to_owned(), reports: chunk }
}

/// What to do after a reply.
#[derive(Debug, Clone, Copy, PartialEq, Eq, Structural)]
pub enum Reply {
    /// The batch was taken; the next one may not use a smaller number.
    Taken { next_seq: u64 },
    /// Send it once more, under this number.
    Retry { seq: u64 },
    /// The server takes no number of ours.
    Refused,
}

/// What to do after the reply to a batch with number `seq`, sent for the first time or
/// not.
pub fn after_reply(seq: u64, resp: &ReportResponse, retried: bool) -> (r: Reply)
    ensures
        r == (if !resp.duplicate {
            Reply::Taken { next_seq: sum(seq, 1) }
        } else if !retried {
            Reply::Retry { seq: sum(seq, SEQ_JUMP) }
        } else {
            Reply::Refused
        }),
{
    if !resp.duplicate {
        Reply::Taken { next_seq: seq.saturating_add(1) }
    } else if !retried {
        Reply::Retry { seq: seq.saturating_add(SEQ_JUMP) }
    } else {
        Reply::Refused
    }
}

/// What is said when the server takes no number of ours.
pub const REFUSED: &'static str =
    "server rejects our sequence numbers as duplicates; will retry next run";

/// What became of the reports.
#[derive(Debug, Clone, Copy, PartialEq, Eq, Structural)]
pub struct Outcome {
    pub sent: usize,
    pub skipped: usize,
    pub accepted: u64,
    pub rejected: u64,
}

impl Outcome {
    pub fn new(sent: usize, skipped: usize) -> (r: Self)
        ensures
            r.sent == sent,
            r.skipped == skipped,
            r.accepted == 0,
            r.rejected == 0,
    {
        Outcome { sent, skipped, accepted: 0, rejected: 0 }
    }

    /// Counts a reply.
    pub fn count(&mut self, resp: &ReportResponse)
        ensures
            final(self).sent == old(self).sent,
            final(self).skipped == old(self).skipped,
            final(self).accepted == sum(old(self).accepted, resp.accepted),
            final(self).rejected == sum(old(self).rejected, resp.rejected),
    {
        self.accepted = self.accepted.saturating_add(resp.accepted);
        self.rejected = self.rejected.saturating_add(resp.rejected);
    }
}

/// The reports of one run, how many of them the server has taken, and the batch that
/// is on its way.
pub struct Run {
    pub reports: Vec<Report>,
    pub taken: usize,
    pub pending: usize,
    pub seq: u64,
    pub retried: bool,
    /// Where the events log has been read to.
    pub cursor: Cursor,
    pub out: Outcome,
}

/// What a run does next.
#[derive(Debug, Clone)]
pub enum Step {
    /// Send a batch; `save` says whether the state changed and has to be saved first.
    Send { batch: ReportBatch, save: bool },
    /// Save the state: all is sent.
    Done,
    /// The server takes no number of ours.
    Refused,
}

impl Run {
    /// The batch that is on its way starts behind what was taken.
    pub open spec fn wf(&self) -> bool {
        &&& self.taken + self.pending <= self.reports@.len()
        &&& self.pending == batch_of(reports_of(self.reports@), self.taken as int).len()
        &&& self.taken < self.reports@.len()
    }

    /// Whether a step sends the batch that is on its way.
    pub open spec fn sends(&self, step: Step, save: bool) -> bool {
        step matches Step::Send { batch, save: s } && s == save && batch.seq == self.seq
            && batch.agent_version@ == AGENT_VERSION@ && reports_of(batch.reports@) == batch_of(
            reports_of(self.reports@),
            self.taken as int,
        )
    }

    /// Starts a run: with nothing to report, the cursor still moves past skipped and
    /// old events; otherwise it stays where it is until every batch was taken.
    pub fn begin(state: &mut State, bans: &Vec<BanEvent>, cursor: Cursor, now: u64) -> (r: (
        Run,
        Step,
    ))
        requires
            old(state).wf(),
        ensures
            final(state).wf(),
            final(state).host_id == old(state).host_id,
            final(state).next_seq == old(state).next_seq,
            final(state).feeds == old(state).feeds,
            final(state).min_report_interval == old(state).min_report_interval,
            final(state).last_pull_ok == old(state).last_pull_ok,
            reports_of(r.0.reports@) == reports_for(bans_of(bans@), now),
            r.0.taken == 0,
            r.0.cursor == cursor,
            r.0.out.sent == r.0.reports@.len(),
            r.0.out.skipped == bans@.len() - r.0.reports@.len(),
            r.0.out.accepted == 0,
            r.0.out.rejected == 0,
            r.0.reports@.len() == 0 ==> r.1 is Done && final(state).cursor == Some(cursor),
            r.0.reports@.len() > 0 ==> r.0.wf() && !r.0.retried && r.0.seq == batch_seq(
                old(state).next_seq,
                now,
            ) && r.0.sends(r.1, false) && final(state).cursor == old(state).cursor,
    {
        let (reports, skipped) = collect(bans, now);
        let out = Outcome::new(reports.len(), skipped);
        if reports.len() == 0 {
            state.cursor = Some(cursor);
            let run = Run { reports, taken: 0, pending: 0, seq: 0, retried: false, cursor, out };
            return (run, Step::Done);
        }
        let batch = next_batch(&reports, 0, state.next_seq, now);
        let seq: u64 = batch.seq;
        let pending: usize = batch.reports.len();
        assert(reports_of(batch.reports@).len() == pending);
        (
            Run { reports, taken: 0, pending, seq, retried: false, cursor, out },
            Step::Send { batch, save: false },
        )
    }

    /// Takes in the reply to the batch that is on its way. A batch that was taken
    /// spends its number for good, and the cursor moves once all of them were; a
    /// duplicate is sent once more under a number a day ahead.
    pub fn reply(&mut self, state: &mut State, resp: &ReportResponse, now: u64) -> (r: Step)
        requires
            old(self).wf(),
            old(state).wf(),
        ensures
            final(state).wf(),
            final(self).reports == old(self).reports,
            final(self).cursor == old(self).cursor,
            final(state).host_id == old(state).host_id,
            final(state).feeds == old(state).feeds,
            final(state).min_report_interval == old(state).min_report_interval,
            final(state).last_pull_ok == old(state).last_pull_ok,
            if resp.duplicate {
                &&& *final(state) == *old(state)
                &&& final(self).taken == old(self).taken
                &&& final(self).out == old(self).out
                &&& if old(self).retried {
                    r is Refused
                } else {
                    &&& final(self).wf()
                    &&& final(self).retried
                    &&& final(self).seq == sum(old(self).seq, SEQ_JUMP)
                    &&& final(self).sends(r, false)
                }
            } else {
                &&& final(state).next_seq == sum(old(self).seq, 1)
                &&& final(self).taken == old(self).taken + old(self).pending
                &&& final(self).out.sent == old(self).out.sent
                &&& final(self).out.skipped == old(self).out.skipped
                &&& final(self).out.accepted == sum(old(self).out.accepted, resp.accepted)
                &&& final(self).out.rejected == sum(old(self).out.rejected, resp.rejected)
                &&& if final(self).taken == old(self).reports@.len() {
                    r is Done && final(state).cursor == Some(old(self).cursor)
                } else {
                    &&& final(self).wf()
                    &&& !final(self).retried
                    &&& final(self).seq == batch_seq(sum(old(self).seq, 1), now)
                    &&& final(self).sends(r, true)
                    &&& final(state).cursor == old(state).cursor
                }
            },
    {
        match after_reply(self.seq, resp, self.retried) {
            Reply::Refused => Step::Refused,
            Reply::Retry { seq } => {
                self.seq = seq;
                self.retried = true;
                let mut batch = next_batch(&self.reports, self.taken, seq, 0);
                batch.seq = seq;
                Step::Send { batch, save: false }
            },
            Reply::Taken { next_seq } => {
                state.next_seq = next_seq;
                self.out.count(resp);
                let all: usize = self.reports.len();
                self.taken = self.taken + self.pending;
                if self.taken == all {
                    state.cursor = Some(self.cursor);
                    return Step::Done;
                }
                let batch = next_batch(&self.reports, self.taken, next_seq, now);
                self.seq = batch.seq;
                self.pending = batch.reports.len();
                self.retried = false;
                assert(reports_of(batch.reports@).len() == self.pending);
                Step::Send { batch, save: true }
            },
        }
    }
}

/// How an outcome reads, with the number of skipped events or without.
pub fn describe(o: &Outcome, skipped: bool) -> (r: String)
    ensures
        r@ == "reported "@ + decimal(o.sent as nat) + " events ("@ + decimal(o.accepted as nat)
            + " accepted, "@ + decimal(o.rejected as nat) + " rejected"@ + (if skipped {
            ", "@ + decimal(o.skipped as nat) + " skipped)"@
        } else {
            ")"@
        }),
{
    let mut s = "reported ".to_owned();
    text::push_decimal(&mut s, o.sent as u64);
    s.append(" events (");
    text::push_decimal(&mut s, o.accepted);
    s.append(" accepted, ");
    text::push_decimal(&mut s, o.rejected);
    s.append(" rejected");
    let ghost head = s@;
    if skipped {
        s.append(", ");
        text::push_decimal(&mut s, o.skipped as u64);
        s.append(" skipped)");
        assert(s@ =~= head + (", "@ + decimal(o.skipped as nat) + " skipped)"@));
    } else {
        s.append(")");
    }
    s
}

/// Sequence numbers strictly increase from batch to batch, whatever the clock says, as
/// long as they fit.
pub proof fn law_seq_increases(seq: u64, now: u64)
    requires
        seq < u64::MAX,
    ensures
        batch_seq(sum(seq, 1), now) > seq,
        sum(seq, SEQ_JUMP) > seq,
{
}

/// The batches that follow one another from `from` on are together all the reports
/// from there on.
pub proof fn law_batches_cover(all: Seq<ReportView>, from: int)
    requires
        0 <= from < all.len(),
    ensures
        batch_of(all, from) + all.skip(from + batch_of(all, from).len()) == all.skip(from),
        0 < batch_of(all, from).len() <= MAX_BATCH_ITEMS,
{
    assert(batch_of(all, from) + all.skip(from + batch_of(all, from).len()) =~= all.skip(from));
}

/// Inside the bounds of the server.
pub open spec fn reportable(m: IpNet) -> bool {
    match m.addr {
        IpAddr::V4(_) => 24 <= m.prefix <= 32,
        IpAddr::V6(_) => 48 <= m.prefix <= 64,
    }
}

/// What is reported is inside the bounds of the server: IPv4 between /24 and /32, IPv6
/// between /48 and /64, with no address bits beyond the prefix, and a filter name that
/// it takes; manual bans are never reported.
pub proof fn law_reports_are_valid(ev: BanView, net: IpNet, now: u64)
    requires
        net.wf(),
        report_of(ev, Some(net), now) is Some,
    ensures
        !ev.manual,
        filter_ok(ev.filter),
        report_net(net) matches Some(m) && reportable(m),
        report_of(ev, Some(net), now)->0.count >= 1,
{
}

/// The network that is reported for a ban: the banned network with the address bits
/// behind its prefix cleared, where an IPv6 prefix beyond 64 counts as 64. Nothing wider
/// than an IPv4 /24 or an IPv6 /48 is reported.
pub proof fn law_reported_network(n: IpNet)
    requires
        n.prefix <= (if n.addr is V4 { 32int } else { 128 }),
    ensures
        match n.addr {
            IpAddr::V4(x) => if n.prefix < 24 {
                report_net(n) is None
            } else {
                let size = pow2((32 - n.prefix) as nat);
                report_net(n) == Some(
                    IpNet {
                        addr: IpAddr::V4(((x as nat / size) * size) as u32),
                        prefix: n.prefix,
                    },
                )
            },
            IpAddr::V6(x) => if n.prefix < 48 {
                report_net(n) is None
            } else {
                let p: u8 = if n.prefix < 64 { n.prefix } else { 64 };
                let size = pow2((128 - p) as nat);
                report_net(n) == Some(
                    IpNet { addr: IpAddr::V6(((x as nat / size) * size) as u128), prefix: p },
                )
            },
        },
{
    match n.addr {
        IpAddr::V4(_) => {
            ip::law_network_rounds_down(n.addr, n.prefix);
        },
        IpAddr::V6(_) => {
            let p: u8 = if n.prefix < 64 { n.prefix } else { 64 };
            ip::law_network_rounds_down(n.addr, p);
        },
    }
}

/// A ban of a network that the server takes, without host bits, is reported as exactly
/// that network.
pub proof fn law_plain_networks_stay(n: IpNet)
    requires
        n.truncated() == n,
        match n.addr {
            IpAddr::V4(_) => 24 <= n.prefix <= 32,
            IpAddr::V6(_) => 48 <= n.prefix <= 64,
        },
    ensures
        report_net(n) == Some(n),
{
}

/// A filter name that is reported has 1 to 64 characters, each a small letter, a digit,
/// a dot, an underscore or a hyphen.
pub proof fn law_filter_names(name: Seq<char>)
    ensures
        filter_ok(name) == (1 <= name.len() <= 64 && forall|i: int|
            0 <= i < name.len() ==> {
                let c = (#[trigger] name[i]) as int;
                97 <= c <= 122 || 48 <= c <= 57 || c == 46 || c == 95 || c == 45
            }),
{
    assert forall|i: int| 0 <= i < name.len() implies filter_char(#[trigger] name[i]) == ({
        let c = name[i] as int;
        97 <= c <= 122 || 48 <= c <= 57 || c == 46 || c == 95 || c == 45
    }) by {}
}

/// What is reported: every automatic ban no older than 23 hours and no more than a
/// minute ahead, of a reportable network and filter, with its time, length, depth and
/// number of hits (at least 1); and nothing else.
pub proof fn law_report_exactly(ev: BanView, net: Option<IpNet>, now: u64)
    ensures
        (report_of(ev, net, now) is Some) == (!ev.manual && ev.ts + 82_800 >= now && ev.ts <= now
            + 60 && filter_ok(ev.filter) && (net matches Some(n) && report_net(n) is Some)),
        report_of(ev, net, now) matches Some(r) ==> {
            &&& r.ip == ip::net_text(report_net(net->0)->0)
            &&& r.filter == ev.filter
            &&& r.escalation == ev.escalation
            &&& r.count == (if ev.hits == 0 { 1int } else { ev.hits as int })
            &&& ev.ts <= i64::MAX ==> r.ts == ev.ts
            &&& ev.ttl <= i64::MAX ==> r.ban_ttl == ev.ttl
        },
{
}

/// The reports of several events are those of the reportable ones, in order.
pub proof fn law_reports_in_order(bans: Seq<BanView>, now: u64)
    ensures
        reports_for(bans, now) == bans.map_values(
            |b: BanView| report_of(b, foreign::net_of_text(b.net), now),
        ).filter(|r: Option<ReportView>| r is Some).map_values(|r: Option<ReportView>| r->0),
    decreases bans.len(),
{
    reveal(Seq::filter);
    let f = |b: BanView| report_of(b, foreign::net_of_text(b.net), now);
    let p = |r: Option<ReportView>| r is Some;
    let g = |r: Option<ReportView>| r->0;
    if bans.len() == 0 {
        assert(bans.map_values(f).filter(p).map_values(g) =~= Seq::empty());
    } else {
        let u = bans.drop_last();
        law_reports_in_order(u, now);
        assert(bans.map_values(f).drop_last() =~= u.map_values(f));
        assert(reports_for(bans, now) =~= bans.map_values(f).filter(p).map_values(g));
    }
}

/// A batch holds the next thousand reports, or all that are left; its number is the
/// larger of the next number and the time.
pub proof fn law_batch_exactly(all: Seq<ReportView>, from: int, next_seq: u64, now: u64, n: u64)
    requires
        0 <= from <= all.len(),
    ensures
        batch_of(all, from) == all.subrange(
            from,
            if from + 1000 < all.len() {
                from + 1000
            } else {
                all.len() as int
            },
        ),
        batch_seq(next_seq, now) >= next_seq,
        batch_seq(next_seq, now) >= now,
        batch_seq(next_seq, now) == next_seq || batch_seq(next_seq, now) == now,
        sum(next_seq, n) == (if next_seq + n < u64::MAX {
            next_seq + n
        } else {
            u64::MAX as int
        }),
{
    assert(batch_of(all, from) =~= all.subrange(
        from,
        if from + 1000 < all.len() {
            from + 1000
        } else {
            all.len() as int
        },
    ));
}

/// A step that sends, sends the next thousand reports behind those that were taken,
/// under the run's number.
pub proof fn law_send_is_the_next_batch(run: Run, step: Step, save: bool)
    requires
        0 <= run.taken <= run.reports@.len(),
        run.sends(step, save),
    ensures
        step matches Step::Send { batch, save: s } && s == save && batch.seq == run.seq
            && batch.agent_version@ == "minsec-sync/0.1.4"@ && reports_of(batch.reports@)
            == reports_of(run.reports@).subrange(
            run.taken as int,
            if run.taken + 1000 < run.reports@.len() {
                run.taken + 1000
            } else {
                run.reports@.len() as int
            },
        ),
{
    law_batch_exactly(reports_of(run.reports@), run.taken as int, 0, 0, 0);
}

/// Reports, events and times as values: one for one, in order; a number beyond the
/// largest signed one wraps.
pub proof fn law_models_tell_all(b: Seq<BanEvent>, r: Seq<Report>, o: Option<Report>, n: u64, i: int)
    ensures
        bans_of(b).len() == b.len(),
        0 <= i < b.len() ==> bans_of(b)[i] == b[i]@,
        reports_of(r).len() == r.len(),
        0 <= i < r.len() ==> reports_of(r)[i] == r[i]@,
        shown(o) == (match o {
            Some(x) => Some(x@),
            None => None,
        }),
        as_signed(n) == n || as_signed(n) + 0x1_0000_0000_0000_0000 == n,
{
}

/// The numbers of the protocol: an event counts for 23 hours and a minute ahead; a
/// refused number jumps by a day; a name has at most 64 characters.
pub proof fn law_report_numbers()
    ensures
        MAX_EVENT_AGE == 82_800 && MAX_SKEW == 60 && SEQ_JUMP == 86_400 && MAX_FILTER_CHARS == 64,
        AGENT_VERSION@ == "minsec-sync/0.1.4"@,
        MAX_BATCH_ITEMS == 1000,
{
}

} // verus!
