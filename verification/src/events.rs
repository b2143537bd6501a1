//! Append-only JSONL event log: the daemon's only persistent state.
//! Consumed by `minsec events` and by `minsec-sync`.

use vstd::prelude::*;

use crate::ip::IpNet;

verus! {

/// A log file of this size is put aside for a new one.
pub const ROTATE_BYTES: u64 = 8388608;

#[derive(Debug, Clone)]
pub enum Event {
    Start { ts: u64, version: String },
    Stop { ts: u64 },
    Ban {
        ts: u64,
        net: IpNet,
        filter: String,
        ttl: u64,
        hits: u32,
        escalation: u32,
        manual: bool,
    },
    Unban { ts: u64, net: IpNet, manual: bool },
}

/// An [`Event`] as values.
pub enum EventView {
    Start { ts: u64, version: Seq<char> },
    Stop { ts: u64 },
    Ban {
        ts: u64,
        net: IpNet,
        filter: Seq<char>,
        ttl: u64,
        hits: u32,
        escalation: u32,
        manual: bool,
    },
    Unban { ts: u64, net: IpNet, manual: bool },
}

impl View for Event {
    type V = EventView;

    open spec fn view(&self) -> EventView {
        match self {
            Event::Start { ts, version } => EventView::Start { ts: *ts, version: version@ },
            Event::Stop { ts } => EventView::Stop { ts: *ts },
            Event::Ban { ts, net, filter, ttl, hits, escalation, manual } => EventView::Ban {
                ts: *ts,
                net: *net,
                filter: filter@,
                ttl: *ttl,
                hits: *hits,
                escalation: *escalation,
                manual: *manual,
            },
            Event::Unban { ts, net, manual } => EventView::Unban {
                ts: *ts,
                net: *net,
                manual: *manual,
            },
        }
    }
}

/// Events as values.
pub open spec fn events_of(v: Seq<Event>) -> Seq<EventView> {
    v.map_values(|e: Event| e@)
}

impl EventView {
    /// When it happened.
    pub open spec fn time(self) -> u64 {
        match self {
            EventView::Start { ts, .. } => ts,
            EventView::Stop { ts } => ts,
            EventView::Ban { ts, .. } => ts,
            EventView::Unban { ts, .. } => ts,
        }
    }
}

impl Event {
    pub fn ts(&self) -> (r: u64)
        ensures
            r == self@.time(),
    {
        match self {
            Event::Start { ts, .. } => *ts,
            Event::Stop { ts } => *ts,
            Event::Ban { ts, .. } => *ts,
            Event::Unban { ts, .. } => *ts,
        }
    }
}

/// How much the current log file holds.
#[derive(Debug, Clone, Copy, PartialEq, Eq, Structural)]
pub struct EventLog {
    /// Whether there is a file to write to; without one, events are discarded.
    pub open: bool,
    pub written: u64,
}

impl EventLog {
    /// A log that continues a file of `size` bytes.
    pub fn open(size: u64) -> (r: Self)
        ensures
            r.open,
            r.written == size,
    {
        EventLog { open: true, written: size }
    }

    /// An event log that discards everything (tests, `minsec test`).
    pub fn sink() -> (r: Self)
        ensures
            !r.open,
            r.written == 0,
    {
        EventLog { open: false, written: 0 }
    }

    /// A line of `len` bytes was written. Whether the file is now due for rotation.
    pub fn append(&mut self, len: u64) -> (r: bool)
        ensures
            !old(self).open ==> !r && *final(self) == *old(self),
            old(self).open ==> final(self).open && final(self).written == (if old(self).written
                + len > u64::MAX {
                u64::MAX
            } else {
                (old(self).written + len) as u64
            }) && r == (final(self).written >= 8_388_608),
    {
        if !self.open {
            return false;
        }
        self.written = self.written.saturating_add(len);
        self.written >= ROTATE_BYTES
    }

    /// A fresh file was put in place.
    pub fn rotate(&mut self)
        ensures
            final(self).open == old(self).open,
            final(self).written == 0,
    {
        self.written = 0;
    }
}

/// An event tells all of its fields as values.
pub proof fn law_event_tells_all(e: Event)
    ensures
        match (e, e@) {
            (Event::Start { ts, version }, EventView::Start { ts: t, version: v }) => t == ts && v
                == version@,
            (Event::Stop { ts }, EventView::Stop { ts: t }) => t == ts,
            (
                Event::Ban { ts, net, filter, ttl, hits, escalation, manual },
                EventView::Ban {
                    ts: t,
                    net: n,
                    filter: f,
                    ttl: l,
                    hits: h,
                    escalation: x,
                    manual: m,
                },
            ) => t == ts && n == net && f == filter@ && l == ttl && h == hits && x == escalation && m
                == manual,
            (Event::Unban { ts, net, manual }, EventView::Unban { ts: t, net: n, manual: m }) => t
                == ts && n == net && m == manual,
            _ => false,
        },
        e@.time() == (match e {
            Event::Start { ts, .. } => ts,
            Event::Stop { ts } => ts,
            Event::Ban { ts, .. } => ts,
            Event::Unban { ts, .. } => ts,
        }),
{
}

} // verus!
