//! Firewall backends. The kernel (or whatever the backend drives) owns the
//! authoritative ban list; the daemon only mirrors it for fast answers.

use vstd::prelude::*;

use crate::duration::Duration;
use crate::ip::IpNet;

pub mod exec;
pub mod null;

verus! {

#[derive(Debug, Clone, Copy, PartialEq, Eq, Structural)]
pub struct Ban {
    pub net: IpNet,
    pub ttl: Duration,
}

#[derive(Debug, Clone, Copy, PartialEq, Eq, Structural)]
pub struct Entry {
    pub net: IpNet,
    /// Remaining lifetime when known.
    pub expires_in: Option<Duration>,
}

/// What a backend was asked for, and what it answered: its error, where it failed.
pub enum Call {
    Setup { error: Option<Seq<char>> },
    Ban { bans: Seq<Ban>, error: Option<Seq<char>> },
    Unban { nets: Seq<IpNet>, error: Option<Seq<char>> },
    List { got: Result<Option<Seq<Entry>>, Seq<char>> },
    SetAllow { nets: Seq<IpNet>, error: Option<Seq<char>> },
}

/// The error of an answer.
pub open spec fn fault(r: Result<(), String>) -> Option<Seq<char>> {
    match r {
        Ok(()) => None,
        Err(e) => Some(e@),
    }
}

/// A backend's list, where it has one.
pub open spec fn enumerated(o: Option<Vec<Entry>>) -> Option<Seq<Entry>> {
    match o {
        Some(v) => Some(v@),
        None => None,
    }
}

/// The answer to a question for the list.
pub open spec fn answered(r: Result<Option<Vec<Entry>>, String>) -> Result<
    Option<Seq<Entry>>,
    Seq<char>,
> {
    match r {
        Ok(o) => Ok(enumerated(o)),
        Err(e) => Err(e@),
    }
}

/// What drives the firewall. What a call comes to is up to the firewall; that it was
/// made, with what, and what was answered, goes on its record. Code outside the proofs
/// that drives a firewall leaves the two spec functions as they are.
pub trait Firewall {
    /// What it was asked for and answered, in order.
    open spec fn asked(&self) -> Seq<Call> {
        Seq::empty()
    }

    /// What it is called.
    open spec fn title(&self) -> Seq<char> {
        Seq::empty()
    }

    fn name(&self) -> (r: String)
        ensures
            r@ == self.title(),
    ;

    /// Create tables/sets/chains idempotently. Must not disturb other rules.
    fn setup(&mut self) -> (r: Result<(), String>)
        ensures
            final(self).asked() == old(self).asked().push(Call::Setup { error: fault(r) }),
    ;

    fn ban(&mut self, bans: &Vec<Ban>) -> (r: Result<(), String>)
        ensures
            final(self).asked() == old(self).asked().push(
                Call::Ban { bans: bans@, error: fault(r) },
            ),
    ;

    fn unban(&mut self, nets: &Vec<IpNet>) -> (r: Result<(), String>)
        ensures
            final(self).asked() == old(self).asked().push(
                Call::Unban { nets: nets@, error: fault(r) },
            ),
    ;

    /// Currently active bans, if the backend can enumerate them.
    fn list(&mut self) -> (r: Result<Option<Vec<Entry>>, String>)
        ensures
            final(self).asked() == old(self).asked().push(Call::List { got: answered(r) }),
    ;

    /// Replace the allow list.
    fn set_allow(&mut self, nets: &Vec<IpNet>) -> (r: Result<(), String>)
        ensures
            final(self).asked() == old(self).asked().push(
                Call::SetAllow { nets: nets@, error: fault(r) },
            ),
    ;
}

/// A backend and its name.
pub struct Driver<F: Firewall> {
    pub inner: F,
    pub label: String,
}

impl<F: Firewall> Driver<F> {
    pub fn new(inner: F) -> (r: Self)
        ensures
            r.inner == inner,
            r.label@ == inner.title(),
    {
        let label = inner.name();
        Driver { inner, label }
    }
}

/// What goes on the record of an answer: no error for a yes, and the error itself for a
/// no; of a list all entries, in order.
pub proof fn law_answers_on_record(
    r: Result<(), String>,
    l: Result<Option<Vec<Entry>>, String>,
)
    ensures
        fault(r) == (match r {
            Ok(_) => None,
            Err(e) => Some(e@),
        }),
        match l {
            Ok(Some(v)) => answered(l) == Ok::<Option<Seq<Entry>>, Seq<char>>(Some(v@))
                && enumerated(Some(v)) == Some(v@),
            Ok(None) => answered(l) == Ok::<Option<Seq<Entry>>, Seq<char>>(None),
            Err(e) => answered(l) == Err::<Option<Seq<Entry>>, Seq<char>>(e@),
        },
        enumerated(None) is None,
{
}

} // verus!
