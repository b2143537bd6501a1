//! Answers to control requests.

use vstd::prelude::*;
use vstd::string::*;

use crate::backend::Firewall;
use crate::control::{Request, Response};
use crate::duration::Duration;
use crate::engine::{
    after_list, after_manual_ban, after_unban, asked_ban, asked_list, asked_unban, infos,
    is_exempt, lists_for_some, reports, Engine, EngineError,
};
use crate::filter::DefView;
use crate::ip;
use crate::text::{opt_text, texts};

verus! {

/// A response that carries nothing but its success.
pub open spec fn bare(r: Response) -> bool {
    r.error is None && r.message is None && r.status is None && r.bans is None && r.filters is None
}

/// The text of a failure.
pub open spec fn error_text(r: Response) -> Seq<char> {
    match r.error {
        Some(e) => e@,
        None => Seq::empty(),
    }
}

/// A failure and its text.
pub open spec fn fails(r: Response, text: Seq<char>) -> bool {
    &&& !r.ok
    &&& opt_text(r.error) == Some(text)
    &&& r.message is None
    &&& r.status is None
    &&& r.bans is None
    &&& r.filters is None
}

/// A success with a message.
pub open spec fn says(r: Response, text: Seq<char>) -> bool {
    &&& r.ok
    &&& opt_text(r.message) == Some(text)
    &&& r.error is None
    &&& r.status is None
    &&& r.bans is None
    &&& r.filters is None
}

/// Answers a request at time `now`; `uptime` is how long the daemon has run.
pub fn handle<F: Firewall>(e: &mut Engine<F>, req: Request, now: u32, uptime: u64) -> (r: Response)
    requires
        old(e).wf(),
        req matches Request::Ban { net, .. } ==> net.wf(),
        req matches Request::Unban { net } ==> net.wf(),
    ensures
        final(e).goes_on(old(e)),
        ({
            let su = old(e).setup();
            let s = old(e).state();
            let s2 = final(e).state();
            match req {
                Request::Ping => says(r, "pong"@) && s2 == s,
                Request::Status => {
                    &&& s2 == after_list(s, None, now)
                    &&& r.ok && r.error is None && r.message is None && r.bans is None
                        && r.filters is None
                    &&& r.status matches Some(st) && reports(
                        su,
                        s2,
                        old(e).backend.label@,
                        uptime,
                        st,
                    )
                },
                Request::List => {
                    ||| (r.bans is Some && r.ok && r.error is None && r.message is None && r.status
                        is None && r.filters is None && lists_for_some(
                        su,
                        s,
                        s2,
                        final(e).active.keys(),
                        now,
                        infos(r.bans->0@),
                    ))
                    ||| (fails(r, error_text(r)) && s2 == asked_list(
                        s,
                        Err(error_text(r)),
                    ))
                },
                Request::Ban { net, ttl } => {
                    let secs = match ttl {
                        Some(t) => t,
                        None => su.defaults.bantime.0@,
                    };
                    if is_exempt(su.allow, net.addr) {
                        fails(r, EngineError::Refused { net }.text()) && s2 == s
                    } else {
                        ||| (says(r, "banned "@ + ip::nft_text(net)) && s2 == after_manual_ban(
                            s,
                            net,
                            secs,
                            now,
                        ))
                        ||| (fails(r, error_text(r)) && s2 == asked_ban(s, net, secs, error_text(r)))
                    }
                },
                Request::Unban { net } => {
                    ||| (says(r, "unbanned "@ + ip::nft_text(net)) && s2 == after_unban(
                        su,
                        s,
                        net,
                        now,
                    ))
                    ||| (fails(r, error_text(r)) && s2 == asked_unban(s, net, error_text(r)))
                },
                Request::Filters => {
                    &&& s2 == s
                    &&& r.ok && r.error is None && r.message is None && r.status is None
                        && r.bans is None
                    &&& r.filters matches Some(v) && texts(v@) == su.defs.map_values(
                        |d: DefView| d.name,
                    )
                },
            }
        }),
{
    match req {
        Request::Ping => Response::message("pong".to_owned()),
        Request::Status => {
            let status = e.status(now, uptime);
            let mut r = Response::ok();
            r.status = Some(status);
            r
        },
        Request::List => match e.list(now) {
            Ok(b) => {
                let mut r = Response::ok();
                r.bans = Some(b);
                r
            },
            Err(err) => Response::err(err.message()),
        },
        Request::Ban { net, ttl } => {
            let ttl = match ttl {
                Some(t) => Some(Duration::from_secs(t)),
                None => None,
            };
            match e.manual_ban(net, ttl, now) {
                Ok(()) => {
                    let mut m = "banned ".to_owned();
                    let name = ip::key_to_nft(&net);
                    m.append(name.as_str());
                    Response::message(m)
                },
                Err(err) => Response::err(err.message()),
            }
        },
        Request::Unban { net } => match e.unban(net, now) {
            Ok(()) => {
                let mut m = "unbanned ".to_owned();
                let name = ip::key_to_nft(&net);
                m.append(name.as_str());
                Response::message(m)
            },
            Err(err) => Response::err(err.message()),
        },
        Request::Filters => {
            let names = e.filter_names();
            let mut r = Response::ok();
            r.filters = Some(names);
            r
        },
    }
}

/// A reply that says something succeeds and carries that text and nothing else; one that
/// fails carries its error and nothing else.
pub proof fn law_replies(r: Response, text: Seq<char>)
    ensures
        says(r, text) == (r.ok && (r.message matches Some(m) && m@ == text) && r.error is None
            && r.status is None && r.bans is None && r.filters is None),
        fails(r, text) == (!r.ok && (r.error matches Some(e) && e@ == text) && r.message is None
            && r.status is None && r.bans is None && r.filters is None),
        fails(r, text) ==> error_text(r) == text,
{
}

} // verus!
