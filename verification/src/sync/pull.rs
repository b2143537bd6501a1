//! `minsec-sync pull`: fetch the crowd blocklist (ETag + delta aware) and
//! write it into the crowd4/crowd6 nftables sets.
//!
//! The steps of a pull, as decisions: what to ask the server for ([`plan`]), what its
//! answer asks of the firewall ([`respond`]), which scripts that takes ([`scripts`]),
//! how to go on after them ([`after_script`]), and what is remembered once all is done
//! ([`remember`]). A delta that cannot be applied leads to [`refetch`].

use vstd::prelude::*;
use vstd::string::*;

use crate::ip::IpNet;
use crate::proto::feed::{feed_of, Feed, FeedView};
use crate::sync::client::FeedFetch;
use crate::sync::config::Config;
use crate::sync::nft;
use crate::sync::nft::{all_wf, valid_nets, FULL_REFRESH_SECS};
use crate::sync::state::{FeedCursor, FeedCursorView, State};
use crate::text;
use crate::text::{decimal, texts};

verus! {

/// What was done to a set.
#[derive(Debug, Clone, Copy, PartialEq, Eq, Structural)]
pub enum Action {
    Unchanged,
    Full,
    Delta,
}

impl Action {
    /// What the action is called.
    pub open spec fn label(self) -> Seq<char> {
        match self {
            Action::Unchanged => "unchanged"@,
            Action::Full => "full"@,
            Action::Delta => "delta"@,
        }
    }

    pub fn name(&self) -> (r: &'static str)
        ensures
            r@ == self.label(),
    {
        match self {
            Action::Unchanged => "unchanged",
            Action::Full => "full",
            Action::Delta => "delta",
        }
    }
}

#[derive(Debug, Clone, Copy, PartialEq, Eq, Structural)]
pub struct Outcome {
    pub family: u8,
    pub action: Action,
    pub entries: usize,
    pub invalid: usize,
    /// The full replace was forced to refresh the kernel timeout rather
    /// than because the server had something new.
    pub refresh: bool,
}

/// Whether a family is pulled.
pub open spec fn is_wanted(cfg: Config, family: u8) -> bool {
    !(family == 4 && !cfg.ipv4) && !(family == 6 && !cfg.ipv6)
}

/// Whether a family is pulled.
pub fn wanted(cfg: &Config, family: u8) -> (r: bool)
    ensures
        r == is_wanted(*cfg, family),
{
    !(family == 4 && !cfg.ipv4) && !(family == 6 && !cfg.ipv6)
}

/// The feed's key in the state.
pub open spec fn feed_key_of(tier: Seq<char>, family: u8) -> Seq<char> {
    tier + "/v"@ + decimal(family as nat)
}

/// `feed_key_of`.
pub fn feed_key(tier: &str, family: u8) -> (r: String)
    ensures
        r@ == feed_key_of(tier@, family),
{
    let mut s = tier.to_owned();
    s.append("/v");
    text::push_decimal(&mut s, family as u64);
    s
}

/// The family's part of the feed's path.
pub fn family_name(family: u8) -> (r: &'static str)
    ensures
        r@ == (if family == 4 {
            "v4"@
        } else {
            "v6"@
        }),
{
    if family == 4 {
        "v4"
    } else {
        "v6"
    }
}

/// What is asked of the server: the whole listing, or what has changed since the
/// cursor.
#[derive(Debug, Clone)]
pub struct Request {
    pub family: u8,
    pub full: bool,
    pub refresh: bool,
    pub etag: String,
    pub since: i64,
}

/// A [`Request`] as values.
pub struct RequestView {
    pub family: u8,
    pub full: bool,
    pub refresh: bool,
    pub etag: Seq<char>,
    pub since: i64,
}

impl View for Request {
    type V = RequestView;

    open spec fn view(&self) -> RequestView {
        RequestView {
            family: self.family,
            full: self.full,
            refresh: self.refresh,
            etag: self.etag@,
            since: self.since,
        }
    }
}

/// A request for the whole listing.
pub open spec fn whole(family: u8, refresh: bool) -> RequestView {
    RequestView { family, full: true, refresh, etag: Seq::empty(), since: 0 }
}

/// The cursor of a feed, or that of one that was never pulled.
pub open spec fn cursor_of(m: Map<Seq<char>, FeedCursorView>, key: Seq<char>) -> FeedCursorView {
    if m.contains_key(key) {
        m[key]
    } else {
        FeedCursorView { etag: Seq::empty(), snapshot: 0, last_full: 0 }
    }
}

/// How long ago `then` was.
pub open spec fn since(now: u64, then: u64) -> u64 {
    if now > then {
        (now - then) as u64
    } else {
        0
    }
}

/// What is asked of the server. Crowd elements carry a kernel timeout, and only a full
/// replace re-adds every element and so restarts that clock: deltas touch what changed,
/// and an unchanged feed touches nothing at all. So once the refresh deadline passes,
/// the request is unconditional, and the server cannot answer 304 and leave the set
/// ageing out. A first pull takes this path too, with nothing to refresh yet.
pub open spec fn planned(cur: FeedCursorView, family: u8, now: u64) -> RequestView {
    if since(now, cur.last_full) >= FULL_REFRESH_SECS {
        whole(family, cur.last_full != 0)
    } else {
        RequestView {
            family,
            full: false,
            refresh: false,
            etag: cur.etag,
            since: cur.snapshot,
        }
    }
}

/// What to ask the server for.
pub fn plan(state: &State, tier: &str, family: u8, now: u64) -> (r: Request)
    requires
        state.wf(),
    ensures
        r@ == planned(cursor_of(state.cursors(), feed_key_of(tier@, family)), family, now),
{
    let key = feed_key(tier, family);
    let (etag, snapshot, last_full): (String, i64, u64) = match state.feeds.get(&key) {
        Some(c) => (c.etag.clone(), c.snapshot, c.last_full),
        None => (String::new(), 0, 0),
    };
    if now.saturating_sub(last_full) >= FULL_REFRESH_SECS {
        let refresh: bool = last_full != 0;
        Request { family, full: true, refresh, etag: String::new(), since: 0 }
    } else {
        Request { family, full: false, refresh: false, etag, since: snapshot }
    }
}

/// What to ask for after a delta that no longer matches the set (missed pull, manual
/// edits): the whole listing.
pub fn refetch(family: u8) -> (r: Request)
    ensures
        r@ == whole(family, false),
{
    Request { family, full: true, refresh: false, etag: String::new(), since: 0 }
}

/// What is to be done to a set.
#[derive(Debug, Clone)]
pub enum Change {
    Unchanged,
    /// Replace its contents.
    Replace { nets: Vec<IpNet>, snapshot: i64, etag: String },
    /// Add and remove elements.
    Delta { added: Vec<IpNet>, removed: Vec<IpNet>, snapshot: i64, etag: String },
}

/// A [`Change`] as values.
pub enum ChangeView {
    Unchanged,
    Replace { nets: Seq<IpNet>, snapshot: i64, etag: Seq<char> },
    Delta { added: Seq<IpNet>, removed: Seq<IpNet>, snapshot: i64, etag: Seq<char> },
}

impl View for Change {
    type V = ChangeView;

    open spec fn view(&self) -> ChangeView {
        match self {
            Change::Unchanged => ChangeView::Unchanged,
            Change::Replace { nets, snapshot, etag } => ChangeView::Replace {
                nets: nets@,
                snapshot: *snapshot,
                etag: etag@,
            },
            Change::Delta { added, removed, snapshot, etag } => ChangeView::Delta {
                added: added@,
                removed: removed@,
                snapshot: *snapshot,
                etag: etag@,
            },
        }
    }
}

impl Change {
    /// Every network is one.
    pub open spec fn wf(&self) -> bool {
        match self {
            Change::Unchanged => true,
            Change::Replace { nets, .. } => all_wf(nets@),
            Change::Delta { added, removed, .. } => all_wf(added@) && all_wf(removed@),
        }
    }
}

/// What a feed asks of a set, and how many of its entries are none of the family.
pub open spec fn change_of(full: bool, family: u8, f: FeedView, etag: Seq<char>) -> (
    ChangeView,
    nat,
) {
    if !full && f.header.kind == "delta"@ {
        let added = valid_nets(f.added, family);
        let removed = valid_nets(f.removed, family);
        (
            ChangeView::Delta { added, removed, snapshot: f.header.to, etag },
            (f.added.len() + f.removed.len() - added.len() - removed.len()) as nat,
        )
    } else {
        let nets = valid_nets(f.entries, family);
        (
            ChangeView::Replace { nets, snapshot: f.header.snapshot, etag },
            (f.entries.len() - nets.len()) as nat,
        )
    }
}

/// What an answer asks of the set, or what is wrong with it.
pub open spec fn response_of(req: RequestView, got: FeedFetch) -> Result<
    (ChangeView, nat),
    Seq<char>,
> {
    match got {
        FeedFetch::NotModified => if req.full {
            Err("server returned 304 to an unconditional feed request"@)
        } else {
            Ok((ChangeView::Unchanged, 0))
        },
        FeedFetch::Body { text, etag } => match feed_of(text@) {
            Err(e) => Err(e.text()),
            Ok(f) => if f.header.family != req.family {
                Err(
                    "server sent family "@ + decimal(f.header.family as nat) + " for a v"@
                        + decimal(req.family as nat) + " request"@,
                )
            } else {
                Ok(change_of(req.full, req.family, f, etag@))
            },
        },
    }
}

/// A count that stays at the largest value.
pub open spec fn capped(n: nat) -> usize {
    if n > usize::MAX {
        usize::MAX
    } else {
        n as usize
    }
}

/// What a feed asks of a set, and how many of its entries are none of the family.
pub fn change(full: bool, family: u8, feed: &Feed, etag: String) -> (r: (Change, usize))
    ensures
        r.0.wf(),
        (r.0@, r.1) == (
            change_of(full, family, feed@, etag@).0,
            capped(change_of(full, family, feed@, etag@).1),
        ),
{
    if !full && text::same(feed.header.kind.as_str(), "delta") {
        let (added, bad) = nft::parse_entries(&feed.added, family);
        let (removed, worse) = nft::parse_entries(&feed.removed, family);
        assert(texts(feed.added@).len() == feed.added@.len());
        assert(texts(feed.removed@).len() == feed.removed@.len());
        let invalid: usize = bad.saturating_add(worse);
        (Change::Delta { added, removed, snapshot: feed.header.to, etag }, invalid)
    } else {
        let (nets, invalid) = nft::parse_entries(&feed.entries, family);
        assert(texts(feed.entries@).len() == feed.entries@.len());
        (Change::Replace { nets, snapshot: feed.header.snapshot, etag }, invalid)
    }
}

/// What an answer asks of the set, and how many of its entries are none of the family.
pub fn respond(req: &Request, got: FeedFetch) -> (r: Result<(Change, usize), String>)
    ensures
        match r {
            Ok((c, invalid)) => c.wf() && (response_of(req@, got) matches Ok((v, n)) && v == c@
                && invalid == capped(n)),
            Err(e) => response_of(req@, got) == Err::<(ChangeView, nat), Seq<char>>(e@),
        },
{
    let (body, etag) = match got {
        FeedFetch::NotModified => {
            if req.full {
                return Err("server returned 304 to an unconditional feed request".to_owned());
            }
            return Ok((Change::Unchanged, 0));
        },
        FeedFetch::Body { text, etag } => (text, etag),
    };
    let feed = match Feed::parse(body.as_str()) {
        Ok(f) => f,
        Err(e) => {
            return Err(e.message());
        },
    };
    if feed.header.family != req.family {
        let mut e = "server sent family ".to_owned();
        text::push_decimal(&mut e, feed.header.family as u64);
        e.append(" for a v");
        text::push_decimal(&mut e, req.family as u64);
        e.append(" request");
        return Err(e);
    }
    Ok(change(req.full, req.family, &feed, etag))
}

/// The outcome of a change that was made.
pub open spec fn outcome_of(req: RequestView, c: ChangeView, invalid: usize) -> Outcome {
    match c {
        ChangeView::Unchanged => Outcome {
            family: req.family,
            action: Action::Unchanged,
            entries: 0,
            invalid: 0,
            refresh: false,
        },
        ChangeView::Replace { nets, .. } => Outcome {
            family: req.family,
            action: Action::Full,
            entries: capped(nets.len()),
            invalid,
            refresh: req.refresh,
        },
        ChangeView::Delta { added, removed, .. } => Outcome {
            family: req.family,
            action: Action::Delta,
            entries: capped(added.len() + removed.len()),
            invalid,
            refresh: false,
        },
    }
}

/// The cursor after a change that was made at `now`: only a replacement restarts the
/// timeout clock.
pub open spec fn cursor_after(
    m: Map<Seq<char>, FeedCursorView>,
    key: Seq<char>,
    c: ChangeView,
    now: u64,
) -> Map<Seq<char>, FeedCursorView> {
    match c {
        ChangeView::Unchanged => m,
        ChangeView::Replace { snapshot, etag, .. } => m.insert(
            key,
            FeedCursorView { etag, snapshot, last_full: now },
        ),
        ChangeView::Delta { snapshot, etag, .. } => m.insert(
            key,
            FeedCursorView { etag, snapshot, last_full: cursor_of(m, key).last_full },
        ),
    }
}

/// One script for nft; where it is not needed, its failure does not count.
#[derive(Debug, Clone)]
pub struct Script {
    pub text: String,
    pub needed: bool,
}

/// A [`Script`] as values.
pub struct ScriptView {
    pub text: Seq<char>,
    pub needed: bool,
}

impl View for Script {
    type V = ScriptView;

    open spec fn view(&self) -> ScriptView {
        ScriptView { text: self.text@, needed: self.needed }
    }
}

/// Scripts as values.
pub open spec fn scripts_shown(v: Seq<Script>) -> Seq<ScriptView> {
    v.map_values(|s: Script| s@)
}

/// The removals of a delta, one by one: elements that nft no longer has must not fail
/// it.
pub open spec fn removals(family: u8, removed: Seq<IpNet>) -> Seq<ScriptView> {
    removed.map_values(
        |n: IpNet| ScriptView { text: nft::removal(family, n), needed: false },
    )
}

/// The scripts that make a change, in order: a replacement in one transaction; for a
/// delta its removals, and its additions in one transaction.
pub open spec fn scripts_of(family: u8, c: ChangeView) -> Seq<ScriptView> {
    match c {
        ChangeView::Unchanged => Seq::empty(),
        ChangeView::Replace { nets, .. } => seq![
            ScriptView { text: nft::replacement(family, nets), needed: true },
        ],
        ChangeView::Delta { added, removed, .. } => removals(family, removed) + (if added.len()
            == 0 {
            Seq::empty()
        } else {
            seq![ScriptView { text: nft::addition(family, added), needed: true }]
        }),
    }
}

/// The scripts that make a change.
pub fn scripts(family: u8, c: &Change) -> (r: Vec<Script>)
    requires
        c.wf(),
    ensures
        scripts_shown(r@) == scripts_of(family, c@),
{
    let mut out: Vec<Script> = Vec::new();
    match c {
        Change::Unchanged => {
            assert(scripts_shown(out@) =~= scripts_of(family, c@));
        },
        Change::Replace { nets, .. } => {
            out.push(Script { text: nft::replace_script(family, nets), needed: true });
            assert(scripts_shown(out@) =~= scripts_of(family, c@));
        },
        Change::Delta { added, removed, .. } => {
            let ghost all = removals(family, removed@);
            let mut i: usize = 0;
            assert(scripts_shown(out@) =~= all.take(0));
            while i < removed.len()
                invariant
                    i <= removed@.len(),
                    all_wf(removed@),
                    all == removals(family, removed@),
                    scripts_shown(out@) == all.take(i as int),
                decreases removed@.len() - i,
            {
                let ghost before = out@;
                out.push(Script { text: nft::remove_script(family, &removed[i]), needed: false });
                assert(scripts_shown(out@) =~= scripts_shown(before).push(all[i as int]));
                assert(all.take(i + 1) =~= all.take(i as int).push(all[i as int]));
                i += 1;
            }
            assert(all.take(i as int) =~= all);
            match nft::add_script(family, added) {
                Some(text) => {
                    out.push(Script { text, needed: true });
                    assert(scripts_shown(out@) =~= scripts_of(family, c@));
                },
                None => {
                    assert(scripts_shown(out@) =~= scripts_of(family, c@));
                },
            }
        },
    }
    out
}

/// How to go on after the scripts of a change.
#[derive(Debug, Clone, Copy, PartialEq, Eq, Structural)]
pub enum Next {
    /// The change was made: remember it.
    Keep,
    /// Ask for the whole listing.
    Refetch,
    /// Give up.
    Fail,
}

/// What to do after the scripts of a change ran, and one that was needed failed or
/// not: a delta that no longer matches the set (missed pull, manual edits) is replaced
/// by the whole listing instead of failing.
pub fn after_script(c: &Change, failed: bool) -> (r: Next)
    ensures
        r == (if !failed {
            Next::Keep
        } else if c is Delta {
            Next::Refetch
        } else {
            Next::Fail
        }),
{
    if !failed {
        return Next::Keep;
    }
    match c {
        Change::Delta { .. } => Next::Refetch,
        _ => Next::Fail,
    }
}

/// When a set counts as replaced: once a whole listing that was asked for has been
/// applied, and from the start of the pull where one came by itself.
pub open spec fn replaced_at(req: RequestView, started: u64, done: u64) -> u64 {
    if req.full {
        done
    } else {
        started
    }
}

/// Remembers a change that was made by a pull that began at `started` and is `done`, and
/// says what it was.
pub fn remember(
    state: &mut State,
    tier: &str,
    req: &Request,
    c: Change,
    invalid: usize,
    started: u64,
    done: u64,
) -> (r: Outcome)
    requires
        old(state).wf(),
    ensures
        final(state).wf(),
        r == outcome_of(req@, c@, invalid),
        final(state).cursors() == cursor_after(
            old(state).cursors(),
            feed_key_of(tier@, req.family),
            c@,
            replaced_at(req@, started, done),
        ),
        final(state).host_id == old(state).host_id,
        final(state).next_seq == old(state).next_seq,
        final(state).cursor == old(state).cursor,
        final(state).min_report_interval == old(state).min_report_interval,
        final(state).last_pull_ok == old(state).last_pull_ok,
{
    let key = feed_key(tier, req.family);
    let ghost kv = key@;
    let ghost before = state.cursors();
    let family: u8 = req.family;
    let now: u64 = if req.full {
        done
    } else {
        started
    };
    match c {
        Change::Unchanged => {
            Outcome { family, action: Action::Unchanged, entries: 0, invalid: 0, refresh: false }
        },
        Change::Replace { nets, snapshot, etag } => {
            let cursor = FeedCursor { etag, snapshot, last_full: now };
            state.feeds.insert(key, cursor);
            assert(state.cursors() =~= before.insert(kv, cursor@));
            Outcome {
                family,
                action: Action::Full,
                entries: nets.len(),
                invalid,
                refresh: req.refresh,
            }
        },
        Change::Delta { added, removed, snapshot, etag } => {
            let last_full: u64 = match state.feeds.get(&key) {
                Some(c) => c.last_full,
                None => 0,
            };
            let cursor = FeedCursor { etag, snapshot, last_full };
            state.feeds.insert(key, cursor);
            assert(state.cursors() =~= before.insert(kv, cursor@));
            Outcome {
                family,
                action: Action::Delta,
                entries: added.len().saturating_add(removed.len()),
                invalid,
                refresh: false,
            }
        },
    }
}

/// Once the refresh deadline has passed, and at the first pull, the whole listing is
/// asked for, and its arrival restarts the clock; until then a pull asks for what has
/// changed.
pub proof fn law_refresh_restarts_clock(
    m: Map<Seq<char>, FeedCursorView>,
    key: Seq<char>,
    family: u8,
    nets: Seq<IpNet>,
    snapshot: i64,
    etag: Seq<char>,
    now: u64,
    later: u64,
)
    requires
        now <= later,
    ensures
        ({
            let after = cursor_after(m, key, ChangeView::Replace { nets, snapshot, etag }, now);
            planned(cursor_of(after, key), family, later).full == (later - now >= FULL_REFRESH_SECS)
        }),
{
}

/// A delta does not restart the clock.
pub proof fn law_delta_keeps_clock(
    m: Map<Seq<char>, FeedCursorView>,
    key: Seq<char>,
    added: Seq<IpNet>,
    removed: Seq<IpNet>,
    snapshot: i64,
    etag: Seq<char>,
    now: u64,
)
    ensures
        cursor_of(
            cursor_after(m, key, ChangeView::Delta { added, removed, snapshot, etag }, now),
            key,
        ).last_full == cursor_of(m, key).last_full,
{
}

/// A request for the whole listing is never answered by leaving the set as it is.
pub proof fn law_full_is_never_unchanged(req: RequestView, got: FeedFetch)
    requires
        req.full,
    ensures
        response_of(req, got) matches Ok((c, _)) ==> c is Replace,
{
}

/// How an outcome reads.
pub open spec fn outcome_text(o: Outcome) -> Seq<char> {
    "feed v"@ + decimal(o.family as nat) + ": "@ + (if o.action == Action::Unchanged {
        "unchanged"@
    } else {
        o.action.label() + " update"@ + (if o.refresh {
            " (timeout refresh)"@
        } else {
            ""@
        }) + ", "@ + decimal(o.entries as nat) + " entries"@ + (if o.invalid > 0 {
            ", "@ + decimal(o.invalid as nat) + " invalid entries skipped"@
        } else {
            ""@
        })
    })
}

/// How an outcome reads.
pub fn describe(o: &Outcome) -> (r: String)
    ensures
        r@ == outcome_text(*o),
{
    let mut s = "feed v".to_owned();
    text::push_decimal(&mut s, o.family as u64);
    s.append(": ");
    let ghost head = s@;
    match o.action {
        Action::Unchanged => {
            s.append("unchanged");
        },
        _ => {
            s.append(o.action.name());
            s.append(" update");
            s.append(
                if o.refresh {
                    " (timeout refresh)"
                } else {
                    ""
                },
            );
            s.append(", ");
            text::push_decimal(&mut s, o.entries as u64);
            s.append(" entries");
            if o.invalid > 0 {
                s.append(", ");
                text::push_decimal(&mut s, o.invalid as u64);
                s.append(" invalid entries skipped");
            } else {
                s.append("");
            }
        },
    }
    assert(s@ =~= outcome_text(*o));
    s
}

/// What is asked for: the whole listing once half a day has passed since the last one,
/// and at the first pull; otherwise what has changed since the snapshot, provided that
/// something has.
pub proof fn law_plan_exactly(cur: FeedCursorView, family: u8, now: u64)
    ensures
        ({
            let r = planned(cur, family, now);
            &&& r.family == family
            &&& r.full == (now >= cur.last_full + 43_200)
            &&& r.full ==> r.etag.len() == 0 && r.since == 0 && r.refresh == (cur.last_full > 0)
            &&& !r.full ==> r.etag == cur.etag && r.since == cur.snapshot && !r.refresh
        }),
{
}

/// What an answer asks of the set. Not modified leaves it, where something else was
/// possible. A delta, where one was possible, adds and removes its networks of the
/// family and leads to its end; anything else replaces the set by its networks of the
/// family. What is no such network is counted. An answer for the other family or one
/// that is no feed is refused.
pub proof fn law_answers_change_the_set(req: RequestView, got: FeedFetch)
    ensures
        match got {
            FeedFetch::NotModified => if req.full {
                response_of(req, got) is Err
            } else {
                response_of(req, got) matches Ok((c, n)) && c is Unchanged && n == 0
            },
            FeedFetch::Body { text, etag } => match feed_of(text@) {
                Err(_) => response_of(req, got) is Err,
                Ok(f) => if f.header.family != req.family {
                    response_of(req, got) is Err
                } else if f.header.kind == "delta"@ && !req.full {
                    response_of(req, got) matches Ok((ChangeView::Delta { added, removed, snapshot, etag: e }, n))
                        && added == valid_nets(f.added, req.family) && removed == valid_nets(
                        f.removed,
                        req.family,
                    ) && snapshot == f.header.to && e == etag@ && n + added.len() + removed.len()
                        == f.added.len() + f.removed.len()
                } else {
                    response_of(req, got) matches Ok((ChangeView::Replace { nets, snapshot, etag: e }, n))
                        && nets == valid_nets(f.entries, req.family) && snapshot
                        == f.header.snapshot && e == etag@ && n + nets.len() == f.entries.len()
                },
            },
        },
{
    if let FeedFetch::Body { text, etag } = got {
        if let Ok(f) = feed_of(text@) {
            nft::lemma_valid_nets(f.entries, req.family);
            nft::lemma_valid_nets(f.added, req.family);
            nft::lemma_valid_nets(f.removed, req.family);
        }
    }
}

/// What is remembered of a change: its snapshot and tag, under the feed's own key, and
/// for a replacement the time; other feeds are not touched, and an unchanged set changes
/// nothing.
pub proof fn law_cursors_follow(
    m: Map<Seq<char>, FeedCursorView>,
    key: Seq<char>,
    nets: Seq<IpNet>,
    removed: Seq<IpNet>,
    snapshot: i64,
    etag: Seq<char>,
    now: u64,
    req: RequestView,
    started: u64,
)
    ensures
        cursor_after(m, key, ChangeView::Unchanged, now) == m,
        cursor_after(m, key, ChangeView::Replace { nets, snapshot, etag }, now) == m.insert(
            key,
            FeedCursorView { etag, snapshot, last_full: now },
        ),
        cursor_after(
            m,
            key,
            ChangeView::Delta { added: nets, removed, snapshot, etag },
            now,
        ) == m.insert(
            key,
            FeedCursorView {
                etag,
                snapshot,
                last_full: if m.contains_key(key) {
                    m[key].last_full
                } else {
                    0
                },
            },
        ),
        req.full ==> replaced_at(req, started, now) == now,
        !req.full ==> replaced_at(req, started, now) == started,
{
}

/// What a pull reports: the family, what was done, how many networks were written, how
/// many entries were passed over, and whether the timeout was due.
pub proof fn law_outcomes(req: RequestView, c: ChangeView, invalid: usize)
    ensures
        ({
            let o = outcome_of(req, c, invalid);
            &&& o.family == req.family
            &&& match c {
                ChangeView::Unchanged => o.action is Unchanged && o.entries == 0 && o.invalid == 0
                    && !o.refresh,
                ChangeView::Replace { nets, .. } => o.action is Full && o.invalid == invalid
                    && o.refresh == req.refresh && (nets.len() <= usize::MAX ==> o.entries
                    == nets.len()),
                ChangeView::Delta { added, removed, .. } => o.action is Delta && o.invalid
                    == invalid && !o.refresh && (added.len() + removed.len() <= usize::MAX
                    ==> o.entries == added.len() + removed.len()),
            }
        }),
{
}

/// The scripts of a change: one for a replacement; for a delta one for every network
/// that leaves, whose failure does not count, and behind them one for all that come, if
/// any.
pub proof fn law_scripts_of_changes(
    family: u8,
    nets: Seq<IpNet>,
    removed: Seq<IpNet>,
    snapshot: i64,
    etag: Seq<char>,
    i: int,
)
    ensures
        scripts_of(family, ChangeView::Unchanged).len() == 0,
        scripts_of(family, ChangeView::Replace { nets, snapshot, etag }) == seq![
            ScriptView { text: nft::replacement(family, nets), needed: true },
        ],
        ({
            let v = scripts_of(
                family,
                ChangeView::Delta { added: nets, removed, snapshot, etag },
            );
            &&& v.len() == removed.len() + (if nets.len() == 0 { 0nat } else { 1 })
            &&& 0 <= i < removed.len() ==> v[i] == (ScriptView {
                text: nft::removal(family, removed[i]),
                needed: false,
            })
            &&& nets.len() > 0 ==> v.last() == (ScriptView {
                text: nft::addition(family, nets),
                needed: true,
            })
        }),
{
}

/// IPv4 is pulled where it is switched on, and so is IPv6; every feed has a key of its
/// own, made of its tier and family.
pub proof fn law_feeds_and_keys(cfg: Config, t1: Seq<char>, t2: Seq<char>, f1: u8, f2: u8)
    ensures
        is_wanted(cfg, 4) == cfg.ipv4,
        is_wanted(cfg, 6) == cfg.ipv6,
        feed_key_of(t1, 4) == t1 + "/v4"@,
        feed_key_of(t1, 6) == t1 + "/v6"@,
{
    reveal_strlit("/v4");
    reveal_strlit("/v6");
    reveal_strlit("/v");
    assert(decimal(4) =~= seq!['4']);
    assert(decimal(6) =~= seq!['6']);
    assert("/v4"@ =~= "/v"@ + seq!['4']);
    assert("/v6"@ =~= "/v"@ + seq!['6']);
    assert(feed_key_of(t1, 4) =~= t1 + "/v4"@);
    assert(feed_key_of(t1, 6) =~= t1 + "/v6"@);
}

/// How an outcome reads, in full.
pub proof fn law_outcome_text(o: Outcome)
    ensures
        o.action is Unchanged ==> outcome_text(o) == "feed v"@ + decimal(o.family as nat)
            + ": unchanged"@,
        !(o.action is Unchanged) ==> outcome_text(o) == "feed v"@ + decimal(o.family as nat) + (
        if o.action is Full {
            ": full update"@
        } else {
            ": delta update"@
        }) + (if o.refresh {
            " (timeout refresh), "@
        } else {
            ", "@
        }) + decimal(o.entries as nat) + " entries"@ + (if o.invalid > 0 {
            ", "@ + decimal(o.invalid as nat) + " invalid entries skipped"@
        } else {
            ""@
        }),
{
    reveal_strlit(": ");
    reveal_strlit("unchanged");
    reveal_strlit(": unchanged");
    reveal_strlit("full");
    reveal_strlit("delta");
    reveal_strlit(" update");
    reveal_strlit(": full update");
    reveal_strlit(": delta update");
    reveal_strlit(" (timeout refresh)");
    reveal_strlit(" (timeout refresh), ");
    reveal_strlit(", ");
    reveal_strlit("");
    assert(": unchanged"@ =~= ": "@ + "unchanged"@);
    assert(": full update"@ =~= ": "@ + "full"@ + " update"@);
    assert(": delta update"@ =~= ": "@ + "delta"@ + " update"@);
    assert(" (timeout refresh), "@ =~= " (timeout refresh)"@ + ", "@);
    if o.action is Unchanged {
        assert(outcome_text(o) =~= "feed v"@ + decimal(o.family as nat) + ": unchanged"@);
    } else {
        assert(outcome_text(o) =~= "feed v"@ + decimal(o.family as nat) + (if o.action is Full {
            ": full update"@
        } else {
            ": delta update"@
        }) + (if o.refresh {
            " (timeout refresh), "@
        } else {
            ", "@
        }) + decimal(o.entries as nat) + " entries"@ + (if o.invalid > 0 {
            ", "@ + decimal(o.invalid as nat) + " invalid entries skipped"@
        } else {
            ""@
        }));
    }
}

/// A request, a change and a script tell all of their fields as values.
pub proof fn law_views_tell_all(r: Request, c: Change, s: Script)
    ensures
        r@.family == r.family && r@.full == r.full && r@.refresh == r.refresh && r@.etag == r.etag@
            && r@.since == r.since,
        s@.text == s.text@ && s@.needed == s.needed,
        match (c, c@) {
            (Change::Unchanged, ChangeView::Unchanged) => true,
            (
                Change::Replace { nets, snapshot, etag },
                ChangeView::Replace { nets: n, snapshot: s, etag: e },
            ) => n == nets@ && s == snapshot && e == etag@,
            (
                Change::Delta { added, removed, snapshot, etag },
                ChangeView::Delta { added: a, removed: r, snapshot: s, etag: e },
            ) => a == added@ && r == removed@ && s == snapshot && e == etag@,
            _ => false,
        },
{
}

/// Scripts as values, one for one, in order.
pub proof fn law_scripts_tell_all(v: Seq<Script>, i: int)
    ensures
        scripts_shown(v).len() == v.len(),
        0 <= i < v.len() ==> scripts_shown(v)[i] == v[i]@,
{
}

} // verus!
