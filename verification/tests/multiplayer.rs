use minsec::proto::sign::SigningKey;
use minsec::proto::types::{
    Challenge, EnrollResponse, ErrorResponse, Report, ReportResponse, POW_ALGO,
};
use minsec::sync::client::{
    accept_challenge, bad_response, error_from, feed_reply, read_ok, sign_report, transport_error,
    Api, FeedFetch,
};
use minsec::sync::config::{Config, DEFAULT_SERVER};
use minsec::sync::enroll::{after_failure, answer, enrolled, Next};
use minsec::sync::events::{
    next_cursor, pick_ban, pick_bans, plan_read, text_lines, BanEvent, Parsed, ReadPlan,
};
use minsec::sync::nft::{
    add_script, ensure_sets_script, failure, parse_entries, parse_entry, push_elements,
    remove_script, replace_script, set_name,
};
use minsec::sync::pull::{
    self, after_script, describe, family_name, feed_key, plan, refetch, remember, respond, wanted,
    Action, Change,
};
use minsec::sync::report::{self, to_report, valid_filter, Run, Step, MAX_EVENT_AGE};
use minsec::sync::state::{Cursor, State, Store};
use minsec::sync::status::{cursor_text, feed_text, fmt_age, pulled_text};

#[test]
fn config_defaults_and_overrides() {
    let t: toml::Table = toml::from_str("tier = \"high\"\nipv6 = false\n").unwrap();
    let mut cfg = Config::default();
    cfg.tier = t["tier"].as_str().unwrap().into();
    cfg.ipv6 = t["ipv6"].as_bool().unwrap();
    assert_eq!(cfg.tier, "high");
    assert!(!cfg.ipv6);
    assert_eq!(cfg.server, DEFAULT_SERVER);
    assert!(cfg.report && cfg.pull && cfg.ipv4);
    assert!(cfg.validate("p").is_ok());
}

#[test]
fn sync_settings_are_validated() {
    let mut cfg = Config::default();
    cfg.tier = "gold".into();
    assert_eq!(cfg.validate("/p").unwrap_err(), "/p: tier must be \"basic\" or \"high\"");
    cfg.tier = "basic".into();
    cfg.server = "ftp://x".into();
    assert_eq!(cfg.validate("/p").unwrap_err(), "/p: server must be an http(s) URL");
    cfg.server = "http://x".into();
    assert!(cfg.validate("/p").is_ok());
}

const BAN: &str = r#"{"kind":"ban","ts":100,"net":"203.0.113.7/32","filter":"sshd","ttl":600,"hits":5,"escalation":0,"manual":false}"#;
const MANUAL: &str = r#"{"kind":"ban","ts":101,"net":"198.51.100.1/32","filter":"sshd","ttl":600,"hits":1,"escalation":0,"manual":true}"#;
const START: &str = r#"{"kind":"start","ts":99,"version":"0.1.4"}"#;

/// A log file by inode and contents, and the rotated one.
struct Logs {
    current: (u64, Vec<u8>),
    rotated: Option<(u64, Vec<u8>)>,
}

fn parse_event(line: &str) -> Parsed {
    let v: serde_json::Value = match serde_json::from_str(line) {
        Ok(v) => v,
        Err(_) => return Parsed { kind: None, ban: None },
    };
    let text = |k: &str| v[k].as_str().map(String::from);
    let ban = || {
        Some(BanEvent {
            ts: v["ts"].as_u64()?,
            net: text("net")?,
            filter: text("filter")?,
            ttl: v["ttl"].as_u64()?,
            hits: v["hits"].as_u64()? as u32,
            escalation: v["escalation"].as_u64()? as u32,
            manual: v["manual"].as_bool()?,
        })
    };
    Parsed { kind: text("kind"), ban: ban() }
}

fn read_bans(bytes: &[u8], out: &mut Vec<BanEvent>) -> usize {
    let (lines, consumed) = text_lines(bytes);
    let parsed = lines.iter().map(|l| parse_event(l)).collect();
    pick_bans(&parsed, out);
    consumed
}

fn read_new(logs: &Logs, cursor: Option<Cursor>) -> (Vec<BanEvent>, Cursor) {
    let mut bans = Vec::new();
    let current = Some((logs.current.0, logs.current.1.len() as u64));
    match plan_read(current, logs.rotated.as_ref().map(|r| r.0), cursor) {
        ReadPlan::Nothing { cursor } => (bans, cursor),
        ReadPlan::Read { rotated, ino, start } => {
            if let Some(offset) = rotated {
                read_bans(&logs.rotated.as_ref().unwrap().1[offset as usize..], &mut bans);
            }
            let n = read_bans(&logs.current.1[start as usize..], &mut bans);
            (bans, next_cursor(ino, start, n))
        }
    }
}

#[test]
fn skips_manual_and_other_kinds_and_partial_lines() {
    let text = format!("{START}\n{BAN}\n{MANUAL}\n{{\"kind\":\"ban\",\"truncated");
    let logs = Logs { current: (7, text.into_bytes()), rotated: None };
    let (bans, cursor) = read_new(&logs, None);
    assert_eq!(bans.len(), 1);
    assert_eq!(bans[0].net, "203.0.113.7/32");
    assert_eq!(bans[0].hits, 5);
    // Cursor stops before the partial line.
    let complete = format!("{START}\n{BAN}\n{MANUAL}\n").len() as u64;
    assert_eq!(cursor.offset, complete);

    // Nothing new: same cursor, no bans.
    let (again, cursor2) = read_new(&logs, Some(cursor));
    assert!(again.is_empty());
    assert_eq!(cursor2, cursor);
}

#[test]
fn follows_rotation() {
    let mut logs = Logs { current: (1, format!("{BAN}\n").into_bytes()), rotated: None };
    let (first, cursor) = read_new(&logs, None);
    assert_eq!(first.len(), 1);

    // The old file keeps its inode and gets a late event; a new file follows.
    let late = BAN.replace("203.0.113.7", "203.0.113.8");
    let fresh = BAN.replace("203.0.113.7", "203.0.113.9");
    logs.rotated = Some((1, format!("{BAN}\n{late}\n").into_bytes()));
    logs.current = (2, format!("{fresh}\n").into_bytes());

    let (got, cursor) = read_new(&logs, Some(cursor));
    let nets: Vec<_> = got.iter().map(|b| b.net.as_str()).collect();
    assert_eq!(nets, vec!["203.0.113.8/32", "203.0.113.9/32"]);

    // And the cursor now tracks the new file.
    let (done, _) = read_new(&logs, Some(cursor));
    assert!(done.is_empty());
}

#[test]
fn truncation_resets() {
    let mut logs = Logs { current: (1, format!("{BAN}\n{BAN}\n").into_bytes()), rotated: None };
    let (first, cursor) = read_new(&logs, None);
    assert_eq!(first.len(), 2);
    logs.current.1 = format!("{BAN}\n").into_bytes();
    let (got, _) = read_new(&logs, Some(cursor));
    assert_eq!(got.len(), 1);
}

#[test]
fn only_automatic_bans_are_picked() {
    let parsed = |kind: Option<&str>, ban: Option<BanEvent>| Parsed {
        kind: kind.map(String::from),
        ban,
    };
    let hand = BanEvent { manual: true, ..ban(1, "n", "f") };
    let auto = || Some(ban(1, "n", "f"));
    let ev = pick_ban(&parsed(Some("ban"), auto())).unwrap();
    assert_eq!((ev.ts, ev.net.as_str(), ev.filter.as_str(), ev.manual), (1, "n", "f", false));
    assert!(pick_ban(&parsed(Some("ban"), Some(hand))).is_none());
    assert!(pick_ban(&parsed(Some("ban"), None)).is_none());
    assert!(pick_ban(&parsed(Some("unban"), auto())).is_none());
    assert!(pick_ban(&parsed(None, auto())).is_none());
}

#[test]
fn lines_that_are_no_text_are_passed_over() {
    assert_eq!(text_lines(b"a\n\xff\xfe\n\nb"), (vec!["a\n".to_string(), "\n".to_string()], 6));
    assert_eq!(text_lines(b"tail"), (vec![], 0));
    // One run or two: the same lines.
    let log: &[u8] = b"one\ntwo\nthree\n";
    let (all, n) = text_lines(log);
    for cut in 0..log.len() {
        let (mut first, done) = text_lines(&log[..cut]);
        let (rest, more) = text_lines(&log[done..]);
        first.extend(rest);
        assert_eq!((&first, done + more), (&all, n));
    }
}

#[test]
fn reading_starts_where_it_should() {
    assert_eq!(
        plan_read(None, Some(1), Some(Cursor { ino: 1, offset: 5 })),
        ReadPlan::Nothing { cursor: Cursor { ino: 1, offset: 5 } }
    );
    assert_eq!(
        plan_read(Some((2, 9)), Some(3), Some(Cursor { ino: 1, offset: 5 })),
        ReadPlan::Read { rotated: None, ino: 2, start: 0 }
    );
}

#[test]
fn entry_validation() {
    assert_eq!(parse_entry("203.0.113.7", 4).unwrap().to_text(), "203.0.113.7/32");
    assert_eq!(
        parse_entry("198.51.100.0/24", 4).unwrap().to_text(),
        "198.51.100.0/24"
    );
    assert_eq!(parse_entry("2001:db8::/64", 6).unwrap().to_text(), "2001:db8::/64");
    assert!(parse_entry("203.0.113.7", 6).is_none(), "family mismatch");
    assert!(parse_entry("2001:db8::1", 4).is_none(), "family mismatch");
    assert!(parse_entry("not-an-ip", 4).is_none());
    assert!(parse_entry("203.0.113.7; drop table", 4).is_none());
}

#[test]
fn scripts() {
    let nets = vec![
        parse_entry("203.0.113.7", 4).unwrap(),
        parse_entry("198.51.100.0/24", 4).unwrap(),
    ];
    let mut s = String::new();
    push_elements(&mut s, "add", "crowd4", &nets);
    assert_eq!(s, "add element inet minsec crowd4 { 203.0.113.7, 198.51.100.0/24 }\n");
}

#[test]
fn whole_scripts() {
    let nets = vec![parse_entry("203.0.113.7", 4).unwrap(); 501];
    let s = replace_script(4, &nets);
    let lines: Vec<&str> = s.lines().collect();
    assert_eq!(lines.len(), 3);
    assert_eq!(lines[0], "flush set inet minsec crowd4");
    assert_eq!(lines[1].matches("203.0.113.7").count(), 500);
    assert_eq!(lines[2], "add element inet minsec crowd4 { 203.0.113.7 }");
    assert_eq!(
        remove_script(4, &nets[0]),
        "delete element inet minsec crowd4 { 203.0.113.7 }\n"
    );
    assert_eq!(add_script(6, &vec![]), None);
    assert_eq!(set_name(6), "crowd6");
    assert_eq!(
        ensure_sets_script(),
        "add table inet minsec\n\
         add set inet minsec crowd4 { type ipv4_addr; flags interval, timeout; timeout 24h; }\n\
         add set inet minsec crowd6 { type ipv6_addr; flags interval, timeout; timeout 24h; }\n"
    );
    assert_eq!(failure("exit status: 1", " oops\n"), "nft failed (exit status: 1): oops");
    let (got, invalid) = parse_entries(&vec!["1.2.3.4".into(), "::1".into(), "x".into()], 4);
    assert_eq!((got.len(), invalid), (1, 2));
}

fn ban(ts: u64, net: &str, filter: &str) -> BanEvent {
    BanEvent {
        ts,
        net: net.into(),
        filter: filter.into(),
        ttl: 600,
        hits: 3,
        escalation: 2,
        manual: false,
    }
}

#[test]
fn normalization() {
    let now = 1_000_000_000;
    assert_eq!(
        to_report(&ban(now, "203.0.113.7/32", "sshd"), now).unwrap().ip,
        "203.0.113.7/32"
    );
    // v6 narrower than /64 aggregates to /64.
    let r = to_report(&ban(now, "2001:db8:1:2:3:4:5:6/128", "sshd"), now).unwrap();
    assert_eq!(r.ip, "2001:db8:1:2::/64");
    // Out-of-bounds prefixes are dropped.
    assert!(to_report(&ban(now, "10.0.0.0/8", "sshd"), now).is_none());
    assert!(to_report(&ban(now, "2001:db8::/32", "sshd"), now).is_none());
    // Old events and bad filters are dropped.
    assert!(to_report(&ban(now - MAX_EVENT_AGE - 1, "203.0.113.7/32", "sshd"), now).is_none());
    assert!(to_report(&ban(now, "203.0.113.7/32", "SSHD!"), now).is_none());
    assert!(to_report(&ban(now, "203.0.113.7/32", "postfix-sasl"), now).is_some());
}

#[test]
fn reports_carry_the_event() {
    let now = 1_000_000_000;
    let r = to_report(&ban(now + 60, "203.0.113.9/24", "sshd"), now).unwrap();
    assert_eq!((r.ip.as_str(), r.count, r.ban_ttl, r.escalation), ("203.0.113.0/24", 3, 600, 2));
    assert_eq!(r.ts, 1_000_000_060);
    assert!(to_report(&ban(now + 61, "203.0.113.9/24", "sshd"), now).is_none());
    let mut ev = ban(now, "203.0.113.7/32", "sshd");
    ev.hits = 0;
    assert_eq!(to_report(&ev, now).unwrap().count, 1);
    ev.manual = true;
    assert!(to_report(&ev, now).is_none());
    assert!(to_report(&ban(now, "garbage", "sshd"), now).is_none());
    assert!(!valid_filter(""));
    assert!(valid_filter(&"a".repeat(64)));
    assert!(!valid_filter(&"a".repeat(65)));
    assert!(!valid_filter("é"));
}

fn taken(accepted: u64, duplicate: bool) -> ReportResponse {
    ReportResponse { accepted, rejected: 1, duplicate }
}

#[test]
fn report_runs() {
    let now = 1_000_000_000;
    let bans: Vec<BanEvent> = (0..1001).map(|_| ban(now, "203.0.113.7/32", "sshd")).collect();
    let mut state = State::default();
    let at = Cursor { ino: 1, offset: 99 };
    let (mut run, step) = Run::begin(&mut state, &bans, at, now);
    let Step::Send { batch, save } = step else { panic!() };
    assert_eq!((batch.seq, batch.reports.len(), save), (now, 1000, false));
    assert_eq!(batch.agent_version, "minsec-sync/0.1.4");
    // A duplicate is sent again a day ahead.
    let Step::Send { batch, .. } = run.reply(&mut state, &taken(0, true), now) else { panic!() };
    assert_eq!((batch.seq, batch.reports.len()), (now + 86_400, 1000));
    // The second batch goes on from there, and the cursor has not moved yet.
    let Step::Send { batch, save } = run.reply(&mut state, &taken(999, false), now) else { panic!() };
    assert_eq!((batch.seq, batch.reports.len(), save), (now + 86_401, 1, true));
    assert_eq!(state.cursor, None);
    assert!(matches!(run.reply(&mut state, &taken(1, false), now), Step::Done));
    assert_eq!(state.cursor, Some(at));
    assert_eq!(state.next_seq, now + 86_402);
    assert_eq!(
        report::describe(&run.out, true),
        "reported 1001 events (1000 accepted, 2 rejected, 0 skipped)"
    );
}

#[test]
fn report_runs_that_end_early() {
    let now = 1_000_000_000;
    let at = Cursor { ino: 1, offset: 99 };
    let mut state = State::default();
    let (run, step) = Run::begin(&mut state, &vec![ban(0, "203.0.113.7/32", "sshd")], at, now);
    assert!(matches!(step, Step::Done));
    assert_eq!((run.out.sent, run.out.skipped, state.cursor), (0, 1, Some(at)));
    let mut state = State::default();
    let (mut run, _) = Run::begin(&mut state, &vec![ban(now, "203.0.113.7/32", "sshd")], at, now);
    run.reply(&mut state, &taken(0, true), now);
    assert!(matches!(run.reply(&mut state, &taken(0, true), now), Step::Refused));
    assert_eq!((state.cursor, state.next_seq), (None, 0));
}

fn body(text: &str) -> FeedFetch {
    FeedFetch::Body { text: text.into(), etag: "\"e\"".into() }
}

#[test]
fn pulls() {
    let mut state = State::default();
    let now = 1_000_000;
    let req = plan(&state, "basic", 4, now);
    assert!(req.full && !req.refresh);
    let full = "# minsec-feed v1 full tier=basic family=4 snapshot=7\n203.0.113.7\nbad\n";
    let (c, invalid) = respond(&req, body(full)).unwrap();
    assert!(matches!(&c, Change::Replace { nets, snapshot: 7, .. } if nets.len() == 1));
    let o = remember(&mut state, "basic", &req, c, invalid, now - 9, now);
    assert_eq!(describe(&o), "feed v4: full update, 1 entries, 1 invalid entries skipped");

    // Soon after: only what has changed.
    let req = plan(&state, "basic", 4, now + 60);
    assert_eq!((req.full, req.since, req.etag.as_str()), (false, 7, "\"e\""));
    let (c, _) = respond(&req, FeedFetch::NotModified).unwrap();
    let o = remember(&mut state, "basic", &req, c, 0, now + 60, now + 61);
    assert_eq!(describe(&o), "feed v4: unchanged");
    let delta = "# minsec-feed v1 delta family=4 from=7 to=9\n+198.18.0.1\n-203.0.113.7\n";
    let (c, invalid) = respond(&req, body(delta)).unwrap();
    assert!(matches!(&c, Change::Delta { added, removed, snapshot: 9, .. }
        if added.len() == 1 && removed.len() == 1));
    let o = remember(&mut state, "basic", &req, c, invalid, now + 60, now + 61);
    assert_eq!((o.action, o.entries), (Action::Delta, 2));
    let cursor = state.feeds.get(&"basic/v4".to_string()).unwrap();
    assert_eq!((cursor.snapshot, cursor.last_full), (9, now));

    // Past the deadline: the whole listing again.
    let req = plan(&state, "basic", 4, now + 43_200);
    assert!(req.full && req.refresh && req.etag.is_empty());
    assert_eq!(
        respond(&req, FeedFetch::NotModified).unwrap_err(),
        "server returned 304 to an unconditional feed request"
    );
    assert_eq!(
        respond(&req, body("# minsec-feed v1 full family=6\n")).unwrap_err(),
        "server sent family 6 for a v4 request"
    );
    assert!(respond(&req, body("junk")).unwrap_err().starts_with("feed parse error: "));
    let (c, invalid) = respond(&req, body(full)).unwrap();
    let o = remember(&mut state, "basic", &req, c, invalid, now + 43_200, now + 43_201);
    assert!(describe(&o).contains("full update (timeout refresh), 1 entries"));
    let again = refetch(6);
    assert!(again.full && !again.refresh && again.family == 6);
}

#[test]
fn changes_become_scripts() {
    let net = |s: &str| parse_entry(s, 4).unwrap();
    let shown = |c: &Change| -> Vec<(String, bool)> {
        pull::scripts(4, c).into_iter().map(|s| (s.text, s.needed)).collect()
    };
    assert!(shown(&Change::Unchanged).is_empty());
    let full = Change::Replace { nets: vec![net("203.0.113.7")], snapshot: 1, etag: String::new() };
    assert_eq!(
        shown(&full),
        vec![(
            "flush set inet minsec crowd4\nadd element inet minsec crowd4 { 203.0.113.7 }\n".to_string(),
            true
        )]
    );
    let delta = Change::Delta {
        added: vec![net("198.18.0.1")],
        removed: vec![net("203.0.113.7"), net("10.0.0.0/8")],
        snapshot: 2,
        etag: String::new(),
    };
    assert_eq!(
        shown(&delta),
        vec![
            ("delete element inet minsec crowd4 { 203.0.113.7 }\n".to_string(), false),
            ("delete element inet minsec crowd4 { 10.0.0.0/8 }\n".to_string(), false),
            ("add element inet minsec crowd4 { 198.18.0.1 }\n".to_string(), true),
        ]
    );
    assert_eq!(after_script(&delta, false), pull::Next::Keep);
    assert_eq!(after_script(&delta, true), pull::Next::Refetch);
    assert_eq!(after_script(&full, true), pull::Next::Fail);
    // A whole listing that came by itself restarts the clock at the pull's start.
    let mut state = State::default();
    let mut req = refetch(4);
    req.full = false;
    remember(&mut state, "basic", &req, full, 0, 90, 100);
    assert_eq!(state.feeds.value_at(0).last_full, 90);
}

#[test]
fn pull_names() {
    assert_eq!(feed_key("basic", 4), "basic/v4");
    assert_eq!((family_name(4), family_name(6)), ("v4", "v6"));
    let mut cfg = Config::default();
    cfg.ipv6 = false;
    assert!(wanted(&cfg, 4) && !wanted(&cfg, 6));
}

#[test]
fn api_replies() {
    let parsed = Some(ErrorResponse { error: "quota_exceeded".into(), message: "later".into() });
    let e = read_ok(429, Some("30".into()), "{}".into(), parsed).unwrap_err();
    assert_eq!(e.message(), "server said quota_exceeded (429): later [retry after 30s]");
    let e = read_ok(500, Some("soon".into()), "é".repeat(300), None).unwrap_err();
    assert_eq!((e.code.as_str(), e.retry_after, e.message.chars().count()), ("http_500", None, 200));
    assert_eq!(error_from(404, None, "", None).message(), "server said http_404 (404)");
    assert_eq!(read_ok(204, None, "x".into(), None).unwrap(), "x");
    assert_eq!(read_ok(300, None, "x".into(), None).unwrap_err().status, 300);
    assert_eq!(transport_error("down".into()).message(), "server said transport (0): down");
    assert_eq!(bad_response(200, "eof".into()).message(), "server said bad_response (200): eof");
    assert!(matches!(feed_reply(304, None, None, String::new(), None), Ok(FeedFetch::NotModified)));
    match feed_reply(200, Some("\"a\"".into()), None, "t".into(), None) {
        Ok(FeedFetch::Body { text, etag }) => assert_eq!((text.as_str(), etag.as_str()), ("t", "\"a\"")),
        _ => panic!(),
    }
    assert!(feed_reply(503, None, None, "t".into(), None).is_err());
}

#[test]
fn api_urls() {
    let api = Api::new("https://api.minsec.io//");
    assert_eq!(api.url("/v1/enroll"), "https://api.minsec.io/v1/enroll");
    assert_eq!(api.feed_url("basic", "v4", 0), "https://api.minsec.io/v1/feed/basic/v4");
    assert_eq!(api.feed_url("high", "v6", 12), "https://api.minsec.io/v1/feed/high/v6?since=12");
    let key = SigningKey::from_bytes(&[7; 32]);
    let h = sign_report(&key, "host", 5, b"body");
    assert_eq!((h.host.as_str(), h.timestamp.as_str()), ("host", "5"));
    assert_eq!(h.signature.len(), 88);
    assert!(h.signature.ends_with("=="));
}

#[test]
fn enrollment() {
    let ch = |algo: &str| Challenge {
        challenge: "c".into(),
        difficulty: 4,
        expires_in: 60,
        algo: algo.into(),
    };
    assert_eq!(
        accept_challenge(ch("md5")).unwrap_err(),
        "server wants unknown PoW algorithm \"md5\"; upgrade minsec-sync"
    );
    let ok = accept_challenge(ch(POW_ALGO)).unwrap();
    let key = SigningKey::from_bytes(&[0; 32]);
    let req = answer(&ok, &key).unwrap();
    assert!(minsec::proto::pow::check("c", &req.pow_nonce, 4));
    assert_eq!(req.pubkey, "O2onvM62pC1io6jQKm8Nc2UyFXcd4kOmOsBIoYtZ2ik=");
    let known = error_from(409, None, "", Some(ErrorResponse {
        error: "already_enrolled".into(),
        message: String::new(),
    }));
    assert!(matches!(after_failure(&known, 0), Next::NewKey));
    assert!(matches!(after_failure(&known, 1), Next::Fail));
    assert!(matches!(after_failure(&transport_error("x".into()), 0), Next::Fail));
    let mut state = State::default();
    enrolled(&mut state, &EnrollResponse {
        host_id: "abc".into(),
        report_url: String::new(),
        feed_url: String::new(),
        min_report_interval: 9,
    });
    assert_eq!((state.host_id.as_deref(), state.min_report_interval), (Some("abc"), 9));
}

#[test]
fn stores_and_status() {
    let store = Store { dir: "/var/lib/minsec/sync".into() };
    assert_eq!(store.state_path(), "/var/lib/minsec/sync/state.json");
    assert_eq!(store.read_key(&[5; 32]).unwrap().seed, [5; 32]);
    assert_eq!(
        store.read_key(&[5; 31]).err().unwrap(),
        "corrupt key file /var/lib/minsec/sync/key"
    );
    assert_eq!(fmt_age(89), "89s");
    assert_eq!(fmt_age(90), "1m");
    assert_eq!(fmt_age(5400), "1h");
    assert_eq!(fmt_age(172_800), "2d");
    assert_eq!(cursor_text(&None), "(events log not read yet)");
    assert_eq!(cursor_text(&Some(Cursor { ino: 3, offset: 4 })), "inode 3 offset 4");
    assert_eq!(pulled_text(0, 5), "(never)");
    assert_eq!(pulled_text(5, 65), "60s ago");
    let mut state = State::default();
    let req = refetch(4);
    remember(
        &mut state,
        "basic",
        &req,
        Change::Replace { nets: vec![], snapshot: 2, etag: "\"s2\"".into() },
        0,
        90,
        100,
    );
    assert_eq!(
        feed_text("basic/v4", state.feeds.value_at(0), 100),
        "feed basic/v4: snapshot 2 etag \"s2\" (full replace 0s ago; entries expire 24h after one)"
    );
}

#[test]
fn reports_can_be_copied() {
    let r = Report {
        ts: 1,
        ip: "a".into(),
        filter: "b".into(),
        count: 2,
        ban_ttl: 3,
        escalation: 4,
    };
    let c = r.copy();
    assert_eq!((c.ts, c.ip.as_str(), c.filter.as_str(), c.escalation), (1, "a", "b", 4));
}
