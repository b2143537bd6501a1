use minsec::backend::exec::{ban_args, setup_args, unban_args, Exec};
use minsec::backend::null::Null;
use minsec::backend::{Ban, Entry, Firewall};
use minsec::config::{Config, Defaults, FilterConfig};
use minsec::control::Request;
use minsec::daemon::handle;
use minsec::duration::{Duration, HumanDuration};
use minsec::engine::{escalate, BanHistory, Engine, EngineError};
use minsec::events::{Event, EventLog, ROTATE_BYTES};
use minsec::filter::{CompiledFilter, FilterDef, JournalSelector};
use minsec::ip::IpNet;
use minsec::source::{Line, Origin};
use minsec::sync::nft::parse_entry;

fn net(s: &str) -> IpNet {
    parse_entry(s, 4).or(parse_entry(s, 6)).unwrap()
}

fn sshd() -> FilterDef {
    FilterDef {
        name: "sshd".into(),
        description: String::new(),
        files: vec!["/var/log/secure".into()],
        journal: JournalSelector {
            units: vec!["sshd.service".into()],
            identifiers: vec!["sshd".into()],
            comm: vec![],
        },
        prefilter: vec!["sshd[".into()],
        patterns: vec![r"Failed password for (?:invalid user )?<F-USER>\S+</F-USER> from <HOST> port \d+".into()],
        ignore: vec![],
        ports: vec![22],
    }
}

fn config(allow: &[&str]) -> Config {
    let mut cfg = Config::default();
    cfg.defaults.journal = false;
    cfg.defaults.maxretry = 3;
    cfg.defaults.findtime = HumanDuration(Duration::from_secs(60));
    cfg.defaults.bantime = HumanDuration(Duration::from_secs(600));
    cfg.defaults.allow = allow.iter().map(|s| net(s)).collect();
    let mut f = FilterConfig::default();
    f.enabled = true;
    cfg.filters.insert("sshd".into(), f);
    assert!(cfg.validate().is_ok());
    cfg
}

fn engine_of(cfg: Config, journal: bool) -> Engine<Null> {
    let loaded = vec![CompiledFilter::compile(sshd()).unwrap()];
    let mut e = Engine::new(cfg, Null::new(1000), loaded, journal, &vec![]);
    e.start(1000, &vec![]).unwrap();
    e
}

fn engine(allow: &[&str]) -> Engine<Null> {
    engine_of(config(allow), false)
}

fn line(text: &str) -> Line {
    Line {
        origin: Origin::File("/var/log/secure".into()),
        text: text.into(),
    }
}

#[test]
fn bans_after_maxretry() {
    let mut e = engine(&[]);
    let l = line("Jan 1 00:00:00 h sshd[1]: Failed password for root from 198.51.100.7 port 1 ssh2");
    assert!(!e.handle_line(&l, 1000)[0].banned);
    assert!(!e.handle_line(&l, 1001)[0].banned);
    let d = e.handle_line(&l, 1002);
    assert!(d[0].banned);
    assert_eq!(d[0].hits, 3);
    assert_eq!(e.list(1003).unwrap().len(), 1);
    assert_eq!(e.status(1003, 0).filters[0].banned, 1);
    // Further hits while banned do not re-ban.
    assert!(!e.handle_line(&l, 1004)[0].banned);
}

#[test]
fn allowlist_wins() {
    let mut e = engine(&["198.51.100.0/24"]);
    let l = line("sshd[1]: Failed password for root from 198.51.100.7 port 1 ssh2");
    for t in 0..10 {
        assert!(e.handle_line(&l, 1000 + t).is_empty());
    }
    assert!(e.manual_ban(net("198.51.100.9/32"), None, 1000).is_err());
}

#[test]
fn escalation_grows() {
    let mut e = engine(&[]);
    let net: IpNet = net("198.51.100.7/32");
    assert_eq!(e.escalated_ttl(Duration::from_secs(600), &net, 1000).0.as_secs(), 600);
    e.history.insert(net, BanHistory { count: 2, last: 999 });
    assert_eq!(e.escalated_ttl(Duration::from_secs(600), &net, 1000).0.as_secs(), 2400);
    e.history.insert(net, BanHistory { count: 30, last: 999 });
    assert_eq!(
        e.escalated_ttl(Duration::from_secs(600), &net, 1000).0.as_secs(),
        7 * 86_400
    );
}

#[test]
fn ipv6_keys_by_prefix() {
    let mut e = engine(&[]);
    let mk = |h: &str| {
        line(&format!(
            "sshd[1]: Failed password for root from 2001:db8:1:2::{h} port 1 ssh2"
        ))
    };
    e.handle_line(&mk("1"), 1000);
    e.handle_line(&mk("2"), 1000);
    let d = e.handle_line(&mk("3"), 1000);
    assert!(d[0].banned, "three hosts in one /64 count together");
    assert_eq!(d[0].net.to_text(), "2001:db8:1:2::/64");
}

#[test]
fn escalation_is_bounded_and_forgets() {
    let d = Defaults::default();
    let at = |count: u32, last: u32, now: u32| {
        escalate(&d, Some(BanHistory { count, last }), Duration::from_secs(600), now).0.as_secs()
    };
    assert_eq!(at(1, 0, 10), 1200);
    assert_eq!(at(u32::MAX, 0, 10), 7 * 86_400);
    // Older than the memory: as if it had never been.
    assert_eq!(at(5, 0, 30 * 86_400 + 1), 600);
    // A ban that is already longer than the bound is not cut.
    let long = Duration::from_secs(30 * 86_400);
    assert_eq!(escalate(&d, Some(BanHistory { count: 3, last: 0 }), long, 1).0.as_secs(), 30 * 86_400);
    let mut off = Defaults::default();
    off.escalate_enabled = false;
    assert_eq!(escalate(&off, Some(BanHistory { count: 3, last: 0 }), long, 1).1, 0);
}

#[test]
fn a_second_ban_lasts_longer() {
    let mut e = engine(&[]);
    let l = line("sshd[1]: Failed password for root from 198.51.100.7 port 1 ssh2");
    for _ in 0..3 {
        e.handle_line(&l, 1000);
    }
    e.tick(2000);
    for _ in 0..3 {
        e.handle_line(&l, 2000);
    }
    let ttls: Vec<(u64, u32)> = e
        .take_events()
        .iter()
        .filter_map(|ev| match ev {
            Event::Ban { ttl, escalation, .. } => Some((*ttl, *escalation)),
            _ => None,
        })
        .collect();
    assert_eq!(ttls, vec![(600, 0), (1200, 1)]);
    assert!(e.take_events().is_empty());
}

#[test]
fn unban_clears_bans_and_hits() {
    let mut e = engine(&[]);
    let l = line("sshd[1]: Failed password for root from 198.51.100.7 port 1 ssh2");
    e.handle_line(&l, 1000);
    e.handle_line(&l, 1000);
    let n = net("198.51.100.7");
    e.manual_ban(n, Some(Duration::from_secs(50)), 1000).unwrap();
    assert!(e.backend.inner.contains(&n));
    e.unban(n, 1000).unwrap();
    assert!(!e.backend.inner.contains(&n));
    assert!(e.list(1000).unwrap().is_empty());
    assert_eq!(e.handle_line(&l, 1001)[0].hits, 1);
}

#[test]
fn housekeeping_expires_bans() {
    let mut e = engine(&[]);
    let n = net("198.51.100.7");
    e.manual_ban(n, Some(Duration::from_secs(50)), 1000).unwrap();
    e.tick(1049);
    assert_eq!(e.status(1049, 7).active_bans, 1);
    e.tick(1050);
    let st = e.status(1050, 7);
    assert_eq!((st.active_bans, st.uptime, st.backend.as_str()), (0, 7, "null"));
}

#[test]
fn restart_adopts_bans_and_history() {
    let n = net("198.51.100.7/32");
    let loaded = vec![CompiledFilter::compile(sshd()).unwrap()];
    let mut e = Engine::new(config(&[]), Null::new(1000), loaded, false, &vec![]);
    e.backend.inner.ban(&vec![Ban { net: n, ttl: Duration::from_secs(40) }]).unwrap();
    let ban = |manual: bool, ts: u64| Event::Ban {
        ts,
        net: n,
        filter: "sshd".into(),
        ttl: 600,
        hits: 3,
        escalation: 0,
        manual,
    };
    e.start(1000, &vec![ban(false, 990), ban(true, 991), ban(false, 995)]).unwrap();
    assert_eq!(e.active.get(&n).unwrap().until, 1040);
    assert_eq!(*e.history.get(&n).unwrap(), BanHistory { count: 2, last: 995 });
    assert_eq!(e.escalated_ttl(Duration::from_secs(600), &n, 1000).1, 2);
    // What the backend no longer holds leaves the mirror.
    assert_eq!(e.list_from(Some(vec![]), 1000).len(), 0);
    assert!(e.active.get(&n).is_none());
}

#[test]
fn lists_are_sorted_and_named() {
    let mut e = engine(&[]);
    let l = line("sshd[1]: Failed password for root from 198.51.100.7 port 1 ssh2");
    for _ in 0..3 {
        e.handle_line(&l, 1000);
    }
    e.manual_ban(net("10.0.0.1"), None, 1000).unwrap();
    let entry = |s: &str| Entry { net: net(s), expires_in: None };
    let got = e.list_from(Some(vec![entry("198.51.100.7"), entry("10.0.0.1")]), 1000);
    let shown: Vec<(String, Option<String>)> =
        got.iter().map(|b| (b.net.to_text(), b.filter.clone())).collect();
    assert_eq!(
        shown,
        vec![
            ("10.0.0.1/32".to_string(), None),
            ("198.51.100.7/32".to_string(), Some("sshd".to_string()))
        ]
    );
    let mirror = e.list_from(None, 1001);
    assert_eq!(mirror.iter().map(|b| b.expires_in.unwrap()).collect::<Vec<_>>(), vec![599, 599]);
}

#[test]
fn journal_fields_of_ordinary_users_are_not_honoured() {
    let mut cfg = config(&[]);
    cfg.defaults.journal = true;
    let mut e = engine_of(cfg, true);
    assert!(e.file_patterns().is_empty());
    assert_eq!(e.journal_matches(), vec!["SYSLOG_IDENTIFIER=sshd", "_SYSTEMD_UNIT=sshd.service"]);
    let entry = |unit: Option<&str>, identifier: Option<&str>, uid: Option<u32>| Line {
        origin: Origin::Journal {
            unit: unit.map(String::from),
            identifier: identifier.map(String::from),
            comm: None,
            uid,
        },
        text: "Failed password for root from 198.51.100.7 port 1 ssh2".into(),
    };
    assert_eq!(e.handle_line(&entry(Some("sshd.service"), None, Some(1000)), 1000).len(), 1);
    assert_eq!(e.handle_line(&entry(None, Some("sshd"), Some(0)), 1000).len(), 1);
    assert_eq!(e.handle_line(&entry(None, Some("sshd"), Some(1000)), 1000).len(), 0);
    assert_eq!(e.handle_line(&entry(None, Some("sshd"), None), 1000).len(), 0);
    // The prefilter looks for a syslog prefix; journal entries have none.
    assert_eq!(e.status(1000, 0).filters[0].matched, 2);
}

#[test]
fn lines_of_other_files_go_nowhere() {
    let mut e = engine(&[]);
    assert_eq!(e.file_patterns(), vec!["/var/log/secure"]);
    let l = Line {
        origin: Origin::File("/var/log/other".into()),
        text: "sshd[1]: Failed password for root from 198.51.100.7 port 1 ssh2".into(),
    };
    assert!(e.handle_line(&l, 1000).is_empty());
    assert_eq!(e.status(1000, 0).lines, 1);
    e.stop(1001);
    assert!(matches!(e.take_events().last(), Some(Event::Stop { ts: 1001 })));
}

/// A backend that always fails.
struct Broken;

impl Firewall for Broken {
    fn name(&self) -> String {
        "broken".into()
    }
    fn setup(&mut self) -> Result<(), String> {
        Err("no".into())
    }
    fn ban(&mut self, _bans: &Vec<Ban>) -> Result<(), String> {
        Err("no".into())
    }
    fn unban(&mut self, _nets: &Vec<IpNet>) -> Result<(), String> {
        Err("no".into())
    }
    fn list(&mut self) -> Result<Option<Vec<Entry>>, String> {
        Err("no".into())
    }
    fn set_allow(&mut self, _nets: &Vec<IpNet>) -> Result<(), String> {
        Err("no".into())
    }
}

#[test]
fn backend_failures_leave_no_ban() {
    let loaded = vec![CompiledFilter::compile(sshd()).unwrap()];
    let mut e = Engine::new(config(&[]), Broken, loaded, false, &vec![]);
    assert!(matches!(e.start(1000, &vec![]), Err(EngineError::Backend { .. })));
    let n = net("198.51.100.7");
    assert_eq!(e.manual_ban(n, None, 1000).unwrap_err().message(), "no");
    assert!(e.unban(n, 1000).is_err());
    assert!(e.list(1000).is_err());
    let l = line("sshd[1]: Failed password for root from 198.51.100.7 port 1 ssh2");
    for _ in 0..2 {
        e.handle_line(&l, 1000);
    }
    assert!(e.handle_line(&l, 1000)[0].banned);
    assert_eq!(e.status(1000, 0).bans_total, 0);
    assert!(e.take_events().is_empty());
}

#[test]
fn control_requests_are_answered() {
    let mut e = engine(&["192.0.2.0/24"]);
    assert_eq!(handle(&mut e, Request::Ping, 1000, 0).message.as_deref(), Some("pong"));
    let r = handle(&mut e, Request::Ban { net: net("198.51.100.0/24"), ttl: Some(5) }, 1000, 0);
    assert_eq!(r.message.as_deref(), Some("banned 198.51.100.0/24"));
    assert_eq!(handle(&mut e, Request::List, 1000, 0).bans.unwrap().len(), 1);
    let r = handle(&mut e, Request::Unban { net: net("198.51.100.0/24") }, 1000, 0);
    assert_eq!(r.message.as_deref(), Some("unbanned 198.51.100.0/24"));
    let r = handle(&mut e, Request::Ban { net: net("192.0.2.1"), ttl: None }, 1000, 0);
    assert!(!r.ok);
    assert_eq!(
        r.error.as_deref(),
        Some("192.0.2.1/32 is on the allow list (or local); refusing to ban")
    );
    assert_eq!(handle(&mut e, Request::Status, 1000, 9).status.unwrap().uptime, 9);
    assert_eq!(handle(&mut e, Request::Filters, 1000, 0).filters.unwrap(), vec!["sshd"]);
}

#[test]
fn null_backend_keeps_time() {
    let mut b = Null::new(100);
    let n = net("10.0.0.1");
    b.ban(&vec![Ban { net: n, ttl: Duration::from_secs(10) }]).unwrap();
    assert_eq!(b.remaining(&n).unwrap().as_secs(), 10);
    b.set_clock(109);
    assert!(b.contains(&n));
    assert_eq!(b.list().unwrap().unwrap()[0].expires_in.unwrap().as_secs(), 1);
    b.set_clock(110);
    assert!(!b.contains(&n));
    assert!(b.list().unwrap().unwrap().is_empty());
    assert!(b.remaining(&n).is_none());
}

#[test]
fn exec_backend_arguments() {
    let e = Exec::new("/usr/local/bin/fw".into());
    let args = ban_args(&Ban { net: net("10.0.0.1"), ttl: Duration::from_secs(600) });
    assert_eq!(args, vec!["ban", "10.0.0.1", "600"]);
    assert_eq!(unban_args(&net("10.0.0.0/8")), vec!["unban", "10.0.0.0/8"]);
    assert_eq!(
        e.shell_args(&setup_args()),
        vec!["-c", "/usr/local/bin/fw \"$@\"", "minsec", "setup"]
    );
    assert_eq!(e.failure("exit status: 1"), "exec backend `/usr/local/bin/fw` failed: exit status: 1");
}

#[test]
fn the_event_log_rotates() {
    let mut log = EventLog::open(ROTATE_BYTES - 10);
    assert!(!log.append(9));
    assert!(log.append(1));
    log.rotate();
    assert_eq!(log.written, 0);
    assert!(!EventLog::sink().append(u64::MAX));
    assert_eq!(Event::Stop { ts: 5 }.ts(), 5);
}

#[test]
fn the_log_tells_the_history() {
    let mut e = engine(&[]);
    let l = line("sshd[1]: Failed password for root from 198.51.100.7 port 1 ssh2");
    for now in [1000, 2000] {
        for _ in 0..3 {
            e.handle_line(&l, now);
        }
    }
    e.manual_ban(net("10.0.0.1"), None, 2001).unwrap();
    let log = e.take_events();
    let loaded = vec![CompiledFilter::compile(sshd()).unwrap()];
    let mut again = Engine::new(config(&[]), Null::new(2100), loaded, false, &vec![]);
    again.start(2100, &log).unwrap();
    let n = net("198.51.100.7");
    assert_eq!(e.history.get(&n), Some(&BanHistory { count: 2, last: 2000 }));
    assert_eq!(again.history.get(&n), e.history.get(&n));
    assert!(again.history.get(&net("10.0.0.1")).is_none());
}

#[test]
fn control_failures_carry_the_backend_error() {
    let loaded = vec![CompiledFilter::compile(sshd()).unwrap()];
    let mut e = Engine::new(config(&[]), Broken, loaded, false, &vec![]);
    for req in [
        Request::List,
        Request::Ban { net: net("198.51.100.7"), ttl: None },
        Request::Unban { net: net("198.51.100.7") },
    ] {
        let r = handle(&mut e, req, 1000, 0);
        assert_eq!((r.ok, r.error.as_deref(), r.bans.is_none()), (false, Some("no"), true));
    }
}

#[test]
fn times_beyond_the_clock_are_not_cut() {
    let mut cfg = config(&[]);
    cfg.defaults.escalate.memory = HumanDuration(Duration::from_secs(1 << 32));
    let mut e = engine_of(cfg, false);
    let n = net("198.51.100.7");
    e.history.insert(n, BanHistory { count: 2, last: 1000 });
    // The memory is longer than any age: nothing is forgotten.
    e.tick(u32::MAX);
    assert_eq!(e.history.get(&n), Some(&BanHistory { count: 2, last: 1000 }));
    // A ban of more seconds than the clock counts does not end.
    e.manual_ban(n, Some(Duration::from_secs((1 << 32) + 5)), 2000).unwrap();
    assert_eq!(e.active.get(&n).unwrap().until, u32::MAX);
    // An event from beyond the clock counts as a recent one.
    let late = Event::Ban {
        ts: (1 << 32) + 5,
        net: net("10.0.0.1"),
        filter: "sshd".into(),
        ttl: 600,
        hits: 3,
        escalation: 0,
        manual: false,
    };
    e.adopt(2000, None, &vec![late]);
    assert_eq!(e.escalated_ttl(Duration::from_secs(600), &net("10.0.0.1"), 2000).1, 1);
}
