use minsec::filter::{
    ascii_classes, expand_tokens, expand_tokens_n, locate_groups, pick_match, CompiledFilter,
    FilterDef, FilterError, JournalSelector,
};
use minsec::ip::{parse_log_ip, IpAddr};
use regex::Regex;

fn def(patterns: &[&str]) -> FilterDef {
    FilterDef {
        name: "t".into(),
        description: String::new(),
        files: vec![],
        journal: JournalSelector::none(),
        prefilter: vec![],
        patterns: patterns.iter().map(|s| s.to_string()).collect(),
        ignore: vec![],
        ports: vec![],
    }
}

fn compile(d: FilterDef) -> Result<CompiledFilter, FilterError> {
    CompiledFilter::compile(d)
}

fn ip(s: &str) -> IpAddr {
    parse_log_ip(s).unwrap()
}

#[test]
fn ascii() {
    assert_eq!(ascii_classes(r"a\d+\\d[\s\d]"), r"a[0-9]+\\d[[ \t\r\n\x0b\x0c][0-9]]");
    let r = Regex::new(&ascii_classes(r"^[^\d]\S+\s\w$")).unwrap();
    assert!(r.is_match("xab c"));
    assert!(!r.is_match("1ab c"));
}

#[test]
fn expands() {
    assert_eq!(expand_tokens("a <F-USER>[^ ]+</F-USER> b"), "a (?P<user>[^ ]+) b");
    assert!(expand_tokens("x <HOST> y").contains("(?P<host>"));
    assert_eq!(expand_tokens("a < b"), "a < b");
}

#[test]
fn matches_v4_v6_user() {
    let flt = compile(def(&[
        r"Failed password for (?:invalid user )?<F-USER>\S+</F-USER> from <HOST> port \d+",
    ]))
    .unwrap();
    let m = flt
        .match_line(
            "Jan  1 00:00:00 h sshd[1]: Failed password for invalid user bob from 203.0.113.9 port 2222 ssh2",
        )
        .unwrap();
    assert_eq!(m.ip, ip("203.0.113.9"));
    assert_eq!(m.user.as_deref(), Some("bob"));
    let m = flt
        .match_line("Failed password for root from 2001:db8::5 port 1 ssh2")
        .unwrap();
    assert_eq!(m.ip, ip("2001:db8::5"));
    let m = flt
        .match_line("Failed password for root from ::ffff:10.0.0.9 port 1 ssh2")
        .unwrap();
    assert_eq!(m.ip, ip("10.0.0.9"));
    assert!(flt
        .match_line("Accepted password for root from 10.0.0.9 port 1")
        .is_none());
}

#[test]
fn rejects_without_host() {
    assert!(compile(def(&["nothing"])).is_err());
}

#[test]
fn tokens_of_every_kind() {
    assert_eq!(
        expand_tokens_n("<IP4>", "7"),
        "(?P<host7>(?:[0-9]{1,3}\\.){3}[0-9]{1,3})"
    );
    assert_eq!(expand_tokens("<F-Name>x</F-Name>"), "(?P<name>x)");
    assert_eq!(expand_tokens("<b> <IP4"), "<b> <IP4");
    assert_eq!(expand_tokens("<HOST>"), expand_tokens("<ADDR>"));
    assert_eq!(expand_tokens("<HOST>"), expand_tokens("<IP>"));
    assert_eq!(ascii_classes("\\D\\S\\W\\w\\"), "[^0-9][^ \\t\\r\\n\\x0b\\x0c][^0-9A-Za-z_][0-9A-Za-z_]\\");
    assert_eq!(expand_tokens("no tokens here"), "no tokens here");
}

#[test]
fn refusals_name_the_culprit() {
    let message = |d: FilterDef| compile(d).err().unwrap().message();
    assert_eq!(message(def(&[])), "filter `t` has no patterns");
    assert_eq!(message(def(&["nothing"])), "pattern `nothing` has no <HOST> capture");
    assert!(message(def(&["(<HOST>"])).starts_with("pattern `(<HOST>`: "));
    let mut d = def(&["from <HOST>"]);
    d.ignore = vec!["(".into()];
    assert!(message(d).starts_with("filter `t` ignore: "));
    // Each pattern fits by itself, all of them together do not.
    let big = "from <HOST> (?:[a-z]{50}){40}";
    let many: Vec<&str> = std::iter::repeat(big).take(60).collect();
    assert!(message(def(&many)).starts_with("filter `t`: "));
}

#[test]
fn hosts_may_be_captured_by_hand() {
    let flt = compile(def(&["to <HOST>", "from (?P<host>[0-9.]+)"])).unwrap();
    let m = flt.match_line("from 192.0.2.1").unwrap();
    assert_eq!((m.pattern, m.ip), (1, ip("192.0.2.1")));
}

#[test]
fn ignored_lines_never_count() {
    let mut d = def(&["failed from <HOST>"]);
    d.ignore = vec!["from 10\\.".into()];
    let flt = compile(d).unwrap();
    assert!(flt.match_line("failed from 10.0.0.1").is_none());
    assert!(flt.match_line("failed from 192.0.2.1").is_some());
}

#[test]
fn the_prefilter_only_rejects() {
    let mut d = def(&["failed from <HOST>"]);
    d.prefilter = vec!["login".into(), "sshd".into()];
    let flt = compile(d).unwrap();
    assert!(flt.match_line("failed from 192.0.2.1").is_none());
    assert!(flt.match_line_opts("failed from 192.0.2.1", false).is_some());
    assert!(flt.match_line("sshd: failed from 192.0.2.1").is_some());
    assert_eq!(flt.name(), "t");
}

#[test]
fn the_first_pattern_wins() {
    let flt = compile(def(&["no <HOST> here", "a <IP4>", "<HOST>"])).unwrap();
    let m = flt.match_line("a 192.0.2.1").unwrap();
    assert_eq!(m.pattern, 1);
    assert_eq!(m.user, None);
    // An address that cannot be one is passed over.
    assert!(flt.match_line("a 999.0.2.1").is_none());
}

#[test]
fn the_first_pattern_wins_wherever_it_hits() {
    let flt = compile(def(&["B from <IP4>", "A from <IP4>"])).unwrap();
    let m = flt.match_line("A from 192.0.2.1 B from 192.0.2.2").unwrap();
    assert_eq!((m.pattern, m.ip, m.user), (0, ip("192.0.2.2"), None));
    // The first pattern hits, but what it holds is no address.
    let m = flt.match_line("B from 999.0.2.1 A from 192.0.2.1").unwrap();
    assert_eq!((m.pattern, m.ip), (1, ip("192.0.2.1")));
    let m = flt.match_line("A from 192.0.2.1 B from 999.0.2.1").unwrap();
    assert_eq!((m.pattern, m.ip), (1, ip("192.0.2.1")));
    assert!(flt.match_line("C from 192.0.2.1").is_none());
}

#[test]
fn groups_are_located_by_name() {
    let some = |s: &str| Some(s.to_string());
    assert_eq!(locate_groups(&vec![None, some("host"), some("user")]), Some((1, Some(2))));
    assert_eq!(locate_groups(&vec![None, some("x"), some("host")]), Some((2, None)));
    assert_eq!(locate_groups(&vec![None, some("user")]), None);
    let caps = vec![
        None,
        Some(vec![some("x"), some("nonsense"), some("bob")]),
        Some(vec![some("x"), None, some("192.0.2.7")]),
        Some(vec![some("192.0.2.8")]),
    ];
    let groups = vec![(0, None), (1, Some(2)), (2, Some(9)), (0, None)];
    let m = pick_match(&caps, &groups).unwrap();
    assert_eq!((m.pattern, m.ip, m.user), (2, ip("192.0.2.7"), None));
    assert!(pick_match(&vec![], &groups).is_none());
}

#[test]
fn journal_selectors_become_match_expressions() {
    let sel = JournalSelector {
        units: vec!["sshd.service".into()],
        identifiers: vec!["sshd".into()],
        comm: vec!["sshd".into()],
    };
    assert!(!sel.is_empty());
    assert!(JournalSelector::none().is_empty());
    assert_eq!(
        sel.matches(),
        vec!["_SYSTEMD_UNIT=sshd.service", "SYSLOG_IDENTIFIER=sshd", "_COMM=sshd"]
    );
}
