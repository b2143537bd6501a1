use minsec::duration::{parse, Duration, HumanDuration};
use minsec::engine::{build_allow, sorted_nets};
use minsec::ip::{
    is_loopback_or_unspecified, key_to_nft, normalize, parse_log_ip, to_key, IpAddr, IpNet,
};
use minsec::paths::join;
use minsec::sorted::SortedMap;
use minsec::sync::nft::parse_entry;

fn addr(s: &str) -> IpAddr {
    parse_log_ip(s).unwrap()
}

fn v4(s: &str) -> IpNet {
    parse_entry(s, 4).unwrap()
}

#[test]
fn parses() {
    assert_eq!(parse("30").unwrap().as_secs(), 30);
    assert_eq!(parse("10m").unwrap().as_secs(), 600);
    assert_eq!(parse("1h30m").unwrap().as_secs(), 5400);
    assert_eq!(parse("1w").unwrap().as_secs(), 604_800);
    assert!(parse("").is_err());
    assert!(parse("m").is_err());
    assert!(parse("5x").is_err());
}

#[test]
fn formats() {
    assert_eq!(minsec::duration::format(Duration::from_secs(5400)), "1h30m");
    assert_eq!(minsec::duration::format(Duration::from_secs(0)), "0s");
}

#[test]
fn durations_round_trip() {
    for secs in [0u64, 1, 59, 60, 61, 3599, 3600, 90061, 604_800, 694_861, u64::MAX] {
        assert_eq!(parse(&minsec::duration::format(Duration::from_secs(secs))).unwrap().as_secs(), secs);
    }
}

#[test]
fn durations_fail_in_words() {
    let overflow = parse("99999999999999999999").unwrap_err();
    let overflow2 = parse("18446744073709551615w").unwrap_err();
    assert_eq!(overflow, overflow2);
    assert!(parse("5x").unwrap_err().contains('x'));
    assert_ne!(parse("").unwrap_err(), parse("m").unwrap_err());
}

#[test]
fn signed_durations() {
    assert!(HumanDuration::from_signed(-1).is_none());
    assert_eq!(HumanDuration::from_signed(90).unwrap().secs(), 90);
    assert_eq!(HumanDuration::from_signed(90).unwrap().to_text(), "1m30s");
}

#[test]
fn mapped_v4() {
    assert_eq!(parse_log_ip("::ffff:10.1.2.3").unwrap(), parse_log_ip("10.1.2.3").unwrap());
    assert_eq!(parse_log_ip("::ffff:10.1.2.3").unwrap(), IpAddr::V4(0x0a01_0203));
    assert_eq!(
        parse_log_ip("[2001:db8::1]").unwrap(),
        IpAddr::V6(0x2001_0db8_0000_0000_0000_0000_0000_0001)
    );
    assert!(parse_log_ip("999.1.1.1").is_none());
    assert!(parse_log_ip("example.com").is_none());
}

#[test]
fn keys() {
    let k = to_key(addr("2001:db8:1:2:3:4:5:6"), 64);
    assert_eq!(k.to_text(), "2001:db8:1:2::/64");
    let k = to_key(addr("10.0.0.1"), 64);
    assert_eq!(key_to_nft(&k), "10.0.0.1");
}

#[test]
fn keys_at_the_edges() {
    let a = addr("2001:db8:1:2:3:4:5:6");
    assert_eq!(to_key(a, 0).to_text(), "::/0");
    assert_eq!(to_key(a, 200).to_text(), "2001:db8:1:2:3:4:5:6/128");
    assert_eq!(key_to_nft(&to_key(a, 128)), "2001:db8:1:2:3:4:5:6");
    assert_eq!(key_to_nft(&to_key(a, 48)), "2001:db8:1::/48");
    assert_eq!(normalize(normalize(a)), normalize(a));
}

#[test]
fn local_addresses_are_recognised() {
    assert!(is_loopback_or_unspecified(addr("127.0.0.1")));
    assert!(is_loopback_or_unspecified(addr("127.255.0.9")));
    assert!(is_loopback_or_unspecified(addr("0.0.0.0")));
    assert!(is_loopback_or_unspecified(addr("::1")));
    assert!(is_loopback_or_unspecified(addr("::")));
    assert!(!is_loopback_or_unspecified(addr("10.0.0.1")));
    assert!(!is_loopback_or_unspecified(addr("2001:db8::1")));
}

#[test]
fn networks_cover_their_addresses() {
    let n = v4("198.51.100.0/24");
    assert!(n.contains(&addr("198.51.100.7")));
    assert!(!n.contains(&addr("198.51.101.7")));
    assert!(!n.contains(&addr("2001:db8::1")));
    assert!(IpNet::new(addr("10.0.0.1"), 33).is_none());
    assert!(IpNet::new(addr("10.0.0.1"), 32).is_some());
    assert_eq!(v4("198.51.100.9/24").trunc().to_text(), "198.51.100.0/24");
}

#[test]
fn allow_list_is_sorted_and_has_local_addresses() {
    let allow = vec![v4("203.0.113.0/24"), v4("10.0.0.0/8"), v4("203.0.113.0/24")];
    let local = vec![addr("192.0.2.1"), addr("0.0.0.0")];
    let got: Vec<String> = build_allow(&allow, &local).iter().map(|n| n.to_text()).collect();
    assert_eq!(got, vec!["10.0.0.0/8", "192.0.2.1/32", "203.0.113.0/24"]);
    assert_eq!(sorted_nets(&allow).len(), 2);
}

#[test]
fn paths_join() {
    assert_eq!(join("/etc/minsec", "filters"), "/etc/minsec/filters");
    assert_eq!(join("/etc/minsec/", "filters"), "/etc/minsec/filters");
    assert_eq!(join("", "filters"), "filters");
    assert_eq!(join("/etc", "/abs"), "/abs");
}

#[test]
fn sorted_maps_keep_order() {
    let mut m: SortedMap<String, u32> = SortedMap::new();
    for (i, k) in ["pear", "apple", "fig", "apple"].iter().enumerate() {
        m.insert(k.to_string(), i as u32);
    }
    assert_eq!(m.len(), 3);
    assert_eq!(m.get(&"apple".to_string()), Some(&3));
    let keys: Vec<String> = (0..m.len()).map(|i| m.key_at(i).clone()).collect();
    assert_eq!(keys, vec!["apple", "fig", "pear"]);
    m.remove(&"fig".to_string());
    assert!(!m.contains(&"fig".to_string()));
    assert_eq!(*m.value_at(1), 0);
}
