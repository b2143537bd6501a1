use minsec::proto::feed::{parse_header, Feed};
use minsec::proto::hex;
use minsec::proto::pow::{check, leading_zero_bits, solve};
use minsec::proto::sign::{canonical_string, sign, signed_text, verify, SigningKey};
use minsec::scan::{lines, signed_or_zero, unsigned, unsigned_or_zero};

#[test]
fn full() {
    let body = "# minsec-feed v1 full tier=basic family=4 snapshot=1234 generated=2026-08-23T12:00:00Z count=2\n\
                198.51.100.0/24\n203.0.113.7\n";
    let f = Feed::parse(body).unwrap();
    assert_eq!(f.header.kind, "full");
    assert_eq!(f.header.tier, "basic");
    assert_eq!(f.header.family, 4);
    assert_eq!(f.header.snapshot, 1234);
    assert_eq!(f.header.count, 2);
    assert_eq!(f.entries, vec!["198.51.100.0/24", "203.0.113.7"]);
    assert!(f.added.is_empty() && f.removed.is_empty());
}

#[test]
fn delta() {
    let body = "# minsec-feed v1 delta tier=high family=6 from=1200 to=1234 count=2\n\
                +2001:db8:1:2::/64\n-2001:db8:dead::/48\n";
    let f = Feed::parse(body).unwrap();
    assert_eq!(f.header.kind, "delta");
    assert_eq!((f.header.from, f.header.to), (1200, 1234));
    assert_eq!(f.added, vec!["2001:db8:1:2::/64"]);
    assert_eq!(f.removed, vec!["2001:db8:dead::/48"]);
}

#[test]
fn rejects_garbage() {
    assert!(Feed::parse("").is_err());
    assert!(Feed::parse("# other-feed v1 full\n").is_err());
    assert!(Feed::parse("# minsec-feed v1 partial tier=basic\n").is_err());
    assert!(Feed::parse("# minsec-feed v1 delta tier=basic family=4 from=1 to=2 count=1\nnosign\n").is_err());
}

#[test]
fn zero_bits() {
    assert_eq!(leading_zero_bits(&[0xff]), 0);
    assert_eq!(leading_zero_bits(&[0x0f]), 4);
    assert_eq!(leading_zero_bits(&[0x00, 0x80]), 8);
    assert_eq!(leading_zero_bits(&[0x00, 0x00]), 16);
}

#[test]
fn solve_and_check() {
    let nonce = solve("test-challenge", 12).unwrap();
    assert!(check("test-challenge", &nonce, 12));
    assert!(!check("test-challenge", &nonce, 200));
}

#[test]
fn the_smallest_nonce_is_found() {
    let nonce: u64 = solve("another", 6).unwrap().parse().unwrap();
    for i in 0..nonce {
        assert!(!check("another", &i.to_string(), 6));
    }
    assert_eq!(solve("x", 0).unwrap(), "0");
    for b in 0..=255u8 {
        assert_eq!(leading_zero_bits(&[b]), b.leading_zeros());
    }
}

#[test]
fn feed_errors_read_well() {
    let message = |s: &str| Feed::parse(s).unwrap_err().message();
    assert_eq!(message(""), "feed parse error: empty body");
    assert_eq!(message("x\ty\n"), "feed parse error: not a minsec-feed v1 header: \"x\\ty\"");
    assert_eq!(message("# minsec-feed v1 part"), "feed parse error: unknown feed kind \"part\"");
    assert_eq!(
        message("# minsec-feed v1 delta\n nosign \n"),
        "feed parse error: delta line without +/-: \"nosign\""
    );
}

#[test]
fn feeds_are_read_leniently() {
    let f = Feed::parse("  # minsec-feed v1 full family=300 count=-1 snapshot=x tier=a tier=b loose\r\n\r\n# c\n 1.2.3.4 \r\n").unwrap();
    assert_eq!((f.header.family, f.header.count, f.header.snapshot), (0, 0, 0));
    assert_eq!(f.header.tier, "b");
    assert_eq!(f.entries, vec!["1.2.3.4"]);
    assert!(parse_header("# minsec-feed v1").is_err());
    assert_eq!(parse_header("# minsec-feed v1 delta from=-5 to=+7").unwrap().from, -5);
}

#[test]
fn numbers_and_lines() {
    assert_eq!(unsigned("+12"), Some(12));
    assert_eq!(unsigned("-0"), None);
    assert_eq!(unsigned(""), None);
    assert_eq!(unsigned("18446744073709551615"), Some(u64::MAX));
    assert_eq!(unsigned("18446744073709551616"), None);
    assert_eq!(unsigned_or_zero("256", 255), 0);
    assert_eq!(signed_or_zero("-9223372036854775808"), i64::MIN);
    assert_eq!(signed_or_zero("-9223372036854775809"), 0);
    assert_eq!(signed_or_zero("9223372036854775808"), 0);
    assert_eq!(lines("a\r\n\nb\r"), vec!["a", "", "b\r"]);
    assert!(lines("").is_empty());
}

fn unhex(s: &str) -> Vec<u8> {
    (0..s.len())
        .step_by(2)
        .map(|i| u8::from_str_radix(&s[i..i + 2], 16).unwrap())
        .collect()
}

#[test]
fn keys_and_signatures() {
    // The first test vector of RFC 8032.
    let seed: [u8; 32] = unhex("9d61b19deffd5a60ba844af492ec2cc44449c5697b326919703bac031cae7f60")
        .try_into()
        .unwrap();
    let key = SigningKey::from_bytes(&seed);
    let public = key.verifying_key();
    assert_eq!(
        hex(&public.bytes),
        "d75a980182b10ab7d54bfed3c964073a0ee172f3daa62325af021a68f707511a"
    );
    let host = "018f3c00-0000-7000-8000-000000000001";
    let body = b"{}";
    let canonical = canonical_string(host, 1_700_000_000, body);
    assert_eq!(
        canonical,
        "minsec-report-v1\n018f3c00-0000-7000-8000-000000000001\n1700000000\n\
         44136fa355b3678a1146ad16f7e8649e94fb4fc21fe77e8310c060f61caaff8a"
    );
    let sig = sign(&key, host, 1_700_000_000, body);
    assert!(verify(&public, host, 1_700_000_000, body, &sig));
    // Any mutation must break verification.
    assert!(!verify(&public, host, 1_700_000_001, body, &sig));
    assert!(!verify(&public, "018f3c00-dead-7000-8000-000000000009", 1_700_000_000, body, &sig));
    assert!(!verify(&public, host, 1_700_000_000, b"{} ", &sig));
    let mut badsig = sig;
    badsig[0] ^= 1;
    assert!(!verify(&public, host, 1_700_000_000, body, &badsig));
}

#[test]
fn canonical_strings_differ() {
    let a = canonical_string("h", 1, b"x");
    assert_ne!(a, canonical_string("h", -1, b"x"));
    assert_ne!(a, canonical_string("h1", 1, b"x"));
    assert_ne!(a, canonical_string("h", 1, b"y"));
    assert_eq!(signed_text(i64::MIN), "-9223372036854775808");
    assert_eq!(hex(&[0, 0x9a, 0xff]), "009aff");
}
