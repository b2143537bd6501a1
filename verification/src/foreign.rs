//! Calls into code that Verus does not read. Every contract here is believed,
//! not proved; each comment says what is claimed and of which function.

use vstd::prelude::*;
use vstd::utf8::{decode_utf8, valid_utf8};

use crate::ip::{IpAddr, IpNet};
use crate::text::{decimal, opt_texts, some_occurs, texts};

verus! {

/// What the standard library's address parser (`str::parse` into an IP address)
/// makes of a text.
pub uninterp spec fn addr_of_text(s: Seq<char>) -> Option<IpAddr>;

/// `str::parse` into an IP address, reached through the argument type of
/// `ipnet::IpNet::new`. The result depends on the text alone.
#[verifier::external_body]
pub(crate) fn parse_addr(s: &str) -> (r: Option<IpAddr>)
    ensures
        r == addr_of_text(s@),
{
    match ipnet::IpNet::new(s.parse().ok()?, 0).ok()? {
        ipnet::IpNet::V4(n) => Some(IpAddr::V4(u32::from(n.addr()))),
        ipnet::IpNet::V6(n) => Some(IpAddr::V6(u128::from(n.addr()))),
    }
}

/// What `ipnet::IpNet::from_str` makes of a text in CIDR notation.
pub uninterp spec fn net_of_text(s: Seq<char>) -> Option<IpNet>;

/// `ipnet::IpNet::from_str`. The result depends on the text alone, and the prefix
/// of a parsed network is at most 32 for IPv4 and at most 128 for IPv6.
#[verifier::external_body]
pub(crate) fn parse_net(s: &str) -> (r: Option<IpNet>)
    ensures
        r == net_of_text(s@),
        r matches Some(n) ==> n.wf(),
{
    match s.parse::<ipnet::IpNet>().ok()? {
        ipnet::IpNet::V4(n) => Some(
            IpNet { addr: IpAddr::V4(u32::from(n.addr())), prefix: n.prefix_len() },
        ),
        ipnet::IpNet::V6(n) => Some(
            IpNet { addr: IpAddr::V6(u128::from(n.addr())), prefix: n.prefix_len() },
        ),
    }
}

/// The standard library's textual form of an address (its `Display`).
pub uninterp spec fn addr_text(a: IpAddr) -> Seq<char>;

/// `Display` of the address that `ipnet::Ipv4Net::addr` or
/// `ipnet::Ipv6Net::addr` hands back; the text depends on the address alone.
#[verifier::external_body]
pub(crate) fn addr_to_text(a: &IpAddr) -> (r: String)
    ensures
        r@ == addr_text(*a),
{
    match a {
        IpAddr::V4(x) => ipnet::Ipv4Net::new((*x).into(), 32).expect("prefix 32").addr().to_string(),
        IpAddr::V6(x) => ipnet::Ipv6Net::new((*x).into(), 128).expect("prefix 128").addr().to_string(),
    }
}

/// `Display` of `ipnet::Ipv4Net` and `ipnet::Ipv6Net`: the address, a slash and
/// the prefix length in decimal.
#[verifier::external_body]
pub(crate) fn net_to_text(n: &IpNet) -> (r: String)
    requires
        n.wf(),
    ensures
        r@ == addr_text(n.addr) + seq!['/'] + decimal(n.prefix as nat),
{
    match n.addr {
        IpAddr::V4(x) => ipnet::Ipv4Net::new(x.into(), n.prefix).expect("prefix").to_string(),
        IpAddr::V6(x) => ipnet::Ipv6Net::new(x.into(), n.prefix).expect("prefix").to_string(),
    }
}

#[verifier::external_type_specification]
#[verifier::external_body]
pub struct ExRegex(regex::Regex);

/// The pattern that a regex was built from (`regex::Regex::as_str`).
pub uninterp spec fn regex_source(re: regex::Regex) -> Seq<char>;

/// Whether `regex::Regex::is_match` finds a pattern anywhere in a text.
pub uninterp spec fn regex_finds(pattern: Seq<char>, line: Seq<char>) -> bool;

/// `regex::Regex::is_match`: whether the pattern of `re` matches anywhere in `line`.
#[verifier::external_body]
pub(crate) fn regex_is_match(re: &regex::Regex, line: &str) -> (r: bool)
    ensures
        r == regex_finds(regex_source(*re), line@),
{
    re.is_match(line)
}

/// Why `regex::Regex::new` refuses a pattern, as its error prints, or `None` where it
/// takes the pattern.
pub uninterp spec fn regex_fault(pattern: Seq<char>) -> Option<Seq<char>>;

/// `regex::Regex::new`: compiles a pattern, or says what is wrong with it.
#[verifier::external_body]
pub(crate) fn regex_new(pattern: &str) -> (r: Result<regex::Regex, String>)
    ensures
        match r {
            Ok(re) => regex_fault(pattern@) is None && regex_source(re) == pattern@,
            Err(e) => regex_fault(pattern@) == Some(e@),
        },
{
    regex::Regex::new(pattern).map_err(|e| e.to_string())
}

/// Why `regex::RegexBuilder::build` refuses a pattern under the two size limits, as
/// its error prints, or `None` where it takes the pattern.
pub uninterp spec fn limited_regex_fault(
    pattern: Seq<char>,
    size_limit: usize,
    dfa_size_limit: usize,
) -> Option<Seq<char>>;

/// `regex::RegexBuilder::build` with `size_limit` and `dfa_size_limit` set: compiles a
/// pattern, or says what is wrong with it.
#[verifier::external_body]
pub(crate) fn regex_build(pattern: &str, size_limit: usize, dfa_size_limit: usize) -> (r: Result<
    regex::Regex,
    String,
>)
    ensures
        match r {
            Ok(re) => limited_regex_fault(pattern@, size_limit, dfa_size_limit) is None
                && regex_source(re) == pattern@,
            Err(e) => limited_regex_fault(pattern@, size_limit, dfa_size_limit) == Some(e@),
        },
{
    regex::RegexBuilder::new(pattern).size_limit(size_limit).dfa_size_limit(
        dfa_size_limit,
    ).build().map_err(|e| e.to_string())
}

/// The names of a pattern's capture groups, in group order, `None` for a group
/// without one (`regex::Regex::capture_names`).
pub uninterp spec fn regex_group_names(pattern: Seq<char>) -> Seq<Option<Seq<char>>>;

/// `regex::Regex::capture_names`: the names of the capture groups, in group order.
#[verifier::external_body]
pub(crate) fn regex_names(re: &regex::Regex) -> (r: Vec<Option<String>>)
    ensures
        opt_texts(r@) == regex_group_names(regex_source(*re)),
{
    re.capture_names().map(|n| n.map(|n| n.to_string())).collect()
}

/// What the capture groups of a pattern hold after its leftmost match in a text, in
/// group order, or `None` where it does not match (`regex::Regex::captures`).
pub uninterp spec fn regex_groups(pattern: Seq<char>, line: Seq<char>) -> Option<
    Seq<Option<Seq<char>>>,
>;

/// `regex::Regex::captures`: the text of every capture group of the leftmost match.
#[verifier::external_body]
pub(crate) fn regex_captures(re: &regex::Regex, line: &str) -> (r: Option<Vec<Option<String>>>)
    ensures
        match r {
            Some(v) => regex_groups(regex_source(*re), line@) == Some(opt_texts(v@)),
            None => regex_groups(regex_source(*re), line@) is None,
        },
{
    let caps = re.captures(line)?;
    Some(caps.iter().map(|m| m.map(|m| m.as_str().to_string())).collect())
}

#[verifier::external_type_specification]
#[verifier::external_body]
pub struct ExAhoCorasick(aho_corasick::AhoCorasick);

/// The patterns that a searcher looks for.
pub uninterp spec fn aho_patterns(ac: aho_corasick::AhoCorasick) -> Seq<Seq<char>>;

/// Why `aho_corasick::AhoCorasick::new` refuses a list of patterns, as its error
/// prints, or `None` where it takes the list.
pub uninterp spec fn aho_fault(patterns: Seq<Seq<char>>) -> Option<Seq<char>>;

/// `aho_corasick::AhoCorasick::new`: a searcher for all of the patterns.
#[verifier::external_body]
pub(crate) fn aho_new(patterns: &Vec<String>) -> (r: Result<aho_corasick::AhoCorasick, String>)
    ensures
        match r {
            Ok(ac) => aho_fault(texts(patterns@)) is None && aho_patterns(ac) == texts(patterns@),
            Err(e) => aho_fault(texts(patterns@)) == Some(e@),
        },
{
    aho_corasick::AhoCorasick::new(patterns).map_err(|e| e.to_string())
}

/// `aho_corasick::AhoCorasick::is_match`: whether some pattern occurs in the line.
#[verifier::external_body]
pub(crate) fn aho_is_match(ac: &aho_corasick::AhoCorasick, line: &str) -> (r: bool)
    ensures
        r == some_occurs(aho_patterns(*ac), line@),
{
    ac.is_match(line)
}

/// Pairs compare by their first part, then by their second.
pub open spec fn pair_le(a: (u32, usize), b: (u32, usize)) -> bool {
    a.0 < b.0 || (a.0 == b.0 && a.1 <= b.1)
}

/// `slice::select_nth_unstable`: reorders the slice so that the element at `k` is
/// the one a sort would put there, with none greater before it and none less
/// behind it.
#[verifier::external_body]
pub(crate) fn select_nth(v: &mut Vec<(u32, usize)>, k: usize)
    requires
        k < old(v)@.len(),
    ensures
        final(v)@.len() == old(v)@.len(),
        final(v)@.to_multiset() == old(v)@.to_multiset(),
        forall|i: int| 0 <= i < k ==> pair_le(#[trigger] final(v)@[i], final(v)@[k as int]),
        forall|i: int|
            k < i < final(v)@.len() ==> pair_le(final(v)@[k as int], #[trigger] final(v)@[i]),
{
    v.select_nth_unstable(k);
}

/// The SHA-256 digest of some bytes (`sha2::Sha256::digest`).
pub uninterp spec fn sha256(data: Seq<u8>) -> Seq<u8>;

/// `sha2::Sha256::digest`: the SHA-256 digest.
#[verifier::external_body]
pub(crate) fn sha256_of(data: &[u8]) -> (r: [u8; 32])
    ensures
        r@ == sha256(data@),
{
    <sha2::Sha256 as sha2::Digest>::digest(data).into()
}

/// The Ed25519 public key of a seed (`ed25519_dalek::SigningKey::verifying_key`).
pub uninterp spec fn ed25519_public(seed: Seq<u8>) -> Seq<u8>;

/// `ed25519_dalek::SigningKey::verifying_key`: the public key of a seed.
#[verifier::external_body]
pub(crate) fn public_key(seed: &[u8; 32]) -> (r: [u8; 32])
    ensures
        r@ == ed25519_public(seed@),
{
    ed25519_dalek::SigningKey::from_bytes(seed).verifying_key().to_bytes()
}

/// The Ed25519 signature of a message (`ed25519_dalek::Signer::sign`).
pub uninterp spec fn ed25519_signature(seed: Seq<u8>, message: Seq<u8>) -> Seq<u8>;

/// Whether `ed25519_dalek::Verifier::verify` takes a signature of a message.
pub uninterp spec fn ed25519_verifies(key: Seq<u8>, message: Seq<u8>, signature: Seq<u8>) -> bool;

/// `ed25519_dalek::Signer::sign` with the key of a seed: the signature, which the
/// public key of that seed takes.
#[verifier::external_body]
pub(crate) fn sign_bytes(seed: &[u8; 32], message: &[u8]) -> (r: [u8; 64])
    ensures
        r@ == ed25519_signature(seed@, message@),
        ed25519_verifies(ed25519_public(seed@), message@, r@),
{
    let key = ed25519_dalek::SigningKey::from_bytes(seed);
    ed25519_dalek::Signer::sign(&key, message).to_bytes()
}

/// `ed25519_dalek::Verifier::verify`: whether the signature is good. Bytes that are no
/// public key take no signature.
#[verifier::external_body]
pub(crate) fn verify_bytes(key: &[u8; 32], message: &[u8], signature: &[u8; 64]) -> (r: bool)
    ensures
        r == ed25519_verifies(key@, message@, signature@),
{
    let sig = ed25519_dalek::Signature::from_bytes(signature);
    match ed25519_dalek::VerifyingKey::from_bytes(key) {
        Ok(k) => ed25519_dalek::Verifier::verify(&k, message, &sig).is_ok(),
        Err(_) => false,
    }
}

/// Bytes in base64 with the standard alphabet and padding
/// (`base64::engine::general_purpose::STANDARD`).
pub uninterp spec fn base64(data: Seq<u8>) -> Seq<char>;

/// `base64::Engine::encode` of `base64::engine::general_purpose::STANDARD`.
#[verifier::external_body]
pub(crate) fn base64_of(data: &[u8]) -> (r: String)
    ensures
        r@ == base64(data@),
{
    base64::Engine::encode(&base64::engine::general_purpose::STANDARD, data)
}

/// A text as `{:?}` prints it: in double quotes, with escapes.
pub uninterp spec fn quoted(s: Seq<char>) -> Seq<char>;

/// `format!("{:?}")` of a text.
#[verifier::external_body]
pub(crate) fn quote(s: &str) -> (r: String)
    ensures
        r@ == quoted(s@),
{
    format!("{s:?}")
}

/// Where a byte first stands.
pub open spec fn first_byte(s: Seq<u8>, b: u8) -> Option<int>
    decreases s.len(),
{
    if s.len() == 0 {
        None
    } else if s[0] == b {
        Some(0)
    } else {
        match first_byte(s.skip(1), b) {
            Some(i) => Some(i + 1),
            None => None,
        }
    }
}

/// `memchr::memchr`: where the byte first stands, if it does.
#[verifier::external_body]
pub(crate) fn find_byte(b: u8, s: &[u8]) -> (r: Option<usize>)
    ensures
        match r {
            Some(i) => first_byte(s@, b) == Some(i as int),
            None => first_byte(s@, b) is None,
        },
{
    memchr::memchr(b, s)
}

/// Bytes as a text, with a replacement character for what is not UTF-8
/// (`String::from_utf8_lossy`).
pub uninterp spec fn lossy(bytes: Seq<u8>) -> Seq<char>;

/// `String::from_utf8_lossy`: valid UTF-8 is decoded as it stands.
#[verifier::external_body]
pub(crate) fn lossy_text(bytes: &[u8]) -> (r: String)
    ensures
        r@ == lossy(bytes@),
        valid_utf8(bytes@) ==> r@ == decode_utf8(bytes@),
{
    String::from_utf8_lossy(bytes).into_owned()
}

/// `std::str::from_utf8`: the text that bytes are, if they are UTF-8.
#[verifier::external_body]
pub(crate) fn utf8_text(bytes: &[u8]) -> (r: Option<String>)
    ensures
        match r {
            Some(s) => valid_utf8(bytes@) && s@ == decode_utf8(bytes@),
            None => !valid_utf8(bytes@),
        },
{
    std::str::from_utf8(bytes).ok().map(|s| s.to_string())
}

/// A member of a JSON object, as far as it is looked at: elements of a list that are no
/// unsigned integers have no value.
pub enum Member {
    Text(String),
    List(Vec<Option<u64>>),
    Other,
}

/// A [`Member`] as values.
pub enum MemberView {
    Text(Seq<char>),
    List(Seq<Option<u64>>),
    Other,
}

impl View for Member {
    type V = MemberView;

    open spec fn view(&self) -> MemberView {
        match self {
            Member::Text(s) => MemberView::Text(s@),
            Member::List(v) => MemberView::List(v@),
            Member::Other => MemberView::Other,
        }
    }
}

/// The members by key.
pub open spec fn member_map(v: Seq<(String, Member)>) -> Map<Seq<char>, MemberView>
    decreases v.len(),
{
    if v.len() == 0 {
        Map::empty()
    } else {
        member_map(v.drop_last()).insert(v.last().0@, v.last().1@)
    }
}

/// The members of the JSON object that a text is (`serde_json::from_str` into a
/// `serde_json::Value`), or `None` where it is none.
pub uninterp spec fn json_members(text: Seq<char>) -> Option<Map<Seq<char>, MemberView>>;

/// `serde_json::from_str` into a `serde_json::Value`: the members of an object.
#[verifier::external_body]
pub(crate) fn parse_json(text: &str) -> (r: Option<Vec<(String, Member)>>)
    ensures
        match r {
            Some(v) => json_members(text@) == Some(member_map(v@)),
            None => json_members(text@) is None,
        },
{
    let serde_json::Value::Object(m) = serde_json::from_str(text).ok()? else { return None };
    Some(m.into_iter().map(|(k, v)| (k, match v {
        serde_json::Value::String(s) => Member::Text(s),
        serde_json::Value::Array(a) => Member::List(a.iter().map(|x| x.as_u64()).collect()),
        serde_json::Value::Null => Member::Other,
        serde_json::Value::Bool(_) => Member::Other,
        serde_json::Value::Number(_) => Member::Other,
        serde_json::Value::Object(_) => Member::Other,
    })).collect())
}

} // verus!
