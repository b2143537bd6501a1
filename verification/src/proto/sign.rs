//! Detached Ed25519 request signing for `POST /v1/reports`.
//!
//! The signature covers the canonical string (newline-separated, no
//! trailing newline):
//!
//! ```text
//! minsec-report-v1
//! <host_id>
//! <timestamp>
//! <hex(sha256(request body bytes))>
//! ```
//!
//! The digest is over the exact body bytes sent; there is no JSON
//! canonicalization anywhere in the protocol.

use vstd::prelude::*;
use vstd::string::*;
use vstd::utf8::{encode_utf8, encode_utf8_decode_utf8};

use crate::foreign;
use crate::proto::{hex, hex_of, law_hex_injective};
use crate::text;
use crate::text::{decimal, is_digit, lemma_decimal};

verus! {

pub const CANONICAL_PREFIX: &'static str = "minsec-report-v1";

/// A number in decimal, with a sign where it is negative.
pub open spec fn signed_decimal(n: int) -> Seq<char> {
    if n < 0 {
        seq!['-'] + decimal((-n) as nat)
    } else {
        decimal(n as nat)
    }
}

/// `signed_decimal`.
pub fn signed_text(n: i64) -> (r: String)
    ensures
        r@ == signed_decimal(n as int),
{
    let mut s = String::new();
    if n < 0 {
        s.push('-');
        let m: u64 = if n == i64::MIN {
            0x8000_0000_0000_0000
        } else {
            (-n) as u64
        };
        text::push_decimal(&mut s, m);
        assert(s@ =~= seq!['-'] + decimal((-n) as nat));
    } else {
        text::push_decimal(&mut s, n as u64);
        assert(s@ =~= decimal(n as nat));
    }
    s
}

/// What is signed for a request.
pub open spec fn canonical(host_id: Seq<char>, timestamp: int, digest: Seq<u8>) -> Seq<char> {
    CANONICAL_PREFIX@ + "\n"@ + host_id + "\n"@ + signed_decimal(timestamp) + "\n"@ + hex_of(digest)
}

pub fn canonical_string(host_id: &str, timestamp: i64, body: &[u8]) -> (r: String)
    ensures
        r@ == canonical(host_id@, timestamp as int, foreign::sha256(body@)),
{
    let digest = foreign::sha256_of(body);
    canonical_text(host_id, timestamp, &digest)
}

/// What is signed for a request whose body has the given digest.
pub fn canonical_text(host_id: &str, timestamp: i64, digest: &[u8; 32]) -> (r: String)
    ensures
        r@ == canonical(host_id@, timestamp as int, digest@),
{
    let mut s = CANONICAL_PREFIX.to_owned();
    s.append("\n");
    s.append(host_id);
    s.append("\n");
    let ts = signed_text(timestamp);
    s.append(ts.as_str());
    s.append("\n");
    let h = hex(digest.as_slice());
    s.append(h.as_str());
    s
}

/// The seed of an Ed25519 key.
#[derive(Clone, Copy)]
pub struct SigningKey {
    pub seed: [u8; 32],
}

/// An Ed25519 public key.
#[derive(Clone, Copy)]
pub struct VerifyingKey {
    pub bytes: [u8; 32],
}

impl SigningKey {
    pub fn from_bytes(seed: &[u8; 32]) -> (r: Self)
        ensures
            r.seed@ == seed@,
    {
        SigningKey { seed: *seed }
    }

    pub fn verifying_key(&self) -> (r: VerifyingKey)
        ensures
            r.bytes@ == foreign::ed25519_public(self.seed@),
    {
        VerifyingKey { bytes: foreign::public_key(&self.seed) }
    }
}

/// Whether a signature is good for a request.
pub open spec fn is_signed(
    key: Seq<u8>,
    host_id: Seq<char>,
    timestamp: int,
    digest: Seq<u8>,
    signature: Seq<u8>,
) -> bool {
    foreign::ed25519_verifies(
        key,
        encode_utf8(canonical(host_id, timestamp, digest)),
        signature,
    )
}

/// Sign a request; the result goes base64 (std) into `X-Minsec-Signature`. It is good
/// for the key that belongs to the seed.
pub fn sign(key: &SigningKey, host_id: &str, timestamp: i64, body: &[u8]) -> (r: [u8; 64])
    ensures
        r@ == foreign::ed25519_signature(
            key.seed@,
            encode_utf8(canonical(host_id@, timestamp as int, foreign::sha256(body@))),
        ),
        is_signed(
            foreign::ed25519_public(key.seed@),
            host_id@,
            timestamp as int,
            foreign::sha256(body@),
            r@,
        ),
{
    let s = canonical_string(host_id, timestamp, body);
    foreign::sign_bytes(&key.seed, s.as_str().as_bytes())
}

/// Whether a signature is good for a request. It is for what `sign` gives with the key
/// of the same seed; that it is for nothing else rests on Ed25519 and SHA-256, and is
/// not stated.
pub fn verify(
    key: &VerifyingKey,
    host_id: &str,
    timestamp: i64,
    body: &[u8],
    signature: &[u8; 64],
) -> (r: bool)
    ensures
        r == is_signed(
            key.bytes@,
            host_id@,
            timestamp as int,
            foreign::sha256(body@),
            signature@,
        ),
{
    let s = canonical_string(host_id, timestamp, body);
    foreign::verify_bytes(&key.bytes, s.as_str().as_bytes(), signature)
}

/// A decimal number holds no line feed, and its sign and digits give the number back.
proof fn lemma_signed_decimal(m: int, n: int)
    ensures
        !signed_decimal(m).contains('\n'),
        signed_decimal(m) == signed_decimal(n) ==> m == n,
{
    let am = if m < 0 { (-m) as nat } else { m as nat };
    let an = if n < 0 { (-n) as nat } else { n as nat };
    lemma_decimal(am);
    lemma_decimal(an);
    let x = signed_decimal(m);
    let y = signed_decimal(n);
    if x.contains('\n') {
        let i = choose|i: int| 0 <= i < x.len() && x[i] == '\n';
        if m < 0 {
            assert(i > 0);
            assert(decimal(am)[i - 1] == '\n');
            assert(is_digit(decimal(am)[i - 1]));
        } else {
            assert(is_digit(decimal(am)[i]));
        }
    }
    if x == y {
        assert(is_digit(decimal(am)[0]));
        assert(is_digit(decimal(an)[0]));
        if m < 0 {
            assert(x[0] == '-');
            assert(n < 0);
            assert(decimal(am) =~= x.skip(1));
            assert(decimal(an) =~= y.skip(1));
        } else {
            if n < 0 {
                assert(y[0] == '-');
            }
        }
    }
}

/// Two texts that agree up to their first line feeds agree before and behind them.
proof fn lemma_split_line(a: Seq<char>, b: Seq<char>, ra: Seq<char>, rb: Seq<char>)
    requires
        a + seq!['\n'] + ra == b + seq!['\n'] + rb,
        !a.contains('\n'),
        !b.contains('\n'),
    ensures
        a == b,
        ra == rb,
{
    let x = a + seq!['\n'] + ra;
    let y = b + seq!['\n'] + rb;
    assert(x[a.len() as int] == '\n');
    assert(y[b.len() as int] == '\n');
    if a.len() < b.len() {
        assert(y[a.len() as int] == b[a.len() as int]);
        assert(b.contains(b[a.len() as int]));
    }
    if b.len() < a.len() {
        assert(x[b.len() as int] == a[b.len() as int]);
        assert(a.contains(a[b.len() as int]));
    }
    assert(a =~= x.take(a.len() as int));
    assert(b =~= y.take(b.len() as int));
    assert(ra =~= x.skip(a.len() as int + 1));
    assert(rb =~= y.skip(b.len() as int + 1));
}

/// What is signed tells the host, the time and the digest of the body apart: two
/// requests of hosts without a line feed in their names have the same canonical string
/// only if all three agree.
pub proof fn law_canonical_injective(
    host1: Seq<char>,
    ts1: int,
    digest1: Seq<u8>,
    host2: Seq<char>,
    ts2: int,
    digest2: Seq<u8>,
)
    requires
        !host1.contains('\n'),
        !host2.contains('\n'),
        canonical(host1, ts1, digest1) == canonical(host2, ts2, digest2),
    ensures
        host1 == host2,
        ts1 == ts2,
        digest1 == digest2,
{
    reveal_strlit("\n");
    let nl = seq!['\n'];
    assert("\n"@ =~= nl);
    let p = CANONICAL_PREFIX@;
    let t1 = signed_decimal(ts1);
    let t2 = signed_decimal(ts2);
    let h1 = hex_of(digest1);
    let h2 = hex_of(digest2);
    let r1 = host1 + nl + (t1 + nl + h1);
    let r2 = host2 + nl + (t2 + nl + h2);
    let c = canonical(host1, ts1, digest1);
    assert(c =~= (p + nl) + r1);
    assert(canonical(host2, ts2, digest2) =~= (p + nl) + r2);
    assert(r1 =~= c.skip((p + nl).len() as int));
    assert(r2 =~= canonical(host2, ts2, digest2).skip((p + nl).len() as int));
    lemma_split_line(host1, host2, t1 + nl + h1, t2 + nl + h2);
    lemma_signed_decimal(ts1, ts2);
    lemma_signed_decimal(ts2, ts1);
    lemma_split_line(t1, t2, h1, h2);
    law_hex_injective(digest1, digest2);
}

/// A request with another host, time or digest of its body is another message: whether
/// a signature is good for it is asked of the bytes of its own canonical string, which
/// are not those that were signed. (Hosts have no line feed in their names.)
pub proof fn law_changed_request_is_another_message(
    key: Seq<u8>,
    host1: Seq<char>,
    ts1: int,
    digest1: Seq<u8>,
    host2: Seq<char>,
    ts2: int,
    digest2: Seq<u8>,
    signature: Seq<u8>,
)
    requires
        !host1.contains('\n'),
        !host2.contains('\n'),
        host1 != host2 || ts1 != ts2 || digest1 != digest2,
    ensures
        ({
            let signed = encode_utf8(canonical(host1, ts1, digest1));
            let asked = encode_utf8(canonical(host2, ts2, digest2));
            &&& asked != signed
            &&& is_signed(key, host1, ts1, digest1, signature) == foreign::ed25519_verifies(
                key,
                signed,
                signature,
            )
            &&& is_signed(key, host2, ts2, digest2, signature) == foreign::ed25519_verifies(
                key,
                asked,
                signature,
            )
        }),
{
    let a = canonical(host1, ts1, digest1);
    let b = canonical(host2, ts2, digest2);
    encode_utf8_decode_utf8(a);
    encode_utf8_decode_utf8(b);
    if a == b {
        law_canonical_injective(host1, ts1, digest1, host2, ts2, digest2);
    }
}

/// What is signed, in full: the version, the host, the time in decimal and the digest in
/// hexadecimal, on a line each.
pub proof fn law_canonical_in_full(host: Seq<char>, n: nat, digest: Seq<u8>)
    ensures
        canonical(host, n as int, digest) == "minsec-report-v1\n"@ + host + "\n"@ + decimal(n)
            + "\n"@ + hex_of(digest),
        n > 0 ==> canonical(host, -(n as int), digest) == "minsec-report-v1\n"@ + host + "\n-"@
            + decimal(n) + "\n"@ + hex_of(digest),
{
    reveal_strlit("minsec-report-v1");
    reveal_strlit("minsec-report-v1\n");
    reveal_strlit("\n");
    reveal_strlit("\n-");
    assert("minsec-report-v1\n"@ =~= "minsec-report-v1"@ + "\n"@);
    assert("\n-"@ =~= "\n"@ + seq!['-']);
    if n > 0 {
        assert(canonical(host, -(n as int), digest) =~= "minsec-report-v1\n"@ + host + "\n-"@
            + decimal(n) + "\n"@ + hex_of(digest));
    }
}

} // verus!
