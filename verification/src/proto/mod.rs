//! The minsec multiplayer wire protocol: request signing, enrollment proof of work,
//! the blocklist feed, and the bodies that go over the wire.

use vstd::prelude::*;

use crate::text;

pub mod feed;
pub mod pow;
pub mod sign;
pub mod types;

verus! {

pub const HEADER_HOST: &'static str = "X-Minsec-Host";

pub const HEADER_TIMESTAMP: &'static str = "X-Minsec-Timestamp";

pub const HEADER_SIGNATURE: &'static str = "X-Minsec-Signature";

/// Batch limits enforced by the server (`POST /v1/reports`).
pub const MAX_BATCH_ITEMS: usize = 1000;

pub const MAX_BODY_BYTES: usize = 1048576;

/// The hexadecimal digit of a value below sixteen.
pub open spec fn hex_digit(n: nat) -> char {
    if n < 10 {
        text::digit_char(n)
    } else {
        (('a' as u32) + n - 10) as char
    }
}

/// Bytes in hexadecimal, the high digit of each first.
pub open spec fn hex_of(bytes: Seq<u8>) -> Seq<char>
    decreases bytes.len(),
{
    if bytes.len() == 0 {
        Seq::empty()
    } else {
        hex_of(bytes.drop_last()).push(hex_digit((bytes.last() / 16) as nat)).push(
            hex_digit((bytes.last() % 16) as nat),
        )
    }
}

/// The hexadecimal digit of a value below sixteen.
fn nibble(n: u8) -> (r: char)
    requires
        n < 16,
    ensures
        r == hex_digit(n as nat),
{
    if n < 10 {
        text::digit(n as u64)
    } else {
        (87 + n) as char
    }
}

/// Bytes in hexadecimal.
pub fn hex(bytes: &[u8]) -> (r: String)
    ensures
        r@ == hex_of(bytes@),
{
    let mut s = String::new();
    let mut i: usize = 0;
    assert(bytes@.take(0) =~= Seq::empty());
    while i < bytes.len()
        invariant
            i <= bytes@.len(),
            s@ == hex_of(bytes@.take(i as int)),
        decreases bytes@.len() - i,
    {
        let b: u8 = bytes[i];
        assert(bytes@.take(i + 1).drop_last() =~= bytes@.take(i as int));
        s.push(nibble(b / 16));
        s.push(nibble(b % 16));
        i += 1;
    }
    assert(bytes@.take(i as int) =~= bytes@);
    s
}

/// Different bytes are written differently.
pub proof fn law_hex_injective(a: Seq<u8>, b: Seq<u8>)
    requires
        hex_of(a) == hex_of(b),
    ensures
        a == b,
    decreases a.len(),
{
    lemma_hex_len(a);
    lemma_hex_len(b);
    if a.len() == 0 {
        assert(a =~= b);
    } else {
        let x = hex_of(a);
        let y = hex_of(b);
        let n = x.len() as int;
        lemma_hex_digit((a.last() % 16) as nat, (b.last() % 16) as nat);
        lemma_hex_digit((a.last() / 16) as nat, (b.last() / 16) as nat);
        assert(x[n - 1] == hex_digit((a.last() % 16) as nat));
        assert(y[n - 1] == hex_digit((b.last() % 16) as nat));
        assert(x[n - 2] == hex_digit((a.last() / 16) as nat));
        assert(y[n - 2] == hex_digit((b.last() / 16) as nat));
        assert(hex_of(a.drop_last()) =~= x.take(n - 2));
        assert(hex_of(b.drop_last()) =~= y.take(n - 2));
        law_hex_injective(a.drop_last(), b.drop_last());
        assert(a =~= a.drop_last().push(a.last()));
        assert(b =~= b.drop_last().push(b.last()));
    }
}

/// Two digits for each byte.
pub proof fn lemma_hex_len(a: Seq<u8>)
    ensures
        hex_of(a).len() == 2 * a.len(),
        !hex_of(a).contains('\n'),
    decreases a.len(),
{
    if a.len() > 0 {
        lemma_hex_len(a.drop_last());
        let h = hex_of(a.drop_last());
        let x = hex_digit((a.last() / 16) as nat);
        let y = hex_digit((a.last() % 16) as nat);
        assert(x != '\n' && y != '\n');
        if hex_of(a).contains('\n') {
            let i = choose|i: int| 0 <= i < hex_of(a).len() && hex_of(a)[i] == '\n';
            assert(i < h.len());
            assert(h[i] == '\n');
        }
    }
}

proof fn lemma_hex_digit(m: nat, n: nat)
    requires
        m < 16,
        n < 16,
    ensures
        hex_digit(m) == hex_digit(n) ==> m == n,
{
}

/// Byte `i` is written at places `2 * i` and `2 * i + 1`, its high four bits first, with
/// the digits 0 to 9 and the small letters a to f.
pub proof fn law_hex_digits(a: Seq<u8>, i: int)
    requires
        0 <= i < a.len(),
    ensures
        hex_of(a).len() == 2 * a.len(),
        hex_of(a)[2 * i] as int == (if a[i] / 16 < 10 {
            48 + a[i] / 16
        } else {
            87 + a[i] / 16
        }),
        hex_of(a)[2 * i + 1] as int == (if a[i] % 16 < 10 {
            48 + a[i] % 16
        } else {
            87 + a[i] % 16
        }),
    decreases a.len(),
{
    lemma_hex_len(a);
    let b = a.drop_last();
    lemma_hex_len(b);
    if i < b.len() {
        law_hex_digits(b, i);
        assert(hex_of(a)[2 * i] == hex_of(b)[2 * i]);
        assert(hex_of(a)[2 * i + 1] == hex_of(b)[2 * i + 1]);
    } else {
        assert(a.last() == a[i]);
        assert(hex_of(a)[2 * i] == hex_digit((a[i] / 16) as nat));
        assert(hex_of(a)[2 * i + 1] == hex_digit((a[i] % 16) as nat));
    }
}

/// The names and limits of the protocol.
pub proof fn law_protocol_names()
    ensures
        HEADER_HOST@ == "X-Minsec-Host"@,
        HEADER_TIMESTAMP@ == "X-Minsec-Timestamp"@,
        HEADER_SIGNATURE@ == "X-Minsec-Signature"@,
        MAX_BATCH_ITEMS == 1000,
        MAX_BODY_BYTES == 1_048_576,
        crate::proto::types::POW_ALGO@ == "sha256-pow-v1"@,
{
}

} // verus!
