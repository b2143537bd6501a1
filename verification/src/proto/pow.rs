//! Enrollment proof of work (`sha256-pow-v1`): find an ASCII nonce such
//! that `sha256(challenge || nonce)` has at least `difficulty` leading zero
//! bits.

use vstd::prelude::*;
use vstd::utf8::encode_utf8;

use crate::foreign;
use crate::text;
use crate::text::decimal;

verus! {

/// How many zero bits a byte starts with.
pub open spec fn byte_zeros(b: u8) -> nat {
    if b >= 128 {
        0
    } else if b >= 64 {
        1
    } else if b >= 32 {
        2
    } else if b >= 16 {
        3
    } else if b >= 8 {
        4
    } else if b >= 4 {
        5
    } else if b >= 2 {
        6
    } else if b >= 1 {
        7
    } else {
        8
    }
}

/// How many zero bits a sequence of bytes starts with.
pub open spec fn zero_bits(d: Seq<u8>) -> nat
    decreases d.len(),
{
    if d.len() == 0 {
        0
    } else if d[0] == 0 {
        8 + zero_bits(d.skip(1))
    } else {
        byte_zeros(d[0])
    }
}

/// There are no more zero bits than bits.
pub proof fn lemma_zero_bits(d: Seq<u8>)
    ensures
        zero_bits(d) <= 8 * d.len(),
    decreases d.len(),
{
    if d.len() > 0 {
        lemma_zero_bits(d.skip(1));
    }
}

/// A sequence of bytes starts with eight zero bits for each of `n` bytes exactly if its
/// first `n` bytes are zero.
pub proof fn law_zero_bytes(d: Seq<u8>, n: nat)
    requires
        n <= d.len(),
    ensures
        (zero_bits(d) >= 8 * n) == (forall|i: int| 0 <= i < n ==> #[trigger] d[i] == 0),
    decreases n,
{
    if n > 0 {
        let t = d.skip(1);
        law_zero_bytes(t, (n - 1) as nat);
        if d[0] == 0 {
            if zero_bits(d) >= 8 * n {
                assert forall|i: int| 0 <= i < n implies #[trigger] d[i] == 0 by {
                    if i > 0 {
                        assert(t[i - 1] == d[i]);
                    }
                }
            }
            if forall|i: int| 0 <= i < n ==> #[trigger] d[i] == 0 {
                assert forall|i: int| 0 <= i < n - 1 implies #[trigger] t[i] == 0 by {
                    assert(t[i] == d[i + 1]);
                }
            }
        }
    }
}

fn byte_zeros_of(b: u8) -> (r: u32)
    ensures
        r == byte_zeros(b),
{
    if b >= 128 {
        0
    } else if b >= 64 {
        1
    } else if b >= 32 {
        2
    } else if b >= 16 {
        3
    } else if b >= 8 {
        4
    } else if b >= 4 {
        5
    } else if b >= 2 {
        6
    } else if b >= 1 {
        7
    } else {
        8
    }
}

pub fn leading_zero_bits(digest: &[u8]) -> (r: u32)
    requires
        zero_bits(digest@) <= u32::MAX,
    ensures
        r == zero_bits(digest@),
{
    let mut bits: u32 = 0;
    let mut i: usize = 0;
    assert(digest@.skip(0) =~= digest@);
    while i < digest.len()
        invariant
            i <= digest@.len(),
            zero_bits(digest@) <= u32::MAX,
            zero_bits(digest@) == bits + zero_bits(digest@.skip(i as int)),
        decreases digest@.len() - i,
    {
        let b: u8 = digest[i];
        assert(digest@.skip(i as int).skip(1) =~= digest@.skip(i + 1));
        if b == 0 {
            bits = bits + 8;
        } else {
            return bits + byte_zeros_of(b);
        }
        i += 1;
    }
    bits
}

/// Whether a nonce answers a challenge.
pub open spec fn answers(challenge: Seq<char>, nonce: Seq<char>, difficulty: u32) -> bool {
    zero_bits(foreign::sha256(encode_utf8(challenge) + encode_utf8(nonce))) >= difficulty
}

pub fn check(challenge: &str, nonce: &str, difficulty: u32) -> (r: bool)
    ensures
        r == answers(challenge@, nonce@, difficulty),
{
    let mut data: Vec<u8> = Vec::new();
    push_bytes(&mut data, challenge.as_bytes());
    push_bytes(&mut data, nonce.as_bytes());
    assert(data@ =~= encode_utf8(challenge@) + encode_utf8(nonce@));
    let digest = foreign::sha256_of(&data);
    meets(&digest, difficulty)
}

/// Whether a digest has at least `difficulty` leading zero bits.
pub fn meets(digest: &[u8; 32], difficulty: u32) -> (r: bool)
    ensures
        r == (zero_bits(digest@) >= difficulty),
{
    proof {
        lemma_zero_bits(digest@);
    }
    leading_zero_bits(digest.as_slice()) >= difficulty
}

/// Appends bytes.
pub fn push_bytes(out: &mut Vec<u8>, more: &[u8])
    ensures
        final(out)@ == old(out)@ + more@,
{
    let ghost start = out@;
    let mut i: usize = 0;
    assert(more@.take(0) =~= Seq::empty());
    while i < more.len()
        invariant
            i <= more@.len(),
            out@ == start + more@.take(i as int),
        decreases more@.len() - i,
    {
        out.push(more[i]);
        i += 1;
        assert(more@.take(i as int) =~= more@.take(i - 1).push(more@[i - 1]));
    }
    assert(more@.take(i as int) =~= more@);
}

/// Whether a nonce is the smallest number whose decimal digits answer the challenge.
pub open spec fn is_smallest(challenge: Seq<char>, nonce: Seq<char>, difficulty: u32) -> bool {
    answers(challenge, nonce, difficulty) && exists|i: u64|
        #![trigger decimal(i as nat)]
        nonce == decimal(i as nat) && forall|j: u64|
            j < i ==> !answers(challenge, #[trigger] decimal(j as nat), difficulty)
}

/// Brute-force a nonce: the smallest number whose decimal digits answer the challenge.
/// `None` if no number of 64 bits does.
pub fn solve(challenge: &str, difficulty: u32) -> (r: Option<String>)
    ensures
        match r {
            Some(nonce) => is_smallest(challenge@, nonce@, difficulty),
            None => forall|j: u64| !answers(challenge@, #[trigger] decimal(j as nat), difficulty),
        },
{
    let mut i: u64 = 0;
    loop
        invariant
            forall|j: u64|
                j < i ==> !answers(challenge@, #[trigger] decimal(j as nat), difficulty),
        decreases u64::MAX - i,
    {
        let nonce = text::decimal_text(i);
        if check(challenge, nonce.as_str(), difficulty) {
            return Some(nonce);
        }
        if i == u64::MAX {
            return None;
        }
        i += 1;
    }
}

/// A digest starts with `8 * i + k` zero bits exactly if its first `i` bytes are zero and
/// the next one is below 2 to the power of `8 - k`.
pub proof fn law_zero_bits(d: Seq<u8>, i: nat, k: nat)
    requires
        i < d.len(),
        k <= 8,
    ensures
        (zero_bits(d) >= 8 * i + k) == ((forall|j: int| 0 <= j < i ==> #[trigger] d[j] == 0) && d[i as int]
            * vstd::arithmetic::power2::pow2(k) < 256),
        zero_bits(d) <= 8 * d.len(),
    decreases i,
{
    vstd::arithmetic::power2::lemma2_to64();
    lemma_zero_bits(d);
    if i == 0 {
        let p = vstd::arithmetic::power2::pow2(k);
        let b = d[0];
        assert(k == 0 || k == 1 || k == 2 || k == 3 || k == 4 || k == 5 || k == 6 || k == 7 || k == 8);
        if b == 0 {
            assert(b * p == 0) by (nonlinear_arith)
                requires
                    b == 0,
            ;
        } else {
            assert(b * p == b * vstd::arithmetic::power2::pow2(k));
        }
    } else {
        let t = d.skip(1);
        if d[0] == 0 {
            law_zero_bits(t, (i - 1) as nat, k);
            assert(t[i - 1] == d[i as int]);
            if forall|j: int| 0 <= j < i ==> #[trigger] d[j] == 0 {
                assert forall|j: int| 0 <= j < i - 1 implies #[trigger] t[j] == 0 by {
                    assert(t[j] == d[j + 1]);
                }
            }
            if forall|j: int| 0 <= j < i - 1 ==> #[trigger] t[j] == 0 {
                assert forall|j: int| 0 <= j < i implies #[trigger] d[j] == 0 by {
                    if j > 0 {
                        assert(d[j] == t[j - 1]);
                    }
                }
            }
        }
    }
}

/// A nonce answers a challenge exactly if the SHA-256 digest of the two, one behind the
/// other, starts with so many zero bits; what answers a challenge answers every easier
/// one.
pub proof fn law_answers(challenge: Seq<char>, nonce: Seq<char>, difficulty: u32, easier: u32)
    requires
        easier <= difficulty,
    ensures
        answers(challenge, nonce, difficulty) == (zero_bits(
            foreign::sha256(encode_utf8(challenge) + encode_utf8(nonce)),
        ) >= difficulty),
        answers(challenge, nonce, difficulty) ==> answers(challenge, nonce, easier),
{
}

/// The nonce that is found is the decimal form of a number, answers the challenge, and
/// no smaller number's decimal form does.
pub proof fn law_smallest_nonce(challenge: Seq<char>, nonce: Seq<char>, difficulty: u32, j: u64)
    requires
        is_smallest(challenge, nonce, difficulty),
    ensures
        answers(challenge, nonce, difficulty),
        exists|i: u64| nonce == #[trigger] decimal(i as nat),
        answers(challenge, decimal(j as nat), difficulty) ==> crate::text::value_of(nonce) <= j,
{
    let i = choose|i: u64|
        #![trigger decimal(i as nat)]
        nonce == decimal(i as nat) && forall|j: u64|
            j < i ==> !answers(challenge, #[trigger] decimal(j as nat), difficulty);
    crate::text::lemma_decimal(i as nat);
}

} // verus!
