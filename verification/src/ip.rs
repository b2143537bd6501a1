//! IP parsing and normalisation into ban keys.

use vstd::arithmetic::power2::pow2;
use vstd::prelude::*;

use crate::foreign;
use crate::sorted::{key_lt, lex_lt, Key, Order};
use crate::text::{chars, decimal, text};

verus! {

/// An address: IPv4 as its 32 bits, IPv6 as its 128 bits, most significant first.
#[derive(Clone, Copy, PartialEq, Eq, Structural, Debug, Hash)]
pub enum IpAddr {
    V4(u32),
    V6(u128),
}

/// An address with a prefix length.
#[derive(Clone, Copy, PartialEq, Eq, Structural, Debug, Hash)]
pub struct IpNet {
    pub addr: IpAddr,
    pub prefix: u8,
}

/// `a` with its last `host` bits cleared.
pub open spec fn clear_low(a: u128, host: u8) -> u128 {
    a & high_mask(host)
}

/// All bits set but the last `host`.
pub open spec fn high_mask(host: u8) -> u128 {
    if host >= 128 {
        0
    } else {
        u128::MAX << (host as u128)
    }
}

impl IpAddr {
    /// How many bits an address of this family has.
    pub open spec fn bits(self) -> u8 {
        match self {
            IpAddr::V4(_) => 32,
            IpAddr::V6(_) => 128,
        }
    }

    /// How many bits a prefix of `prefix` leaves to the host.
    pub open spec fn host_bits(self, prefix: u8) -> u8 {
        if prefix >= self.bits() {
            0
        } else {
            (self.bits() - prefix) as u8
        }
    }

    /// The address with everything behind the first `prefix` bits cleared.
    pub open spec fn network(self, prefix: u8) -> IpAddr {
        match self {
            IpAddr::V4(a) => IpAddr::V4(clear_low(a as u128, self.host_bits(prefix)) as u32),
            IpAddr::V6(a) => IpAddr::V6(clear_low(a, self.host_bits(prefix))),
        }
    }

    pub fn is_ipv4(&self) -> (r: bool)
        ensures
            r == (self is V4),
    {
        match self {
            IpAddr::V4(_) => true,
            IpAddr::V6(_) => false,
        }
    }

    /// The address with its host bits cleared.
    pub fn truncate(&self, prefix: u8) -> (r: IpAddr)
        ensures
            r == self.network(prefix),
    {
        match self {
            IpAddr::V4(a) => {
                let host: u8 = if prefix >= 32 {
                    0
                } else {
                    32 - prefix
                };
                IpAddr::V4(clear_host(*a as u128, host) as u32)
            },
            IpAddr::V6(a) => {
                let host: u8 = if prefix >= 128 {
                    0
                } else {
                    128 - prefix
                };
                IpAddr::V6(clear_host(*a, host))
            },
        }
    }
}

fn clear_host(a: u128, host: u8) -> (r: u128)
    ensures
        r == clear_low(a, host),
{
    let mask: u128 = if host >= 128 {
        0
    } else {
        u128::MAX << (host as u128)
    };
    a & mask
}

/// Clearing host bits twice is clearing them once, and does not raise the value.
pub proof fn lemma_clear_low(a: u128, host: u8)
    ensures
        clear_low(clear_low(a, host), host) == clear_low(a, host),
        clear_low(a, host) <= a,
{
    let m = high_mask(host);
    assert((a & m) & m == a & m && a & m <= a) by (bit_vector);
}

impl IpNet {
    /// The prefix length fits the address family.
    pub open spec fn wf(self) -> bool {
        self.prefix <= self.addr.bits()
    }

    /// The network with its host bits cleared.
    pub open spec fn truncated(self) -> IpNet {
        IpNet { addr: self.addr.network(self.prefix), prefix: self.prefix }
    }

    /// Whether `ip` lies in this network.
    pub open spec fn covers(self, ip: IpAddr) -> bool {
        self.addr.bits() == ip.bits() && ip.network(self.prefix) == self.addr.network(self.prefix)
    }

    /// `addr` with a prefix length, if that length fits its family.
    pub fn new(addr: IpAddr, prefix: u8) -> (r: Option<IpNet>)
        ensures
            r == (if prefix <= addr.bits() {
                Some(IpNet { addr, prefix })
            } else {
                None
            }),
    {
        let bits: u8 = if addr.is_ipv4() {
            32
        } else {
            128
        };
        if prefix <= bits {
            Some(IpNet { addr, prefix })
        } else {
            None
        }
    }

    /// The network of one host.
    pub fn host(addr: IpAddr) -> (r: IpNet)
        ensures
            r == (IpNet { addr, prefix: addr.bits() }),
            r.wf(),
    {
        IpNet {
            addr,
            prefix: if addr.is_ipv4() {
                32
            } else {
                128
            },
        }
    }

    pub fn trunc(&self) -> (r: IpNet)
        ensures
            r == self.truncated(),
            self.wf() ==> r.wf(),
    {
        IpNet { addr: self.addr.truncate(self.prefix), prefix: self.prefix }
    }

    pub fn contains(&self, ip: &IpAddr) -> (r: bool)
        ensures
            r == self.covers(*ip),
    {
        self.addr.is_ipv4() == ip.is_ipv4() && ip.truncate(self.prefix) == self.addr.truncate(
            self.prefix,
        )
    }

    /// `address/prefix`.
    pub fn to_text(&self) -> (r: String)
        requires
            self.wf(),
        ensures
            r@ == net_text(*self),
    {
        foreign::net_to_text(self)
    }
}

/// A network in CIDR notation: address, slash, prefix length.
pub open spec fn net_text(n: IpNet) -> Seq<char> {
    foreign::addr_text(n.addr) + seq!['/'] + decimal(n.prefix as nat)
}

impl Key for IpNet {
    type Id = IpNet;

    open spec fn id(self) -> IpNet {
        self
    }

    /// IPv4 before IPv6, then by address, then by prefix length.
    open spec fn rank(id: IpNet) -> Seq<int> {
        match id.addr {
            IpAddr::V4(a) => seq![4int, a as int, id.prefix as int],
            IpAddr::V6(a) => seq![6int, a as int, id.prefix as int],
        }
    }

    proof fn lemma_rank_injective(a: IpNet, b: IpNet) {
        assert(Self::rank(a)[0] == Self::rank(b)[0]);
        assert(Self::rank(a)[1] == Self::rank(b)[1]);
        assert(Self::rank(a)[2] == Self::rank(b)[2]);
    }

    fn order(&self, other: &IpNet) -> (r: Order) {
        proof {
            reveal_with_fuel(lex_lt, 4);
            let x = Self::rank(*self);
            let y = Self::rank(*other);
            if x[0] == y[0] && x[1] == y[1] && x[2] == y[2] {
                assert(x =~= y);
            }
        }
        let (f1, a1) = match self.addr {
            IpAddr::V4(a) => (4u8, a as u128),
            IpAddr::V6(a) => (6u8, a),
        };
        let (f2, a2) = match other.addr {
            IpAddr::V4(a) => (4u8, a as u128),
            IpAddr::V6(a) => (6u8, a),
        };
        if f1 < f2 {
            Order::Less
        } else if f1 > f2 {
            Order::Greater
        } else if a1 < a2 {
            Order::Less
        } else if a1 > a2 {
            Order::Greater
        } else if self.prefix < other.prefix {
            Order::Less
        } else if self.prefix > other.prefix {
            Order::Greater
        } else {
            Order::Equal
        }
    }
}

/// An IPv4-mapped IPv6 address (`::ffff:a.b.c.d`) as the IPv4 address in it;
/// every other address as it is.
pub open spec fn normalized(ip: IpAddr) -> IpAddr {
    match ip {
        IpAddr::V6(a) => if a >> 32u128 == 0xffff {
            IpAddr::V4((a & 0xffff_ffff) as u32)
        } else {
            ip
        },
        IpAddr::V4(_) => ip,
    }
}

/// Replace an IPv4-mapped IPv6 address by the IPv4 address in it.
pub fn normalize(ip: IpAddr) -> (r: IpAddr)
    ensures
        r == normalized(ip),
{
    match ip {
        IpAddr::V6(a) => {
            if a >> 32u128 == 0xffff {
                IpAddr::V4((a & 0xffff_ffff) as u32)
            } else {
                ip
            }
        },
        v4 => v4,
    }
}

/// Whether `c` is a square bracket.
pub open spec fn is_bracket(c: char) -> bool {
    c == '[' || c == ']'
}

/// `s` without the square brackets at its start.
pub open spec fn strip_front(s: Seq<char>) -> Seq<char>
    decreases s.len(),
{
    if s.len() > 0 && is_bracket(s[0]) {
        strip_front(s.drop_first())
    } else {
        s
    }
}

/// `s` without the square brackets at its end.
pub open spec fn strip_back(s: Seq<char>) -> Seq<char>
    decreases s.len(),
{
    if s.len() > 0 && is_bracket(s.last()) {
        strip_back(s.drop_last())
    } else {
        s
    }
}

/// `s` without the square brackets around it.
fn strip_brackets(s: &str) -> (r: String)
    ensures
        r@ == strip_back(strip_front(s@)),
{
    let v = chars(s);
    let mut i: usize = 0;
    let mut j: usize = v.len();
    assert(v@.skip(0) =~= v@);
    while i < v.len() && (v[i] == '[' || v[i] == ']')
        invariant
            i <= v@.len(),
            v@ == s@,
            strip_front(s@) == strip_front(v@.skip(i as int)),
        decreases v@.len() - i,
    {
        assert(v@.skip(i as int).drop_first() =~= v@.skip(i + 1));
        i += 1;
    }
    assert(v@.subrange(i as int, j as int) =~= v@.skip(i as int));
    while j > i && (v[j - 1] == '[' || v[j - 1] == ']')
        invariant
            i <= j <= v@.len(),
            v@ == s@,
            strip_back(strip_front(s@)) == strip_back(v@.subrange(i as int, j as int)),
        decreases j,
    {
        assert(v@.subrange(i as int, j as int).drop_last() =~= v@.subrange(i as int, j - 1));
        j -= 1;
    }
    text(&v[i..j])
}

/// Parse an address as it appears in a log line. Accepts IPv4, IPv6, and
/// IPv4-mapped IPv6 (`::ffff:1.2.3.4`, which is normalised to IPv4), with or
/// without square brackets around it.
pub fn parse_log_ip(s: &str) -> (r: Option<IpAddr>)
    ensures
        r == log_ip(s@),
{
    let s = strip_brackets(s);
    normalize_parsed(foreign::parse_addr(s.as_str()))
}

/// The address that a text from a log line stands for.
pub open spec fn log_ip(s: Seq<char>) -> Option<IpAddr> {
    normalized_opt(foreign::addr_of_text(strip_back(strip_front(s))))
}

/// The normalised form of an address that may be missing.
pub open spec fn normalized_opt(a: Option<IpAddr>) -> Option<IpAddr> {
    match a {
        Some(a) => Some(normalized(a)),
        None => None,
    }
}

/// Normalise what the address parser gave, if it gave anything.
pub fn normalize_parsed(a: Option<IpAddr>) -> (r: Option<IpAddr>)
    ensures
        r == normalized_opt(a),
{
    match a {
        Some(a) => Some(normalize(a)),
        None => None,
    }
}

/// The network that an address is tracked and banned as.
pub open spec fn key_of(ip: IpAddr, v6_prefix: u8) -> IpNet {
    match ip {
        IpAddr::V4(_) => IpNet { addr: ip, prefix: 32 },
        IpAddr::V6(_) => {
            let p: u8 = if v6_prefix < 128 {
                v6_prefix
            } else {
                128
            };
            IpNet { addr: ip.network(p), prefix: p }
        },
    }
}

/// Reduce an address to the network we track and ban. IPv4 is always a /32;
/// IPv6 is truncated to `v6_prefix`.
pub fn to_key(ip: IpAddr, v6_prefix: u8) -> (r: IpNet)
    ensures
        r == key_of(ip, v6_prefix),
        r.wf(),
{
    match ip {
        IpAddr::V4(_) => IpNet { addr: ip, prefix: 32 },
        IpAddr::V6(_) => {
            let p: u8 = if v6_prefix < 128 {
                v6_prefix
            } else {
                128
            };
            IpNet { addr: ip.truncate(p), prefix: p }
        },
    }
}

/// A network as `nft` takes it: a bare address for a single host, CIDR otherwise.
pub open spec fn nft_text(n: IpNet) -> Seq<char> {
    if n.prefix == n.addr.bits() {
        foreign::addr_text(n.addr)
    } else {
        net_text(n)
    }
}

/// Render a key for `nft`: a bare address for host routes, CIDR otherwise.
pub fn key_to_nft(net: &IpNet) -> (r: String)
    requires
        net.wf(),
    ensures
        r@ == nft_text(*net),
{
    let full: u8 = if net.addr.is_ipv4() {
        32
    } else {
        128
    };
    if net.prefix == full {
        foreign::addr_to_text(&net.addr)
    } else {
        net.to_text()
    }
}

/// Loopback (127.0.0.0/8 and ::1) or the all-zero address.
pub open spec fn is_local(ip: IpAddr) -> bool {
    match ip {
        IpAddr::V4(a) => a / 0x100_0000 == 127 || a == 0,
        IpAddr::V6(a) => a == 1 || a == 0,
    }
}

pub fn is_loopback_or_unspecified(ip: IpAddr) -> (r: bool)
    ensures
        r == is_local(ip),
{
    match ip {
        IpAddr::V4(a) => a / 0x100_0000 == 127 || a == 0,
        IpAddr::V6(a) => a == 1 || a == 0,
    }
}

/// Normalising twice is normalising once.
pub proof fn law_normalize_idempotent(ip: IpAddr)
    ensures
        normalized(normalized(ip)) == normalized(ip),
{
}

/// An address lies in the network it is tracked as, and that network has no host
/// bits set.
pub proof fn law_key_covers(ip: IpAddr, v6_prefix: u8)
    ensures
        key_of(ip, v6_prefix).covers(ip),
        key_of(ip, v6_prefix).truncated() == key_of(ip, v6_prefix),
{
    match ip {
        IpAddr::V4(a) => {
            let w = a as u128;
            assert(w & (u128::MAX << 0u128) == w) by (bit_vector);
        },
        IpAddr::V6(a) => {
            let p = key_of(ip, v6_prefix).prefix;
            lemma_clear_low(a, ip.host_bits(p));
        },
    }
}

/// Two IPv6 addresses are tracked together exactly when they differ in none of
/// their first `v6_prefix` bits.
pub proof fn law_same_key(a: u128, b: u128, v6_prefix: u8)
    requires
        v6_prefix <= 128,
    ensures
        key_of(IpAddr::V6(a), v6_prefix) == key_of(IpAddr::V6(b), v6_prefix) <==> (a ^ b)
            & high_mask((128 - v6_prefix) as u8) == 0,
{
    let m = high_mask((128 - v6_prefix) as u8);
    assert((a & m == b & m) <==> ((a ^ b) & m == 0)) by (bit_vector);
}

/// Clearing fewer than 128 bits rounds down.
proof fn lemma_mask_rounds_down(a: u128, h: u128)
    requires
        h < 128,
    ensures
        a & (u128::MAX << h) == (a as nat / pow2(h as nat)) * pow2(h as nat),
    decreases h,
{
    vstd::arithmetic::power2::lemma_pow2_pos(h as nat);
    if h == 0 {
        vstd::arithmetic::power2::lemma2_to64();
        assert(a & (u128::MAX << 0u128) == a) by (bit_vector);
    } else {
        let g: u128 = (h - 1) as u128;
        let m: u128 = u128::MAX << g;
        assert(u128::MAX << h == m << 1u128) by (bit_vector)
            requires
                0 < h < 128,
                g == h - 1,
                m == u128::MAX << g,
        ;
        let d: u128 = a >> 1u128;
        let x: u128 = d & m;
        assert(a & (m << 1u128) == x * 2 && d == a / 2) by (bit_vector)
            requires
                d == a >> 1u128,
                x == d & m,
        ;
        lemma_mask_rounds_down(d, g);
        vstd::arithmetic::power2::lemma_pow2_unfold(h as nat);
        vstd::arithmetic::power2::lemma_pow2_pos(g as nat);
        vstd::arithmetic::div_mod::lemma_div_denominator(a as int, 2, pow2(g as nat) as int);
        let q = a as nat / pow2(h as nat);
        assert(x as int * 2 == q * pow2(h as nat)) by (nonlinear_arith)
            requires
                x as int == q * pow2(g as nat),
                pow2(h as nat) == 2 * pow2(g as nat),
        ;
    }
}

/// Clearing the last `host` bits rounds down to a multiple of 2 to the `host`.
proof fn lemma_clear_rounds_down(a: u128, host: u8)
    requires
        host <= 128,
    ensures
        clear_low(a, host) == (a as nat / pow2(host as nat)) * pow2(host as nat),
        clear_low(a, host) as nat / pow2(host as nat) == a as nat / pow2(host as nat),
{
    let p = pow2(host as nat);
    vstd::arithmetic::power2::lemma_pow2_pos(host as nat);
    if host == 128 {
        vstd::arithmetic::power2::lemma2_to64_rest();
        vstd::arithmetic::power2::lemma_pow2_adds(64, 64);
        assert(p > u128::MAX) by (nonlinear_arith)
            requires
                p == pow2(64) * pow2(64),
                pow2(64) == 0x1_0000_0000_0000_0000,
        ;
        assert(a & 0u128 == 0) by (bit_vector);
        vstd::arithmetic::div_mod::lemma_basic_div(a as int, p as int);
        vstd::arithmetic::div_mod::lemma_basic_div(0, p as int);
    } else {
        lemma_mask_rounds_down(a, host as u128);
        vstd::arithmetic::div_mod::lemma_div_multiples_vanish(
            a as int / p as int,
            p as int,
        );
        assert((a as int / p as int) * p == p * (a as int / p as int)) by (nonlinear_arith);
    }
}

/// The network part of an address is the address rounded down to a multiple of 2 to the
/// number of its host bits: 32 less the prefix for IPv4, 128 less the prefix for IPv6.
pub proof fn law_network_rounds_down(a: IpAddr, prefix: u8)
    ensures
        match (a, a.network(prefix)) {
            (IpAddr::V4(x), IpAddr::V4(y)) => {
                let size = pow2(if prefix < 32 { (32 - prefix) as nat } else { 0 });
                y as nat == (x as nat / size) * size
            },
            (IpAddr::V6(x), IpAddr::V6(y)) => {
                let size = pow2(if prefix < 128 { (128 - prefix) as nat } else { 0 });
                y as nat == (x as nat / size) * size
            },
            _ => false,
        },
{
    match a {
        IpAddr::V4(x) => {
            let host = a.host_bits(prefix);
            lemma_clear_rounds_down(x as u128, host);
            lemma_clear_low(x as u128, host);
        },
        IpAddr::V6(x) => {
            lemma_clear_rounds_down(x, a.host_bits(prefix));
        },
    }
}

/// A network holds an address exactly if both are of one family and agree in the bits of
/// the prefix: for every prefix length, the two numbers are the same once divided by 2
/// to the number of host bits.
pub proof fn law_contains_by_prefix(n: IpNet, a: IpAddr)
    ensures
        match (n.addr, a) {
            (IpAddr::V4(x), IpAddr::V4(y)) => {
                let size = pow2(if n.prefix < 32 { (32 - n.prefix) as nat } else { 0 });
                n.covers(a) == (x as nat / size == y as nat / size)
            },
            (IpAddr::V6(x), IpAddr::V6(y)) => {
                let size = pow2(if n.prefix < 128 { (128 - n.prefix) as nat } else { 0 });
                n.covers(a) == (x as nat / size == y as nat / size)
            },
            _ => !n.covers(a),
        },
{
    let host = n.addr.host_bits(n.prefix);
    match (n.addr, a) {
        (IpAddr::V4(x), IpAddr::V4(y)) => {
            lemma_clear_rounds_down(x as u128, host);
            lemma_clear_rounds_down(y as u128, host);
            lemma_clear_low(x as u128, host);
            lemma_clear_low(y as u128, host);
        },
        (IpAddr::V6(x), IpAddr::V6(y)) => {
            lemma_clear_rounds_down(x, host);
            lemma_clear_rounds_down(y, host);
        },
        _ => {},
    }
}

/// A prefix fits up to 32 for IPv4 and up to 128 for IPv6.
pub proof fn law_prefix_fits(n: IpNet)
    ensures
        n.wf() == (n.prefix <= 32 || (n.addr is V6 && n.prefix <= 128)),
        n.truncated().prefix == n.prefix,
        n.truncated().addr == n.addr.network(n.prefix),
{
}

/// Networks come in the order of their families, IPv4 first, of their addresses, and of
/// their prefix lengths.
pub proof fn law_net_order(a: IpNet, b: IpNet)
    ensures
        key_lt::<IpNet>(a, b) == (match (a.addr, b.addr) {
            (IpAddr::V4(x), IpAddr::V4(y)) => x < y || (x == y && a.prefix < b.prefix),
            (IpAddr::V6(x), IpAddr::V6(y)) => x < y || (x == y && a.prefix < b.prefix),
            (IpAddr::V4(_), IpAddr::V6(_)) => true,
            (IpAddr::V6(_), IpAddr::V4(_)) => false,
        }),
{
    reveal_with_fuel(lex_lt, 4);
}

/// An IPv4 address is tracked by itself, and an IPv6 address by its first `v6_prefix`
/// bits (at most 128).
pub proof fn law_key_is_the_prefix(a: IpAddr, v6_prefix: u8)
    ensures
        match (a, key_of(a, v6_prefix).addr) {
            (IpAddr::V4(x), IpAddr::V4(y)) => y == x && key_of(a, v6_prefix).prefix == 32,
            (IpAddr::V6(x), IpAddr::V6(y)) => {
                let p: int = if v6_prefix < 128 { v6_prefix as int } else { 128 };
                let size = pow2((128 - p) as nat);
                key_of(a, v6_prefix).prefix == p && y as nat == (x as nat / size) * size
            },
            _ => false,
        },
{
    if let IpAddr::V6(x) = a {
        let p: u8 = if v6_prefix < 128 { v6_prefix } else { 128 };
        lemma_clear_rounds_down(x, (128 - p) as u8);
        vstd::arithmetic::power2::lemma2_to64();
    }
}

/// Exactly the addresses `::ffff:0:0` to `::ffff:ffff:ffff` stand for an IPv4 address,
/// which is what they are above the first of them; every other address stays.
pub proof fn law_mapped_range(a: IpAddr)
    ensures
        match a {
            IpAddr::V4(_) => normalized(a) == a,
            IpAddr::V6(x) => if 0xffff_0000_0000 <= x <= 0xffff_ffff_ffff {
                normalized(a) == IpAddr::V4((x - 0xffff_0000_0000) as u32)
            } else {
                normalized(a) == a
            },
        },
{
    if let IpAddr::V6(x) = a {
        assert((x >> 32u128 == 0xffff) == (0xffff_0000_0000 <= x && x <= 0xffff_ffff_ffff))
            by (bit_vector);
        if 0xffff_0000_0000 <= x <= 0xffff_ffff_ffff {
            assert(x & 0xffff_ffff == (x - 0xffff_0000_0000) as u128) by (bit_vector)
                requires
                    0xffff_0000_0000 <= x <= 0xffff_ffff_ffff,
            ;
        }
    }
}

/// Local are 127.0.0.0 to 127.255.255.255, 0.0.0.0, `::1` and `::`, and nothing else.
pub proof fn law_local_range(a: IpAddr)
    ensures
        match a {
            IpAddr::V4(x) => is_local(a) == (x == 0 || 2_130_706_432 <= x <= 2_147_483_647),
            IpAddr::V6(x) => is_local(a) == (x <= 1),
        },
{
}

/// Square brackets around an address in a log line do not matter, however many.
pub proof fn law_brackets_do_not_matter(front: Seq<char>, s: Seq<char>, back: Seq<char>)
    requires
        forall|i: int| 0 <= i < front.len() ==> #[trigger] front[i] == '[' || front[i] == ']',
        forall|i: int| 0 <= i < back.len() ==> #[trigger] back[i] == '[' || back[i] == ']',
        s.len() > 0,
        s[0] != '[' && s[0] != ']',
        s.last() != '[' && s.last() != ']',
    ensures
        log_ip(front + s + back) == normalized_opt(foreign::addr_of_text(s)),
    decreases front.len() + back.len(),
{
    let all = front + s + back;
    if front.len() > 0 {
        let f = front.drop_first();
        assert(front[0] == '[' || front[0] == ']');
        assert(all[0] == front[0]);
        assert(all.drop_first() =~= f + s + back);
        assert forall|i: int| 0 <= i < f.len() implies #[trigger] f[i] == '[' || f[i] == ']' by {
            assert(f[i] == front[i + 1]);
        }
        law_brackets_do_not_matter(f, s, back);
    } else if back.len() > 0 {
        let b = back.drop_last();
        assert(back[back.len() - 1] == '[' || back[back.len() - 1] == ']');
        assert(all[0] == s[0]);
        assert(strip_front(all) == all);
        assert(all.last() == back.last());
        let less = front + s + b;
        assert(all.drop_last() =~= less);
        assert(less[0] == s[0]);
        assert(strip_front(less) == less);
        assert forall|i: int| 0 <= i < b.len() implies #[trigger] b[i] == '[' || b[i] == ']' by {
            assert(b[i] == back[i]);
        }
        law_brackets_do_not_matter(front, s, b);
    } else {
        assert(all =~= s);
    }
}

/// What a network reads as: an address by itself for a single host, and the prefix
/// length behind a slash otherwise.
pub proof fn law_nft_text(n: IpNet)
    ensures
        nft_text(n) == (match n.addr {
            IpAddr::V4(_) if n.prefix == 32 => foreign::addr_text(n.addr),
            IpAddr::V6(_) if n.prefix == 128 => foreign::addr_text(n.addr),
            _ => foreign::addr_text(n.addr) + "/"@ + decimal(n.prefix as nat),
        }),
{
    reveal_strlit("/");
    assert("/"@ =~= seq!['/']);
}

/// A text of brackets alone is read as an empty one.
pub proof fn law_brackets_alone(s: Seq<char>)
    requires
        forall|i: int| 0 <= i < s.len() ==> #[trigger] s[i] == '[' || s[i] == ']',
    ensures
        log_ip(s) == normalized_opt(foreign::addr_of_text(Seq::empty())),
    decreases s.len(),
{
    if s.len() > 0 {
        let t = s.drop_first();
        assert(s[0] == '[' || s[0] == ']');
        assert forall|i: int| 0 <= i < t.len() implies #[trigger] t[i] == '[' || t[i] == ']' by {
            assert(t[i] == s[i + 1]);
        }
        law_brackets_alone(t);
        assert(strip_front(s) == strip_front(t));
    } else {
        assert(s =~= Seq::<char>::empty());
    }
}

/// An address that a log line names is read and mapped back to IPv4 where it is one.
pub proof fn law_parsed_addresses(a: IpAddr)
    ensures
        normalized_opt(Some(a)) == Some(normalized(a)),
        normalized_opt(None) is None,
{
}

} // verus!
