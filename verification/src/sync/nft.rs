//! Writing the crowd blocklist into nftables. The daemon owns the
//! `inet minsec` table, its chains, and the rules referencing `crowd4` /
//! `crowd6`; minsec-sync only manages the contents of those two sets.
//!
//! Every entry is parsed as an address/prefix of the right family before it
//! goes anywhere near a script: feed bytes are never interpolated raw.

use vstd::prelude::*;
use vstd::string::*;

use crate::foreign;
use crate::ip;
use crate::ip::{IpAddr, IpNet};
use crate::text::texts;

verus! {

pub const TABLE: &'static str = "inet minsec";

/// How long a crowd element stays without a refresh.
pub const CROWD_TIMEOUT: &'static str = "24h";

/// A set is replaced as a whole once it has not been for this long.
pub const FULL_REFRESH_SECS: u64 = 43200;

/// Elements per command.
pub const CHUNK: usize = 500;

/// The set of a family.
pub open spec fn set_of(family: u8) -> Seq<char> {
    if family == 4 {
        "crowd4"@
    } else {
        "crowd6"@
    }
}

pub fn set_name(family: u8) -> (r: &'static str)
    ensures
        r@ == set_of(family),
{
    if family == 4 {
        "crowd4"
    } else {
        "crowd6"
    }
}

/// Whether a network is of the family.
pub open spec fn of_family(n: IpNet, family: u8) -> bool {
    match n.addr {
        IpAddr::V4(_) => family == 4,
        IpAddr::V6(_) => family == 6,
    }
}

/// The network that a feed entry is: an address by itself is a single host, anything
/// else has to be a network; of the other family, it is none.
pub open spec fn entry_net(
    addr: Option<IpAddr>,
    net: Option<IpNet>,
    family: u8,
) -> Option<IpNet> {
    let n = match addr {
        Some(a) => Some(IpNet { addr: a, prefix: a.bits() }),
        None => net,
    };
    match n {
        Some(n) => if of_family(n, family) {
            Some(n)
        } else {
            None
        },
        None => None,
    }
}

/// The network that an entry is, when it reads as the address `addr` or the network
/// `net`.
pub fn pick_entry(addr: Option<IpAddr>, net: Option<IpNet>, family: u8) -> (r: Option<IpNet>)
    ensures
        r == entry_net(addr, net, family),
{
    let n = match addr {
        Some(a) => Some(IpNet::host(a)),
        None => net,
    };
    match n {
        Some(n) => {
            let ok: bool = match n.addr {
                IpAddr::V4(_) => family == 4,
                IpAddr::V6(_) => family == 6,
            };
            if ok {
                Some(n)
            } else {
                None
            }
        },
        None => None,
    }
}

/// Parse and validate one feed entry (bare address or CIDR) for a family.
pub fn parse_entry(entry: &str, family: u8) -> (r: Option<IpNet>)
    ensures
        r == entry_net(foreign::addr_of_text(entry@), foreign::net_of_text(entry@), family),
        r matches Some(n) ==> n.wf() && of_family(n, family),
{
    let addr = foreign::parse_addr(entry);
    let net = foreign::parse_net(entry);
    pick_entry(addr, net, family)
}

/// Networks, separated by commas.
pub open spec fn net_list(nets: Seq<IpNet>) -> Seq<char>
    decreases nets.len(),
{
    if nets.len() == 0 {
        Seq::empty()
    } else if nets.len() == 1 {
        ip::nft_text(nets[0])
    } else {
        net_list(nets.drop_last()) + ", "@ + ip::nft_text(nets.last())
    }
}

/// One command for some elements of a set.
pub open spec fn command(verb: Seq<char>, set: Seq<char>, nets: Seq<IpNet>) -> Seq<char> {
    verb + " element "@ + TABLE@ + " "@ + set + " { "@ + net_list(nets) + " }\n"@
}

/// Commands for all elements, at most `CHUNK` in each.
pub open spec fn commands(verb: Seq<char>, set: Seq<char>, nets: Seq<IpNet>) -> Seq<char>
    decreases nets.len(),
{
    if nets.len() == 0 {
        Seq::empty()
    } else if nets.len() <= CHUNK {
        command(verb, set, nets)
    } else {
        command(verb, set, nets.take(CHUNK as int)) + commands(verb, set, nets.skip(CHUNK as int))
    }
}

/// Every network is one.
pub open spec fn all_wf(nets: Seq<IpNet>) -> bool {
    forall|i: int| 0 <= i < nets.len() ==> (#[trigger] nets[i]).wf()
}

/// Appends one command for the networks from `from` to `to`.
fn push_command(s: &mut String, verb: &str, set: &str, nets: &Vec<IpNet>, from: usize, to: usize)
    requires
        from < to <= nets@.len(),
        all_wf(nets@),
    ensures
        final(s)@ == old(s)@ + command(verb@, set@, nets@.subrange(from as int, to as int)),
{
    let ghost start = s@;
    s.append(verb);
    s.append(" element ");
    s.append(TABLE);
    s.append(" ");
    s.append(set);
    s.append(" { ");
    let ghost head = s@;
    let mut i: usize = from;
    assert(nets@.subrange(from as int, from as int) =~= Seq::empty());
    assert(head + Seq::empty() =~= head);
    while i < to
        invariant
            from <= i <= to <= nets@.len(),
            all_wf(nets@),
            s@ == head + net_list(nets@.subrange(from as int, i as int)),
        decreases to - i,
    {
        let ghost now = nets@.subrange(from as int, i + 1);
        assert(now.drop_last() =~= nets@.subrange(from as int, i as int));
        assert(now.last() == nets@[i as int]);
        if i > from {
            s.append(", ");
        }
        let t = ip::key_to_nft(&nets[i]);
        s.append(t.as_str());
        assert(s@ =~= head + net_list(now));
        i += 1;
    }
    s.append(" }\n");
    assert(s@ =~= start + command(verb@, set@, nets@.subrange(from as int, to as int)));
}

/// Appends the commands for all elements.
pub fn push_elements(s: &mut String, verb: &str, set: &str, nets: &Vec<IpNet>)
    requires
        all_wf(nets@),
    ensures
        final(s)@ == old(s)@ + commands(verb@, set@, nets@),
{
    let ghost start = s@;
    let mut from: usize = 0;
    assert(nets@.skip(0) =~= nets@);
    assert(start + commands(verb@, set@, nets@) =~= start + commands(verb@, set@, nets@.skip(0)));
    while from < nets.len()
        invariant
            from <= nets@.len(),
            all_wf(nets@),
            start + commands(verb@, set@, nets@) == s@ + commands(
                verb@,
                set@,
                nets@.skip(from as int),
            ),
        decreases nets@.len() - from,
    {
        let ghost rest = nets@.skip(from as int);
        let ghost before = s@;
        let to: usize = if nets.len() - from <= CHUNK {
            nets.len()
        } else {
            from + CHUNK
        };
        push_command(s, verb, set, nets, from, to);
        proof {
            if rest.len() <= CHUNK {
                assert(nets@.subrange(from as int, to as int) =~= rest);
                assert(nets@.skip(to as int) =~= Seq::empty());
                assert(s@ + Seq::empty() =~= before + commands(verb@, set@, rest));
            } else {
                assert(nets@.subrange(from as int, to as int) =~= rest.take(CHUNK as int));
                assert(nets@.skip(to as int) =~= rest.skip(CHUNK as int));
                assert(s@ + commands(verb@, set@, nets@.skip(to as int)) =~= before + commands(
                    verb@,
                    set@,
                    rest,
                ));
            }
        }
        from = to;
    }
    assert(nets@.skip(from as int) =~= Seq::empty());
    assert(s@ + Seq::empty() =~= s@);
}

/// The command that makes a set whose elements expire.
pub open spec fn set_command(set: Seq<char>, kind: Seq<char>) -> Seq<char> {
    "add set "@ + TABLE@ + " "@ + set + " { type "@ + kind + "; flags interval, timeout; timeout "@
        + CROWD_TIMEOUT@ + "; }\n"@
}

/// Appends `set_command`.
fn push_set(s: &mut String, set: &str, kind: &str)
    ensures
        final(s)@ == old(s)@ + set_command(set@, kind@),
{
    let ghost start = s@;
    s.append("add set ");
    s.append(TABLE);
    s.append(" ");
    s.append(set);
    s.append(" { type ");
    s.append(kind);
    s.append("; flags interval, timeout; timeout ");
    s.append(CROWD_TIMEOUT);
    s.append("; }\n");
    assert(s@ =~= start + set_command(set@, kind@));
}

/// Makes the sets, if they are not there yet. Their elements carry a kernel timeout, so
/// that a sync which stops running cannot enforce its last snapshot forever.
pub fn ensure_sets_script() -> (r: String)
    ensures
        r@ == "add table "@ + TABLE@ + "\n"@ + set_command("crowd4"@, "ipv4_addr"@) + set_command(
            "crowd6"@,
            "ipv6_addr"@,
        ),
{
    let mut s = "add table ".to_owned();
    s.append(TABLE);
    s.append("\n");
    push_set(&mut s, "crowd4", "ipv4_addr");
    push_set(&mut s, "crowd6", "ipv6_addr");
    s
}

/// The script that replaces a set.
pub open spec fn replacement(family: u8, nets: Seq<IpNet>) -> Seq<char> {
    "flush set "@ + TABLE@ + " "@ + set_of(family) + "\n"@ + commands(
        "add"@,
        set_of(family),
        nets,
    )
}

/// The script that takes one element out of a set.
pub open spec fn removal(family: u8, net: IpNet) -> Seq<char> {
    "delete element "@ + TABLE@ + " "@ + set_of(family) + " { "@ + ip::nft_text(net) + " }\n"@
}

/// The script that adds elements to a set.
pub open spec fn addition(family: u8, added: Seq<IpNet>) -> Seq<char> {
    commands("add"@, set_of(family), added)
}

/// Atomically replaces the whole set (flush + add in one transaction).
pub fn replace_script(family: u8, nets: &Vec<IpNet>) -> (r: String)
    requires
        all_wf(nets@),
    ensures
        r@ == replacement(family, nets@),
{
    let set = set_name(family);
    let mut s = "flush set ".to_owned();
    s.append(TABLE);
    s.append(" ");
    s.append(set);
    s.append("\n");
    push_elements(&mut s, "add", set, nets);
    s
}

/// Takes one element out. Elements that nft no longer has must not fail a delta, so
/// they go one at a time.
pub fn remove_script(family: u8, net: &IpNet) -> (r: String)
    requires
        net.wf(),
    ensures
        r@ == removal(family, *net),
{
    let mut s = "delete element ".to_owned();
    s.append(TABLE);
    s.append(" ");
    s.append(set_name(family));
    s.append(" { ");
    let t = ip::key_to_nft(net);
    s.append(t.as_str());
    s.append(" }\n");
    s
}

/// Adds the new elements of a delta in one transaction; nothing to run without any.
pub fn add_script(family: u8, added: &Vec<IpNet>) -> (r: Option<String>)
    requires
        all_wf(added@),
    ensures
        match r {
            Some(s) => added@.len() > 0 && s@ == addition(family, added@),
            None => added@.len() == 0,
        },
{
    if added.len() == 0 {
        return None;
    }
    let mut s = String::new();
    push_elements(&mut s, "add", set_name(family), added);
    assert(Seq::<char>::empty() + commands("add"@, set_of(family), added@) =~= commands(
        "add"@,
        set_of(family),
        added@,
    ));
    Some(s)
}

/// What is said of a run that failed.
pub fn failure(status: &str, stderr: &str) -> (r: String)
    ensures
        r@ == "nft failed ("@ + status@ + "): "@ + crate::text::trim(stderr@),
{
    let mut s = "nft failed (".to_owned();
    s.append(status);
    s.append("): ");
    let t = crate::text::text(&crate::text::trimmed(&crate::text::chars(stderr)));
    s.append(t.as_str());
    s
}

/// The networks among the entries that are of the family, in order.
pub open spec fn valid_nets(entries: Seq<Seq<char>>, family: u8) -> Seq<IpNet>
    decreases entries.len(),
{
    if entries.len() == 0 {
        Seq::empty()
    } else {
        let e = entries.last();
        match entry_net(foreign::addr_of_text(e), foreign::net_of_text(e), family) {
            Some(n) => valid_nets(entries.drop_last(), family).push(n),
            None => valid_nets(entries.drop_last(), family),
        }
    }
}

/// There are no more networks than entries.
pub proof fn lemma_valid_nets(entries: Seq<Seq<char>>, family: u8)
    ensures
        valid_nets(entries, family).len() <= entries.len(),
    decreases entries.len(),
{
    if entries.len() > 0 {
        lemma_valid_nets(entries.drop_last(), family);
    }
}

/// The networks among the entries that are of the family, and how many entries are
/// none.
pub fn parse_entries(entries: &Vec<String>, family: u8) -> (r: (Vec<IpNet>, usize))
    ensures
        r.0@ == valid_nets(texts(entries@), family),
        r.1 == entries@.len() - r.0@.len(),
        all_wf(r.0@),
{
    let ghost all = texts(entries@);
    let mut out: Vec<IpNet> = Vec::new();
    let mut invalid: usize = 0;
    let mut i: usize = 0;
    assert(all.take(0) =~= Seq::empty());
    while i < entries.len()
        invariant
            i <= entries@.len(),
            all == texts(entries@),
            out@ == valid_nets(all.take(i as int), family),
            invalid == i - out@.len(),
            out@.len() <= i,
            all_wf(out@),
        decreases entries@.len() - i,
    {
        assert(all.take(i + 1).drop_last() =~= all.take(i as int));
        assert(all.take(i + 1).last() == entries@[i as int]@);
        match parse_entry(entries[i].as_str(), family) {
            Some(n) => {
                out.push(n);
            },
            None => {
                invalid += 1;
            },
        }
        i += 1;
    }
    assert(all.take(i as int) =~= all);
    (out, invalid)
}

/// Every network of a set's commands is of the set's family.
pub proof fn law_set_holds_its_family(entries: Seq<Seq<char>>, family: u8)
    ensures
        forall|i: int|
            0 <= i < valid_nets(entries, family).len() ==> of_family(
                #[trigger] valid_nets(entries, family)[i],
                family,
            ),
    decreases entries.len(),
{
    if entries.len() > 0 {
        let before = valid_nets(entries.drop_last(), family);
        let all = valid_nets(entries, family);
        law_set_holds_its_family(entries.drop_last(), family);
        assert forall|i: int| 0 <= i < all.len() implies of_family(#[trigger] all[i], family) by {
            if i < before.len() {
                assert(all[i] == before[i]);
            }
        }
    }
}

/// A list of networks is the first, and every other behind a comma.
proof fn lemma_net_list(nets: Seq<IpNet>)
    requires
        nets.len() > 0,
    ensures
        net_list(nets) == ip::nft_text(nets[0]) + nets.skip(1).map_values(
            |n: IpNet| ", "@ + ip::nft_text(n),
        ).flatten(),
    decreases nets.len(),
{
    let f = |n: IpNet| ", "@ + ip::nft_text(n);
    let rest = nets.skip(1).map_values(f);
    if nets.len() == 1 {
        assert(rest =~= Seq::empty());
        assert(net_list(nets) =~= ip::nft_text(nets[0]) + rest.flatten());
    } else {
        let u = nets.drop_last();
        lemma_net_list(u);
        let before = u.skip(1).map_values(f);
        assert(rest =~= before.push(f(nets.last())));
        before.lemma_flatten_push(f(nets.last()));
        assert(u[0] == nets[0]);
        assert(net_list(nets) =~= ip::nft_text(nets[0]) + rest.flatten());
    }
}

/// All networks are in the commands, each once and in order: there is one command for
/// every 500 of them, begun or full, and the command at place `j` holds those from
/// place `500 * j` on, separated by commas.
pub proof fn law_commands_hold_every_network(verb: Seq<char>, set: Seq<char>, nets: Seq<IpNet>)
    ensures
        commands(verb, set, nets) == Seq::new(
            ((nets.len() + 499) / 500) as nat,
            |j: int|
                {
                    let part = nets.subrange(
                        500 * j,
                        if 500 * j + 500 < nets.len() {
                            500 * j + 500
                        } else {
                            nets.len() as int
                        },
                    );
                    verb + " element inet minsec "@ + set + " { "@ + (ip::nft_text(part[0])
                        + part.skip(1).map_values(
                        |n: IpNet| ", "@ + ip::nft_text(n),
                    ).flatten()) + " }\n"@
                },
        ).flatten(),
    decreases nets.len(),
{
    let k = ((nets.len() + 499) / 500) as nat;
    let all = Seq::new(
        k,
        |j: int|
            {
                let part = nets.subrange(
                    500 * j,
                    if 500 * j + 500 < nets.len() {
                        500 * j + 500
                    } else {
                        nets.len() as int
                    },
                );
                verb + " element inet minsec "@ + set + " { "@ + (ip::nft_text(part[0])
                    + part.skip(1).map_values(
                    |n: IpNet| ", "@ + ip::nft_text(n),
                ).flatten()) + " }\n"@
            },
    );
    if nets.len() == 0 {
        assert(all =~= Seq::empty());
    } else {
        reveal_strlit(" element ");
        reveal_strlit("inet minsec");
        reveal_strlit(" ");
        reveal_strlit(" element inet minsec ");
        assert(" element inet minsec "@ =~= " element "@ + "inet minsec"@ + " "@);
        let head = nets.subrange(
            0,
            if 500 < nets.len() {
                500
            } else {
                nets.len() as int
            },
        );
        lemma_net_list(head);
        assert(command(verb, set, head) =~= all[0]);
        let rest = nets.skip(head.len() as int);
        law_commands_hold_every_network(verb, set, rest);
        let others = Seq::new(
            ((rest.len() + 499) / 500) as nat,
            |j: int|
            {
                let part = rest.subrange(
                    500 * j,
                    if 500 * j + 500 < rest.len() {
                        500 * j + 500
                    } else {
                        rest.len() as int
                    },
                );
                verb + " element inet minsec "@ + set + " { "@ + (ip::nft_text(part[0])
                    + part.skip(1).map_values(
                    |n: IpNet| ", "@ + ip::nft_text(n),
                ).flatten()) + " }\n"@
            },
        );
        assert(all.drop_first() =~= others) by {
            assert forall|j: int| 0 <= j < others.len() implies all.drop_first()[j]
                == others[j] by {
                let a = nets.subrange(
                    500 * (j + 1),
                    if 500 * (j + 1) + 500 < nets.len() {
                        500 * (j + 1) + 500
                    } else {
                        nets.len() as int
                    },
                );
                let b = rest.subrange(
                    500 * j,
                    if 500 * j + 500 < rest.len() {
                        500 * j + 500
                    } else {
                        rest.len() as int
                    },
                );
                assert(a =~= b);
                assert(all.drop_first()[j] == all[j + 1]);
            }
        }
        assert(all.flatten() == all.first() + all.drop_first().flatten());
        if nets.len() <= 500 {
            assert(head =~= nets);
            assert(rest =~= Seq::empty());
            assert(others =~= Seq::empty());
            assert(all.flatten() =~= command(verb, set, nets));
        } else {
            assert(head =~= nets.take(500));
        }
    }
}

/// The scripts, in full: a set is flushed and filled again in one; elements are added
/// in one, and taken out one by one; IPv4 goes to `crowd4`, anything else to `crowd6`;
/// sets are made with a timeout of a day.
pub proof fn law_scripts_in_full(family: u8, nets: Seq<IpNet>, net: IpNet)
    ensures
        ({
            let set = if family == 4 {
                "crowd4"@
            } else {
                "crowd6"@
            };
            &&& replacement(family, nets) == "flush set inet minsec "@ + set + "\n"@ + commands(
                "add"@,
                set,
                nets,
            )
            &&& addition(family, nets) == commands("add"@, set, nets)
            &&& removal(family, net) == "delete element inet minsec "@ + set + " { "@
                + ip::nft_text(net) + " }\n"@
            &&& set_command("crowd4"@, "ipv4_addr"@)
                == "add set inet minsec crowd4 { type ipv4_addr; flags interval, timeout; timeout 24h; }\n"@
            &&& set_command("crowd6"@, "ipv6_addr"@)
                == "add set inet minsec crowd6 { type ipv6_addr; flags interval, timeout; timeout 24h; }\n"@
        }),
{
    reveal_strlit("inet minsec");
    reveal_strlit(" ");
    reveal_strlit("flush set ");
    reveal_strlit("flush set inet minsec ");
    assert("flush set inet minsec "@ =~= "flush set "@ + "inet minsec"@ + " "@);
    reveal_strlit("delete element ");
    reveal_strlit("delete element inet minsec ");
    assert("delete element inet minsec "@ =~= "delete element "@ + "inet minsec"@ + " "@);
    reveal_strlit("add set ");
    reveal_strlit("crowd4");
    reveal_strlit("crowd6");
    reveal_strlit(" { type ");
    reveal_strlit("ipv4_addr");
    reveal_strlit("ipv6_addr");
    reveal_strlit("; flags interval, timeout; timeout ");
    reveal_strlit("24h");
    reveal_strlit("; }\n");
    reveal_strlit(
        "add set inet minsec crowd4 { type ipv4_addr; flags interval, timeout; timeout 24h; }\n",
    );
    reveal_strlit(
        "add set inet minsec crowd6 { type ipv6_addr; flags interval, timeout; timeout 24h; }\n",
    );
    assert(set_command("crowd4"@, "ipv4_addr"@)
        =~= "add set inet minsec crowd4 { type ipv4_addr; flags interval, timeout; timeout 24h; }\n"@);
    assert(set_command("crowd6"@, "ipv6_addr"@)
        =~= "add set inet minsec crowd6 { type ipv6_addr; flags interval, timeout; timeout 24h; }\n"@);
}

/// A feed entry that reads as an address is that host, and one that only reads as a
/// network is that network, provided it is of the family asked for.
pub proof fn law_entry_is_a_network(addr: Option<IpAddr>, net: Option<IpNet>, family: u8)
    ensures
        entry_net(addr, net, family) == (match addr {
            Some(IpAddr::V4(x)) => if family == 4 {
                Some(IpNet { addr: IpAddr::V4(x), prefix: 32 })
            } else {
                None
            },
            Some(IpAddr::V6(x)) => if family == 6 {
                Some(IpNet { addr: IpAddr::V6(x), prefix: 128 })
            } else {
                None
            },
            None => match net {
                Some(n) if n.addr is V4 && family == 4 => Some(n),
                Some(n) if n.addr is V6 && family == 6 => Some(n),
                _ => None,
            },
        }),
{
}

/// Every entry that is a network of the family is taken, in order, and nothing else.
pub proof fn law_entries_taken(entries: Seq<Seq<char>>, family: u8)
    ensures
        valid_nets(entries, family) == entries.map_values(
            |e: Seq<char>|
                entry_net(foreign::addr_of_text(e), foreign::net_of_text(e), family),
        ).filter(|n: Option<IpNet>| n is Some).map_values(|n: Option<IpNet>| n->0),
    decreases entries.len(),
{
    reveal(Seq::filter);
    let f = |e: Seq<char>| entry_net(foreign::addr_of_text(e), foreign::net_of_text(e), family);
    let p = |n: Option<IpNet>| n is Some;
    let g = |n: Option<IpNet>| n->0;
    if entries.len() == 0 {
        assert(entries.map_values(f).filter(p).map_values(g) =~= Seq::empty());
    } else {
        let u = entries.drop_last();
        law_entries_taken(u, family);
        assert(entries.map_values(f).drop_last() =~= u.map_values(f));
        assert(valid_nets(entries, family) =~= entries.map_values(f).filter(p).map_values(g));
    }
}

} // verus!
