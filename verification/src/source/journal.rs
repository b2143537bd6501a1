//! journald source: one `journalctl --follow -o json` subprocess with server-side
//! match expressions, so we only receive entries for the units / identifiers our
//! filters care about.

use vstd::prelude::*;

use super::{Line, Origin};
use crate::foreign;
use crate::foreign::{Member, MemberView};
use crate::json;
use crate::json::{member, text_member};
use crate::scan;
use crate::text::{opt_text, texts};

verus! {

/// The match expressions, all OR'd.
pub open spec fn alternatives(v: Seq<Seq<char>>) -> Seq<Seq<char>>
    decreases v.len(),
{
    if v.len() <= 1 {
        v
    } else {
        alternatives(v.drop_last()).push("+"@).push(v.last())
    }
}

/// The arguments of `journalctl` that follow the entries matching any of `matches`,
/// which are `FIELD=value` expressions.
pub fn follow_args(matches: &Vec<String>) -> (r: Vec<String>)
    ensures
        texts(r@) == seq!["--follow"@, "--lines=0"@, "--output=json"@, "--no-pager"@]
            + alternatives(texts(matches@)),
{
    let mut args: Vec<String> = Vec::new();
    args.push("--follow".to_owned());
    args.push("--lines=0".to_owned());
    args.push("--output=json".to_owned());
    args.push("--no-pager".to_owned());
    let ghost head = texts(args@);
    assert(head =~= seq!["--follow"@, "--lines=0"@, "--output=json"@, "--no-pager"@]);
    let ghost all = texts(matches@);
    let mut i: usize = 0;
    assert(all.take(0) =~= Seq::empty());
    assert(head + Seq::empty() =~= head);
    while i < matches.len()
        invariant
            i <= matches@.len(),
            all == texts(matches@),
            texts(args@) == head + alternatives(all.take(i as int)),
        decreases matches@.len() - i,
    {
        let ghost before = args@;
        let ghost now = all.take(i + 1);
        assert(now.drop_last() =~= all.take(i as int));
        assert(now.last() == matches@[i as int]@);
        if i > 0 {
            args.push("+".to_owned());
            assert(texts(args@) =~= texts(before).push("+"@));
        }
        let ghost mid = args@;
        args.push(matches[i].clone());
        assert(texts(args@) =~= texts(mid).push(matches@[i as int]@));
        if i == 0 {
            assert(now =~= seq![matches@[0]@]);
            assert(texts(args@) =~= head + alternatives(now));
        } else {
            assert(texts(args@) =~= head + alternatives(now));
        }
        i += 1;
    }
    assert(all.take(i as int) =~= all);
    args
}

/// The bytes of a list of numbers: those that are unsigned integers, each cut to a
/// byte.
pub open spec fn bytes_of(v: Seq<Option<u64>>) -> Seq<u8>
    decreases v.len(),
{
    if v.len() == 0 {
        Seq::empty()
    } else {
        match v.last() {
            Some(n) => bytes_of(v.drop_last()).push((n % 256) as u8),
            None => bytes_of(v.drop_last()),
        }
    }
}

/// `bytes_of`.
fn list_bytes(v: &Vec<Option<u64>>) -> (r: Vec<u8>)
    ensures
        r@ == bytes_of(v@),
{
    let mut out: Vec<u8> = Vec::new();
    let mut i: usize = 0;
    assert(v@.take(0) =~= Seq::empty());
    while i < v.len()
        invariant
            i <= v@.len(),
            out@ == bytes_of(v@.take(i as int)),
        decreases v@.len() - i,
    {
        assert(v@.take(i + 1).drop_last() =~= v@.take(i as int));
        if let Some(n) = v[i] {
            out.push((n % 256) as u8);
        }
        i += 1;
    }
    assert(v@.take(i as int) =~= v@);
    out
}

/// A journal entry as values.
pub struct EntryView {
    pub unit: Option<Seq<char>>,
    pub identifier: Option<Seq<char>>,
    pub comm: Option<Seq<char>>,
    pub uid: Option<u32>,
    pub text: Seq<char>,
}

/// A line of the journal as values.
pub open spec fn entry_view(l: Line) -> Option<EntryView> {
    match l.origin {
        Origin::Journal { unit, identifier, comm, uid } => Some(
            EntryView {
                unit: opt_text(unit),
                identifier: opt_text(identifier),
                comm: opt_text(comm),
                uid,
                text: l.text@,
            },
        ),
        Origin::File(_) => None,
    }
}

/// The user id that a text writes.
pub open spec fn uid_of(s: Option<Seq<char>>) -> Option<u32> {
    match s {
        Some(s) => match scan::number(s, false) {
            Some(n) => if n <= u32::MAX {
                Some(n as u32)
            } else {
                None
            },
            None => None,
        },
        None => None,
    }
}

/// The entry that the members of a JSON object are: a message that is a text, or a
/// list of bytes where it is not UTF-8, and the routing fields.
pub open spec fn entry_of(m: Map<Seq<char>, MemberView>) -> Option<EntryView> {
    let text = match member(m, "MESSAGE"@) {
        Some(MemberView::Text(s)) => Some(s),
        Some(MemberView::List(v)) => Some(foreign::lossy(bytes_of(v))),
        _ => None,
    };
    match text {
        Some(text) => Some(
            EntryView {
                unit: text_member(m, "_SYSTEMD_UNIT"@),
                identifier: text_member(m, "SYSLOG_IDENTIFIER"@),
                comm: text_member(m, "_COMM"@),
                uid: uid_of(text_member(m, "_UID"@)),
                text,
            },
        ),
        None => None,
    }
}

/// `uid_of`.
fn read_uid(s: &Option<String>) -> (r: Option<u32>)
    ensures
        r == uid_of(opt_text(*s)),
{
    match s {
        Some(s) => match scan::unsigned(s.as_str()) {
            Some(n) => if n <= 0xffff_ffff {
                Some(n as u32)
            } else {
                None
            },
            None => None,
        },
        None => None,
    }
}

/// The line that the members of an entry are.
pub fn entry_line(v: &Vec<(String, Member)>) -> (r: Option<Line>)
    ensures
        match r {
            Some(l) => entry_view(l) is Some && entry_of(foreign::member_map(v@)) == entry_view(l),
            None => entry_of(foreign::member_map(v@)) is None,
        },
{
    let text = match json::find(v, "MESSAGE") {
        Some(Member::Text(s)) => s.clone(),
        Some(Member::List(list)) => {
            let bytes = list_bytes(list);
            foreign::lossy_text(&bytes)
        },
        _ => {
            return None;
        },
    };
    let uid = json::find_text(v, "_UID");
    Some(
        Line {
            origin: Origin::Journal {
                unit: json::find_text(v, "_SYSTEMD_UNIT"),
                identifier: json::find_text(v, "SYSLOG_IDENTIFIER"),
                comm: json::find_text(v, "_COMM"),
                uid: read_uid(&uid),
            },
            text,
        },
    )
}

/// The line that a JSON text of `journalctl` is.
pub fn parse_entry(json: &str) -> (r: Option<Line>)
    ensures
        ({
            let want = match foreign::json_members(json@) {
                Some(m) => entry_of(m),
                None => None,
            };
            match r {
                Some(l) => entry_view(l) is Some && want == entry_view(l),
                None => want is None,
            }
        }),
{
    match foreign::parse_json(json) {
        Some(v) => entry_line(&v),
        None => None,
    }
}

/// The match expressions stand in order, with a plus between each two.
pub proof fn law_expressions_are_alternatives(v: Seq<Seq<char>>, i: int)
    requires
        0 <= i < v.len(),
    ensures
        alternatives(v).len() == 2 * v.len() - 1,
        alternatives(v)[2 * i] == v[i],
        i + 1 < v.len() ==> alternatives(v)[2 * i + 1] == "+"@,
    decreases v.len(),
{
    if v.len() > 1 {
        let u = v.drop_last();
        law_expressions_are_alternatives(u, if i < u.len() { i } else { 0 });
        assert(alternatives(v) == alternatives(u).push("+"@).push(v.last()));
    }
}

/// The bytes of a list are its unsigned integers, in order, each modulo 256.
pub proof fn law_bytes_of_a_list(v: Seq<Option<u64>>)
    ensures
        bytes_of(v) == v.filter(|n: Option<u64>| n is Some).map_values(
            |n: Option<u64>| (n->0 % 256) as u8,
        ),
    decreases v.len(),
{
    reveal(Seq::filter);
    let p = |n: Option<u64>| n is Some;
    let f = |n: Option<u64>| (n->0 % 256) as u8;
    if v.len() == 0 {
        assert(v.filter(p).map_values(f) =~= Seq::empty());
    } else {
        law_bytes_of_a_list(v.drop_last());
        assert(bytes_of(v) =~= v.filter(p).map_values(f));
    }
}

/// What an entry tells: its message, as text or as bytes, and the four fields that it is
/// routed by, each where it is a text; without such a message it tells nothing.
pub proof fn law_entry_fields(m: Map<Seq<char>, MemberView>, n: nat)
    ensures
        (entry_of(m) is Some) == (m.contains_key("MESSAGE"@) && (m["MESSAGE"@] is Text
            || m["MESSAGE"@] is List)),
        entry_of(m) matches Some(e) ==> {
            &&& m["MESSAGE"@] matches MemberView::Text(s) ==> e.text == s
            &&& m["MESSAGE"@] matches MemberView::List(v) ==> e.text == foreign::lossy(bytes_of(v))
            &&& e.unit == (if m.contains_key("_SYSTEMD_UNIT"@) {
                match m["_SYSTEMD_UNIT"@] {
                    MemberView::Text(s) => Some(s),
                    _ => None,
                }
            } else {
                None
            })
            &&& e.identifier == (if m.contains_key("SYSLOG_IDENTIFIER"@) {
                match m["SYSLOG_IDENTIFIER"@] {
                    MemberView::Text(s) => Some(s),
                    _ => None,
                }
            } else {
                None
            })
            &&& e.comm == (if m.contains_key("_COMM"@) {
                match m["_COMM"@] {
                    MemberView::Text(s) => Some(s),
                    _ => None,
                }
            } else {
                None
            })
            &&& m.contains_key("_UID"@) && m["_UID"@] == MemberView::Text(crate::text::decimal(n)) ==> (
            if n <= u32::MAX {
                e.uid == Some(n as u32)
            } else {
                e.uid is None
            })
            &&& m.contains_key("_UID"@) && m["_UID"@] is Text ==> e.uid == (match scan::number(
                m["_UID"@]->Text_0,
                false,
            ) {
                Some(k) if k <= u32::MAX => Some(k as u32),
                _ => None,
            })
            &&& !m.contains_key("_UID"@) || !(m["_UID"@] is Text) ==> e.uid is None
        },
{
    scan::law_numbers_are_read(n, false, Seq::empty());
}

/// A line of the journal tells all of its fields as values.
pub proof fn law_entries_tell_all(l: Line)
    ensures
        match l.origin {
            Origin::File(_) => entry_view(l) is None,
            Origin::Journal { unit, identifier, comm, uid } => entry_view(l) matches Some(e)
                && e.unit == opt_text(unit) && e.identifier == opt_text(identifier) && e.comm
                == opt_text(comm) && e.uid == uid && e.text == l.text@,
        },
{
}

} // verus!
