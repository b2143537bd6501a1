//! Reading new automatic-ban events from the daemon's append-only
//! `events.jsonl`, resuming from a byte cursor and following the daemon's
//! single-file rotation (`events.jsonl` to `events.jsonl.1`).
//!
//! Events are parsed loosely (unknown fields and kinds ignored) so the two
//! binaries can be upgraded independently. Here the log is cut into lines
//! ([`text_lines`]), and of what each of them reads as, the automatic bans are
//! picked ([`pick_bans`]).

use vstd::prelude::*;
use vstd::slice::slice_subrange;
use vstd::utf8::{decode_utf8, valid_utf8};

use crate::foreign;
use crate::foreign::first_byte;
use crate::source::file::{lemma_first_byte, NEWLINE};
use crate::sync::report::bans_of;
use crate::sync::state::Cursor;
use crate::text;
use crate::text::{opt_text, texts};

verus! {

/// An automatic ban worth reporting.
#[derive(Debug, Clone)]
pub struct BanEvent {
    pub ts: u64,
    pub net: String,
    pub filter: String,
    pub ttl: u64,
    pub hits: u32,
    pub escalation: u32,
    pub manual: bool,
}

/// A [`BanEvent`] as values.
pub struct BanView {
    pub ts: u64,
    pub net: Seq<char>,
    pub filter: Seq<char>,
    pub ttl: u64,
    pub hits: u32,
    pub escalation: u32,
    pub manual: bool,
}

impl View for BanEvent {
    type V = BanView;

    open spec fn view(&self) -> BanView {
        BanView {
            ts: self.ts,
            net: self.net@,
            filter: self.filter@,
            ttl: self.ttl,
            hits: self.hits,
            escalation: self.escalation,
            manual: self.manual,
        }
    }
}

/// What a run reads.
#[derive(Debug, Clone, Copy, PartialEq, Eq, Structural)]
pub enum ReadPlan {
    /// There is no events file (the daemon never ran): nothing to report, keep the
    /// cursor.
    Nothing { cursor: Cursor },
    /// The rest of the file that was rotated away, if it is still around, from the
    /// given offset, and the current file from `start`.
    Read { rotated: Option<u64>, ino: u64, start: u64 },
}

/// What a run reads, given the inode and size of the events file, the inode of the
/// rotated one, and the cursor. A cursor of another file starts the current one from
/// the beginning, after the rest of the rotated one where that is it. An offset past
/// the end means that the file was cut; it is read again rather than never.
pub open spec fn read_plan(
    current: Option<(u64, u64)>,
    rotated: Option<u64>,
    cursor: Option<Cursor>,
) -> ReadPlan {
    match current {
        None => ReadPlan::Nothing {
            cursor: match cursor {
                Some(c) => c,
                None => Cursor { ino: 0, offset: 0 },
            },
        },
        Some((ino, size)) => match cursor {
            Some(c) => if c.ino == ino {
                ReadPlan::Read {
                    rotated: None,
                    ino,
                    start: if c.offset > size {
                        0
                    } else {
                        c.offset
                    },
                }
            } else if rotated == Some(c.ino) {
                ReadPlan::Read { rotated: Some(c.offset), ino, start: 0 }
            } else {
                ReadPlan::Read { rotated: None, ino, start: 0 }
            },
            None => ReadPlan::Read { rotated: None, ino, start: 0 },
        },
    }
}

/// `read_plan`.
pub fn plan_read(
    current: Option<(u64, u64)>,
    rotated: Option<u64>,
    cursor: Option<Cursor>,
) -> (r: ReadPlan)
    ensures
        r == read_plan(current, rotated, cursor),
{
    match current {
        None => ReadPlan::Nothing {
            cursor: match cursor {
                Some(c) => c,
                None => Cursor { ino: 0, offset: 0 },
            },
        },
        Some((ino, size)) => match cursor {
            Some(c) => {
                let same_rotated: bool = match rotated {
                    Some(i) => i == c.ino,
                    None => false,
                };
                if c.ino == ino {
                    let start: u64 = if c.offset > size {
                        0
                    } else {
                        c.offset
                    };
                    ReadPlan::Read { rotated: None, ino, start }
                } else if same_rotated {
                    ReadPlan::Read { rotated: Some(c.offset), ino, start: 0 }
                } else {
                    ReadPlan::Read { rotated: None, ino, start: 0 }
                }
            },
            None => ReadPlan::Read { rotated: None, ino, start: 0 },
        },
    }
}

/// What a line of the log reads as: its kind, if it is an event at all, and a ban, if it
/// has all fields of one.
#[derive(Debug, Clone)]
pub struct Parsed {
    pub kind: Option<String>,
    pub ban: Option<BanEvent>,
}

/// A [`Parsed`] as values.
pub struct ParsedView {
    pub kind: Option<Seq<char>>,
    pub ban: Option<BanView>,
}

/// A ban that may be absent, as values.
pub open spec fn shown(b: Option<BanEvent>) -> Option<BanView> {
    match b {
        Some(b) => Some(b@),
        None => None,
    }
}

impl View for Parsed {
    type V = ParsedView;

    open spec fn view(&self) -> ParsedView {
        ParsedView { kind: opt_text(self.kind), ban: shown(self.ban) }
    }
}

/// Lines as values.
pub open spec fn parsed_lines(v: Seq<Parsed>) -> Seq<ParsedView> {
    v.map_values(|p: Parsed| p@)
}

/// The automatic ban that a line tells: an event of kind `ban` with all its fields that
/// was not made by hand.
pub open spec fn line_ban(p: ParsedView) -> Option<BanView> {
    match p.ban {
        Some(b) => if p.kind == Some("ban"@) && !b.manual {
            Some(b)
        } else {
            None
        },
        None => None,
    }
}

/// `line_ban`.
pub fn pick_ban(p: &Parsed) -> (r: Option<BanEvent>)
    ensures
        shown(r) == line_ban(p@),
{
    let is_ban: bool = match &p.kind {
        Some(k) => text::same(k.as_str(), "ban"),
        None => false,
    };
    match &p.ban {
        Some(b) => if is_ban && !b.manual {
            Some(
                BanEvent {
                    ts: b.ts,
                    net: b.net.clone(),
                    filter: b.filter.clone(),
                    ttl: b.ttl,
                    hits: b.hits,
                    escalation: b.escalation,
                    manual: false,
                },
            )
        } else {
            None
        },
        None => None,
    }
}

/// The automatic bans that lines tell, in order.
pub open spec fn bans_among(v: Seq<ParsedView>) -> Seq<BanView>
    decreases v.len(),
{
    if v.len() == 0 {
        Seq::empty()
    } else {
        match line_ban(v.last()) {
            Some(b) => bans_among(v.drop_last()).push(b),
            None => bans_among(v.drop_last()),
        }
    }
}

/// Appends the automatic bans that the lines tell.
pub fn pick_bans(lines: &Vec<Parsed>, out: &mut Vec<BanEvent>)
    ensures
        bans_of(final(out)@) == bans_of(old(out)@) + bans_among(parsed_lines(lines@)),
{
    let ghost start = bans_of(out@);
    let ghost all = parsed_lines(lines@);
    let mut i: usize = 0;
    assert(all.take(0) =~= Seq::empty());
    assert(start + Seq::empty() =~= start);
    while i < lines.len()
        invariant
            i <= lines@.len(),
            all == parsed_lines(lines@),
            bans_of(out@) == start + bans_among(all.take(i as int)),
        decreases lines@.len() - i,
    {
        let ghost before = out@;
        assert(all.take(i + 1).drop_last() =~= all.take(i as int));
        assert(all.take(i + 1).last() == lines@[i as int]@);
        if let Some(b) = pick_ban(&lines[i]) {
            out.push(b);
            assert(bans_of(out@) =~= bans_of(before).push(b@));
        }
        i += 1;
        assert(bans_of(out@) =~= start + bans_among(all.take(i as int)));
    }
    assert(all.take(i as int) =~= all);
}

/// How many of the bytes are complete lines.
pub open spec fn complete(b: Seq<u8>) -> nat
    decreases b.len(),
{
    proof {
        lemma_first_byte(b, NEWLINE);
    }
    match first_byte(b, NEWLINE) {
        None => 0,
        Some(i) => (i + 1) as nat + complete(b.skip(i + 1)),
    }
}

/// The complete lines that are text, in order. A line that is not complete is a partial
/// write and is left for the next run.
pub open spec fn lines_in(b: Seq<u8>) -> Seq<Seq<char>>
    decreases b.len(),
{
    proof {
        lemma_first_byte(b, NEWLINE);
    }
    match first_byte(b, NEWLINE) {
        None => Seq::empty(),
        Some(i) => (if valid_utf8(b.take(i + 1)) {
            seq![decode_utf8(b.take(i + 1))]
        } else {
            Seq::empty()
        }) + lines_in(b.skip(i + 1)),
    }
}

/// The complete lines that are text, and how many bytes are complete lines.
pub fn text_lines(bytes: &[u8]) -> (r: (Vec<String>, usize))
    ensures
        texts(r.0@) == lines_in(bytes@),
        r.1 == complete(bytes@),
{
    let mut out: Vec<String> = Vec::new();
    let mut from: usize = 0;
    assert(bytes@.skip(0) =~= bytes@);
    assert(texts(out@) + lines_in(bytes@) =~= lines_in(bytes@));
    loop
        invariant
            from <= bytes@.len(),
            complete(bytes@) == from + complete(bytes@.skip(from as int)),
            lines_in(bytes@) == texts(out@) + lines_in(bytes@.skip(from as int)),
        ensures
            from == complete(bytes@),
            texts(out@) == lines_in(bytes@),
        decreases bytes@.len() - from,
    {
        let rest = slice_subrange(bytes, from, bytes.len());
        let ghost tail = bytes@.skip(from as int);
        assert(rest@ =~= tail);
        match foreign::find_byte(NEWLINE, rest) {
            None => {
                assert(texts(out@) + Seq::empty() =~= texts(out@));
                break ;
            },
            Some(nl) => {
                proof {
                    lemma_first_byte(tail, NEWLINE);
                }
                let line = slice_subrange(bytes, from, from + nl + 1);
                assert(line@ =~= tail.take(nl + 1));
                let ghost before = texts(out@);
                if let Some(t) = foreign::utf8_text(line) {
                    out.push(t);
                    assert(texts(out@) =~= before.push(t@));
                }
                proof {
                    assert(tail.skip(nl + 1) =~= bytes@.skip(from + nl + 1));
                    assert(texts(out@) + lines_in(tail.skip(nl + 1)) =~= before + lines_in(tail));
                }
                from = from + nl + 1;
            },
        }
    }
    (out, from)
}

/// The cursor after a run that read up to `consumed` bytes behind `start`.
pub fn next_cursor(ino: u64, start: u64, consumed: usize) -> (r: Cursor)
    ensures
        r.ino == ino,
        r.offset == crate::sync::report::sum(start, consumed as u64),
{
    Cursor { ino, offset: start.saturating_add(consumed as u64) }
}

/// No more bytes are complete lines than there are, and the rest holds no line end.
proof fn lemma_complete(b: Seq<u8>)
    ensures
        complete(b) <= b.len(),
        first_byte(b.skip(complete(b) as int), NEWLINE) is None,
    decreases b.len(),
{
    lemma_first_byte(b, NEWLINE);
    match first_byte(b, NEWLINE) {
        None => {
            assert(b.skip(0) =~= b);
        },
        Some(i) => {
            lemma_complete(b.skip(i + 1));
            assert(b.skip(i + 1).skip(complete(b.skip(i + 1)) as int) =~= b.skip(
                complete(b) as int,
            ));
        },
    }
}

/// What is complete of a log, and its lines, when more is appended.
proof fn lemma_appended(seen: Seq<u8>, appended: Seq<u8>)
    ensures
        lines_in(seen + appended) == lines_in(seen) + lines_in(
            (seen + appended).skip(complete(seen) as int),
        ),
        complete(seen + appended) == complete(seen) + complete(
            (seen + appended).skip(complete(seen) as int),
        ),
    decreases seen.len(),
{
    let all = seen + appended;
    lemma_first_byte(seen, NEWLINE);
    lemma_complete(seen);
    match first_byte(seen, NEWLINE) {
        None => {
            assert(all.skip(0) =~= all);
            assert(lines_in(seen) + lines_in(all) =~= lines_in(all));
        },
        Some(i) => {
            crate::source::file::lemma_first_byte_before(seen, appended, NEWLINE);
            let rest = seen.skip(i + 1);
            lemma_appended(rest, appended);
            assert(all.skip(i + 1) =~= rest + appended);
            assert(all.take(i + 1) =~= seen.take(i + 1));
            assert(all.skip(complete(seen) as int) =~= (rest + appended).skip(
                complete(rest) as int,
            ));
            assert(lines_in(all) =~= lines_in(seen) + lines_in(all.skip(complete(seen) as int)));
        },
    }
}

/// What two runs of lines tell is what they tell together.
proof fn lemma_bans_among(a: Seq<ParsedView>, b: Seq<ParsedView>)
    ensures
        bans_among(a + b) == bans_among(a) + bans_among(b),
    decreases b.len(),
{
    if b.len() == 0 {
        assert(a + b =~= a);
        assert(bans_among(a) + bans_among(b) =~= bans_among(a));
    } else {
        assert((a + b).drop_last() =~= a + b.drop_last());
        lemma_bans_among(a, b.drop_last());
        assert(bans_among(a + b) =~= bans_among(a) + bans_among(b));
    }
}

/// The automatic bans that a log tells, where `parse` is what a line reads as.
pub open spec fn bans_told(b: Seq<u8>, parse: spec_fn(Seq<char>) -> ParsedView) -> Seq<BanView> {
    bans_among(lines_in(b).map_values(parse))
}

/// Reading on from the cursor tells every event once, however lines are read: what the
/// log tells in one run is what two runs tell, the second of which starts where the
/// first one's complete lines ended, however much was appended in between.
pub proof fn law_cursor_neither_loses_nor_repeats(
    seen: Seq<u8>,
    appended: Seq<u8>,
    parse: spec_fn(Seq<char>) -> ParsedView,
)
    ensures
        lines_in(seen + appended) == lines_in(seen) + lines_in(
            (seen + appended).skip(complete(seen) as int),
        ),
        complete(seen + appended) == complete(seen) + complete(
            (seen + appended).skip(complete(seen) as int),
        ),
        bans_told(seen + appended, parse) == bans_told(seen, parse) + bans_told(
            (seen + appended).skip(complete(seen) as int),
            parse,
        ),
{
    lemma_appended(seen, appended);
    let a = lines_in(seen);
    let b = lines_in((seen + appended).skip(complete(seen) as int));
    assert((a + b).map_values(parse) =~= a.map_values(parse) + b.map_values(parse));
    lemma_bans_among(a.map_values(parse), b.map_values(parse));
}

/// Only automatic bans are told: what is picked is an event of kind `ban` that was not
/// made by hand.
pub proof fn law_only_automatic_bans(v: Seq<ParsedView>)
    ensures
        forall|i: int|
            0 <= i < bans_among(v).len() ==> !(#[trigger] bans_among(v)[i]).manual && exists|
                j: int,
            |
                0 <= j < v.len() && (#[trigger] v[j]).kind == Some("ban"@) && v[j].ban == Some(
                    bans_among(v)[i],
                ),
    decreases v.len(),
{
    if v.len() > 0 {
        let u = v.drop_last();
        law_only_automatic_bans(u);
        let all = bans_among(v);
        assert forall|i: int| 0 <= i < all.len() implies !(#[trigger] all[i]).manual && exists|
            j: int,
        |
            0 <= j < v.len() && (#[trigger] v[j]).kind == Some("ban"@) && v[j].ban == Some(
                all[i],
            ) by {
            if i < bans_among(u).len() {
                assert(all[i] == bans_among(u)[i]);
                let j = choose|j: int|
                    0 <= j < u.len() && (#[trigger] u[j]).kind == Some("ban"@) && u[j].ban == Some(
                        bans_among(u)[i],
                    );
                assert(v[j] == u[j]);
            } else {
                assert(v[v.len() - 1] == v.last());
            }
        }
    }
}

/// The log is read up to behind its last line end, and no further.
pub proof fn law_complete_up_to_last_line_end(b: Seq<u8>)
    ensures
        complete(b) <= b.len(),
        complete(b) > 0 ==> b[complete(b) - 1] == 10,
        forall|i: int| complete(b) <= i < b.len() ==> #[trigger] b[i] != 10,
    decreases b.len(),
{
    lemma_first_byte(b, NEWLINE);
    if let Some(k) = first_byte(b, NEWLINE) {
        let rest = b.skip(k + 1);
        law_complete_up_to_last_line_end(rest);
        assert forall|i: int| complete(b) <= i < b.len() implies #[trigger] b[i] != 10 by {
            assert(rest[i - k - 1] == b[i]);
        }
        if complete(rest) > 0 {
            assert(b[complete(b) - 1] == rest[complete(rest) - 1]);
        }
    }
}

/// Every complete line that is UTF-8 is read, with its line end and in order; others are
/// passed over.
pub proof fn law_lines_are_read_in_order(line: Seq<u8>, rest: Seq<u8>)
    requires
        !line.contains(10u8),
    ensures
        lines_in(line).len() == 0,
        lines_in(line + seq![10u8] + rest) == (if valid_utf8(line + seq![10u8]) {
            seq![decode_utf8(line + seq![10u8])]
        } else {
            Seq::empty()
        }) + lines_in(rest),
{
    let all = line + seq![10u8] + rest;
    lemma_first_byte(line, NEWLINE);
    if first_byte(line, NEWLINE) is Some {
        assert(line.contains(line[first_byte(line, NEWLINE)->0]));
    }
    crate::source::file::lemma_first_byte_behind(line, seq![10u8] + rest, NEWLINE);
    assert(all =~= line + (seq![10u8] + rest));
    assert(first_byte(seq![10u8] + rest, NEWLINE) == Some(0int));
    let k = line.len() as int;
    assert(all.take(k + 1) =~= line + seq![10u8]);
    assert(all.skip(k + 1) =~= rest);
}

/// The bans that lines tell are, in order, those of the events of kind `ban` that were
/// not made by hand.
pub proof fn law_bans_in_order(v: Seq<ParsedView>)
    ensures
        bans_among(v) == v.filter(
            |p: ParsedView| p.kind == Some("ban"@) && p.ban is Some && !p.ban->0.manual,
        ).map_values(|p: ParsedView| p.ban->0),
    decreases v.len(),
{
    reveal(Seq::filter);
    let p = |p: ParsedView| p.kind == Some("ban"@) && p.ban is Some && !p.ban->0.manual;
    let f = |p: ParsedView| p.ban->0;
    if v.len() == 0 {
        assert(v.filter(p).map_values(f) =~= Seq::empty());
    } else {
        law_bans_in_order(v.drop_last());
        assert(bans_among(v) =~= v.filter(p).map_values(f));
    }
}

/// What a run reads. A cursor of the current file goes on where it is, unless the file
/// is shorter; one of the rotated file finishes that first; any other starts over.
pub proof fn law_what_is_read(ino: u64, size: u64, rotated: Option<u64>, c: Cursor)
    ensures
        read_plan(Some((ino, size)), rotated, Some(c)) == (ReadPlan::Read {
            rotated: if c.ino != ino && rotated == Some(c.ino) {
                Some(c.offset)
            } else {
                None
            },
            ino,
            start: if c.ino == ino && c.offset <= size {
                c.offset
            } else {
                0
            },
        }),
        read_plan(Some((ino, size)), rotated, None) == (ReadPlan::Read {
            rotated: None,
            ino,
            start: 0,
        }),
        read_plan(None, rotated, Some(c)) == (ReadPlan::Nothing { cursor: c }),
        read_plan(None, rotated, None) == (ReadPlan::Nothing {
            cursor: Cursor { ino: 0, offset: 0 },
        }),
{
}

/// Bans and lines tell all of their fields as values.
pub proof fn law_views_tell_all(b: BanEvent, p: Parsed)
    ensures
        b@.ts == b.ts && b@.net == b.net@ && b@.filter == b.filter@ && b@.ttl == b.ttl && b@.hits
            == b.hits && b@.escalation == b.escalation && b@.manual == b.manual,
        p@.kind == (match p.kind {
            Some(k) => Some(k@),
            None => None,
        }),
        p@.ban == (match p.ban {
            Some(b) => Some(b@),
            None => None,
        }),
{
}

/// Lines as values, one for one, in order.
pub proof fn law_lines_tell_all(v: Seq<Parsed>, b: Option<BanEvent>, i: int)
    ensures
        parsed_lines(v).len() == v.len(),
        0 <= i < v.len() ==> parsed_lines(v)[i] == v[i]@,
        shown(b) == (match b {
            Some(x) => Some(x@),
            None => None,
        }),
{
}

} // verus!
