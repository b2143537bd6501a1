//! Parsing the plain-text blocklist feed (`GET /v1/feed/{tier}/{family}`).
//!
//! ```text
//! # minsec-feed v1 full tier=basic family=4 snapshot=1234 generated=2026-08-23T12:00:00Z count=4821
//! 203.0.113.7
//! 198.51.100.0/24
//! ```
//!
//! A delta uses `from=`/`to=` in the header and `+`/`-` prefixed lines. A
//! bare address means a single host; prefixes are explicit.

use vstd::prelude::*;
use vstd::string::*;

use crate::foreign;
use crate::scan;
use crate::scan::{lines_of, number_or_zero, words_of};
use crate::text;
use crate::text::{begins, find_char, first_index, lemma_first_index, texts, trim};

verus! {

pub const HEADER_PREFIX: &'static str = "# minsec-feed v1 ";

#[derive(Debug, Clone)]
pub struct FeedHeader {
    pub kind: String,
    pub tier: String,
    pub family: u8,
    pub snapshot: i64,
    /// Delta only.
    pub from: i64,
    /// Delta only.
    pub to: i64,
    pub generated: String,
    pub count: usize,
}

/// A [`FeedHeader`] as values.
pub struct HeaderView {
    pub kind: Seq<char>,
    pub tier: Seq<char>,
    pub family: u8,
    pub snapshot: i64,
    pub from: i64,
    pub to: i64,
    pub generated: Seq<char>,
    pub count: usize,
}

impl View for FeedHeader {
    type V = HeaderView;

    open spec fn view(&self) -> HeaderView {
        HeaderView {
            kind: self.kind@,
            tier: self.tier@,
            family: self.family,
            snapshot: self.snapshot,
            from: self.from,
            to: self.to,
            generated: self.generated@,
            count: self.count,
        }
    }
}

/// Why a text is no feed.
#[derive(Debug, Clone)]
pub enum ParseError {
    Empty,
    NotHeader { line: String },
    UnknownKind { kind: String },
    NoSign { line: String },
}

/// A [`ParseError`] as values.
pub enum FeedFault {
    Empty,
    NotHeader { line: Seq<char> },
    UnknownKind { kind: Seq<char> },
    NoSign { line: Seq<char> },
}

impl View for ParseError {
    type V = FeedFault;

    open spec fn view(&self) -> FeedFault {
        match self {
            ParseError::Empty => FeedFault::Empty,
            ParseError::NotHeader { line } => FeedFault::NotHeader { line: line@ },
            ParseError::UnknownKind { kind } => FeedFault::UnknownKind { kind: kind@ },
            ParseError::NoSign { line } => FeedFault::NoSign { line: line@ },
        }
    }
}

impl FeedFault {
    /// How the fault reads.
    pub open spec fn text(self) -> Seq<char> {
        "feed parse error: "@ + match self {
            FeedFault::Empty => "empty body"@,
            FeedFault::NotHeader { line } => "not a minsec-feed v1 header: "@ + foreign::quoted(line),
            FeedFault::UnknownKind { kind } => "unknown feed kind "@ + foreign::quoted(kind),
            FeedFault::NoSign { line } => "delta line without +/-: "@ + foreign::quoted(line),
        }
    }
}

impl ParseError {
    pub fn message(&self) -> (r: String)
        ensures
            r@ == self@.text(),
    {
        let mut out = "feed parse error: ".to_owned();
        match self {
            ParseError::Empty => {
                out.append("empty body");
            },
            ParseError::NotHeader { line } => {
                let q = foreign::quote(line.as_str());
                out.append("not a minsec-feed v1 header: ");
                out.append(q.as_str());
            },
            ParseError::UnknownKind { kind } => {
                let q = foreign::quote(kind.as_str());
                out.append("unknown feed kind ");
                out.append(q.as_str());
            },
            ParseError::NoSign { line } => {
                let q = foreign::quote(line.as_str());
                out.append("delta line without +/-: ");
                out.append(q.as_str());
            },
        }
        assert(out@ =~= self@.text());
        out
    }
}

/// A header after one more `key=value` word; words without `=` and unknown keys say
/// nothing, and a number that cannot be read is 0.
pub open spec fn with_word(h: HeaderView, w: Seq<char>) -> HeaderView {
    match first_index(w, '=') {
        None => h,
        Some(i) => {
            let k = w.take(i);
            let v = w.skip(i + 1);
            if k == "tier"@ {
                HeaderView { tier: v, ..h }
            } else if k == "family"@ {
                HeaderView { family: number_or_zero(v, false, 0, 255) as u8, ..h }
            } else if k == "snapshot"@ {
                HeaderView {
                    snapshot: number_or_zero(v, true, i64::MIN as int, i64::MAX as int) as i64,
                    ..h
                }
            } else if k == "from"@ {
                HeaderView {
                    from: number_or_zero(v, true, i64::MIN as int, i64::MAX as int) as i64,
                    ..h
                }
            } else if k == "to"@ {
                HeaderView {
                    to: number_or_zero(v, true, i64::MIN as int, i64::MAX as int) as i64,
                    ..h
                }
            } else if k == "generated"@ {
                HeaderView { generated: v, ..h }
            } else if k == "count"@ {
                HeaderView {
                    count: number_or_zero(v, false, 0, usize::MAX as int) as usize,
                    ..h
                }
            } else {
                h
            }
        },
    }
}

/// A header after all of the words.
pub open spec fn with_words(h: HeaderView, ws: Seq<Seq<char>>) -> HeaderView
    decreases ws.len(),
{
    if ws.len() == 0 {
        h
    } else {
        with_word(with_words(h, ws.drop_last()), ws.last())
    }
}

/// A header that says nothing but its kind.
pub open spec fn bare_header(kind: Seq<char>) -> HeaderView {
    HeaderView {
        kind,
        tier: Seq::empty(),
        family: 0,
        snapshot: 0,
        from: 0,
        to: 0,
        generated: Seq::empty(),
        count: 0,
    }
}

/// The header that a line is.
pub open spec fn header_of(line: Seq<char>) -> Result<HeaderView, FeedFault> {
    let t = trim(line);
    if !begins(t, HEADER_PREFIX@) {
        Err(FeedFault::NotHeader { line })
    } else {
        let ws = words_of(t.skip(HEADER_PREFIX@.len() as int));
        let kind = if ws.len() > 0 {
            ws[0]
        } else {
            Seq::empty()
        };
        if kind != "full"@ && kind != "delta"@ {
            Err(FeedFault::UnknownKind { kind })
        } else {
            Ok(with_words(bare_header(kind), ws.skip(1)))
        }
    }
}

/// `with_word`.
fn read_word(h: &mut FeedHeader, w: &str)
    ensures
        final(h)@ == with_word(old(h)@, w@),
{
    let v = text::chars(w);
    assert(v@.skip(0) =~= v@);
    proof {
        lemma_first_index(w@, '=');
    }
    let at = match find_char(&v, 0, '=') {
        Some(i) => i,
        None => {
            return ;
        },
    };
    let key = text::text(&text::copied(&v, 0, at));
    let value = text::text(&text::copied(&v, at + 1, v.len()));
    assert(key@ =~= w@.take(at as int));
    assert(value@ =~= w@.skip(at + 1));
    let k = key.as_str();
    if text::same(k, "tier") {
        h.tier = value;
    } else if text::same(k, "family") {
        h.family = scan::unsigned_or_zero(value.as_str(), 255) as u8;
    } else if text::same(k, "snapshot") {
        h.snapshot = scan::signed_or_zero(value.as_str());
    } else if text::same(k, "from") {
        h.from = scan::signed_or_zero(value.as_str());
    } else if text::same(k, "to") {
        h.to = scan::signed_or_zero(value.as_str());
    } else if text::same(k, "generated") {
        h.generated = value;
    } else if text::same(k, "count") {
        h.count = scan::unsigned_or_zero(value.as_str(), usize::MAX as u64) as usize;
    }
}

pub fn parse_header(line: &str) -> (r: Result<FeedHeader, ParseError>)
    ensures
        match r {
            Ok(h) => header_of(line@) == Ok::<HeaderView, FeedFault>(h@),
            Err(e) => header_of(line@) == Err::<HeaderView, FeedFault>(e@),
        },
{
    let t = text::trimmed(&text::chars(line));
    let prefix = text::chars(HEADER_PREFIX);
    if !text::begins_with(&t, &prefix) {
        return Err(ParseError::NotHeader { line: line.to_owned() });
    }
    let rest = text::copied(&t, prefix.len(), t.len());
    assert(rest@ =~= t@.skip(HEADER_PREFIX@.len() as int));
    let ws = scan::words(&rest);
    let ghost all = texts(ws@);
    assert(all.len() == ws@.len());
    let kind = if ws.len() > 0 {
        assert(all[0] == ws@[0]@);
        ws[0].clone()
    } else {
        String::new()
    };
    let ghost kv = kind@;
    assert(ws@.len() == 0 ==> kv.len() == 0);
    if !text::same(kind.as_str(), "full") && !text::same(kind.as_str(), "delta") {
        return Err(ParseError::UnknownKind { kind });
    }
    let mut h = FeedHeader {
        kind,
        tier: String::new(),
        family: 0,
        snapshot: 0,
        from: 0,
        to: 0,
        generated: String::new(),
        count: 0,
    };
    let ghost bare = h@;
    assert(ws@.len() > 0) by {
        reveal_strlit("full");
        reveal_strlit("delta");
        assert(kv == "full"@ || kv == "delta"@);
        assert(kv.len() == 4 || kv.len() == 5);
    }
    let ghost tail = all.skip(1);
    let mut i: usize = 1;
    assert(tail.take(0) =~= Seq::empty());
    while i < ws.len()
        invariant
            1 <= i <= ws@.len(),
            all == texts(ws@),
            tail == all.skip(1),
            h@ == with_words(bare, tail.take(i - 1)),
        decreases ws@.len() - i,
    {
        assert(tail.take(i as int).drop_last() =~= tail.take(i - 1));
        assert(tail.take(i as int).last() == ws@[i as int]@);
        read_word(&mut h, ws[i].as_str());
        i += 1;
    }
    assert(tail.take(i - 1) =~= tail);
    Ok(h)
}

/// A parsed feed body. For a full feed only `entries` is populated; for a
/// delta only `added`/`removed` are.
#[derive(Debug, Clone)]
pub struct Feed {
    pub header: FeedHeader,
    pub entries: Vec<String>,
    pub added: Vec<String>,
    pub removed: Vec<String>,
}

/// A [`Feed`] as values.
pub struct FeedView {
    pub header: HeaderView,
    pub entries: Seq<Seq<char>>,
    pub added: Seq<Seq<char>>,
    pub removed: Seq<Seq<char>>,
}

impl View for Feed {
    type V = FeedView;

    open spec fn view(&self) -> FeedView {
        FeedView {
            header: self.header@,
            entries: texts(self.entries@),
            added: texts(self.added@),
            removed: texts(self.removed@),
        }
    }
}

/// A feed after one more line. Blank lines and comments say nothing; a line of a delta
/// starts with `+` or `-`.
pub open spec fn with_line(f: FeedView, line: Seq<char>) -> Result<FeedView, FeedFault> {
    let t = trim(line);
    if t.len() == 0 || t[0] == '#' {
        Ok(f)
    } else if f.header.kind == "delta"@ {
        if t[0] == '+' {
            Ok(FeedView { added: f.added.push(t.skip(1)), ..f })
        } else if t[0] == '-' {
            Ok(FeedView { removed: f.removed.push(t.skip(1)), ..f })
        } else {
            Err(FeedFault::NoSign { line: t })
        }
    } else {
        Ok(FeedView { entries: f.entries.push(t), ..f })
    }
}

/// A feed after all of the lines, or what is wrong with the first bad one.
pub open spec fn with_lines(f: FeedView, ls: Seq<Seq<char>>) -> Result<FeedView, FeedFault>
    decreases ls.len(),
{
    if ls.len() == 0 {
        Ok(f)
    } else {
        match with_lines(f, ls.drop_last()) {
            Ok(g) => with_line(g, ls.last()),
            Err(e) => Err(e),
        }
    }
}

/// A feed with nothing in it.
pub open spec fn empty_feed(header: HeaderView) -> FeedView {
    FeedView { header, entries: Seq::empty(), added: Seq::empty(), removed: Seq::empty() }
}

/// The feed that a text is.
pub open spec fn feed_of(body: Seq<char>) -> Result<FeedView, FeedFault> {
    let ls = lines_of(body);
    if ls.len() == 0 {
        Err(FeedFault::Empty)
    } else {
        match header_of(ls[0]) {
            Ok(h) => with_lines(empty_feed(h), ls.skip(1)),
            Err(e) => Err(e),
        }
    }
}

/// `with_line`.
fn read_line(f: &mut Feed, delta: bool, line: &str) -> (r: Result<(), ParseError>)
    requires
        delta == (old(f)@.header.kind == "delta"@),
    ensures
        match r {
            Ok(()) => with_line(old(f)@, line@) == Ok::<FeedView, FeedFault>(final(f)@),
            Err(e) => with_line(old(f)@, line@) == Err::<FeedView, FeedFault>(e@),
        },
        final(f)@.header == old(f)@.header,
{
    let t = text::trimmed(&text::chars(line));
    if t.len() == 0 || t[0] == '#' {
        return Ok(());
    }
    if delta {
        let net = text::text(&text::copied(&t, 1, t.len()));
        assert(net@ =~= t@.skip(1));
        if t[0] == '+' {
            f.added.push(net);
            assert(texts(f.added@) =~= texts(old(f).added@).push(net@));
        } else if t[0] == '-' {
            f.removed.push(net);
            assert(texts(f.removed@) =~= texts(old(f).removed@).push(net@));
        } else {
            return Err(ParseError::NoSign { line: text::text(&t) });
        }
    } else {
        let net = text::text(&t);
        f.entries.push(net);
        assert(texts(f.entries@) =~= texts(old(f).entries@).push(net@));
    }
    Ok(())
}

impl Feed {
    pub fn parse(body: &str) -> (r: Result<Self, ParseError>)
        ensures
            match r {
                Ok(f) => feed_of(body@) == Ok::<FeedView, FeedFault>(f@),
                Err(e) => feed_of(body@) == Err::<FeedView, FeedFault>(e@),
            },
    {
        let ls = scan::lines(body);
        let ghost all = texts(ls@);
        assert(all.len() == ls@.len());
        if ls.len() == 0 {
            return Err(ParseError::Empty);
        }
        assert(all[0] == ls@[0]@);
        let header = match parse_header(ls[0].as_str()) {
            Ok(h) => h,
            Err(e) => {
                return Err(e);
            },
        };
        let delta: bool = text::same(header.kind.as_str(), "delta");
        let ghost hv = header@;
        let mut feed = Feed {
            header,
            entries: Vec::new(),
            added: Vec::new(),
            removed: Vec::new(),
        };
        let ghost start = empty_feed(hv);
        let ghost tail = all.skip(1);
        proof {
            assert(feed@.entries =~= Seq::empty());
            assert(feed@.added =~= Seq::empty());
            assert(feed@.removed =~= Seq::empty());
            assert(tail.take(0) =~= Seq::empty());
        }
        let mut i: usize = 1;
        while i < ls.len()
            invariant
                1 <= i <= ls@.len(),
                all == texts(ls@),
                all == lines_of(body@),
                tail == all.skip(1),
                header_of(all[0]) == Ok::<HeaderView, FeedFault>(hv),
                start == empty_feed(hv),
                feed@.header == hv,
                delta == (hv.kind == "delta"@),
                with_lines(start, tail.take(i - 1)) == Ok::<FeedView, FeedFault>(feed@),
            decreases ls@.len() - i,
        {
            assert(tail.take(i as int).drop_last() =~= tail.take(i - 1));
            assert(tail.take(i as int).last() == ls@[i as int]@);
            match read_line(&mut feed, delta, ls[i].as_str()) {
                Ok(()) => {},
                Err(e) => {
                    proof {
                        lemma_error_stays(start, tail, i as int);
                    }
                    return Err(e);
                },
            }
            i += 1;
        }
        assert(tail.take(i - 1) =~= tail);
        Ok(feed)
    }
}

/// A bad line stays the first bad one when more follow.
proof fn lemma_error_stays(f: FeedView, ls: Seq<Seq<char>>, n: int)
    requires
        0 <= n <= ls.len(),
        with_lines(f, ls.take(n)) is Err,
    ensures
        with_lines(f, ls) == with_lines(f, ls.take(n)),
    decreases ls.len(),
{
    if n == ls.len() {
        assert(ls.take(n) =~= ls);
    } else {
        assert(ls.drop_last().take(n) =~= ls.take(n));
        lemma_error_stays(f, ls.drop_last(), n);
    }
}

/// A full feed only has entries, and a delta only additions and removals.
pub proof fn law_full_or_delta(body: Seq<char>)
    ensures
        feed_of(body) matches Ok(f) ==> {
            &&& f.header.kind == "full"@ || f.header.kind == "delta"@
            &&& f.header.kind == "delta"@ ==> f.entries.len() == 0
            &&& f.header.kind != "delta"@ ==> f.added.len() == 0 && f.removed.len() == 0
        },
{
    let ls = lines_of(body);
    if ls.len() > 0 {
        if let Ok(h) = header_of(ls[0]) {
            let t = trim(ls[0]);
            let ws = words_of(t.skip(HEADER_PREFIX@.len() as int));
            lemma_kind_stays(bare_header(h.kind), ws.skip(1));
            let kind = if ws.len() > 0 {
                ws[0]
            } else {
                Seq::empty()
            };
            lemma_kind_stays(bare_header(kind), ws.skip(1));
            lemma_lines_apart(empty_feed(h), ls.skip(1));
        }
    }
}

proof fn lemma_kind_stays(h: HeaderView, ws: Seq<Seq<char>>)
    ensures
        with_words(h, ws).kind == h.kind,
    decreases ws.len(),
{
    if ws.len() > 0 {
        lemma_kind_stays(h, ws.drop_last());
    }
}

proof fn lemma_lines_apart(f: FeedView, ls: Seq<Seq<char>>)
    requires
        f.entries.len() == 0,
        f.added.len() == 0,
        f.removed.len() == 0,
    ensures
        with_lines(f, ls) matches Ok(g) ==> {
            &&& g.header == f.header
            &&& f.header.kind == "delta"@ ==> g.entries.len() == 0
            &&& f.header.kind != "delta"@ ==> g.added.len() == 0 && g.removed.len() == 0
        },
    decreases ls.len(),
{
    if ls.len() > 0 {
        lemma_lines_apart(f, ls.drop_last());
    }
}

/// Comments and blank lines do not change what a feed says.
pub proof fn law_comments_ignored(f: FeedView, ls: Seq<Seq<char>>, line: Seq<char>)
    requires
        trim(line).len() == 0 || trim(line)[0] == '#',
    ensures
        with_lines(f, ls.push(line)) == with_lines(f, ls),
{
    assert(ls.push(line).drop_last() =~= ls);
}

/// What a word `key=value` of a header sets: the field of that name, and no other. A
/// number that cannot be read, or does not fit, is 0; other keys and words say nothing.
pub proof fn law_header_words(h: HeaderView, k: Seq<char>, v: Seq<char>)
    requires
        !k.contains('='),
    ensures
        with_word(h, k) == h,
        ({
            let r = with_word(h, k + seq!['='] + v);
            let small = match crate::scan::number(v, false) {
                Some(n) if 0 <= n <= 255 => n,
                _ => 0,
            };
            let long = match crate::scan::number(v, true) {
                Some(n) if -0x8000_0000_0000_0000 <= n <= 0x7fff_ffff_ffff_ffff => n,
                _ => 0,
            };
            &&& r.kind == h.kind
            &&& r.tier == (if k == "tier"@ { v } else { h.tier })
            &&& r.family == (if k == "family"@ { small } else { h.family as int })
            &&& r.snapshot == (if k == "snapshot"@ { long } else { h.snapshot as int })
            &&& r.from == (if k == "from"@ { long } else { h.from as int })
            &&& r.to == (if k == "to"@ { long } else { h.to as int })
            &&& r.generated == (if k == "generated"@ { v } else { h.generated })
            &&& k != "count"@ ==> r.count == h.count
            &&& k == "count"@ ==> r.count == (match crate::scan::number(v, false) {
                Some(n) if 0 <= n <= usize::MAX => n,
                _ => 0,
            })
        }),
{
    let w = k + seq!['='] + v;
    lemma_first_index(k, '=');
    if first_index(k, '=') is Some {
        assert(k.contains(k[first_index(k, '=')->0]));
    }
    lemma_first_index(w, '=');
    assert(w[k.len() as int] == '=');
    assert(first_index(w, '=') is Some);
    let i = first_index(w, '=')->0;
    if i < k.len() {
        assert(w[i] == k[i]);
        assert(k.contains(k[i]));
    }
    assert(i == k.len());
    assert(w.take(i) =~= k);
    assert(w.skip(i + 1) =~= v);
    reveal_strlit("tier");
    reveal_strlit("family");
    reveal_strlit("snapshot");
    reveal_strlit("from");
    reveal_strlit("to");
    reveal_strlit("generated");
    reveal_strlit("count");
    assert("tier"@[0] == 't' && "family"@[0] == 'f' && "snapshot"@[0] == 's' && "from"@[0] == 'f'
        && "to"@[0] == 't' && "generated"@[0] == 'g' && "count"@[0] == 'c');
    assert("tier"@.len() == 4 && "to"@.len() == 2 && "family"@.len() == 6 && "from"@.len() == 4);
}

/// A header is a line that, less white space around it, starts with the words of the
/// first version and goes on with `full` or `delta`; its other words are read from left
/// to right.
pub proof fn law_header_line(line: Seq<char>)
    ensures
        ({
            let t = trim(line);
            let p = "# minsec-feed v1 "@;
            let ws = words_of(t.skip(p.len() as int));
            let starts = p.len() <= t.len() && t.take(p.len() as int) == p;
            &&& (header_of(line) is Ok) == (starts && ws.len() > 0 && (ws[0] == "full"@ || ws[0]
                == "delta"@))
            &&& header_of(line) matches Ok(h) ==> h == ws.skip(1).fold_left(
                HeaderView {
                    kind: ws[0],
                    tier: Seq::empty(),
                    family: 0,
                    snapshot: 0,
                    from: 0,
                    to: 0,
                    generated: Seq::empty(),
                    count: 0,
                },
                |h: HeaderView, w: Seq<char>| with_word(h, w),
            )
            &&& !starts ==> header_of(line) == Err::<HeaderView, FeedFault>(
                FeedFault::NotHeader { line },
            )
            &&& starts && header_of(line) is Err ==> header_of(line) == Err::<
                HeaderView,
                FeedFault,
            >(
                FeedFault::UnknownKind {
                    kind: if ws.len() > 0 {
                        ws[0]
                    } else {
                        Seq::empty()
                    },
                },
            )
        }),
{
    let t = trim(line);
    let ws = words_of(t.skip(HEADER_PREFIX@.len() as int));
    reveal_strlit("full");
    reveal_strlit("delta");
    assert("full"@.len() == 4 && "delta"@.len() == 5);
    if ws.len() > 0 {
        lemma_words_fold(bare_header(ws[0]), ws.skip(1));
    }
}

proof fn lemma_words_fold(h: HeaderView, ws: Seq<Seq<char>>)
    ensures
        with_words(h, ws) == ws.fold_left(h, |h: HeaderView, w: Seq<char>| with_word(h, w)),
    decreases ws.len(),
{
    if ws.len() > 0 {
        lemma_words_fold(h, ws.drop_last());
    }
}

/// What one more line adds to a feed that is good so far: to a full one an entry; to a
/// delta an addition behind `+` or a removal behind `-`, and anything else is refused.
/// White space around a line does not count; a bad line spoils all that follows.
pub proof fn law_feed_grows_by_lines(f: FeedView, ls: Seq<Seq<char>>, line: Seq<char>)
    ensures
        with_lines(f, Seq::empty()) == Ok::<FeedView, FeedFault>(f),
        with_lines(f, ls) is Err ==> with_lines(f, ls.push(line)) == with_lines(f, ls),
        with_lines(f, ls) matches Ok(g) ==> ({
            let t = trim(line);
            let r = with_lines(f, ls.push(line));
            t.len() > 0 && t[0] != '#' ==> (if g.header.kind == "delta"@ {
                if t[0] == '+' {
                    r matches Ok(x) && x.added == g.added.push(t.skip(1)) && x.removed == g.removed
                        && x.entries == g.entries && x.header == g.header
                } else if t[0] == '-' {
                    r matches Ok(x) && x.removed == g.removed.push(t.skip(1)) && x.added == g.added
                        && x.entries == g.entries && x.header == g.header
                } else {
                    r == Err::<FeedView, FeedFault>(FeedFault::NoSign { line: t })
                }
            } else {
                r matches Ok(x) && x.entries == g.entries.push(t) && x.added == g.added && x.removed
                    == g.removed && x.header == g.header
            })
        }),
{
    assert(ls.push(line).drop_last() =~= ls);
}

/// A feed is a header line and the lines behind it; without a line it is empty.
pub proof fn law_feed_is_header_and_lines(body: Seq<char>)
    ensures
        ({
            let ls = lines_of(body);
            feed_of(body) == (if ls.len() == 0 {
                Err::<FeedView, FeedFault>(FeedFault::Empty)
            } else {
                match header_of(ls[0]) {
                    Err(e) => Err(e),
                    Ok(h) => with_lines(
                        FeedView {
                            header: h,
                            entries: Seq::empty(),
                            added: Seq::empty(),
                            removed: Seq::empty(),
                        },
                        ls.skip(1),
                    ),
                }
            })
        }),
{
}

/// Headers and feeds tell all of their fields as values; faults read as they are.
pub proof fn law_views_tell_all(h: FeedHeader, f: Feed, line: Seq<char>)
    ensures
        h@.kind == h.kind@ && h@.tier == h.tier@ && h@.family == h.family && h@.snapshot
            == h.snapshot && h@.from == h.from && h@.to == h.to && h@.generated == h.generated@
            && h@.count == h.count,
        f@.header == f.header@ && f@.entries == texts(f.entries@) && f@.added == texts(f.added@)
            && f@.removed == texts(f.removed@),
        FeedFault::Empty.text() == "feed parse error: empty body"@,
        (FeedFault::NotHeader { line }).text() == "feed parse error: not a minsec-feed v1 header: "@
            + foreign::quoted(line),
        (FeedFault::UnknownKind { kind: line }).text() == "feed parse error: unknown feed kind "@
            + foreign::quoted(line),
        (FeedFault::NoSign { line }).text() == "feed parse error: delta line without +/-: "@
            + foreign::quoted(line),
{
    reveal_strlit("feed parse error: ");
    reveal_strlit("empty body");
    reveal_strlit("not a minsec-feed v1 header: ");
    reveal_strlit("unknown feed kind ");
    reveal_strlit("delta line without +/-: ");
    reveal_strlit("feed parse error: empty body");
    reveal_strlit("feed parse error: not a minsec-feed v1 header: ");
    reveal_strlit("feed parse error: unknown feed kind ");
    reveal_strlit("feed parse error: delta line without +/-: ");
    assert("feed parse error: empty body"@ =~= "feed parse error: "@ + "empty body"@);
    assert("feed parse error: not a minsec-feed v1 header: "@ =~= "feed parse error: "@
        + "not a minsec-feed v1 header: "@);
    assert("feed parse error: unknown feed kind "@ =~= "feed parse error: "@ + "unknown feed kind "@);
    assert("feed parse error: delta line without +/-: "@ =~= "feed parse error: "@
        + "delta line without +/-: "@);
    let q = foreign::quoted(line);
    let p = "feed parse error: "@;
    assert((FeedFault::NotHeader { line }).text() =~= p + "not a minsec-feed v1 header: "@ + q);
    assert((FeedFault::UnknownKind { kind: line }).text() =~= p + "unknown feed kind "@ + q);
    assert((FeedFault::NoSign { line }).text() =~= p + "delta line without +/-: "@ + q);
}

} // verus!
