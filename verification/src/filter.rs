//! Filter definitions and the compiled matcher.
//!
//! A filter selects log sources and holds a list of patterns. Patterns are
//! regular expressions with fail2ban-compatible tokens so existing knowledge
//! carries over:
//!
//! * `<HOST>`, `<ADDR>`, `<IP>`: an IPv4 or IPv6 address (captured as `host`)
//! * `<IP4>`, `<IP6>`: address of one family only
//! * `<F-USER>..</F-USER>` (or any `<F-NAME>..</F-NAME>`): a named capture
//!
//! Lines are matched anywhere (not anchored) so the same pattern works for
//! syslog-prefixed files and for raw journald messages.
//!
//! `\d`, `\s`, `\w` (and their negations) are rewritten to ASCII classes:
//! Unicode-aware classes cost far more memory to compile and log lines never
//! need them.

use vstd::prelude::*;
use vstd::string::*;

use crate::foreign;
use crate::ip;
use crate::ip::IpAddr;
use crate::text;
use crate::text::{
    decimal, find_char, first_index, lemma_first_index, lower, opt_text, opt_texts, texts,
};

verus! {

pub const RE_IP4: &'static str = "(?:[0-9]{1,3}\\.){3}[0-9]{1,3}";

pub const RE_IP6: &'static str =
    "[0-9A-Fa-f]{0,4}(?::[0-9A-Fa-f]{0,4}){2,7}(?:(?:\\.[0-9]{1,3}){3})?";

/// Most bytes that the compiled patterns of one filter may take.
pub const SIZE_LIMIT: usize = 4194304;

/// Most bytes that the lazy automaton of one filter may take.
pub const DFA_SIZE_LIMIT: usize = 262144;

/// Journal selectors. Every entry becomes a separate match expression, so an
/// entry matching any of them is selected.
#[derive(Debug, Clone)]
pub struct JournalSelector {
    pub units: Vec<String>,
    pub identifiers: Vec<String>,
    pub comm: Vec<String>,
}

/// Every text of the list with `prefix` before it.
pub open spec fn prefixed(prefix: Seq<char>, v: Seq<Seq<char>>) -> Seq<Seq<char>> {
    v.map_values(|s: Seq<char>| prefix + s)
}

/// Appends every text of `v` to `out`, with `prefix` before it.
fn push_prefixed(out: &mut Vec<String>, prefix: &str, v: &Vec<String>)
    ensures
        texts(final(out)@) == texts(old(out)@) + prefixed(prefix@, texts(v@)),
{
    let ghost start = texts(out@);
    let ghost want = prefixed(prefix@, texts(v@));
    let mut i: usize = 0;
    while i < v.len()
        invariant
            i <= v@.len(),
            want == prefixed(prefix@, texts(v@)),
            texts(out@) == start + want.take(i as int),
        decreases v@.len() - i,
    {
        let ghost before = out@;
        let mut s = prefix.to_owned();
        s.append(v[i].as_str());
        out.push(s);
        assert(texts(out@) =~= texts(before).push(s@));
        assert(want[i as int] == s@);
        assert(want.take(i + 1) =~= want.take(i as int).push(s@));
        i += 1;
    }
    assert(want.take(i as int) =~= want);
}

impl JournalSelector {
    /// The match expressions of the selector.
    pub open spec fn expressions(&self) -> Seq<Seq<char>> {
        prefixed("_SYSTEMD_UNIT="@, texts(self.units@)) + prefixed(
            "SYSLOG_IDENTIFIER="@,
            texts(self.identifiers@),
        ) + prefixed("_COMM="@, texts(self.comm@))
    }

    /// The same selectors, text by text.
    pub open spec fn same_as(&self, other: &JournalSelector) -> bool {
        &&& texts(self.units@) == texts(other.units@)
        &&& texts(self.identifiers@) == texts(other.identifiers@)
        &&& texts(self.comm@) == texts(other.comm@)
    }

    /// A selector that selects nothing.
    pub fn none() -> (r: JournalSelector)
        ensures
            r.units@.len() == 0,
            r.identifiers@.len() == 0,
            r.comm@.len() == 0,
    {
        JournalSelector { units: Vec::new(), identifiers: Vec::new(), comm: Vec::new() }
    }

    pub fn is_empty(&self) -> (r: bool)
        ensures
            r == (self.units@.len() == 0 && self.identifiers@.len() == 0 && self.comm@.len() == 0),
    {
        self.units.len() == 0 && self.identifiers.len() == 0 && self.comm.len() == 0
    }

    /// A copy, text by text.
    pub fn copy(&self) -> (r: JournalSelector)
        ensures
            r.same_as(self),
    {
        JournalSelector {
            units: text::copy_texts(&self.units),
            identifiers: text::copy_texts(&self.identifiers),
            comm: text::copy_texts(&self.comm),
        }
    }

    /// `FIELD=value` match expressions for sd_journal / journalctl.
    pub fn matches(&self) -> (r: Vec<String>)
        ensures
            texts(r@) == self.expressions(),
    {
        let mut v: Vec<String> = Vec::new();
        assert(texts(v@) =~= Seq::<Seq<char>>::empty());
        push_prefixed(&mut v, "_SYSTEMD_UNIT=", &self.units);
        push_prefixed(&mut v, "SYSLOG_IDENTIFIER=", &self.identifiers);
        push_prefixed(&mut v, "_COMM=", &self.comm);
        assert(texts(v@) =~= self.expressions());
        v
    }
}

/// Filter definition.
#[derive(Debug, Clone)]
pub struct FilterDef {
    pub name: String,
    pub description: String,
    /// Log files to follow. Globs allowed. Missing files are watched for creation.
    pub files: Vec<String>,
    /// journald selectors. Used when the journal is available; the operator
    /// should pick either files or journal per filter to avoid double counting.
    pub journal: JournalSelector,
    /// Literal substrings, any of which must be present for a line to be
    /// considered. Cheap pre-check before the regex set. Optional.
    pub prefilter: Vec<String>,
    pub patterns: Vec<String>,
    /// Lines matching any of these are never counted, even if a pattern hits.
    pub ignore: Vec<String>,
    /// Ports this service listens on (used for per-filter port restriction).
    pub ports: Vec<u16>,
}

/// A filter definition as values.
pub struct DefView {
    pub name: Seq<char>,
    pub description: Seq<char>,
    pub files: Seq<Seq<char>>,
    pub units: Seq<Seq<char>>,
    pub identifiers: Seq<Seq<char>>,
    pub comm: Seq<Seq<char>>,
    pub prefilter: Seq<Seq<char>>,
    pub patterns: Seq<Seq<char>>,
    pub ignore: Seq<Seq<char>>,
    pub ports: Seq<u16>,
}

impl View for FilterDef {
    type V = DefView;

    open spec fn view(&self) -> DefView {
        DefView {
            name: self.name@,
            description: self.description@,
            files: texts(self.files@),
            units: texts(self.journal.units@),
            identifiers: texts(self.journal.identifiers@),
            comm: texts(self.journal.comm@),
            prefilter: texts(self.prefilter@),
            patterns: texts(self.patterns@),
            ignore: texts(self.ignore@),
            ports: self.ports@,
        }
    }
}

impl FilterDef {
    /// A copy, text by text.
    pub fn copy(&self) -> (r: FilterDef)
        ensures
            r@ == self@,
    {
        FilterDef {
            name: self.name.clone(),
            description: self.description.clone(),
            files: text::copy_texts(&self.files),
            journal: self.journal.copy(),
            prefilter: text::copy_texts(&self.prefilter),
            patterns: text::copy_texts(&self.patterns),
            ignore: text::copy_texts(&self.ignore),
            ports: crate::config::copy_ports(&self.ports),
        }
    }
}

/// What a line that counts says.
#[derive(Debug, Clone)]
pub struct Match {
    pub pattern: usize,
    pub ip: IpAddr,
    pub user: Option<String>,
}

/// A [`Match`] as values.
pub struct Found {
    pub pattern: int,
    pub ip: IpAddr,
    pub user: Option<Seq<char>>,
}

impl View for Match {
    type V = Found;

    open spec fn view(&self) -> Found {
        Found { pattern: self.pattern as int, ip: self.ip, user: opt_text(self.user) }
    }
}

/// A match that may be absent, as values.
pub open spec fn found(m: Option<Match>) -> Option<Found> {
    match m {
        Some(m) => Some(m@),
        None => None,
    }
}

/// What stands for a backslash and `c`.
pub open spec fn class_of(c: char) -> Seq<char> {
    if c == 'd' {
        "[0-9]"@
    } else if c == 'D' {
        "[^0-9]"@
    } else if c == 's' {
        "[ \\t\\r\\n\\x0b\\x0c]"@
    } else if c == 'S' {
        "[^ \\t\\r\\n\\x0b\\x0c]"@
    } else if c == 'w' {
        "[0-9A-Za-z_]"@
    } else if c == 'W' {
        "[^0-9A-Za-z_]"@
    } else {
        seq!['\\', c]
    }
}

/// A pattern with its Perl classes rewritten.
pub open spec fn classes(s: Seq<char>) -> Seq<char>
    decreases s.len(),
{
    if s.len() == 0 {
        s
    } else if s[0] != '\\' {
        seq![s[0]] + classes(s.skip(1))
    } else if s.len() == 1 {
        s
    } else {
        class_of(s[1]) + classes(s.skip(2))
    }
}

/// Rewrite Perl classes to ASCII equivalents. Nested classes (`[[0-9].]`) are
/// valid regex-crate syntax, so this is safe inside brackets too.
pub fn ascii_classes(pattern: &str) -> (r: String)
    ensures
        r@ == classes(pattern@),
{
    let v = text::chars(pattern);
    let mut out = String::new();
    let mut i: usize = 0;
    assert(v@.skip(0) =~= v@);
    while i < v.len()
        invariant
            i <= v@.len(),
            classes(v@) == out@ + classes(v@.skip(i as int)),
        decreases v@.len() - i,
    {
        let c = v[i];
        let ghost rest = v@.skip(i as int);
        let ghost before = out@;
        if c != '\\' {
            out.push(c);
            i += 1;
            assert(rest.skip(1) =~= v@.skip(i as int));
            assert(out@ + classes(v@.skip(i as int)) =~= before + classes(rest));
        } else if i + 1 >= v.len() {
            out.push('\\');
            i += 1;
            assert(v@.skip(i as int) =~= Seq::<char>::empty());
            assert(rest =~= seq!['\\']);
            assert(out@ + classes(v@.skip(i as int)) =~= before + classes(rest));
        } else {
            let d = v[i + 1];
            if d == 'd' {
                out.append("[0-9]");
            } else if d == 'D' {
                out.append("[^0-9]");
            } else if d == 's' {
                out.append("[ \\t\\r\\n\\x0b\\x0c]");
            } else if d == 'S' {
                out.append("[^ \\t\\r\\n\\x0b\\x0c]");
            } else if d == 'w' {
                out.append("[0-9A-Za-z_]");
            } else if d == 'W' {
                out.append("[^0-9A-Za-z_]");
            } else {
                out.push('\\');
                out.push(d);
            }
            assert(out@ =~= before + class_of(d));
            i += 2;
            assert(rest.skip(2) =~= v@.skip(i as int));
            assert(out@ + classes(v@.skip(i as int)) =~= before + classes(rest));
        }
    }
    assert(v@.skip(i as int) =~= Seq::<char>::empty());
    assert(out@ + Seq::<char>::empty() =~= out@);
    out
}

/// What stands for the token between `<` and `>`, with `suffix` behind every capture
/// name; `None` if it is no token.
pub open spec fn token(tok: Seq<char>, suffix: Seq<char>) -> Option<Seq<char>> {
    if tok == "HOST"@ || tok == "ADDR"@ || tok == "IP"@ {
        Some("(?P<host"@ + suffix + ">"@ + RE_IP4@ + "|"@ + RE_IP6@ + ")"@)
    } else if tok == "IP4"@ {
        Some("(?P<host"@ + suffix + ">"@ + RE_IP4@ + ")"@)
    } else if tok == "IP6"@ {
        Some("(?P<host"@ + suffix + ">"@ + RE_IP6@ + ")"@)
    } else if text::begins(tok, "F-"@) {
        Some("(?P<"@ + lower(tok.skip("F-"@.len() as int)) + suffix + ">"@)
    } else if text::begins(tok, "/F-"@) {
        Some(")"@)
    } else {
        None
    }
}

/// A pattern with its tokens replaced. A `<` that opens no token stays, and so does
/// everything from a `<` on that no `>` follows.
pub open spec fn expanded(s: Seq<char>, suffix: Seq<char>) -> Seq<char>
    decreases s.len(),
{
    if s.len() == 0 {
        s
    } else if s[0] != '<' {
        seq![s[0]] + expanded(s.skip(1), suffix)
    } else {
        proof {
            lemma_first_index(s, '>');
        }
        match first_index(s, '>') {
            None => s,
            Some(e) => match token(s.subrange(1, e), suffix) {
                Some(t) => t + expanded(s.skip(e + 1), suffix),
                None => seq!['<'] + expanded(s.skip(1), suffix),
            },
        }
    }
}

/// Expand fail2ban-style tokens into real regex syntax.
pub fn expand_tokens(pattern: &str) -> (r: String)
    ensures
        r@ == expanded(classes(pattern@), ""@),
{
    expand_tokens_n(pattern, "")
}

/// What stands for a token.
fn token_text(tok: &[char], suffix: &str) -> (r: Option<String>)
    ensures
        opt_text(r) == token(tok@, suffix@),
{
    let host = text::chars("HOST");
    let addr = text::chars("ADDR");
    let ip = text::chars("IP");
    let ip4 = text::chars("IP4");
    let ip6 = text::chars("IP6");
    let open = text::chars("F-");
    let close = text::chars("/F-");
    let mut out = String::new();
    if text::same_chars(tok, &host) || text::same_chars(tok, &addr) || text::same_chars(tok, &ip) {
        out.append("(?P<host");
        out.append(suffix);
        out.append(">");
        out.append(RE_IP4);
        out.append("|");
        out.append(RE_IP6);
        out.append(")");
        assert(out@ =~= "(?P<host"@ + suffix@ + ">"@ + RE_IP4@ + "|"@ + RE_IP6@ + ")"@);
        Some(out)
    } else if text::same_chars(tok, &ip4) {
        out.append("(?P<host");
        out.append(suffix);
        out.append(">");
        out.append(RE_IP4);
        out.append(")");
        assert(out@ =~= "(?P<host"@ + suffix@ + ">"@ + RE_IP4@ + ")"@);
        Some(out)
    } else if text::same_chars(tok, &ip6) {
        out.append("(?P<host");
        out.append(suffix);
        out.append(">");
        out.append(RE_IP6);
        out.append(")");
        assert(out@ =~= "(?P<host"@ + suffix@ + ">"@ + RE_IP6@ + ")"@);
        Some(out)
    } else if text::begins_with(tok, &open) {
        let name = text::copied(tok, open.len(), tok.len());
        assert(name@ =~= tok@.skip("F-"@.len() as int));
        let name = text::text(&text::lowered(&name));
        out.append("(?P<");
        out.append(name.as_str());
        out.append(suffix);
        out.append(">");
        assert(out@ =~= "(?P<"@ + lower(tok@.skip("F-"@.len() as int)) + suffix@ + ">"@);
        Some(out)
    } else if text::begins_with(tok, &close) {
        out.append(")");
        assert(out@ =~= ")"@);
        Some(out)
    } else {
        None
    }
}

/// Like [`expand_tokens`] but suffixes every capture name with `suffix`, so
/// several patterns can live in one alternation without name clashes.
pub fn expand_tokens_n(pattern: &str, suffix: &str) -> (r: String)
    ensures
        r@ == expanded(classes(pattern@), suffix@),
{
    let pattern = ascii_classes(pattern);
    let v = text::chars(pattern.as_str());
    let mut out = String::new();
    let mut i: usize = 0;
    assert(v@.skip(0) =~= v@);
    while i < v.len()
        invariant
            i <= v@.len(),
            expanded(v@, suffix@) == out@ + expanded(v@.skip(i as int), suffix@),
        decreases v@.len() - i,
    {
        let ghost rest = v@.skip(i as int);
        let ghost before = out@;
        let c = v[i];
        if c != '<' {
            out.push(c);
            i += 1;
            assert(rest.skip(1) =~= v@.skip(i as int));
            assert(out@ + expanded(v@.skip(i as int), suffix@) =~= before + expanded(
                rest,
                suffix@,
            ));
        } else {
            match find_char(&v, i, '>') {
                None => {
                    let tail = text::copied(&v, i, v.len());
                    assert(tail@ =~= rest);
                    let tail = text::text(&tail);
                    out.append(tail.as_str());
                    i = v.len();
                    assert(v@.skip(i as int) =~= Seq::<char>::empty());
                    assert(out@ + Seq::<char>::empty() =~= before + expanded(rest, suffix@));
                },
                Some(e) => {
                    assert(e != i) by {
                        lemma_first_index(rest, '>');
                    }
                    let tok = text::copied(&v, i + 1, e);
                    assert(tok@ =~= rest.subrange(1, e - i));
                    match token_text(&tok, suffix) {
                        Some(t) => {
                            out.append(t.as_str());
                            assert(rest.skip(e - i + 1) =~= v@.skip(e + 1));
                            i = e + 1;
                        },
                        None => {
                            out.push('<');
                            i += 1;
                            assert(rest.skip(1) =~= v@.skip(i as int));
                        },
                    }
                    assert(out@ + expanded(v@.skip(i as int), suffix@) =~= before + expanded(
                        rest,
                        suffix@,
                    ));
                },
            }
        }
    }
    assert(v@.skip(i as int) =~= Seq::<char>::empty());
    assert(out@ + Seq::<char>::empty() =~= out@);
    out
}

/// One alternative of a combined pattern.
pub open spec fn grouped(p: Seq<char>) -> Seq<char> {
    "(?:"@ + p + ")"@
}

/// All of `ps` as one alternation: `(?:p0)|(?:p1)|..`.
pub open spec fn alternation(ps: Seq<Seq<char>>) -> Seq<char>
    decreases ps.len(),
{
    if ps.len() == 0 {
        Seq::empty()
    } else if ps.len() == 1 {
        grouped(ps[0])
    } else {
        alternation(ps.drop_last()) + "|"@ + grouped(ps.last())
    }
}

/// The patterns of a filter with their tokens expanded, capture names suffixed by
/// pattern index.
pub open spec fn numbered(patterns: Seq<Seq<char>>) -> Seq<Seq<char>> {
    Seq::new(
        patterns.len(),
        |i: int| expanded(classes(patterns[i]), decimal(i as nat)),
    )
}

/// The patterns with their tokens expanded.
pub open spec fn plain(patterns: Seq<Seq<char>>) -> Seq<Seq<char>> {
    patterns.map_values(|p: Seq<char>| source_of(p))
}

/// All patterns as one alternation, suffixed by index or not.
fn alternatives(patterns: &Vec<String>, suffixed: bool) -> (r: String)
    ensures
        r@ == alternation(
            if suffixed {
                numbered(texts(patterns@))
            } else {
                plain(texts(patterns@))
            },
        ),
{
    let ghost all = if suffixed {
        numbered(texts(patterns@))
    } else {
        plain(texts(patterns@))
    };
    let mut out = String::new();
    let mut i: usize = 0;
    while i < patterns.len()
        invariant
            i <= patterns@.len(),
            all == (if suffixed {
                numbered(texts(patterns@))
            } else {
                plain(texts(patterns@))
            }),
            out@ == alternation(all.take(i as int)),
        decreases patterns@.len() - i,
    {
        let ghost before = out@;
        let p = if suffixed {
            let n = text::decimal_text(i as u64);
            expand_tokens_n(patterns[i].as_str(), n.as_str())
        } else {
            expand_tokens(patterns[i].as_str())
        };
        assert(p@ == all[i as int]);
        if i > 0 {
            out.append("|");
        }
        out.append("(?:");
        out.append(p.as_str());
        out.append(")");
        let ghost now = all.take(i + 1);
        assert(now.drop_last() =~= all.take(i as int));
        assert(now.last() == p@);
        if i == 0 {
            assert(out@ =~= grouped(p@));
        } else {
            assert(out@ =~= before + "|"@ + grouped(p@));
        }
        i += 1;
    }
    assert(all.take(i as int) =~= all);
    out
}

fn build(patterns: &Vec<String>) -> (r: Result<regex::Regex, String>)
    ensures
        match r {
            Ok(re) => combined_fault(texts(patterns@)) is None && foreign::regex_source(re)
                == alternation(numbered(texts(patterns@))),
            Err(e) => combined_fault(texts(patterns@)) == Some(e@),
        },
{
    let joined = alternatives(patterns, true);
    foreign::regex_build(joined.as_str(), SIZE_LIMIT, DFA_SIZE_LIMIT)
}

/// Why a filter is refused.
#[derive(Debug, Clone)]
pub enum FilterError {
    /// The filter `name` has no patterns.
    NoPatterns { name: String },
    /// A pattern that does not compile.
    BadPattern { pattern: String, error: String },
    /// A pattern without a host capture.
    NoHost { pattern: String },
    /// The patterns of filter `name` do not compile together.
    Combined { name: String, error: String },
    /// The ignore list of filter `name` does not compile.
    Ignore { name: String, error: String },
    /// The literals of the pre-check cannot be searched for.
    Prefilter { error: String },
}

/// A [`FilterError`] as values.
pub enum Refusal {
    NoPatterns { name: Seq<char> },
    BadPattern { pattern: Seq<char>, error: Seq<char> },
    NoHost { pattern: Seq<char> },
    Combined { name: Seq<char>, error: Seq<char> },
    Ignore { name: Seq<char>, error: Seq<char> },
    Prefilter { error: Seq<char> },
}

impl View for FilterError {
    type V = Refusal;

    open spec fn view(&self) -> Refusal {
        match self {
            FilterError::NoPatterns { name } => Refusal::NoPatterns { name: name@ },
            FilterError::BadPattern { pattern, error } => Refusal::BadPattern {
                pattern: pattern@,
                error: error@,
            },
            FilterError::NoHost { pattern } => Refusal::NoHost { pattern: pattern@ },
            FilterError::Combined { name, error } => Refusal::Combined {
                name: name@,
                error: error@,
            },
            FilterError::Ignore { name, error } => Refusal::Ignore { name: name@, error: error@ },
            FilterError::Prefilter { error } => Refusal::Prefilter { error: error@ },
        }
    }
}

impl Refusal {
    /// How the refusal reads.
    pub open spec fn text(self) -> Seq<char> {
        match self {
            Refusal::NoPatterns { name } => "filter `"@ + name + "` has no patterns"@,
            Refusal::BadPattern { pattern, error } => "pattern `"@ + pattern + "`: "@ + error,
            Refusal::NoHost { pattern } => "pattern `"@ + pattern + "` has no <HOST> capture"@,
            Refusal::Combined { name, error } => "filter `"@ + name + "`: "@ + error,
            Refusal::Ignore { name, error } => "filter `"@ + name + "` ignore: "@ + error,
            Refusal::Prefilter { error } => error,
        }
    }
}

impl FilterError {
    pub fn message(&self) -> (r: String)
        ensures
            r@ == self@.text(),
    {
        let mut out = String::new();
        match self {
            FilterError::NoPatterns { name } => {
                out.append("filter `");
                out.append(name.as_str());
                out.append("` has no patterns");
            },
            FilterError::BadPattern { pattern, error } => {
                out.append("pattern `");
                out.append(pattern.as_str());
                out.append("`: ");
                out.append(error.as_str());
            },
            FilterError::NoHost { pattern } => {
                out.append("pattern `");
                out.append(pattern.as_str());
                out.append("` has no <HOST> capture");
            },
            FilterError::Combined { name, error } => {
                out.append("filter `");
                out.append(name.as_str());
                out.append("`: ");
                out.append(error.as_str());
            },
            FilterError::Ignore { name, error } => {
                out.append("filter `");
                out.append(name.as_str());
                out.append("` ignore: ");
                out.append(error.as_str());
            },
            FilterError::Prefilter { error } => {
                out.append(error.as_str());
            },
        }
        assert(out@ =~= self@.text());
        out
    }
}

/// A pattern by itself, with its tokens expanded.
pub open spec fn source_of(p: Seq<char>) -> Seq<char> {
    expanded(classes(p), ""@)
}

/// The names of the capture groups of a pattern by itself.
pub open spec fn names_of(p: Seq<char>) -> Seq<Option<Seq<char>>> {
    foreign::regex_group_names(source_of(p))
}

/// What is wrong with one pattern of a filter.
pub open spec fn pattern_refusal(p: Seq<char>) -> Option<Refusal> {
    match foreign::regex_fault(source_of(p)) {
        Some(error) => Some(Refusal::BadPattern { pattern: p, error }),
        None => if names_of(p).contains(Some("host"@)) {
            None
        } else {
            Some(Refusal::NoHost { pattern: p })
        },
    }
}

/// What is wrong with the first bad one of the patterns.
pub open spec fn first_refusal(patterns: Seq<Seq<char>>) -> Option<Refusal>
    decreases patterns.len(),
{
    if patterns.len() == 0 {
        None
    } else {
        match first_refusal(patterns.drop_last()) {
            Some(e) => Some(e),
            None => pattern_refusal(patterns.last()),
        }
    }
}

/// Why the patterns do not compile together.
pub open spec fn combined_fault(patterns: Seq<Seq<char>>) -> Option<Seq<char>> {
    foreign::limited_regex_fault(alternation(numbered(patterns)), SIZE_LIMIT, DFA_SIZE_LIMIT)
}

/// What is wrong with the patterns of a definition.
pub open spec fn patterns_refusal(def: DefView) -> Option<Refusal> {
    let patterns = def.patterns;
    if patterns.len() == 0 {
        Some(Refusal::NoPatterns { name: def.name })
    } else {
        match first_refusal(patterns) {
            Some(e) => Some(e),
            None => match combined_fault(patterns) {
                Some(error) => Some(Refusal::Combined { name: def.name, error }),
                None => None,
            },
        }
    }
}

/// What is wrong with a definition, in the order in which it is looked at.
pub open spec fn refusal(def: DefView) -> Option<Refusal> {
    match patterns_refusal(def) {
        Some(e) => Some(e),
        None => if def.ignore.len() > 0 && foreign::regex_fault(
            alternation(plain(def.ignore)),
        ) is Some {
            Some(
                Refusal::Ignore {
                    name: def.name,
                    error: foreign::regex_fault(alternation(plain(def.ignore)))->0,
                },
            )
        } else if def.prefilter.len() > 0 && foreign::aho_fault(def.prefilter) is Some {
            Some(Refusal::Prefilter { error: foreign::aho_fault(def.prefilter)->0 })
        } else {
            None
        },
    }
}

/// Where a name first stands among the group names.
pub open spec fn position(names: Seq<Option<Seq<char>>>, name: Seq<char>) -> Option<int>
    decreases names.len(),
{
    if names.len() == 0 {
        None
    } else if names[0] == Some(name) {
        Some(0)
    } else {
        match position(names.skip(1), name) {
            Some(i) => Some(i + 1),
            None => None,
        }
    }
}

/// `position` of a name.
fn find_name(names: &Vec<Option<String>>, name: &str) -> (r: Option<usize>)
    ensures
        match r {
            Some(k) => k < names@.len() && position(opt_texts(names@), name@) == Some(k as int),
            None => position(opt_texts(names@), name@) is None,
        },
{
    let ghost all = opt_texts(names@);
    let mut k: usize = 0;
    assert(all.skip(0) =~= all);
    while k < names.len()
        invariant
            k <= names@.len(),
            all == opt_texts(names@),
            match position(all.skip(k as int), name@) {
                Some(i) => position(all, name@) == Some(i + k),
                None => position(all, name@) is None,
            },
        decreases names@.len() - k,
    {
        assert(all.skip(k as int)[0] == opt_text(names@[k as int]));
        assert(all.skip(k as int).skip(1) =~= all.skip(k + 1));
        if let Some(n) = &names[k] {
            if text::same(n.as_str(), name) {
                return Some(k);
            }
        }
        k += 1;
    }
    assert(all.skip(k as int) =~= Seq::empty());
    None
}

/// A position is in range, and there is one exactly if the name is among the names.
pub proof fn lemma_position(names: Seq<Option<Seq<char>>>, name: Seq<char>)
    ensures
        match position(names, name) {
            Some(i) => 0 <= i < names.len() && names[i] == Some(name),
            None => !names.contains(Some(name)),
        },
    decreases names.len(),
{
    if names.len() > 0 && names[0] != Some(name) {
        lemma_position(names.skip(1), name);
        if position(names.skip(1), name) is None {
            if names.contains(Some(name)) {
                let j = choose|j: int| 0 <= j < names.len() && names[j] == Some(name);
                assert(names.skip(1)[j - 1] == Some(name));
            }
        }
    }
}

/// Where the host of a pattern stands among its groups, and its user.
pub open spec fn located(names: Seq<Option<Seq<char>>>) -> Option<(int, Option<int>)> {
    match position(names, "host"@) {
        Some(h) => Some((h, position(names, "user"@))),
        None => None,
    }
}

/// The host and user groups of every pattern.
pub open spec fn groups_of(patterns: Seq<Seq<char>>) -> Seq<(int, Option<int>)> {
    patterns.map_values(|p: Seq<char>| located(names_of(p))->0)
}

/// Group numbers as integers.
pub open spec fn group_number(g: (usize, Option<usize>)) -> (int, Option<int>) {
    (
        g.0 as int,
        match g.1 {
            Some(u) => Some(u as int),
            None => None,
        },
    )
}

/// The group numbers of several patterns as integers.
pub open spec fn group_numbers(v: Seq<(usize, Option<usize>)>) -> Seq<(int, Option<int>)> {
    v.map_values(|g: (usize, Option<usize>)| group_number(g))
}

/// The groups `host` and `user` among the groups with the given names; `None` if there
/// is no host group.
pub fn locate_groups(names: &Vec<Option<String>>) -> (r: Option<(usize, Option<usize>)>)
    ensures
        match r {
            Some(g) => located(opt_texts(names@)) == Some(group_number(g)),
            None => located(opt_texts(names@)) is None,
        },
{
    match find_name(names, "host") {
        Some(h) => Some((h, find_name(names, "user"))),
        None => None,
    }
}

/// What group `g` holds, if there is such a group and it took part in the match.
pub open spec fn group_text(caps: Seq<Option<Seq<char>>>, g: int) -> Option<Seq<char>> {
    if 0 <= g < caps.len() {
        caps[g]
    } else {
        None
    }
}

/// What the groups of one pattern's match, if it matches, say: the address that its
/// host group holds, and its user.
pub open spec fn yielded(caps: Option<Seq<Option<Seq<char>>>>, g: (int, Option<int>)) -> Option<
    (IpAddr, Option<Seq<char>>),
> {
    match caps {
        None => None,
        Some(c) => match group_text(c, g.0) {
            None => None,
            Some(host) => match ip::log_ip(host) {
                None => None,
                Some(a) => Some(
                    (
                        a,
                        match g.1 {
                            Some(u) => group_text(c, u),
                            None => None,
                        },
                    ),
                ),
            },
        },
    }
}

/// What the first pattern from `i` on that yields an address says; `caps` are the groups
/// of each pattern's own match.
pub open spec fn picked(
    caps: Seq<Option<Seq<Option<Seq<char>>>>>,
    groups: Seq<(int, Option<int>)>,
    i: int,
) -> Option<Found>
    decreases groups.len() - i,
{
    if i < 0 || i >= groups.len() || i >= caps.len() {
        None
    } else {
        match yielded(caps[i], groups[i]) {
            Some((ip, user)) => Some(Found { pattern: i, ip, user }),
            None => picked(caps, groups, i + 1),
        }
    }
}

/// The groups of a match that may be absent, as values.
pub open spec fn capture_texts(c: Option<Vec<Option<String>>>) -> Option<Seq<Option<Seq<char>>>> {
    match c {
        Some(v) => Some(opt_texts(v@)),
        None => None,
    }
}

/// The groups of several matches as values.
pub open spec fn captures_texts(v: Seq<Option<Vec<Option<String>>>>) -> Seq<
    Option<Seq<Option<Seq<char>>>>,
> {
    v.map_values(|c: Option<Vec<Option<String>>>| capture_texts(c))
}

/// `yielded`, of the groups of one match.
fn read_groups(caps: &Vec<Option<String>>, g: (usize, Option<usize>)) -> (r: Option<
    (IpAddr, Option<String>),
>)
    ensures
        match r {
            Some((a, user)) => yielded(Some(opt_texts(caps@)), group_number(g)) == Some(
                (a, opt_text(user)),
            ),
            None => yielded(Some(opt_texts(caps@)), group_number(g)) is None,
        },
{
    let (h, u) = g;
    if h >= caps.len() {
        return None;
    }
    assert(group_text(opt_texts(caps@), h as int) == opt_text(caps@[h as int]));
    match &caps[h] {
        None => None,
        Some(host) => match ip::parse_log_ip(host.as_str()) {
            None => None,
            Some(a) => {
                let user: Option<String> = match u {
                    Some(k) => if k < caps.len() {
                        match &caps[k] {
                            Some(s) => Some(s.clone()),
                            None => None,
                        }
                    } else {
                        None
                    },
                    None => None,
                };
                Some((a, user))
            },
        },
    }
}

/// Of the patterns whose own matches have the groups `caps`, the first that yields an
/// address counts.
pub fn pick_match(
    caps: &Vec<Option<Vec<Option<String>>>>,
    groups: &Vec<(usize, Option<usize>)>,
) -> (r: Option<Match>)
    ensures
        found(r) == picked(captures_texts(caps@), group_numbers(groups@), 0),
{
    let ghost c = captures_texts(caps@);
    let ghost g = group_numbers(groups@);
    let mut i: usize = 0;
    while i < groups.len() && i < caps.len()
        invariant
            i <= groups@.len(),
            c == captures_texts(caps@),
            g == group_numbers(groups@),
            picked(c, g, 0) == picked(c, g, i as int),
        decreases groups@.len() - i,
    {
        assert(g[i as int] == group_number(groups@[i as int]));
        assert(c[i as int] == capture_texts(caps@[i as int]));
        if let Some(v) = &caps[i] {
            if let Some((ip, user)) = read_groups(v, groups[i]) {
                return Some(Match { pattern: i, ip, user });
            }
        }
        i += 1;
    }
    None
}

/// Compiled form of a [`FilterDef`].
pub struct CompiledFilter {
    pub def: FilterDef,
    pub prefilter: Option<aho_corasick::AhoCorasick>,
    /// All patterns as one alternation: `(?:p0)|(?:p1)|..`, with capture names
    /// suffixed by pattern index. One search tells whether a line is worth a closer
    /// look.
    pub re: regex::Regex,
    /// Every pattern by itself.
    pub each: Vec<regex::Regex>,
    /// Capture-group indices of `host` / `user` per pattern.
    pub groups: Vec<(usize, Option<usize>)>,
    pub ignore: Option<regex::Regex>,
}

/// The groups of every pattern's own match in a line.
pub open spec fn captures_of(patterns: Seq<Seq<char>>, line: Seq<char>) -> Seq<
    Option<Seq<Option<Seq<char>>>>,
> {
    patterns.map_values(|p: Seq<char>| foreign::regex_groups(source_of(p), line))
}

/// Whether a line is worth a closer look: with the pre-check on, one of its literals
/// must occur; the combined patterns must hit and the ignore list must not.
pub open spec fn is_candidate(def: DefView, line: Seq<char>, use_prefilter: bool) -> bool {
    &&& use_prefilter && def.prefilter.len() > 0 ==> text::some_occurs(def.prefilter, line)
    &&& foreign::regex_finds(alternation(numbered(def.patterns)), line)
    &&& !(def.ignore.len() > 0 && foreign::regex_finds(alternation(plain(def.ignore)), line))
}

/// What a line says to the filter defined by `def`: in a line that is worth a closer
/// look, the first pattern in definition order that hits and yields an address names
/// it.
pub open spec fn line_match(def: DefView, line: Seq<char>, use_prefilter: bool) -> Option<Found> {
    if is_candidate(def, line, use_prefilter) {
        picked(captures_of(def.patterns, line), groups_of(def.patterns), 0)
    } else {
        None
    }
}

impl CompiledFilter {
    /// The compiled parts belong to the definition.
    pub open spec fn wf(&self) -> bool {
        &&& refusal(self.def@) is None
        &&& foreign::regex_source(self.re) == alternation(numbered(self.def@.patterns))
        &&& are_sources(self.each@, self.def@.patterns)
        &&& group_numbers(self.groups@) == groups_of(self.def@.patterns)
        &&& match self.prefilter {
            Some(ac) => self.def.prefilter@.len() > 0 && foreign::aho_patterns(ac)
                == self.def@.prefilter,
            None => self.def.prefilter@.len() == 0,
        }
        &&& match self.ignore {
            Some(re) => self.def.ignore@.len() > 0 && foreign::regex_source(re) == alternation(
                plain(self.def@.ignore),
            ),
            None => self.def.ignore@.len() == 0,
        }
    }

    /// Each pattern on its own first, so that errors name the culprit.
    fn separate(def: &FilterDef) -> (r: Result<
        (Vec<regex::Regex>, Vec<(usize, Option<usize>)>),
        FilterError,
    >)
        ensures
            match r {
                Ok((each, groups)) => {
                    &&& first_refusal(def@.patterns) is None
                    &&& are_sources(each@, def@.patterns)
                    &&& group_numbers(groups@) == groups_of(def@.patterns)
                },
                Err(e) => first_refusal(def@.patterns) == Some(e@),
            },
    {
        let ghost all = texts(def.patterns@);
        let mut each: Vec<regex::Regex> = Vec::new();
        let mut groups: Vec<(usize, Option<usize>)> = Vec::new();
        let mut i: usize = 0;
        assert(group_numbers(groups@) =~= groups_of(all.take(0)));
        while i < def.patterns.len()
            invariant
                i <= def.patterns@.len(),
                all == texts(def.patterns@),
                first_refusal(all.take(i as int)) is None,
                are_sources(each@, all.take(i as int)),
                group_numbers(groups@) == groups_of(all.take(i as int)),
            decreases def.patterns@.len() - i,
        {
            let p = def.patterns[i].as_str();
            let ghost now = all.take(i + 1);
            let ghost before = groups@;
            assert(now.drop_last() =~= all.take(i as int));
            assert(now =~= all.take(i as int).push(p@));
            assert(now.last() == p@);
            let source = expand_tokens(p);
            match foreign::regex_new(source.as_str()) {
                Err(error) => {
                    proof {
                        lemma_refusal_stays(all, i + 1);
                    }
                    return Err(
                        FilterError::BadPattern { pattern: def.patterns[i].clone(), error },
                    );
                },
                Ok(re) => {
                    let names = foreign::regex_names(&re);
                    proof {
                        lemma_position(opt_texts(names@), "host"@);
                    }
                    match locate_groups(&names) {
                        None => {
                            proof {
                                lemma_refusal_stays(all, i + 1);
                            }
                            return Err(FilterError::NoHost { pattern: def.patterns[i].clone() });
                        },
                        Some(g) => {
                            each.push(re);
                            groups.push(g);
                            assert(group_numbers(groups@) =~= group_numbers(before).push(
                                group_number(g),
                            ));
                            assert(groups_of(now) =~= groups_of(all.take(i as int)).push(
                                group_number(g),
                            ));
                        },
                    }
                },
            }
            i += 1;
        }
        assert(all.take(i as int) =~= all);
        Ok((each, groups))
    }

    /// Compiles a definition.
    pub fn compile(def: FilterDef) -> (r: Result<Self, FilterError>)
        ensures
            match r {
                Ok(f) => refusal(def@) is None && f.wf() && f.def == def,
                Err(e) => refusal(def@) == Some(e@),
            },
    {
        if def.patterns.len() == 0 {
            return Err(FilterError::NoPatterns { name: def.name });
        }
        let (each, groups) = match Self::separate(&def) {
            Ok(parts) => parts,
            Err(e) => {
                return Err(e);
            },
        };
        let re = match build(&def.patterns) {
            Ok(re) => re,
            Err(error) => {
                return Err(FilterError::Combined { name: def.name, error });
            },
        };
        let ignore = if def.ignore.len() == 0 {
            None
        } else {
            let ig = alternatives(&def.ignore, false);
            match foreign::regex_new(ig.as_str()) {
                Ok(re) => Some(re),
                Err(error) => {
                    return Err(FilterError::Ignore { name: def.name, error });
                },
            }
        };
        let prefilter = if def.prefilter.len() == 0 {
            None
        } else {
            match foreign::aho_new(&def.prefilter) {
                Ok(ac) => Some(ac),
                Err(error) => {
                    return Err(FilterError::Prefilter { error });
                },
            }
        };
        Ok(CompiledFilter { def, prefilter, re, each, groups, ignore })
    }

    pub fn name(&self) -> (r: &str)
        ensures
            r@ == self.def.name@,
    {
        self.def.name.as_str()
    }

    /// Match a single log line. Returns the first pattern (in definition order)
    /// that hits and yields a parseable IP.
    pub fn match_line(&self, line: &str) -> (r: Option<Match>)
        requires
            self.wf(),
        ensures
            found(r) == line_match(self.def@, line@, true),
    {
        self.match_line_opts(line, true)
    }

    /// `use_prefilter = false` skips the literal pre-check; used for journald
    /// entries, which are already selected by unit/identifier and lack the
    /// syslog program prefix the prefilter typically keys on.
    pub fn match_line_opts(&self, line: &str, use_prefilter: bool) -> (r: Option<Match>)
        requires
            self.wf(),
        ensures
            found(r) == line_match(self.def@, line@, use_prefilter),
    {
        if use_prefilter {
            if let Some(pf) = &self.prefilter {
                if !foreign::aho_is_match(pf, line) {
                    return None;
                }
            }
        }
        if !foreign::regex_is_match(&self.re, line) {
            return None;
        }
        if let Some(ig) = &self.ignore {
            if foreign::regex_is_match(ig, line) {
                return None;
            }
        }
        let caps = self.captures(line);
        pick_match(&caps, &self.groups)
    }

    /// The groups of every pattern's own match.
    fn captures(&self, line: &str) -> (r: Vec<Option<Vec<Option<String>>>>)
        requires
            self.wf(),
        ensures
            captures_texts(r@) == captures_of(self.def@.patterns, line@),
    {
        let ghost all = captures_of(self.def@.patterns, line@);
        let mut out: Vec<Option<Vec<Option<String>>>> = Vec::new();
        let mut i: usize = 0;
        assert(captures_texts(out@) =~= all.take(0));
        while i < self.each.len()
            invariant
                i <= self.each@.len(),
                are_sources(self.each@, self.def@.patterns),
                all == captures_of(self.def@.patterns, line@),
                captures_texts(out@) == all.take(i as int),
            decreases self.each@.len() - i,
        {
            let ghost before = out@;
            let c = foreign::regex_captures(&self.each[i], line);
            assert(capture_texts(c) == all[i as int]);
            out.push(c);
            assert(captures_texts(out@) =~= captures_texts(before).push(all[i as int]));
            assert(all.take(i + 1) =~= all.take(i as int).push(all[i as int]));
            i += 1;
        }
        assert(all.take(i as int) =~= all);
        out
    }
}

/// Every regex is that of the pattern at its place.
pub open spec fn are_sources(each: Seq<regex::Regex>, patterns: Seq<Seq<char>>) -> bool {
    &&& each.len() == patterns.len()
    &&& forall|i: int|
        0 <= i < each.len() ==> foreign::regex_source(#[trigger] each[i]) == source_of(patterns[i])
}

/// A pattern that is refused stays the first refused one when more follow.
proof fn lemma_refusal_stays(patterns: Seq<Seq<char>>, n: int)
    requires
        0 <= n <= patterns.len(),
        first_refusal(patterns.take(n)) is Some,
    ensures
        first_refusal(patterns) == first_refusal(patterns.take(n)),
    decreases patterns.len(),
{
    if n == patterns.len() {
        assert(patterns.take(n) =~= patterns);
    } else {
        assert(patterns.drop_last().take(n) =~= patterns.take(n));
        lemma_refusal_stays(patterns.drop_last(), n);
    }
}

/// A line on the ignore list never counts, whatever else it matches.
pub proof fn law_ignored_never_counts(def: DefView, line: Seq<char>, use_prefilter: bool)
    requires
        def.ignore.len() > 0,
        foreign::regex_finds(alternation(plain(def.ignore)), line),
    ensures
        line_match(def, line, use_prefilter) is None,
{
}

/// The pre-check only takes lines away: a line that passes it is matched the same
/// with and without it.
pub proof fn law_prefilter_only_rejects(def: DefView, line: Seq<char>)
    ensures
        line_match(def, line, true) is None || line_match(def, line, true) == line_match(
            def,
            line,
            false,
        ),
        text::some_occurs(def.prefilter, line) ==> line_match(def, line, true)
            == line_match(def, line, false),
{
}

/// The address that a pattern by itself finds in a line, if it hits and its host is one.
pub open spec fn host_in(p: Seq<char>, line: Seq<char>) -> Option<IpAddr> {
    match yielded(foreign::regex_groups(source_of(p), line), located(names_of(p))->0) {
        Some((a, _)) => Some(a),
        None => None,
    }
}

/// The first pattern in definition order that hits and yields an address counts,
/// wherever in the line it hits; a candidate line counts for nothing only where no
/// pattern yields one.
pub proof fn law_first_pattern_wins(def: DefView, line: Seq<char>, use_prefilter: bool)
    ensures
        match line_match(def, line, use_prefilter) {
            Some(m) => {
                &&& 0 <= m.pattern < def.patterns.len()
                &&& host_in(def.patterns[m.pattern], line) == Some(m.ip)
                &&& forall|j: int|
                    0 <= j < m.pattern ==> host_in(#[trigger] def.patterns[j], line) is None
            },
            None => is_candidate(def, line, use_prefilter) ==> forall|j: int|
                0 <= j < def.patterns.len() ==> host_in(#[trigger] def.patterns[j], line) is None,
        },
{
    lemma_picked(def.patterns, line, 0);
}

/// What is picked from pattern `i` on.
proof fn lemma_picked(patterns: Seq<Seq<char>>, line: Seq<char>, i: int)
    requires
        0 <= i <= patterns.len(),
    ensures
        match picked(captures_of(patterns, line), groups_of(patterns), i) {
            Some(m) => {
                &&& i <= m.pattern < patterns.len()
                &&& host_in(patterns[m.pattern], line) == Some(m.ip)
                &&& forall|j: int|
                    i <= j < m.pattern ==> host_in(#[trigger] patterns[j], line) is None
            },
            None => forall|j: int|
                i <= j < patterns.len() ==> host_in(#[trigger] patterns[j], line) is None,
        },
    decreases patterns.len() - i,
{
    if i < patterns.len() {
        lemma_picked(patterns, line, i + 1);
    }
}

/// A pattern without `<` and backslash needs no expansion.
pub proof fn law_plain_pattern_unchanged(p: Seq<char>, suffix: Seq<char>)
    requires
        !p.contains('<'),
        !p.contains('\\'),
    ensures
        classes(p) == p,
        expanded(p, suffix) == p,
    decreases p.len(),
{
    if p.len() > 0 {
        assert(p.contains(p[0]));
        assert forall|c: char| p.skip(1).contains(c) implies p.contains(c) by {
            let j = choose|j: int| 0 <= j < p.skip(1).len() && p.skip(1)[j] == c;
            assert(p[j + 1] == c);
        }
        law_plain_pattern_unchanged(p.skip(1), suffix);
        assert(seq![p[0]] + p.skip(1) =~= p);
    }
}

/// What stands before the first backslash stays.
proof fn lemma_classes_behind(a: Seq<char>, rest: Seq<char>)
    requires
        !a.contains('\\'),
    ensures
        classes(a + rest) == a + classes(rest),
    decreases a.len(),
{
    if a.len() == 0 {
        assert(a + rest =~= rest);
        assert(a + classes(rest) =~= classes(rest));
    } else {
        let b = a.skip(1);
        assert(a.contains(a[0]));
        assert((a + rest).skip(1) =~= b + rest);
        assert forall|c: char| b.contains(c) implies a.contains(c) by {
            let j = choose|j: int| 0 <= j < b.len() && b[j] == c;
            assert(a[j + 1] == c);
        }
        lemma_classes_behind(b, rest);
        assert(classes(a + rest) =~= a + classes(rest));
    }
}

/// Every Perl class becomes its ASCII class, wherever it stands; any other escaped
/// character stays escaped, a backslash included, and everything else stays as it is.
pub proof fn law_classes_become_ascii(a: Seq<char>, c: char, rest: Seq<char>)
    requires
        !a.contains('\\'),
    ensures
        classes(a) == a,
        classes(a + seq!['\\']) == a + seq!['\\'],
        classes(a + seq!['\\', c] + rest) == a + (if c == 'd' {
            "[0-9]"@
        } else if c == 'D' {
            "[^0-9]"@
        } else if c == 's' {
            "[ \\t\\r\\n\\x0b\\x0c]"@
        } else if c == 'S' {
            "[^ \\t\\r\\n\\x0b\\x0c]"@
        } else if c == 'w' {
            "[0-9A-Za-z_]"@
        } else if c == 'W' {
            "[^0-9A-Za-z_]"@
        } else {
            seq!['\\', c]
        }) + classes(rest),
{
    let e = Seq::<char>::empty();
    lemma_classes_behind(a, e);
    assert(a + e =~= a);
    let one = seq!['\\'];
    lemma_classes_behind(a, one);
    let two = seq!['\\', c] + rest;
    lemma_classes_behind(a, two);
    assert(a + seq!['\\', c] + rest =~= a + two);
    assert(two[0] == '\\' && two[1] == c);
    assert(two.skip(2) =~= rest);
    assert(classes(two) == class_of(c) + classes(rest));
    assert(a + (class_of(c) + classes(rest)) =~= a + class_of(c) + classes(rest));
}

/// What stands before the first `<` stays.
proof fn lemma_expanded_behind(a: Seq<char>, rest: Seq<char>, suffix: Seq<char>)
    requires
        !a.contains('<'),
    ensures
        expanded(a + rest, suffix) == a + expanded(rest, suffix),
    decreases a.len(),
{
    if a.len() == 0 {
        assert(a + rest =~= rest);
        assert(a + expanded(rest, suffix) =~= expanded(rest, suffix));
    } else {
        let b = a.skip(1);
        assert(a.contains(a[0]));
        assert((a + rest).skip(1) =~= b + rest);
        assert forall|c: char| b.contains(c) implies a.contains(c) by {
            let j = choose|j: int| 0 <= j < b.len() && b[j] == c;
            assert(a[j + 1] == c);
        }
        lemma_expanded_behind(b, rest, suffix);
        assert(expanded(a + rest, suffix) =~= a + expanded(rest, suffix));
    }
}

/// What stands between `<` and the next `>` is looked up.
proof fn lemma_token_at(a: Seq<char>, tok: Seq<char>, rest: Seq<char>, suffix: Seq<char>)
    requires
        !a.contains('<'),
        !tok.contains('>'),
    ensures
        expanded(a + seq!['<'] + tok + seq!['>'] + rest, suffix) == (match token(tok, suffix) {
            Some(t) => a + t + expanded(rest, suffix),
            None => a + seq!['<'] + expanded(tok + seq!['>'] + rest, suffix),
        }),
{
    let s = seq!['<'] + tok + seq!['>'] + rest;
    assert(a + seq!['<'] + tok + seq!['>'] + rest =~= a + s);
    lemma_expanded_behind(a, s, suffix);
    lemma_first_index(s, '>');
    let e = tok.len() + 1;
    assert(s[e as int] == '>');
    let k = first_index(s, '>')->0;
    assert(first_index(s, '>') is Some);
    if k < e {
        assert(s[k] == '>');
        assert(k > 0);
        assert(tok[k - 1] == '>');
    }
    assert(k == e);
    assert(s.subrange(1, k) =~= tok);
    assert(s.skip(k + 1) =~= rest);
    assert(s.skip(1) =~= tok + seq!['>'] + rest);
    match token(tok, suffix) {
        Some(t) => {
            assert(a + (t + expanded(rest, suffix)) =~= a + t + expanded(rest, suffix));
        },
        None => {
            let x = expanded(tok + seq!['>'] + rest, suffix);
            assert(a + (seq!['<'] + x) =~= a + seq!['<'] + x);
        },
    }
}

/// Every token becomes its regular expression, wherever it stands: `<HOST>`, `<ADDR>` and
/// `<IP>` an address of either family, `<IP4>` and `<IP6>` one of their own, captured as
/// the host; `<F-NAME>` opens a capture with that name in small letters, and `</F-NAME>`
/// closes it. Every capture name gets the suffix. Anything else between `<` and `>` is
/// no token, and a `<` without `>` behind it is none either.
pub proof fn law_tokens_become_captures(
    a: Seq<char>,
    tok: Seq<char>,
    name: Seq<char>,
    rest: Seq<char>,
    suffix: Seq<char>,
)
    requires
        !a.contains('<'),
        !tok.contains('>'),
        !name.contains('>'),
    ensures
        ({
            let v4 = "(?:[0-9]{1,3}\\.){3}[0-9]{1,3}"@;
            let v6 = "[0-9A-Fa-f]{0,4}(?::[0-9A-Fa-f]{0,4}){2,7}(?:(?:\\.[0-9]{1,3}){3})?"@;
            let lt = seq!['<'];
            let gt = seq!['>'];
            let open = a + "(?P<host"@ + suffix + ">"@;
            let more = expanded(rest, suffix);
            &&& tok == "HOST"@ || tok == "ADDR"@ || tok == "IP"@ ==> expanded(
                a + lt + tok + gt + rest,
                suffix,
            ) == open + v4 + "|"@ + v6 + ")"@ + more
            &&& tok == "IP4"@ ==> expanded(a + lt + tok + gt + rest, suffix) == open + v4 + ")"@
                + more
            &&& tok == "IP6"@ ==> expanded(a + lt + tok + gt + rest, suffix) == open + v6 + ")"@
                + more
            &&& expanded(a + lt + ("F-"@ + name) + gt + rest, suffix) == a + "(?P<"@ + lower(name)
                + suffix + ">"@ + more
            &&& expanded(a + lt + ("/F-"@ + name) + gt + rest, suffix) == a + ")"@ + more
            &&& tok != "HOST"@ && tok != "ADDR"@ && tok != "IP"@ && tok != "IP4"@ && tok != "IP6"@
                && !text::begins(tok, "F-"@) && !text::begins(tok, "/F-"@) ==> expanded(
                a + lt + tok + gt + rest,
                suffix,
            ) == a + lt + expanded(tok + gt + rest, suffix)
            &&& expanded(a + lt + tok, suffix) == a + lt + tok
            &&& expanded(a, suffix) == a
        }),
{
    reveal_strlit("HOST");
    reveal_strlit("ADDR");
    reveal_strlit("IP");
    reveal_strlit("IP4");
    reveal_strlit("IP6");
    reveal_strlit("F-");
    reveal_strlit("/F-");
    let lt = seq!['<'];
    let gt = seq!['>'];
    let more = expanded(rest, suffix);
    lemma_token_at(a, tok, rest, suffix);
    assert("HOST"@.len() == 4 && "HOST"@[0] == 'H' && "ADDR"@.len() == 4 && "ADDR"@[0] == 'A'
        && "IP"@.len() == 2 && "IP"@[0] == 'I' && "IP4"@.len() == 3 && "IP4"@[0] == 'I' && "IP4"@[2]
        == '4' && "IP6"@.len() == 3 && "IP6"@[0] == 'I' && "IP6"@[2] == '6' && "F-"@.len() == 2
        && "F-"@[0] == 'F' && "F-"@[1] == '-' && "/F-"@.len() == 3 && "/F-"@[0] == '/' && "/F-"@[1]
        == 'F' && "/F-"@[2] == '-');
    match token(tok, suffix) {
        Some(t) => {
            assert(a + t + more =~= a + (t + more));
        },
        None => {},
    }
    let v4 = RE_IP4@;
    let v6 = RE_IP6@;
    let open = a + "(?P<host"@ + suffix + ">"@;
    if tok == "HOST"@ || tok == "ADDR"@ || tok == "IP"@ {
        assert(a + ("(?P<host"@ + suffix + ">"@ + v4 + "|"@ + v6 + ")"@) + more =~= open + v4 + "|"@
            + v6 + ")"@ + more);
    }
    if tok == "IP4"@ {
        assert(a + ("(?P<host"@ + suffix + ">"@ + v4 + ")"@) + more =~= open + v4 + ")"@ + more);
    }
    if tok == "IP6"@ {
        assert(a + ("(?P<host"@ + suffix + ">"@ + v6 + ")"@) + more =~= open + v6 + ")"@ + more);
    }
    let f = "F-"@ + name;
    lemma_no_close("F-"@, name);
    lemma_token_at(a, f, rest, suffix);
    assert(f[0] == 'F' && f[1] == '-');
    assert(f.take(2) =~= "F-"@);
    assert(f.skip(2) =~= name);
    assert(token(f, suffix) == Some("(?P<"@ + lower(name) + suffix + ">"@));
    assert(a + ("(?P<"@ + lower(name) + suffix + ">"@) + more =~= a + "(?P<"@ + lower(name) + suffix
        + ">"@ + more);
    let g = "/F-"@ + name;
    lemma_no_close("/F-"@, name);
    lemma_token_at(a, g, rest, suffix);
    assert(g[0] == '/');
    assert(g.take(3) =~= "/F-"@);
    assert(g.take(2)[0] == '/');
    assert(!text::begins(g, "F-"@));
    assert(token(g, suffix) == Some(")"@));
    let s = lt + tok;
    assert(a + lt + tok =~= a + s);
    lemma_expanded_behind(a, s, suffix);
    lemma_first_index(s, '>');
    if first_index(s, '>') is Some {
        let k = first_index(s, '>')->0;
        assert(tok[k - 1] == '>');
    }
    let e = Seq::<char>::empty();
    lemma_expanded_behind(a, e, suffix);
    assert(a + e =~= a);
}

proof fn lemma_no_close(p: Seq<char>, name: Seq<char>)
    requires
        !p.contains('>'),
        !name.contains('>'),
    ensures
        !(p + name).contains('>'),
{
    let all = p + name;
    if all.contains('>') {
        let i = choose|i: int| 0 <= i < all.len() && all[i] == '>';
        if i < p.len() {
            assert(p[i] == '>');
        } else {
            assert(name[i - p.len()] == '>');
        }
    }
}

/// The combined pattern: every pattern in a group of its own, with a bar between each
/// two, in order; capture names carry the place of their pattern.
pub proof fn law_combined_pattern(ps: Seq<Seq<char>>, p: Seq<char>, i: int)
    requires
        0 <= i < ps.len(),
    ensures
        alternation(seq![p]) == "(?:"@ + p + ")"@,
        alternation(ps.push(p)) == alternation(ps) + "|(?:"@ + p + ")"@,
        numbered(ps).len() == ps.len() && plain(ps).len() == ps.len(),
        numbered(ps)[i] == expanded(classes(ps[i]), decimal(i as nat)),
        plain(ps)[i] == expanded(classes(ps[i]), Seq::empty()),
{
    reveal_strlit("|(?:");
    reveal_strlit("|");
    reveal_strlit("(?:");
    reveal_strlit("");
    assert("|(?:"@ =~= "|"@ + "(?:"@);
    assert(ps.push(p).drop_last() =~= ps);
    assert(alternation(ps.push(p)) =~= alternation(ps) + "|(?:"@ + p + ")"@);
    assert(""@ =~= Seq::<char>::empty());
}

/// The host of a pattern is its first group of that name, and its user the first of that
/// name, where there is one.
pub proof fn law_groups_by_name(names: Seq<Option<Seq<char>>>)
    ensures
        match located(names) {
            None => !names.contains(Some("host"@)),
            Some((h, u)) => {
                &&& 0 <= h < names.len() && names[h] == Some("host"@)
                &&& forall|j: int| 0 <= j < h ==> names[j] != Some("host"@)
                &&& match u {
                    None => !names.contains(Some("user"@)),
                    Some(k) => 0 <= k < names.len() && names[k] == Some("user"@) && forall|j: int|
                        0 <= j < k ==> names[j] != Some("user"@),
                }
            },
        },
{
    lemma_position(names, "host"@);
    lemma_position(names, "user"@);
    lemma_position_first(names, "host"@);
    lemma_position_first(names, "user"@);
}

proof fn lemma_position_first(names: Seq<Option<Seq<char>>>, name: Seq<char>)
    ensures
        position(names, name) matches Some(i) ==> forall|j: int|
            0 <= j < i ==> names[j] != Some(name),
    decreases names.len(),
{
    if names.len() > 0 && names[0] != Some(name) {
        let rest = names.skip(1);
        lemma_position_first(rest, name);
        lemma_position(names, name);
        if let Some(i) = position(names, name) {
            assert forall|j: int| 0 <= j < i implies names[j] != Some(name) by {
                if j > 0 {
                    assert(rest[j - 1] == names[j]);
                }
            }
        }
    }
}

/// A match yields an address exactly if its host group took part and holds one; the
/// user is what the user group holds, if it took part.
pub proof fn law_what_a_match_yields(
    c: Seq<Option<Seq<char>>>,
    h: int,
    u: Option<int>,
    t: Seq<char>,
)
    requires
        0 <= h < c.len(),
    ensures
        yielded(None, (h, u)) is None,
        c[h] is None ==> yielded(Some(c), (h, u)) is None,
        c[h] == Some(t) ==> match ip::log_ip(t) {
            None => yielded(Some(c), (h, u)) is None,
            Some(a) => yielded(Some(c), (h, u)) == Some(
                (
                    a,
                    match u {
                        Some(k) if 0 <= k < c.len() => c[k],
                        _ => None,
                    },
                ),
            ),
        },
{
}

/// A line is looked at closely exactly if it passes the literal pre-check, where that is
/// asked for and there are literals; the combined pattern hits; and the ignore list, if
/// there is one, does not.
pub proof fn law_candidates(def: DefView, line: Seq<char>, use_prefilter: bool)
    ensures
        is_candidate(def, line, use_prefilter) == ((!use_prefilter || def.prefilter.len() == 0
            || exists|i: int|
            0 <= i < def.prefilter.len() && text::occurs(#[trigger] def.prefilter[i], line))
            && foreign::regex_finds(alternation(numbered(def.patterns)), line) && (def.ignore.len()
            == 0 || !foreign::regex_finds(alternation(plain(def.ignore)), line))),
        !is_candidate(def, line, use_prefilter) ==> line_match(def, line, use_prefilter) is None,
{
}

/// A definition is accepted exactly if it has patterns, each of them compiles by itself
/// and captures a host, they compile together within 4 MiB and an automaton of 256 KiB,
/// and its ignore list and literals, where there are any, can be compiled.
pub proof fn law_accepted_definitions(def: DefView)
    ensures
        (refusal(def) is None) == (def.patterns.len() > 0 && (forall|i: int|
            0 <= i < def.patterns.len() ==> {
                let source = expanded(classes(#[trigger] def.patterns[i]), ""@);
                foreign::regex_fault(source) is None && foreign::regex_group_names(
                    source,
                ).contains(Some("host"@))
            }) && foreign::limited_regex_fault(
            alternation(numbered(def.patterns)),
            4_194_304,
            262_144,
        ) is None && (def.ignore.len() == 0 || foreign::regex_fault(
            alternation(plain(def.ignore)),
        ) is None) && (def.prefilter.len() == 0 || foreign::aho_fault(def.prefilter) is None)),
{
    lemma_first_refusal(def.patterns);
}

/// Patterns are refused for the first bad one.
proof fn lemma_first_refusal(patterns: Seq<Seq<char>>)
    ensures
        (first_refusal(patterns) is None) == (forall|i: int|
            0 <= i < patterns.len() ==> {
                let source = expanded(classes(#[trigger] patterns[i]), ""@);
                foreign::regex_fault(source) is None && foreign::regex_group_names(
                    source,
                ).contains(Some("host"@))
            }),
    decreases patterns.len(),
{
    if patterns.len() > 0 {
        let u = patterns.drop_last();
        lemma_first_refusal(u);
        assert(patterns[patterns.len() - 1] == patterns.last());
        assert forall|i: int| 0 <= i < u.len() implies #[trigger] u[i] == patterns[i] by {}
        if first_refusal(patterns) is None {
            assert forall|i: int| 0 <= i < patterns.len() implies ({
                let source = expanded(classes(#[trigger] patterns[i]), ""@);
                foreign::regex_fault(source) is None && foreign::regex_group_names(
                    source,
                ).contains(Some("host"@))
            }) by {
                if i < u.len() {
                    assert(u[i] == patterns[i]);
                }
            }
        } else if forall|i: int|
            0 <= i < patterns.len() ==> {
                let source = expanded(classes(#[trigger] patterns[i]), ""@);
                foreign::regex_fault(source) is None && foreign::regex_group_names(
                    source,
                ).contains(Some("host"@))
            } {
            assert forall|i: int| 0 <= i < u.len() implies ({
                let source = expanded(classes(#[trigger] u[i]), ""@);
                foreign::regex_fault(source) is None && foreign::regex_group_names(
                    source,
                ).contains(Some("host"@))
            }) by {
                assert(u[i] == patterns[i]);
            }
        }
    }
}

/// The first bad pattern is the one that is named, with what is wrong with it.
pub proof fn law_the_culprit_is_named(good: Seq<Seq<char>>, p: Seq<char>, more: Seq<Seq<char>>)
    requires
        first_refusal(good) is None,
    ensures
        ({
            let source = expanded(classes(p), ""@);
            let all = good.push(p) + more;
            &&& foreign::regex_fault(source) matches Some(error) ==> first_refusal(all) == Some(
                Refusal::BadPattern { pattern: p, error },
            )
            &&& foreign::regex_fault(source) is None && !foreign::regex_group_names(
                source,
            ).contains(Some("host"@)) ==> first_refusal(all) == Some(Refusal::NoHost { pattern: p })
        }),
{
    let all = good.push(p) + more;
    let n = (good.len() + 1) as int;
    assert(all.take(n) =~= good.push(p));
    assert(good.push(p).drop_last() =~= good);
    if first_refusal(good.push(p)) is Some {
        lemma_refusal_stays(all, n);
    }
}

/// A definition, a match and a refusal tell all of their fields as values.
pub proof fn law_views_tell_all(d: FilterDef, m: Match)
    ensures
        d@.name == d.name@ && d@.description == d.description@ && d@.files == texts(d.files@)
            && d@.units == texts(d.journal.units@) && d@.identifiers == texts(
            d.journal.identifiers@,
        ) && d@.comm == texts(d.journal.comm@) && d@.prefilter == texts(d.prefilter@)
            && d@.patterns == texts(d.patterns@) && d@.ignore == texts(d.ignore@) && d@.ports
            == d.ports@,
        m@.pattern == m.pattern && m@.ip == m.ip,
        m@.user == (match m.user {
            Some(u) => Some(u@),
            None => None,
        }),
{
}

/// How refusals read.
pub proof fn law_refusals_read(a: Seq<char>, b: Seq<char>)
    ensures
        (Refusal::NoPatterns { name: a }).text() == "filter `"@ + a + "` has no patterns"@,
        (Refusal::BadPattern { pattern: a, error: b }).text() == "pattern `"@ + a + "`: "@ + b,
        (Refusal::NoHost { pattern: a }).text() == "pattern `"@ + a + "` has no <HOST> capture"@,
        (Refusal::Combined { name: a, error: b }).text() == "filter `"@ + a + "`: "@ + b,
        (Refusal::Ignore { name: a, error: b }).text() == "filter `"@ + a + "` ignore: "@ + b,
        (Refusal::Prefilter { error: b }).text() == b,
{
}

/// What stands for what: a match, capture groups and group numbers as values; the
/// expressions of a selector; a pattern by itself.
pub proof fn law_models_tell_all(
    m: Option<Match>,
    c: Seq<Option<Vec<Option<String>>>>,
    g: Seq<(usize, Option<usize>)>,
    i: int,
    j: JournalSelector,
    p: Seq<char>,
)
    requires
        0 <= i < c.len(),
        i < g.len(),
    ensures
        found(m) == (match m {
            Some(x) => Some(x@),
            None => None,
        }),
        captures_texts(c).len() == c.len(),
        captures_texts(c)[i] == (match c[i] {
            Some(v) => Some(opt_texts(v@)),
            None => None,
        }),
        group_numbers(g).len() == g.len(),
        group_numbers(g)[i].0 == g[i].0,
        group_numbers(g)[i].1 == (match g[i].1 {
            Some(u) => Some(u as int),
            None => None,
        }),
        source_of(p) == expanded(classes(p), Seq::empty()),
        names_of(p) == foreign::regex_group_names(expanded(classes(p), Seq::empty())),
        j.expressions() == texts(j.units@).map_values(|s: Seq<char>| "_SYSTEMD_UNIT="@ + s)
            + texts(j.identifiers@).map_values(|s: Seq<char>| "SYSLOG_IDENTIFIER="@ + s) + texts(
            j.comm@,
        ).map_values(|s: Seq<char>| "_COMM="@ + s),
{
    reveal_strlit("");
    assert(""@ =~= Seq::<char>::empty());
    assert(j.expressions() =~= texts(j.units@).map_values(|s: Seq<char>| "_SYSTEMD_UNIT="@ + s)
        + texts(j.identifiers@).map_values(|s: Seq<char>| "SYSLOG_IDENTIFIER="@ + s) + texts(
        j.comm@,
    ).map_values(|s: Seq<char>| "_COMM="@ + s));
}

/// Selectors are the same exactly if all of their texts are.
pub proof fn law_same_selectors(a: JournalSelector, b: JournalSelector)
    ensures
        a.same_as(&b) == (texts(a.units@) == texts(b.units@) && texts(a.identifiers@) == texts(
            b.identifiers@,
        ) && texts(a.comm@) == texts(b.comm@)),
{
}

} // verus!
