//! File follower with rotation handling: when to read, and how bytes become lines.
//!
//! Never buffers more than one partial line per file.

use vstd::prelude::*;
use vstd::slice::slice_subrange;

use super::{Line, Origin};
use crate::foreign;
use crate::foreign::first_byte;
use crate::proto::pow::push_bytes;
use crate::text;

verus! {

/// The longest partial line that is kept.
pub const MAX_LINE: usize = 16384;

/// What is known of the file that stood at a path when following began.
#[derive(Debug, Clone, Copy, PartialEq, Eq, Structural)]
pub enum First {
    /// The path has not been looked at yet.
    Unseen,
    /// It was there, under this inode, and could not be opened so far.
    Seen { ino: u64 },
    /// It was opened, or was not there: what is found from now on came later.
    Past,
}

/// What is kept of one followed file.
#[derive(Debug, Clone)]
pub struct FileState {
    /// The configured pattern this file belongs to (used as routing key).
    pub pattern: String,
    /// Whether the file is open, under which inode, and how far it has been read.
    pub open: bool,
    pub ino: u64,
    pub pos: u64,
    pub partial: Vec<u8>,
    pub first: First,
}

/// What a look at the path shows.
#[derive(Debug, Clone, Copy, PartialEq, Eq, Structural)]
pub enum Probe {
    Gone,
    There { ino: u64, size: u64 },
}

/// What to do about a file after a look at its path.
#[derive(Debug, Clone, Copy, PartialEq, Eq, Structural)]
pub enum Poll {
    /// The file is gone: read what is left of it where it is open, then let go of it.
    Drop { drain: bool },
    /// Read on.
    Read,
    /// The file was replaced or cut: read what is left of the old one, then open the
    /// new one and read it from its start.
    Reopen,
    /// Open the file and read it, from its end (`true`) or from its start.
    Open { at_end: bool },
}

/// Whether a file with the inode is the one that was there when following began.
pub open spec fn is_first(first: First, ino: u64) -> bool {
    match first {
        First::Unseen => true,
        First::Seen { ino: i } => i == ino,
        First::Past => false,
    }
}

/// What to do about a file. Only a file that was there when following began is entered
/// at its end.
pub open spec fn next_poll(
    open: bool,
    ino: u64,
    pos: u64,
    first: First,
    probe: Probe,
    seek_end: bool,
) -> Poll {
    match probe {
        Probe::Gone => Poll::Drop { drain: open },
        Probe::There { ino: i, size } => if !open {
            Poll::Open { at_end: seek_end && is_first(first, i) }
        } else if i != ino || size < pos {
            Poll::Reopen
        } else {
            Poll::Read
        },
    }
}

/// The byte that ends a line.
pub const NEWLINE: u8 = 10;

/// The complete lines of some bytes.
pub open spec fn whole_lines(b: Seq<u8>) -> Seq<Seq<u8>>
    decreases b.len(),
{
    proof {
        lemma_first_byte(b, NEWLINE);
    }
    match first_byte(b, NEWLINE) {
        None => Seq::empty(),
        Some(i) => seq![b.take(i)] + whole_lines(b.skip(i + 1)),
    }
}

/// What stands behind the last complete line.
pub open spec fn remainder(b: Seq<u8>) -> Seq<u8>
    decreases b.len(),
{
    proof {
        lemma_first_byte(b, NEWLINE);
    }
    match first_byte(b, NEWLINE) {
        None => b,
        Some(i) => remainder(b.skip(i + 1)),
    }
}

/// A first byte is the first.
pub proof fn lemma_first_byte(s: Seq<u8>, b: u8)
    ensures
        match first_byte(s, b) {
            Some(i) => 0 <= i < s.len() && s[i] == b && forall|j: int| 0 <= j < i ==> s[j] != b,
            None => forall|j: int| 0 <= j < s.len() ==> s[j] != b,
        },
    decreases s.len(),
{
    if s.len() > 0 && s[0] != b {
        let t = s.skip(1);
        lemma_first_byte(t, b);
        match first_byte(t, b) {
            Some(i) => {
                assert forall|j: int| 0 <= j < i + 1 implies s[j] != b by {
                    if j > 0 {
                        assert(t[j - 1] == s[j]);
                    }
                }
            },
            None => {
                assert forall|j: int| 0 <= j < s.len() implies s[j] != b by {
                    if j > 0 {
                        assert(t[j - 1] == s[j]);
                    }
                }
            },
        }
    }
}

/// Where a byte first stands behind a part without it.
pub proof fn lemma_first_byte_behind(a: Seq<u8>, s: Seq<u8>, b: u8)
    requires
        first_byte(a, b) is None,
    ensures
        first_byte(a + s, b) == (match first_byte(s, b) {
            Some(i) => Some(i + a.len()),
            None => None,
        }),
    decreases a.len(),
{
    if a.len() == 0 {
        assert(a + s =~= s);
    } else {
        assert((a + s).skip(1) =~= a.skip(1) + s);
        lemma_first_byte_behind(a.skip(1), s, b);
    }
}

/// Where a byte first stands does not depend on what follows.
pub proof fn lemma_first_byte_before(s: Seq<u8>, t: Seq<u8>, b: u8)
    requires
        first_byte(s, b) is Some,
    ensures
        first_byte(s + t, b) == first_byte(s, b),
    decreases s.len(),
{
    if s.len() > 0 && s[0] != b {
        assert((s + t).skip(1) =~= s.skip(1) + t);
        lemma_first_byte_before(s.skip(1), t, b);
    }
}

/// What is left of a line that is not complete: nothing once it is too long.
pub open spec fn limited(b: Seq<u8>) -> Seq<u8> {
    if b.len() > MAX_LINE {
        Seq::empty()
    } else {
        b
    }
}

/// The partial line after one more chunk, when `partial` was kept before it.
pub open spec fn next_partial(partial: Seq<u8>, chunk: Seq<u8>) -> Seq<u8> {
    let rest = remainder(chunk);
    if first_byte(chunk, NEWLINE) is None {
        if rest.len() == 0 {
            partial
        } else {
            limited(partial + rest)
        }
    } else {
        limited(rest)
    }
}

/// The lines that one more chunk completes; the first of them starts with the partial
/// line kept before it.
pub open spec fn next_lines(partial: Seq<u8>, chunk: Seq<u8>) -> Seq<Seq<u8>> {
    match first_byte(chunk, NEWLINE) {
        None => Seq::empty(),
        Some(i) => seq![partial + chunk.take(i)] + whole_lines(chunk.skip(i + 1)),
    }
}

/// The texts of lines.
pub open spec fn line_texts(v: Seq<Line>) -> Seq<Seq<char>> {
    v.map_values(|l: Line| l.text@)
}

/// Lines as texts.
pub open spec fn shown(lines: Seq<Seq<u8>>) -> Seq<Seq<char>> {
    lines.map_values(|b: Seq<u8>| foreign::lossy(b))
}

/// Whether a line comes from the file pattern.
pub open spec fn is_from(l: Line, pattern: Seq<char>) -> bool {
    l.origin matches Origin::File(p) && p@ == pattern
}

/// All lines come from the file pattern.
pub open spec fn all_from(v: Seq<Line>, pattern: Seq<char>) -> bool {
    forall|i: int| 0 <= i < v.len() ==> is_from(#[trigger] v[i], pattern)
}

impl FileState {
    /// What to do about the file after a look at its path.
    pub open spec fn next(&self, probe: Probe, seek_end: bool) -> Poll {
        next_poll(self.open, self.ino, self.pos, self.first, probe, seek_end)
    }

    /// Whatever is found at the path is read from its start when it is opened.
    pub open spec fn opens_at_start(&self) -> bool {
        forall|probe: Probe, seek_end: bool| #[trigger]
            self.next(probe, seek_end) != (Poll::Open { at_end: true })
    }

    /// A path that is followed from the beginning.
    pub fn new(pattern: String) -> (r: Self)
        ensures
            r.pattern@ == pattern@,
            !r.open,
            r.ino == 0,
            r.pos == 0,
            r.partial@.len() == 0,
            r.first is Unseen,
    {
        FileState {
            pattern,
            open: false,
            ino: 0,
            pos: 0,
            partial: Vec::new(),
            first: First::Unseen,
        }
    }

    /// A file that appeared after following began: none of it is old.
    pub fn appeared(pattern: String) -> (r: Self)
        ensures
            r.pattern@ == pattern@,
            !r.open,
            r.ino == 0,
            r.pos == 0,
            r.partial@.len() == 0,
            r.first is Past,
            r.opens_at_start(),
    {
        FileState {
            pattern,
            open: false,
            ino: 0,
            pos: 0,
            partial: Vec::new(),
            first: First::Past,
        }
    }

    /// What to do about the file after a look at its path; `seek_end` is whether files
    /// that are there when following begins are read from their end.
    pub fn poll(&self, probe: Probe, seek_end: bool) -> (r: Poll)
        ensures
            r == self.next(probe, seek_end),
    {
        match probe {
            Probe::Gone => Poll::Drop { drain: self.open },
            Probe::There { ino, size } => if !self.open {
                let first: bool = match self.first {
                    First::Unseen => true,
                    First::Seen { ino: i } => i == ino,
                    First::Past => false,
                };
                Poll::Open { at_end: seek_end && first }
            } else if ino != self.ino || size < self.pos {
                Poll::Reopen
            } else {
                Poll::Read
            },
        }
    }

    /// The file is gone.
    pub fn gone(&mut self)
        ensures
            final(self).pattern == old(self).pattern,
            !final(self).open,
            final(self).ino == old(self).ino,
            final(self).pos == 0,
            final(self).partial@.len() == 0,
            final(self).first is Past,
            final(self).opens_at_start(),
    {
        self.open = false;
        self.pos = 0;
        self.partial = Vec::new();
        self.first = First::Past;
    }

    /// The old file was let go of, and a new one takes its place.
    pub fn rotated(&mut self)
        ensures
            final(self).pattern == old(self).pattern,
            !final(self).open,
            final(self).ino == old(self).ino,
            final(self).pos == old(self).pos,
            final(self).partial@.len() == 0,
            final(self).first is Past,
            final(self).opens_at_start(),
    {
        self.open = false;
        self.partial = Vec::new();
        self.first = First::Past;
    }

    /// The file was opened at `pos`.
    pub fn opened(&mut self, ino: u64, pos: u64)
        ensures
            final(self).pattern == old(self).pattern,
            final(self).open,
            final(self).ino == ino,
            final(self).pos == pos,
            final(self).partial == old(self).partial,
            final(self).first is Past,
    {
        self.open = true;
        self.ino = ino;
        self.pos = pos;
        self.first = First::Past;
    }

    /// The file that is there, with the inode, could not be opened.
    pub fn not_opened(&mut self, ino: u64)
        ensures
            final(self).pattern == old(self).pattern,
            final(self).open == old(self).open,
            final(self).ino == old(self).ino,
            final(self).pos == old(self).pos,
            final(self).partial == old(self).partial,
            final(self).first == (if is_first(old(self).first, ino) {
                First::Seen { ino }
            } else {
                First::Past
            }),
    {
        match self.first {
            First::Unseen => {
                self.first = First::Seen { ino };
            },
            First::Seen { ino: i } => if i != ino {
                self.first = First::Past;
            },
            First::Past => {},
        }
    }

    /// Takes in the next bytes of the file, and appends the lines that they complete.
    pub fn read_chunk(&mut self, chunk: &[u8], out: &mut Vec<Line>)
        ensures
            final(self).pattern == old(self).pattern,
            final(self).open == old(self).open,
            final(self).ino == old(self).ino,
            final(self).pos == (if old(self).pos + chunk@.len() > u64::MAX {
                u64::MAX
            } else {
                (old(self).pos + chunk@.len()) as u64
            }),
            final(self).partial@ == next_partial(old(self).partial@, chunk@),
            final(self).first == old(self).first,
            final(out)@.len() >= old(out)@.len(),
            final(out)@.take(old(out)@.len() as int) == old(out)@,
            line_texts(final(out)@.skip(old(out)@.len() as int)) == shown(
                next_lines(old(self).partial@, chunk@),
            ),
            all_from(final(out)@.skip(old(out)@.len() as int), old(self).pattern@),
    {
        self.pos = self.pos.saturating_add(chunk.len() as u64);
        let ghost first = self.partial@;
        let ghost was = *self;
        let ghost before = out@;
        let ghost want = next_lines(first, chunk@);
        let ghost n0 = out@.len() as int;
        let mut from: usize = 0;
        let ghost mut done: Seq<Seq<u8>> = Seq::empty();
        assert(chunk@.skip(0) =~= chunk@);
        assert(done + next_lines(first, chunk@) =~= want);
        assert(out@.skip(n0) =~= Seq::empty());
        assert(line_texts(out@.skip(n0)) =~= shown(done));
        loop
            invariant
                from <= chunk@.len(),
                self.pattern == was.pattern,
                self.open == was.open,
                self.ino == was.ino,
                self.first == was.first,
                self.pos == was.pos,
                first == was.partial@,
                n0 == before.len(),
                out@.len() >= n0,
                out@.take(n0) == before,
                want == next_lines(first, chunk@),
                want == done + next_lines(self.partial@, chunk@.skip(from as int)),
                line_texts(out@.skip(n0)) == shown(done),
                all_from(out@.skip(n0), self.pattern@),
                from == 0 ==> self.partial@ == first && done.len() == 0,
                from > 0 ==> self.partial@.len() == 0,
                from > 0 ==> first_byte(chunk@, NEWLINE) is Some,
                from > 0 ==> remainder(chunk@) == remainder(chunk@.skip(from as int)),
            ensures
                from <= chunk@.len(),
                self.pattern == was.pattern,
                self.open == was.open,
                self.ino == was.ino,
                self.first == was.first,
                self.pos == was.pos,
                out@.len() >= n0,
                out@.take(n0) == before,
                line_texts(out@.skip(n0)) == shown(want),
                all_from(out@.skip(n0), self.pattern@),
                first_byte(chunk@.skip(from as int), NEWLINE) is None,
                from == 0 ==> self.partial@ == first,
                from > 0 ==> self.partial@.len() == 0,
                from > 0 ==> first_byte(chunk@, NEWLINE) is Some,
                from > 0 ==> remainder(chunk@) == remainder(chunk@.skip(from as int)),
            decreases chunk@.len() - from,
        {
            let rest = slice_subrange(chunk, from, chunk.len());
            let ghost tail = chunk@.skip(from as int);
            assert(rest@ =~= tail);
            match foreign::find_byte(NEWLINE, rest) {
                None => {
                    assert(done + Seq::empty() =~= done);
                    break ;
                },
                Some(nl) => {
                    proof {
                        lemma_first_byte(tail, NEWLINE);
                    }
                    let mut bytes: Vec<u8> = Vec::new();
                    push_bytes(&mut bytes, &self.partial);
                    let line = slice_subrange(chunk, from, from + nl);
                    push_bytes(&mut bytes, line);
                    assert(line@ =~= tail.take(nl as int));
                    assert(bytes@ =~= self.partial@ + tail.take(nl as int));
                    let ghost lines_before = out@.skip(n0);
                    let ghost out_before = out@;
                    let text = foreign::lossy_text(&bytes);
                    let line = Line { origin: Origin::File(self.pattern.clone()), text };
                    out.push(line);
                    proof {
                        assert(out@.take(n0) =~= before);
                        assert(out@.skip(n0) =~= lines_before.push(line));
                        let next = done.push(bytes@);
                        assert(shown(next) =~= shown(done).push(foreign::lossy(bytes@)));
                        assert(line_texts(lines_before.push(line)) =~= line_texts(lines_before).push(
                            line.text@,
                        ));
                        assert(all_from(out@.skip(n0), self.pattern@)) by {
                            assert forall|i: int| 0 <= i < out@.skip(n0).len() implies is_from(
                                #[trigger] out@.skip(n0)[i],
                                self.pattern@,
                            ) by {
                                if i < lines_before.len() {
                                    assert(out@.skip(n0)[i] == lines_before[i]);
                                }
                            }
                        }
                        let behind = chunk@.skip(from + nl + 1);
                        assert(tail.skip(nl + 1) =~= behind);
                        lemma_next_lines_empty(behind);
                        assert(next + next_lines(Seq::empty(), behind) =~= done + next_lines(
                            self.partial@,
                            tail,
                        ));
                        if from == 0 {
                            assert(tail =~= chunk@);
                        }
                        assert(remainder(tail) == remainder(behind));
                        done = next;
                    }
                    self.partial = Vec::new();
                    assert(self.partial@ =~= Seq::empty());
                    from = from + nl + 1;
                },
            }
        }
        let ghost tail = chunk@.skip(from as int);
        if from < chunk.len() {
            let rest = slice_subrange(chunk, from, chunk.len());
            assert(rest@ =~= tail);
            if from == 0 {
                assert(tail =~= chunk@);
            }
            assert(remainder(chunk@) == tail);
            assert(self.partial@ + tail =~= tail || from == 0);
            if self.partial.len() > MAX_LINE || rest.len() > MAX_LINE - self.partial.len() {
                self.partial = Vec::new();
                assert(self.partial@ =~= Seq::empty());
            } else {
                push_bytes(&mut self.partial, &rest);
            }
        } else {
            assert(tail.len() == 0);
            if from == 0 {
                assert(tail =~= chunk@);
            } else {
                assert(remainder(chunk@) == tail);
                assert(self.partial@ =~= limited(tail));
            }
        }
    }
}

/// Without a partial line, a chunk completes its own lines.
proof fn lemma_next_lines_empty(chunk: Seq<u8>)
    ensures
        next_lines(Seq::empty(), chunk) == whole_lines(chunk),
{
    match first_byte(chunk, NEWLINE) {
        Some(i) => {
            assert(Seq::<u8>::empty() + chunk.take(i) =~= chunk.take(i));
        },
        None => {},
    }
}

/// Whether a path pattern has to be expanded.
pub open spec fn is_pattern(s: Seq<char>) -> bool {
    s.contains('*') || s.contains('?') || s.contains('[')
}

/// `is_pattern`.
pub fn is_glob(pattern: &str) -> (r: bool)
    ensures
        r == is_pattern(pattern@),
{
    let v = text::chars(pattern);
    let mut i: usize = 0;
    while i < v.len()
        invariant
            i <= v@.len(),
            v@ == pattern@,
            forall|j: int| 0 <= j < i ==> v@[j] != '*' && v@[j] != '?' && v@[j] != '[',
        decreases v@.len() - i,
    {
        if v[i] == '*' || v[i] == '?' || v[i] == '[' {
            assert(pattern@.contains(v@[i as int]));
            return true;
        }
        i += 1;
    }
    false
}

/// What is kept after a chunk has no line end in it.
proof fn lemma_remainder(b: Seq<u8>)
    ensures
        first_byte(remainder(b), NEWLINE) is None,
        remainder(b).len() <= b.len(),
    decreases b.len(),
{
    lemma_first_byte(b, NEWLINE);
    if let Some(i) = first_byte(b, NEWLINE) {
        lemma_remainder(b.skip(i + 1));
    }
}

/// The lines of two parts are the lines of the first, and those of the second with the
/// remainder of the first before it.
proof fn lemma_whole_lines_split(a: Seq<u8>, b: Seq<u8>)
    ensures
        whole_lines(a + b) == whole_lines(a) + whole_lines(remainder(a) + b),
        remainder(a + b) == remainder(remainder(a) + b),
    decreases a.len(),
{
    lemma_first_byte(a, NEWLINE);
    match first_byte(a, NEWLINE) {
        None => {
            assert(whole_lines(a) + whole_lines(a + b) =~= whole_lines(a + b));
        },
        Some(i) => {
            lemma_first_byte_before(a, b, NEWLINE);
            assert((a + b).take(i) =~= a.take(i));
            assert((a + b).skip(i + 1) =~= a.skip(i + 1) + b);
            lemma_whole_lines_split(a.skip(i + 1), b);
            assert(whole_lines(a + b) =~= whole_lines(a) + whole_lines(remainder(a) + b));
        },
    }
}

/// What a chunk completes is what the partial line and the chunk complete together.
proof fn lemma_chunk_is_join(partial: Seq<u8>, chunk: Seq<u8>)
    requires
        first_byte(partial, NEWLINE) is None,
    ensures
        next_lines(partial, chunk) == whole_lines(partial + chunk),
        remainder(partial + chunk).len() <= MAX_LINE ==> next_partial(partial, chunk) == remainder(
            partial + chunk,
        ),
{
    lemma_first_byte_behind(partial, chunk, NEWLINE);
    lemma_first_byte(chunk, NEWLINE);
    match first_byte(chunk, NEWLINE) {
        None => {
            assert(remainder(partial + chunk) == partial + chunk);
            if chunk.len() == 0 {
                assert(partial + chunk =~= partial);
            }
        },
        Some(i) => {
            let n = partial.len();
            assert((partial + chunk).take(i + n) =~= partial + chunk.take(i));
            assert((partial + chunk).skip(i + n + 1) =~= chunk.skip(i + 1));
        },
    }
}

/// How a file is cut into chunks does not matter as long as no line is too long: two
/// chunks, read one after the other, complete the lines that they complete as one, and
/// leave the same partial line.
pub proof fn law_chunks_do_not_matter(partial: Seq<u8>, a: Seq<u8>, b: Seq<u8>)
    requires
        first_byte(partial, NEWLINE) is None,
        remainder(partial + a).len() <= MAX_LINE,
        remainder(partial + a + b).len() <= MAX_LINE,
    ensures
        next_lines(partial, a) + next_lines(next_partial(partial, a), b) == next_lines(
            partial,
            a + b,
        ),
        next_partial(next_partial(partial, a), b) == next_partial(partial, a + b),
{
    lemma_chunk_is_join(partial, a);
    lemma_chunk_is_join(partial, a + b);
    let mid = remainder(partial + a);
    lemma_remainder(partial + a);
    lemma_chunk_is_join(mid, b);
    lemma_whole_lines_split(partial + a, b);
    assert(partial + (a + b) =~= partial + a + b);
}

/// A partial line is never longer than the bound, and never holds a line end.
pub proof fn law_partial_bounded(partial: Seq<u8>, chunk: Seq<u8>)
    requires
        first_byte(partial, NEWLINE) is None,
        partial.len() <= MAX_LINE,
    ensures
        next_partial(partial, chunk).len() <= MAX_LINE,
        first_byte(next_partial(partial, chunk), NEWLINE) is None,
{
    lemma_remainder(chunk);
    lemma_first_byte_behind(partial, remainder(chunk), NEWLINE);
}

/// A file that was replaced or cut is read again from its start, and one that merely
/// grew is read on.
pub proof fn law_rotation_detected(s: FileState, ino: u64, size: u64, seek_end: bool)
    requires
        s.open,
    ensures
        (ino == s.ino && size >= s.pos) == (s.next(Probe::There { ino, size }, seek_end)
            == Poll::Read),
        (ino != s.ino || size < s.pos) == (s.next(Probe::There { ino, size }, seek_end)
            == Poll::Reopen),
{
}

/// Nothing is read past but what was there when following began. A file is entered at
/// its end only where that is wanted, and only where it is the file that stood at the
/// path when following began. So after the path was found empty, after its file was
/// replaced, cut or opened, and for a path that was first seen later, whatever is
/// found is read from its start.
pub proof fn law_later_files_from_start(s: FileState, ino: u64, size: u64, seek_end: bool)
    requires
        !s.open,
    ensures
        s.next(Probe::There { ino, size }, seek_end) == (Poll::Open {
            at_end: seek_end && is_first(s.first, ino),
        }),
        s.first is Past ==> s.next(Probe::There { ino, size }, seek_end) == (Poll::Open {
            at_end: false,
        }),
        s.first is Past ==> s.opens_at_start(),
{
}

/// Bytes are their complete lines, each with its line end, and the remainder.
proof fn lemma_lines_and_remainder(b: Seq<u8>)
    ensures
        whole_lines(b).map_values(|l: Seq<u8>| l.push(10u8)).flatten() + remainder(b) == b,
        forall|i: int| 0 <= i < whole_lines(b).len() ==> !(#[trigger] whole_lines(b)[i]).contains(10u8),
        !remainder(b).contains(10u8),
    decreases b.len(),
{
    let f = |l: Seq<u8>| l.push(10u8);
    lemma_first_byte(b, NEWLINE);
    match first_byte(b, NEWLINE) {
        None => {
            assert(whole_lines(b).map_values(f) =~= Seq::empty());
            assert(Seq::<u8>::empty() + b =~= b);
        },
        Some(k) => {
            let rest = b.skip(k + 1);
            lemma_lines_and_remainder(rest);
            let all = whole_lines(b).map_values(f);
            let others = whole_lines(rest).map_values(f);
            assert(all.drop_first() =~= others);
            assert(all.first() =~= b.take(k + 1));
            assert(all.flatten() == all.first() + others.flatten());
            assert(b =~= b.take(k + 1) + (others.flatten() + remainder(rest)));
            assert(all.flatten() + remainder(b) =~= b);
            assert forall|i: int| 0 <= i < whole_lines(b).len() implies !(
            #[trigger] whole_lines(b)[i]).contains(10u8) by {
                if i > 0 {
                    assert(whole_lines(b)[i] == whole_lines(rest)[i - 1]);
                }
            }
        },
    }
}

/// No byte is lost, made up or moved: what was kept of a line and the bytes that came
/// are together the lines that they complete, each with its line end, and what is kept
/// now (`rest`). Only a partial line of more than 16384 bytes is dropped.
pub proof fn law_no_byte_is_lost(partial: Seq<u8>, chunk: Seq<u8>) -> (rest: Seq<u8>)
    requires
        !partial.contains(10u8),
        chunk.len() > 0,
    ensures
        next_lines(partial, chunk).map_values(|l: Seq<u8>| l.push(10u8)).flatten() + rest
            == partial + chunk,
        !rest.contains(10u8),
        next_partial(partial, chunk) == (if rest.len() > 16384 {
            Seq::empty()
        } else {
            rest
        }),
        forall|i: int|
            0 <= i < next_lines(partial, chunk).len() ==> !(#[trigger] next_lines(
                partial,
                chunk,
            )[i]).contains(10u8),
        next_partial(partial, Seq::empty()) == partial,
        next_lines(partial, Seq::empty()).len() == 0,
{
    let f = |l: Seq<u8>| l.push(10u8);
    let lines = next_lines(partial, chunk);
    lemma_first_byte(chunk, NEWLINE);
    lemma_lines_and_remainder(chunk);
    match first_byte(chunk, NEWLINE) {
        None => {
            let rest = partial + chunk;
            assert(lines.map_values(f) =~= Seq::empty());
            assert(lines.map_values(f).flatten() + rest =~= partial + chunk);
            if rest.contains(10u8) {
                let j = choose|j: int| 0 <= j < rest.len() && rest[j] == 10;
                if j < partial.len() {
                    assert(partial[j] == 10);
                } else {
                    assert(chunk[j - partial.len()] == 10);
                }
            }
            rest
        },
        Some(k) => {
            let tail = chunk.skip(k + 1);
            let rest = remainder(chunk);
            lemma_lines_and_remainder(tail);
            let all = lines.map_values(f);
            let others = whole_lines(tail).map_values(f);
            assert(all.drop_first() =~= others);
            assert(all.first() =~= partial + chunk.take(k + 1));
            assert(all.flatten() == all.first() + others.flatten());
            assert(chunk =~= chunk.take(k + 1) + (others.flatten() + remainder(tail)));
            assert(all.flatten() + rest =~= partial + chunk);
            assert forall|i: int| 0 <= i < lines.len() implies !(#[trigger] lines[i]).contains(
                10u8,
            ) by {
                if i == 0 {
                    if lines[0].contains(10u8) {
                        let j = choose|j: int| 0 <= j < lines[0].len() && lines[0][j] == 10;
                        if j < partial.len() {
                            assert(partial[j] == 10);
                        } else {
                            assert(chunk[j - partial.len()] == 10);
                        }
                    }
                } else {
                    assert(lines[i] == whole_lines(tail)[i - 1]);
                }
            }
            rest
        },
    }
}

/// What to do about a file, in full: a path without a file is let go of, with what is
/// left of an open file read first; an open file that is still the same and not shorter
/// than what was read is read on, any other is opened anew; a file that is not open is
/// opened, at its end only where that is wanted and it is the one that was there when
/// following began.
pub proof fn law_poll_in_full(s: FileState, ino: u64, size: u64, seek_end: bool)
    ensures
        s.next(Probe::Gone, seek_end) == (Poll::Drop { drain: s.open }),
        s.next(Probe::There { ino, size }, seek_end) == (if s.open {
            if ino == s.ino && size >= s.pos {
                Poll::Read
            } else {
                Poll::Reopen
            }
        } else {
            Poll::Open {
                at_end: seek_end && match s.first {
                    First::Unseen => true,
                    First::Seen { ino: i } => i == ino,
                    First::Past => false,
                },
            }
        }),
{
}

/// Lines come from the pattern that they were read for, as the text of their bytes; a
/// pattern has to be expanded where it holds a star, a question mark or a bracket.
pub proof fn law_lines_as_texts(v: Seq<Line>, lines: Seq<Seq<u8>>, pattern: Seq<char>, i: int)
    requires
        line_texts(v) == shown(lines),
        all_from(v, pattern),
        0 <= i < lines.len(),
    ensures
        v.len() == lines.len(),
        v[i].text@ == foreign::lossy(lines[i]),
        v[i].origin matches Origin::File(p) && p@ == pattern,
        is_pattern(pattern) == exists|k: int|
            0 <= k < pattern.len() && (#[trigger] pattern[k] == '*' || pattern[k] == '?'
                || pattern[k] == '['),
{
    assert(line_texts(v).len() == v.len());
    assert(line_texts(v)[i] == shown(lines)[i]);
    if exists|k: int|
        0 <= k < pattern.len() && (#[trigger] pattern[k] == '*' || pattern[k] == '?' || pattern[k]
            == '[') {
        let k = choose|k: int|
            0 <= k < pattern.len() && (#[trigger] pattern[k] == '*' || pattern[k] == '?'
                || pattern[k] == '[');
        assert(pattern.contains(pattern[k]));
    }
}

} // verus!
