//! Lines, words and numbers in texts.

use vstd::prelude::*;

use crate::text;
use crate::text::{
    all_digits, find_char, first_index, leading_digits, lemma_first_index, lemma_leading_digits,
    lemma_leading_run, texts, value_of,
};

verus! {

/// A line without the carriage return at its end.
pub open spec fn without_return(s: Seq<char>) -> Seq<char> {
    if s.len() > 0 && s.last() == '\r' {
        s.drop_last()
    } else {
        s
    }
}

/// The lines of a text: what stands before each line feed, without a carriage return
/// before it, and what stands behind the last one, if anything.
pub open spec fn lines_of(s: Seq<char>) -> Seq<Seq<char>>
    decreases s.len(),
{
    proof {
        lemma_first_index(s, '\n');
    }
    if s.len() == 0 {
        Seq::empty()
    } else {
        match first_index(s, '\n') {
            None => seq![s],
            Some(i) => seq![without_return(s.take(i))] + lines_of(s.skip(i + 1)),
        }
    }
}

/// The lines of a text.
pub fn lines(s: &str) -> (r: Vec<String>)
    ensures
        texts(r@) == lines_of(s@),
{
    let v = text::chars(s);
    let mut out: Vec<String> = Vec::new();
    let mut i: usize = 0;
    assert(v@.skip(0) =~= v@);
    assert(texts(out@) + lines_of(v@) =~= lines_of(v@));
    while i < v.len()
        invariant
            i <= v@.len(),
            lines_of(v@) == texts(out@) + lines_of(v@.skip(i as int)),
        decreases v@.len() - i,
    {
        let ghost rest = v@.skip(i as int);
        let ghost before = out@;
        match find_char(&v, i, '\n') {
            None => {
                let line = text::copied(&v, i, v.len());
                assert(line@ =~= rest);
                out.push(text::text(&line));
                i = v.len();
                assert(v@.skip(i as int) =~= Seq::<char>::empty());
                assert(texts(out@) =~= texts(before).push(rest));
                assert(texts(out@) + lines_of(v@.skip(i as int)) =~= texts(before) + lines_of(
                    rest,
                ));
            },
            Some(k) => {
                let mut end: usize = k;
                if k > i && v[k - 1] == '\r' {
                    end = k - 1;
                }
                let line = text::copied(&v, i, end);
                let ghost whole = rest.take(k - i);
                assert(whole.len() > 0 ==> whole.last() == v@[k - 1]);
                assert(line@ =~= without_return(whole));
                out.push(text::text(&line));
                assert(rest.skip(k - i + 1) =~= v@.skip(k + 1));
                assert(texts(out@) =~= texts(before).push(line@));
                i = k + 1;
                assert(texts(out@) + lines_of(v@.skip(i as int)) =~= texts(before) + lines_of(
                    rest,
                ));
            },
        }
    }
    assert(v@.skip(i as int) =~= Seq::<char>::empty());
    assert(texts(out@) + Seq::empty() =~= texts(out@));
    out
}

/// Space, tab, line feed, form feed and carriage return.
pub open spec fn is_blank(c: char) -> bool {
    c == ' ' || c == '\t' || c == '\n' || c == '\x0c' || c == '\r'
}

/// `is_blank`.
fn blank(c: char) -> (r: bool)
    ensures
        r == is_blank(c),
{
    c == ' ' || c == '\t' || c == '\n' || c == '\x0c' || c == '\r'
}

/// How many characters at the start are not blank.
pub open spec fn word_len(s: Seq<char>) -> nat
    decreases s.len(),
{
    if s.len() == 0 || is_blank(s[0]) {
        0
    } else {
        1 + word_len(s.skip(1))
    }
}

/// A word is no longer than the text.
pub proof fn lemma_word_len(s: Seq<char>)
    ensures
        word_len(s) <= s.len(),
        s.len() > 0 && !is_blank(s[0]) ==> word_len(s) > 0,
    decreases s.len(),
{
    if s.len() > 0 && !is_blank(s[0]) {
        lemma_word_len(s.skip(1));
    }
}

/// The words of a text: its longest runs without blanks.
pub open spec fn words_of(s: Seq<char>) -> Seq<Seq<char>>
    decreases s.len(),
{
    proof {
        lemma_word_len(s);
    }
    if s.len() == 0 {
        Seq::empty()
    } else if is_blank(s[0]) {
        words_of(s.skip(1))
    } else {
        seq![s.take(word_len(s) as int)] + words_of(s.skip(word_len(s) as int))
    }
}

/// The words of a text.
pub fn words(v: &[char]) -> (r: Vec<String>)
    ensures
        texts(r@) == words_of(v@),
{
    let mut out: Vec<String> = Vec::new();
    let mut i: usize = 0;
    assert(v@.skip(0) =~= v@);
    assert(texts(out@) + words_of(v@) =~= words_of(v@));
    while i < v.len()
        invariant
            i <= v@.len(),
            words_of(v@) == texts(out@) + words_of(v@.skip(i as int)),
        decreases v@.len() - i,
    {
        let ghost rest = v@.skip(i as int);
        let ghost before = out@;
        if blank(v[i]) {
            assert(rest.skip(1) =~= v@.skip(i + 1));
            i += 1;
        } else {
            let start: usize = i;
            let mut k: usize = i;
            while k < v.len() && !blank(v[k])
                invariant
                    start <= k <= v@.len(),
                    rest == v@.skip(start as int),
                    word_len(rest) == k - start + word_len(v@.skip(k as int)),
                decreases v@.len() - k,
            {
                assert(v@.skip(k as int).skip(1) =~= v@.skip(k + 1));
                k += 1;
            }
            proof {
                lemma_word_len(rest);
                lemma_word_len(v@.skip(k as int));
            }
            let word = text::copied(v, start, k);
            assert(word@ =~= rest.take(k - start));
            out.push(text::text(&word));
            assert(rest.skip(k - start) =~= v@.skip(k as int));
            assert(texts(out@) =~= texts(before).push(word@));
            i = k;
            assert(texts(out@) + words_of(v@.skip(i as int)) =~= texts(before) + words_of(rest));
        }
    }
    assert(v@.skip(i as int) =~= Seq::<char>::empty());
    assert(texts(out@) + Seq::empty() =~= texts(out@));
    out
}

/// The number that a text writes: digits, with a `+` before them or not, and with a
/// `-` where `signed`.
pub open spec fn number(s: Seq<char>, signed: bool) -> Option<int> {
    if s.len() == 0 {
        None
    } else if s[0] == '+' || (signed && s[0] == '-') {
        let digits = s.skip(1);
        if digits.len() > 0 && all_digits(digits) {
            Some(
                if s[0] == '-' {
                    -(value_of(digits) as int)
                } else {
                    value_of(digits) as int
                },
            )
        } else {
            None
        }
    } else if all_digits(s) {
        Some(value_of(s) as int)
    } else {
        None
    }
}

/// The number, or 0 where there is none between the bounds.
pub open spec fn number_or_zero(s: Seq<char>, signed: bool, min: int, max: int) -> int {
    match number(s, signed) {
        Some(n) => if min <= n <= max {
            n
        } else {
            0
        },
        None => 0,
    }
}

/// The value of the digits from `i` on, if there is nothing else and it fits.
fn magnitude(v: &[char], i: usize) -> (r: Option<u64>)
    requires
        i <= v@.len(),
    ensures
        r == (if i < v@.len() && all_digits(v@.skip(i as int)) && value_of(v@.skip(i as int))
            <= u64::MAX {
            Some(value_of(v@.skip(i as int)) as u64)
        } else {
            None
        }),
{
    let ghost tail = v@.skip(i as int);
    let (end, value) = text::read_digits(v, i, u64::MAX);
    proof {
        lemma_leading_digits(tail);
        if all_digits(tail) {
            lemma_leading_run(tail, Seq::empty());
            assert(tail + Seq::<char>::empty() =~= tail);
        }
        if end == v@.len() {
            assert(v@.subrange(i as int, end as int) =~= tail);
            assert(tail.take(leading_digits(tail) as int) =~= tail);
        }
    }
    if i < v.len() && end == v.len() {
        value
    } else {
        None
    }
}

/// A number without a sign, if it fits in 64 bits.
pub fn unsigned(s: &str) -> (r: Option<u64>)
    ensures
        r == (match number(s@, false) {
            Some(n) => if n <= u64::MAX {
                Some(n as u64)
            } else {
                None
            },
            None => None,
        }),
{
    let v = text::chars(s);
    if v.len() == 0 {
        return None;
    }
    let from: usize = if v[0] == '+' {
        1
    } else {
        0
    };
    assert(v@.skip(0) =~= v@);
    magnitude(&v, from)
}

/// A number without a sign that is at most `max`, or 0.
pub fn unsigned_or_zero(s: &str, max: u64) -> (r: u64)
    ensures
        r == number_or_zero(s@, false, 0, max as int),
        r <= max,
{
    match unsigned(s) {
        Some(n) => if n <= max {
            n
        } else {
            0
        },
        None => 0,
    }
}

/// A number with or without a sign, or 0.
pub fn signed_or_zero(s: &str) -> (r: i64)
    ensures
        r == number_or_zero(s@, true, i64::MIN as int, i64::MAX as int),
{
    let v = text::chars(s);
    if v.len() == 0 {
        return 0;
    }
    let minus: bool = v[0] == '-';
    let from: usize = if minus || v[0] == '+' {
        1
    } else {
        0
    };
    assert(v@.skip(0) =~= v@);
    match magnitude(&v, from) {
        Some(n) => if !minus {
            if n <= 0x7fff_ffff_ffff_ffff {
                n as i64
            } else {
                0
            }
        } else if n <= 0x7fff_ffff_ffff_ffff {
            -(n as i64)
        } else if n == 0x8000_0000_0000_0000 {
            i64::MIN
        } else {
            0
        },
        None => 0,
    }
}

/// A text falls apart at its line feeds: what stands before the first is a line, less a
/// carriage return at its end, and what stands behind it falls apart in the same way. A
/// text without a line feed is one line, unless it is empty.
pub proof fn law_lines_end_at_line_feeds(line: Seq<char>, rest: Seq<char>)
    requires
        !line.contains('\n'),
    ensures
        lines_of(Seq::empty()) == Seq::<Seq<char>>::empty(),
        line.len() > 0 ==> lines_of(line) == seq![line],
        lines_of(line + seq!['\n'] + rest) == seq![
            if line.len() > 0 && line.last() == '\r' {
                line.drop_last()
            } else {
                line
            },
        ] + lines_of(rest),
{
    let all = line + seq!['\n'] + rest;
    lemma_first_index(line, '\n');
    if first_index(line, '\n') is Some {
        assert(line.contains(line[first_index(line, '\n')->0]));
    }
    lemma_first_index(all, '\n');
    assert(all[line.len() as int] == '\n');
    let k = first_index(all, '\n')->0;
    assert(first_index(all, '\n') is Some);
    if k < line.len() {
        assert(all[k] == line[k]);
        assert(line.contains(line[k]));
    }
    assert(k == line.len());
    assert(all.take(k) =~= line);
    assert(all.skip(k + 1) =~= rest);
}

/// Words are separated by spaces, tabs, line feeds, form feeds and carriage returns, of
/// which any number may stand before, between and behind them.
pub proof fn law_words_are_separated(word: Seq<char>, blank: char, rest: Seq<char>)
    requires
        word.len() > 0,
        forall|i: int|
            0 <= i < word.len() ==> {
                let c = (#[trigger] word[i]) as int;
                c != 32 && c != 9 && c != 10 && c != 12 && c != 13
            },
        blank as int == 32 || blank as int == 9 || blank as int == 10 || blank as int == 12
            || blank as int == 13,
    ensures
        words_of(Seq::empty()) == Seq::<Seq<char>>::empty(),
        words_of(word) == seq![word],
        words_of(word + seq![blank] + rest) == seq![word] + words_of(rest),
        words_of(seq![blank] + rest) == words_of(rest),
{
    let e = Seq::<char>::empty();
    let all = word + seq![blank] + rest;
    assert forall|i: int| 0 <= i < word.len() implies !is_blank(#[trigger] word[i]) by {}
    lemma_word_run(word, e);
    assert(word + e =~= word);
    assert(word.take(word.len() as int) =~= word);
    assert(word.skip(word.len() as int) =~= e);
    assert(words_of(e) == Seq::<Seq<char>>::empty());
    assert(words_of(word) =~= seq![word]);
    let tail = seq![blank] + rest;
    assert(all =~= word + tail);
    lemma_word_run(word, tail);
    assert(all.take(word.len() as int) =~= word);
    assert(all.skip(word.len() as int) =~= tail);
    assert(all[0] == word[0]);
    assert(tail[0] == blank);
    assert(tail.skip(1) =~= rest);
    assert(words_of(tail) == words_of(rest));
    let n = word_len(all) as int;
    assert(!is_blank(all[0]));
    assert(words_of(all) == seq![all.take(n)] + words_of(all.skip(n)));
}

proof fn lemma_word_run(word: Seq<char>, rest: Seq<char>)
    requires
        forall|i: int| 0 <= i < word.len() ==> !is_blank(#[trigger] word[i]),
        rest.len() > 0 ==> is_blank(rest[0]),
    ensures
        word_len(word + rest) == word.len(),
    decreases word.len(),
{
    let all = word + rest;
    if word.len() > 0 {
        let w = word.skip(1);
        assert(!is_blank(word[0]));
        assert(all[0] == word[0]);
        assert(all.skip(1) =~= w + rest);
        assert forall|i: int| 0 <= i < w.len() implies !is_blank(#[trigger] w[i]) by {
            assert(w[i] == word[i + 1]);
        }
        lemma_word_run(w, rest);
    } else {
        assert(all =~= rest);
    }
}

/// Numbers are read as they are written in decimal, with a plus before them or not, and
/// with a minus where a sign is allowed; a text with any other character is no number,
/// and neither is a bare sign.
pub proof fn law_numbers_are_read(n: nat, signed: bool, s: Seq<char>)
    ensures
        number(text::decimal(n), signed) == Some(n as int),
        number(seq!['+'] + text::decimal(n), signed) == Some(n as int),
        number(seq!['-'] + text::decimal(n), true) == Some(-(n as int)),
        number(seq!['-'] + text::decimal(n), false) is None,
        number(seq!['+'], signed) is None,
        number(seq!['-'], signed) is None,
        number(Seq::empty(), signed) is None,
        (exists|i: int| 1 <= i < s.len() && !('0' <= #[trigger] s[i] <= '9')) ==> number(
            s,
            signed,
        ) is None,
{
    text::lemma_decimal(n);
    let d = text::decimal(n);
    let p = seq!['+'] + d;
    let m = seq!['-'] + d;
    assert(p.skip(1) =~= d);
    assert(m.skip(1) =~= d);
    assert(text::is_digit(d[0]));
    assert(!text::is_digit(m[0]));
    assert(seq!['+'].skip(1) =~= Seq::<char>::empty());
    assert(seq!['-'].skip(1) =~= Seq::<char>::empty());
    assert(!text::is_digit(seq!['-'][0]));
    if exists|i: int| 1 <= i < s.len() && !('0' <= #[trigger] s[i] <= '9') {
        let i = choose|i: int| 1 <= i < s.len() && !('0' <= #[trigger] s[i] <= '9');
        assert(!text::is_digit(s[i]));
        assert(!text::is_digit(s.skip(1)[i - 1]));
    }
}

/// What does not fit counts as zero.
pub proof fn law_or_zero(s: Seq<char>, signed: bool, min: int, max: int)
    ensures
        number_or_zero(s, signed, min, max) == (match number(s, signed) {
            Some(n) if min <= n <= max => n,
            _ => 0,
        }),
{
}

/// Any digits are a number, leading zeros or not, and so are digits behind a sign that
/// is allowed; a text that starts with anything else is none.
pub proof fn law_digits_are_numbers(d: Seq<char>, signed: bool, s: Seq<char>)
    requires
        d.len() > 0,
        all_digits(d),
    ensures
        number(d, signed) == Some(value_of(d) as int),
        number(seq!['+'] + d, signed) == Some(value_of(d) as int),
        number(seq!['-'] + d, true) == Some(-(value_of(d) as int)),
        number(seq!['-'] + d, false) is None,
        s.len() > 0 && !('0' <= s[0] <= '9') && s[0] != '+' && s[0] != '-' ==> number(
            s,
            signed,
        ) is None,
{
    assert((seq!['+'] + d).skip(1) =~= d);
    assert((seq!['-'] + d).skip(1) =~= d);
    assert(text::is_digit(d[0]));
    assert(!text::is_digit((seq!['-'] + d)[0]));
    if s.len() > 0 && !('0' <= s[0] <= '9') {
        assert(!text::is_digit(s[0]));
    }
}

} // verus!
