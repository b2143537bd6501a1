//! Human-friendly durations: "30s", "10m", "1h30m", "2d", "1w", or bare seconds.

use vstd::prelude::*;

use crate::text::{
    all_digits, chars, decimal, is_digit, is_space, leading_digits, lemma_decimal,
    lemma_leading_digits, lemma_leading_run, push_decimal, read_digits, text, trim, trimmed,
    value_of,
};

verus! {

/// A length of time in whole seconds.
#[derive(Clone, Copy, PartialEq, Eq, Structural, Debug, Hash)]
pub struct Duration {
    pub secs: u64,
}

impl Duration {
    /// The length of time as a number of seconds.
    pub open spec fn view(self) -> u64 {
        self.secs
    }

    pub fn from_secs(secs: u64) -> (r: Duration)
        ensures
            r@ == secs,
    {
        Duration { secs }
    }

    pub fn as_secs(&self) -> (r: u64)
        ensures
            r == self@,
    {
        self.secs
    }
}

/// A duration as configuration writes it.
#[derive(Clone, Copy, PartialEq, Eq, Structural, Debug, Hash)]
pub struct HumanDuration(pub Duration);

impl HumanDuration {
    pub fn secs(&self) -> (r: u64)
        ensures
            r == self.0@,
    {
        self.0.as_secs()
    }

    /// A duration given as a signed number of seconds; a negative one is refused.
    pub fn from_signed(v: i64) -> (r: Option<HumanDuration>)
        ensures
            v < 0 ==> r is None,
            v >= 0 ==> (r matches Some(d) && d.0@ == v),
    {
        if v < 0 {
            None
        } else {
            Some(HumanDuration(Duration::from_secs(v as u64)))
        }
    }

    /// The duration as text, "1h30m".
    pub fn to_text(&self) -> (r: String)
        ensures
            r@ == formatted(self.0@ as nat),
    {
        format(self.0)
    }
}

impl From<Duration> for HumanDuration {
    fn from(d: Duration) -> (r: HumanDuration) {
        HumanDuration(d)
    }
}

impl vstd::std_specs::convert::FromSpecImpl<Duration> for HumanDuration {
    open spec fn obeys_from_spec() -> bool {
        true
    }

    open spec fn from_spec(d: Duration) -> HumanDuration {
        HumanDuration(d)
    }
}

/// Why a text is not a duration.
#[derive(Clone, Copy, PartialEq, Eq, Structural, Debug)]
pub enum Fault {
    Empty,
    Overflow,
    /// A character that is not a digit where a number has to start.
    Unexpected(char),
    /// A number followed by a character that names no unit.
    UnknownUnit(char),
}

/// How many seconds a unit letter stands for.
pub open spec fn unit_secs(c: char) -> Option<nat> {
    match c {
        's' => Some(1),
        'm' => Some(60),
        'h' => Some(3600),
        'd' => Some(86_400),
        'w' => Some(604_800),
        _ => None,
    }
}

/// The value of a run of terms (a number and a unit letter; the last term may be a
/// bare number of seconds) on top of `total`, read from left to right.
pub open spec fn sum_terms(s: Seq<char>, total: nat) -> Result<nat, Fault>
    decreases s.len(),
{
    let n = leading_digits(s) as int;
    let num = value_of(s.take(n));
    if s.len() == 0 {
        Ok(total)
    } else if n == 0 {
        Err(Fault::Unexpected(s[0]))
    } else if num > u64::MAX {
        Err(Fault::Overflow)
    } else if n >= s.len() {
        if total + num > u64::MAX {
            Err(Fault::Overflow)
        } else {
            Ok(total + num)
        }
    } else {
        match unit_secs(s[n]) {
            None => Err(Fault::UnknownUnit(s[n])),
            Some(secs) => if total + num * secs > u64::MAX {
                Err(Fault::Overflow)
            } else {
                sum_terms(s.skip(n + 1), total + num * secs)
            },
        }
    }
}

/// What a text says as a duration, in seconds.
pub open spec fn parsed(s: Seq<char>) -> Result<nat, Fault> {
    if trim(s).len() == 0 {
        Err(Fault::Empty)
    } else {
        sum_terms(trim(s), 0)
    }
}

/// The message for a fault found in the trimmed text `s`.
pub open spec fn fault_text(f: Fault, s: Seq<char>) -> Seq<char> {
    match f {
        Fault::Empty => "empty duration"@,
        Fault::Overflow => "duration overflow"@,
        Fault::Unexpected(c) => "unexpected '"@ + seq![c] + "' in duration '"@ + s + "'"@,
        Fault::UnknownUnit(c) => "unknown unit '"@ + seq![c] + "' in duration '"@ + s + "'"@,
    }
}

fn seconds_of(c: char) -> (r: Option<u64>)
    ensures
        match unit_secs(c) {
            Some(n) => r == Some(n as u64) && 1 <= n <= 604_800,
            None => r is None,
        },
{
    match c {
        's' => Some(1),
        'm' => Some(60),
        'h' => Some(3600),
        'd' => Some(86_400),
        'w' => Some(604_800),
        _ => None,
    }
}

fn sum(v: &Vec<char>) -> (r: Result<u64, Fault>)
    ensures
        match sum_terms(v@, 0) {
            Ok(n) => r == Ok::<u64, Fault>(n as u64) && n <= u64::MAX,
            Err(f) => r == Err::<u64, Fault>(f),
        },
{
    let mut total: u64 = 0;
    let mut i: usize = 0;
    assert(v@.skip(0) =~= v@);
    while i < v.len()
        invariant
            i <= v@.len(),
            sum_terms(v@, 0) == sum_terms(v@.skip(i as int), total as nat),
        decreases v@.len() - i,
    {
        let ghost s = v@.skip(i as int);
        proof {
            lemma_leading_digits(s);
        }
        let (k, num) = read_digits(v, i, u64::MAX);
        assert(s.take(k - i) =~= v@.subrange(i as int, k as int));
        if k == i {
            return Err(Fault::Unexpected(v[i]));
        }
        let num: u64 = match num {
            Some(n) => n,
            None => {
                return Err(Fault::Overflow);
            },
        };
        if k == v.len() {
            return match total.checked_add(num) {
                Some(t) => Ok(t),
                None => Err(Fault::Overflow),
            };
        }
        let secs: u64 = match seconds_of(v[k]) {
            Some(n) => n,
            None => {
                return Err(Fault::UnknownUnit(v[k]));
            },
        };
        let part: u64 = match num.checked_mul(secs) {
            Some(p) => p,
            None => {
                return Err(Fault::Overflow);
            },
        };
        total = match total.checked_add(part) {
            Some(t) => t,
            None => {
                return Err(Fault::Overflow);
            },
        };
        assert(s.skip(k - i + 1) =~= v@.skip(k + 1));
        i = k + 1;
    }
    Ok(total)
}

/// Parse a duration.
pub fn parse(s: &str) -> (r: Result<Duration, String>)
    ensures
        match r {
            Ok(d) => parsed(s@) == Ok::<nat, Fault>(d@ as nat),
            Err(e) => parsed(s@) matches Err(f) && e@ == fault_text(f, trim(s@)),
        },
{
    let all = chars(s);
    let v = trimmed(&all);
    let f = if v.len() == 0 {
        Fault::Empty
    } else {
        match sum(&v) {
            Ok(n) => {
                return Ok(Duration::from_secs(n));
            },
            Err(f) => f,
        }
    };
    Err(describe(f, &v))
}

/// The message for a fault in the text `v`.
pub fn describe(f: Fault, v: &Vec<char>) -> (r: String)
    ensures
        r@ == fault_text(f, v@),
{
    match f {
        Fault::Empty => "empty duration".to_owned(),
        Fault::Overflow => "duration overflow".to_owned(),
        Fault::Unexpected(c) => {
            let mut m = "unexpected '".to_owned();
            m.push(c);
            m.append("' in duration '");
            m.append(text(v).as_str());
            m.append("'");
            proof {
                assert(m@ =~= fault_text(f, v@));
            }
            m
        },
        Fault::UnknownUnit(c) => {
            let mut m = "unknown unit '".to_owned();
            m.push(c);
            m.append("' in duration '");
            m.append(text(v).as_str());
            m.append("'");
            proof {
                assert(m@ =~= fault_text(f, v@));
            }
            m
        },
    }
}

/// One term of a formatted duration; nothing for a zero count.
pub open spec fn term(count: nat, unit: char) -> Seq<char> {
    if count == 0 {
        Seq::empty()
    } else {
        decimal(count).push(unit)
    }
}

/// A number of seconds as weeks, days, hours, minutes and seconds, largest first.
pub open spec fn formatted(secs: nat) -> Seq<char> {
    if secs == 0 {
        "0s"@
    } else {
        term(secs / 604_800, 'w') + term(secs % 604_800 / 86_400, 'd') + term(
            secs % 86_400 / 3600,
            'h',
        ) + term(secs % 3600 / 60, 'm') + term(secs % 60, 's')
    }
}

fn push_term(out: &mut String, count: u64, unit: char)
    ensures
        final(out)@ == old(out)@ + term(count as nat, unit),
{
    if count > 0 {
        push_decimal(out, count);
        out.push(unit);
    }
    assert(out@ =~= old(out)@ + term(count as nat, unit));
}

/// Render a duration.
pub fn format(d: Duration) -> (r: String)
    ensures
        r@ == formatted(d@ as nat),
{
    let s: u64 = d.as_secs();
    if s == 0 {
        return "0s".to_owned();
    }
    let mut out = String::new();
    push_term(&mut out, s / 604_800, 'w');
    push_term(&mut out, s % 604_800 / 86_400, 'd');
    push_term(&mut out, s % 86_400 / 3600, 'h');
    push_term(&mut out, s % 3600 / 60, 'm');
    push_term(&mut out, s % 60, 's');
    proof {
        assert(out@ =~= formatted(s as nat));
    }
    out
}

/// A term at the front adds its value and leaves the rest to be read.
proof fn lemma_read_term(count: nat, unit: char, rest: Seq<char>, total: nat)
    requires
        unit_secs(unit) is Some,
        total + count * unit_secs(unit)->0 <= u64::MAX,
        rest.len() > 0 ==> is_digit(rest[0]),
    ensures
        sum_terms(term(count, unit) + rest, total) == sum_terms(
            rest,
            total + count * unit_secs(unit)->0,
        ),
{
    let secs = unit_secs(unit)->0;
    if count == 0 {
        assert(term(count, unit) + rest =~= rest);
    } else {
        lemma_decimal(count);
        let d = decimal(count);
        let tail = seq![unit] + rest;
        let s = term(count, unit) + rest;
        assert(s =~= d + tail);
        lemma_leading_run(d, tail);
        assert(s.take(d.len() as int) =~= d);
        assert(s[d.len() as int] == unit);
        assert(s.skip((d.len() + 1) as int) =~= rest);
        assert(count <= count * secs) by (nonlinear_arith)
            requires
                secs >= 1,
        ;
    }
}

/// The rest of a formatted duration is empty or starts with a digit.
proof fn lemma_term_start(count: nat, unit: char, rest: Seq<char>)
    requires
        rest.len() > 0 ==> is_digit(rest[0]),
    ensures
        (term(count, unit) + rest).len() > 0 ==> is_digit((term(count, unit) + rest)[0]),
        term(count, unit).len() > 0 ==> term(count, unit).last() == unit,
{
    lemma_decimal(count);
    if count > 0 {
        assert(is_digit(decimal(count)[0]));
        assert((term(count, unit) + rest)[0] == decimal(count)[0]);
    } else {
        assert(term(count, unit) + rest =~= rest);
    }
}

/// A text that neither starts nor ends with white space is its own trimmed form.
proof fn lemma_trim_noop(s: Seq<char>)
    requires
        s.len() > 0,
        !is_space(s[0]),
        !is_space(s.last()),
    ensures
        trim(s) == s,
{
}

/// The five terms of a formatted duration, one behind the other.
spec fn five_terms(w: nat, d: nat, h: nat, m: nat, s: nat) -> Seq<char> {
    term(w, 'w') + (term(d, 'd') + (term(h, 'h') + (term(m, 'm') + (term(s, 's')
        + Seq::<char>::empty()))))
}

/// The five terms read back as their sum.
proof fn lemma_sum_terms(w: nat, d: nat, h: nat, m: nat, s: nat)
    requires
        w * 604_800 + d * 86_400 + h * 3600 + m * 60 + s <= u64::MAX,
    ensures
        sum_terms(five_terms(w, d, h, m, s), 0) == Ok::<nat, Fault>(
            w * 604_800 + d * 86_400 + h * 3600 + m * 60 + s,
        ),
        five_terms(w, d, h, m, s).len() > 0 ==> is_digit(five_terms(w, d, h, m, s)[0]),
{
    let e = Seq::<char>::empty();
    let t5 = term(s, 's') + e;
    let t4 = term(m, 'm') + t5;
    let t3 = term(h, 'h') + t4;
    let t2 = term(d, 'd') + t3;
    lemma_term_start(s, 's', e);
    lemma_term_start(m, 'm', t5);
    lemma_term_start(h, 'h', t4);
    lemma_term_start(d, 'd', t3);
    lemma_term_start(w, 'w', t2);
    lemma_read_term(w, 'w', t2, 0);
    lemma_read_term(d, 'd', t3, w * 604_800);
    lemma_read_term(h, 'h', t4, w * 604_800 + d * 86_400);
    lemma_read_term(m, 'm', t5, w * 604_800 + d * 86_400 + h * 3600);
    lemma_read_term(s, 's', e, w * 604_800 + d * 86_400 + h * 3600 + m * 60);
}

/// Unless all counts are zero, the five terms end in a unit letter.
proof fn lemma_last_unit(w: nat, d: nat, h: nat, m: nat, s: nat)
    requires
        w > 0 || d > 0 || h > 0 || m > 0 || s > 0,
    ensures
        five_terms(w, d, h, m, s).len() > 0,
        !is_space(five_terms(w, d, h, m, s).last()),
{
    let t = five_terms(w, d, h, m, s);
    if s > 0 {
        assert(t.last() == term(s, 's').last());
    } else if m > 0 {
        assert(t.last() == term(m, 'm').last());
    } else if h > 0 {
        assert(t.last() == term(h, 'h').last());
    } else if d > 0 {
        assert(t.last() == term(d, 'd').last());
    } else {
        assert(t.last() == term(w, 'w').last());
    }
}

proof fn lemma_zero_parses()
    ensures
        parsed("0s"@) == Ok::<nat, Fault>(0),
{
    reveal_strlit("0s");
    let z = "0s"@;
    assert(z =~= seq!['0', 's']);
    let d = seq!['0'];
    let rest = seq!['s'];
    assert(z =~= d + rest);
    assert(all_digits(d));
    lemma_leading_run(d, rest);
    assert(z.take(1) =~= d);
    assert(d.drop_last() =~= Seq::<char>::empty());
    assert(value_of(d.drop_last()) == 0);
    assert(value_of(d) == 0);
    assert(z.skip(2) =~= Seq::<char>::empty());
    assert(sum_terms(z.skip(2), 0) == Ok::<nat, Fault>(0));
    assert(leading_digits(z) == 1);
    assert(unit_secs(z[1]) == Some(1nat));
    let num = value_of(z.take(1));
    let one = unit_secs(z[1])->0;
    assert(num * one == 0) by (nonlinear_arith)
        requires
            num == 0,
    ;
    assert(sum_terms(z, 0) == sum_terms(z.skip(2), 0 + num * one));
    lemma_trim_noop(z);
}

/// A number of seconds is the sum of its weeks, days, hours, minutes and seconds.
proof fn lemma_split(n: nat)
    ensures
        n == n / 604_800 * 604_800 + n % 604_800 / 86_400 * 86_400 + n % 86_400 / 3600 * 3600 + n
            % 3600 / 60 * 60 + n % 60,
{
    assert(n == n / 604_800 * 604_800 + n % 604_800);
    assert(n % 604_800 == n % 604_800 / 86_400 * 86_400 + n % 604_800 % 86_400);
    assert(n % 604_800 % 86_400 == n % 86_400);
    assert(n % 86_400 == n % 86_400 / 3600 * 3600 + n % 86_400 % 3600);
    assert(n % 86_400 % 3600 == n % 3600);
    assert(n % 3600 == n % 3600 / 60 * 60 + n % 3600 % 60);
    assert(n % 3600 % 60 == n % 60);
}

/// Parsing what `format` writes gives the same duration back.
#[verifier::spinoff_prover]
#[verifier::rlimit(40)]
pub proof fn law_format_parses_back(secs: u64)
    ensures
        parsed(formatted(secs as nat)) == Ok::<nat, Fault>(secs as nat),
{
    let n = secs as nat;
    if n == 0 {
        lemma_zero_parses();
    } else {
        let w = n / 604_800;
        let d = n % 604_800 / 86_400;
        let h = n % 86_400 / 3600;
        let m = n % 3600 / 60;
        let s = n % 60;
        lemma_split(n);
        lemma_sum_terms(w, d, h, m, s);
        lemma_last_unit(w, d, h, m, s);
        assert(formatted(n) =~= five_terms(w, d, h, m, s));
        lemma_trim_noop(formatted(n));
    }
}

/// A larger start makes a larger sum.
proof fn lemma_sum_shift(s: Seq<char>, a: nat, t: nat)
    requires
        sum_terms(s, a) is Ok,
        sum_terms(s, a)->Ok_0 + t <= u64::MAX,
    ensures
        sum_terms(s, a) matches Ok(r) && r >= a && sum_terms(s, a + t) == Ok::<nat, Fault>(r + t),
    decreases s.len(),
{
    let n = leading_digits(s) as int;
    let num = value_of(s.take(n));
    lemma_leading_digits(s);
    if s.len() > 0 && n < s.len() {
        let secs = unit_secs(s[n])->0;
        assert(num * secs >= 0) by (nonlinear_arith);
        lemma_sum_shift(s.skip(n + 1), a + num * secs, t);
        assert((a + num * secs) + t == (a + t) + num * secs);
    }
}

/// A number and a unit letter are that many seconds, minutes of 60, hours of 3600, days
/// of 86400 or weeks of 604800 seconds; a number by itself is seconds. What follows is
/// added.
pub proof fn law_terms_add_up(n: nat, unit: char, secs: nat, rest: Seq<char>)
    requires
        (unit == 's' && secs == 1) || (unit == 'm' && secs == 60) || (unit == 'h' && secs == 3600)
            || (unit == 'd' && secs == 86_400) || (unit == 'w' && secs == 604_800),
        n * secs <= u64::MAX,
    ensures
        n <= u64::MAX,
        parsed(decimal(n)) == Ok::<nat, Fault>(n),
        parsed(decimal(n).push(unit)) == Ok::<nat, Fault>(n * secs),
        rest.len() > 0 && '0' <= rest[0] <= '9' && trim(rest) == rest ==> match parsed(rest) {
            Ok(v) => if n * secs + v <= u64::MAX {
                parsed(decimal(n).push(unit) + rest) == Ok::<nat, Fault>(n * secs + v)
            } else {
                true
            },
            Err(_) => true,
        },
{
    lemma_decimal(n);
    let d = decimal(n);
    assert(n <= n * secs) by (nonlinear_arith)
        requires
            secs >= 1,
    ;
    // A number by itself.
    let e = Seq::<char>::empty();
    lemma_leading_run(d, e);
    assert(d + e =~= d);
    assert(d.take(d.len() as int) =~= d);
    assert(is_digit(d[0]) && is_digit(d[d.len() - 1]));
    lemma_trim_noop(d);
    // A number and a unit.
    let t = d.push(unit);
    lemma_unit_front(n, unit, secs, e, 0);
    assert(t + e =~= t);
    assert(t[0] == d[0]);
    lemma_trim_noop(t);
    if rest.len() > 0 && '0' <= rest[0] <= '9' && trim(rest) == rest && parsed(rest) is Ok && n
        * secs + parsed(rest)->Ok_0 <= u64::MAX {
        lemma_unit_front(n, unit, secs, rest, 0);
        lemma_sum_shift(rest, 0, n * secs);
        let all = t + rest;
        assert(all[0] == d[0]);
        assert(all.last() == rest.last());
        lemma_trimmed_end(rest);
        lemma_trim_noop(all);
    }
}

/// A text that is its own trimmed form does not end in white space.
proof fn lemma_trimmed_end(s: Seq<char>)
    requires
        trim(s) == s,
        s.len() > 0,
    ensures
        !is_space(s.last()),
{
    lemma_trim_end_stops(crate::text::trim_start(s));
}

proof fn lemma_trim_end_stops(s: Seq<char>)
    ensures
        crate::text::trim_end(s).len() > 0 ==> !is_space(crate::text::trim_end(s).last()),
    decreases s.len(),
{
    if s.len() > 0 && is_space(s.last()) {
        lemma_trim_end_stops(s.drop_last());
    }
}

/// A number and a unit at the front, zero included.
proof fn lemma_unit_front(n: nat, unit: char, secs: nat, rest: Seq<char>, total: nat)
    requires
        unit_secs(unit) == Some(secs),
        secs >= 1,
        total + n * secs <= u64::MAX,
        rest.len() > 0 ==> is_digit(rest[0]),
    ensures
        sum_terms(decimal(n).push(unit) + rest, total) == sum_terms(rest, total + n * secs),
{
    lemma_decimal(n);
    let d = decimal(n);
    let tail = seq![unit] + rest;
    let s = d.push(unit) + rest;
    assert(s =~= d + tail);
    lemma_leading_run(d, tail);
    assert(s.take(d.len() as int) =~= d);
    assert(s[d.len() as int] == unit);
    assert(s.skip((d.len() + 1) as int) =~= rest);
    assert(n <= n * secs) by (nonlinear_arith)
        requires
            secs >= 1,
    ;
}

/// A text that is blank, starts with no digit, or has a letter behind its first number
/// that is no unit, is no duration, and the fault says which.
pub proof fn law_no_duration(s: Seq<char>, n: nat, c: char, rest: Seq<char>)
    requires
        n <= u64::MAX,
        !is_digit(c),
        c != 's' && c != 'm' && c != 'h' && c != 'd' && c != 'w',
        trim(decimal(n).push(c) + rest) == decimal(n).push(c) + rest,
    ensures
        trim(s).len() == 0 ==> parsed(s) == Err::<nat, Fault>(Fault::Empty),
        trim(s).len() > 0 && !('0' <= trim(s)[0] <= '9') ==> parsed(s) == Err::<nat, Fault>(
            Fault::Unexpected(trim(s)[0]),
        ),
        parsed(decimal(n).push(c) + rest) == Err::<nat, Fault>(Fault::UnknownUnit(c)),
{
    lemma_decimal(n);
    let d = decimal(n);
    let tail = seq![c] + rest;
    let t = d.push(c) + rest;
    assert(t =~= d + tail);
    lemma_leading_run(d, tail);
    assert(t.take(d.len() as int) =~= d);
    assert(t[d.len() as int] == c);
}

/// A duration with `count` whole units of this kind in front.
#[verifier::spinoff_prover]
#[verifier::rlimit(60)]
proof fn lemma_weeks(count: nat, rest: nat)
    requires
        count > 0,
        rest < 604_800,
    ensures
        formatted(count * 604_800 + rest) == decimal(count).push('w') + (if rest == 0 {
            Seq::empty()
        } else {
            formatted(rest)
        }),
{
    let n = count * 604_800 + rest;
    assert(n / 604_800 == count && n % 604_800 == rest);
    assert(n % 86_400 == rest % 86_400 && n % 3600 == rest % 3600 && n % 60 == rest % 60);
    assert(rest / 604_800 == 0 && rest % 604_800 == rest);
    assert(formatted(n) =~= decimal(count).push('w') + (if rest == 0 {
        Seq::<char>::empty()
    } else {
        formatted(rest)
    }));
}

/// A duration with `count` whole units of this kind in front.
#[verifier::spinoff_prover]
#[verifier::rlimit(60)]
proof fn lemma_days(count: nat, rest: nat)
    requires
        count > 0,
        count < 7,
        rest < 86_400,
    ensures
        formatted(count * 86_400 + rest) == decimal(count).push('d') + (if rest == 0 {
            Seq::empty()
        } else {
            formatted(rest)
        }),
{
    let n = count * 86_400 + rest;
    assert(n / 604_800 == 0 && n % 604_800 == n && n / 86_400 == count);
    assert(n % 86_400 == rest && n % 3600 == rest % 3600 && n % 60 == rest % 60);
    assert(rest / 604_800 == 0 && rest % 604_800 / 86_400 == 0 && rest % 86_400 == rest);
    assert(formatted(n) =~= decimal(count).push('d') + (if rest == 0 {
        Seq::<char>::empty()
    } else {
        formatted(rest)
    }));
}

/// A duration with `count` whole units of this kind in front.
#[verifier::spinoff_prover]
#[verifier::rlimit(60)]
proof fn lemma_hours(count: nat, rest: nat)
    requires
        count > 0,
        count < 24,
        rest < 3600,
    ensures
        formatted(count * 3600 + rest) == decimal(count).push('h') + (if rest == 0 {
            Seq::empty()
        } else {
            formatted(rest)
        }),
{
    let n = count * 3600 + rest;
    assert(n / 604_800 == 0 && n % 604_800 / 86_400 == 0 && n % 86_400 / 3600 == count);
    assert(n % 3600 == rest && n % 60 == rest % 60);
    assert(rest / 604_800 == 0 && rest % 604_800 / 86_400 == 0 && rest % 86_400 / 3600 == 0);
    assert(rest % 3600 == rest);
    assert(formatted(n) =~= decimal(count).push('h') + (if rest == 0 {
        Seq::<char>::empty()
    } else {
        formatted(rest)
    }));
}

/// A duration with `count` whole units of this kind in front.
#[verifier::spinoff_prover]
#[verifier::rlimit(60)]
proof fn lemma_minutes(count: nat, rest: nat)
    requires
        count > 0,
        count < 60,
        rest < 60,
    ensures
        formatted(count * 60 + rest) == decimal(count).push('m') + (if rest == 0 {
            Seq::empty()
        } else {
            formatted(rest)
        }),
{
    let n = count * 60 + rest;
    assert(n / 604_800 == 0 && n % 604_800 / 86_400 == 0 && n % 86_400 / 3600 == 0);
    assert(n % 3600 / 60 == count && n % 60 == rest);
    assert(rest / 604_800 == 0 && rest % 604_800 / 86_400 == 0 && rest % 86_400 / 3600 == 0);
    assert(rest % 3600 / 60 == 0 && rest % 60 == rest);
    assert(formatted(n) =~= decimal(count).push('m') + (if rest == 0 {
        Seq::<char>::empty()
    } else {
        formatted(rest)
    }));
}

/// A duration is written with the largest units first: whole weeks, and behind them the
/// rest as it is written by itself, if there is one; the same for days, hours and
/// minutes; seconds stand alone.
pub proof fn law_format_by_units(count: nat, rest: nat)
    requires
        count > 0,
    ensures
        formatted(0) == "0s"@,
        rest < 604_800 ==> formatted(count * 604_800 + rest) == decimal(count).push('w') + (
        if rest == 0 {
            Seq::empty()
        } else {
            formatted(rest)
        }),
        count < 7 && rest < 86_400 ==> formatted(count * 86_400 + rest) == decimal(count).push('d')
            + (if rest == 0 {
            Seq::empty()
        } else {
            formatted(rest)
        }),
        count < 24 && rest < 3600 ==> formatted(count * 3600 + rest) == decimal(count).push('h') + (
        if rest == 0 {
            Seq::empty()
        } else {
            formatted(rest)
        }),
        count < 60 && rest < 60 ==> formatted(count * 60 + rest) == decimal(count).push('m') + (
        if rest == 0 {
            Seq::empty()
        } else {
            formatted(rest)
        }),
        count < 60 ==> formatted(count) == decimal(count).push('s'),
{
    if rest < 604_800 {
        lemma_weeks(count, rest);
    }
    if count < 7 && rest < 86_400 {
        lemma_days(count, rest);
    }
    if count < 24 && rest < 3600 {
        lemma_hours(count, rest);
    }
    if count < 60 && rest < 60 {
        lemma_minutes(count, rest);
    }
    if count < 60 {
        assert(formatted(count) =~= decimal(count).push('s'));
    }
}

/// A duration is its seconds, by whatever name; how faults read.
pub proof fn law_durations_are_seconds(d: Duration, c: char, s: Seq<char>)
    ensures
        d@ == d.secs,
        fault_text(Fault::Empty, s) == "empty duration"@,
        fault_text(Fault::Overflow, s) == "duration overflow"@,
        fault_text(Fault::Unexpected(c), s) == "unexpected '"@ + seq![c] + "' in duration '"@ + s
            + "'"@,
        fault_text(Fault::UnknownUnit(c), s) == "unknown unit '"@ + seq![c] + "' in duration '"@ + s
            + "'"@,
{
}

/// What cannot be added up stays so behind a larger start.
proof fn lemma_sum_fails(s: Seq<char>, a: nat, t: nat)
    ensures
        sum_terms(s, a) is Err ==> sum_terms(s, a + t) is Err,
        sum_terms(s, a) matches Ok(r) ==> (r + t > u64::MAX && s.len() > 0 ==> sum_terms(s, a + t)
            == Err::<nat, Fault>(Fault::Overflow)),
    decreases s.len(),
{
    let n = leading_digits(s) as int;
    let num = value_of(s.take(n));
    lemma_leading_digits(s);
    if s.len() > 0 && n > 0 && n < s.len() && num <= u64::MAX && unit_secs(s[n]) is Some {
        let secs = unit_secs(s[n])->0;
        assert(num * secs >= 0) by (nonlinear_arith);
        assert((a + num * secs) + t == (a + t) + num * secs);
        lemma_sum_fails(s.skip(n + 1), a + num * secs, t);
    }
}

/// A duration of more seconds than 64 bits hold is refused, and so is one of which any
/// term is bad.
pub proof fn law_durations_that_fail(n: nat, unit: char, secs: nat, rest: Seq<char>)
    requires
        (unit == 's' && secs == 1) || (unit == 'm' && secs == 60) || (unit == 'h' && secs == 3600)
            || (unit == 'd' && secs == 86_400) || (unit == 'w' && secs == 604_800),
    ensures
        n * secs > u64::MAX ==> parsed(decimal(n).push(unit)) == Err::<nat, Fault>(Fault::Overflow),
        n > u64::MAX ==> parsed(decimal(n)) == Err::<nat, Fault>(Fault::Overflow),
        n * secs <= u64::MAX && rest.len() > 0 && trim(rest) == rest ==> match parsed(rest) {
            Ok(v) => n * secs + v > u64::MAX ==> parsed(decimal(n).push(unit) + rest) == Err::<
                nat,
                Fault,
            >(Fault::Overflow),
            Err(_) => parsed(decimal(n).push(unit) + rest) is Err,
        },
{
    lemma_decimal(n);
    let d = decimal(n);
    let e = Seq::<char>::empty();
    assert(is_digit(d[0]) && is_digit(d[d.len() - 1]));
    lemma_leading_run(d, e);
    assert(d + e =~= d);
    assert(d.take(d.len() as int) =~= d);
    lemma_trim_noop(d);
    let t = d.push(unit);
    let one = seq![unit];
    assert(t =~= d + one);
    lemma_leading_run(d, one);
    assert(t.take(d.len() as int) =~= d);
    assert(t[d.len() as int] == unit);
    assert(t[0] == d[0]);
    lemma_trim_noop(t);
    if n * secs <= u64::MAX && rest.len() > 0 && trim(rest) == rest {
        let all = t + rest;
        let tail = one + rest;
        assert(all =~= d + tail);
        lemma_leading_run(d, tail);
        assert(all.take(d.len() as int) =~= d);
        assert(all[d.len() as int] == unit);
        assert(all.skip((d.len() + 1) as int) =~= rest);
        assert(all[0] == d[0]);
        assert(all.last() == rest.last());
        lemma_trimmed_end(rest);
        lemma_trim_noop(all);
        assert(n <= n * secs) by (nonlinear_arith)
            requires
                secs >= 1,
        ;
        assert(sum_terms(all, 0) == sum_terms(rest, 0 + n * secs));
        lemma_sum_fails(rest, 0, n * secs);
    }
}

} // verus!
