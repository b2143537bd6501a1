//! Texts of the status output.

use vstd::prelude::*;
use vstd::string::*;

use crate::sync::nft::CROWD_TIMEOUT;
use crate::sync::pull::since;
use crate::sync::state::{Cursor, FeedCursor};
use crate::proto::sign;
use crate::proto::sign::signed_decimal;
use crate::text;
use crate::text::decimal;

verus! {

/// Coarse "3h" / "2d"; exactness is not the point.
pub open spec fn age_text(secs: u64) -> Seq<char> {
    if secs < 90 {
        decimal(secs as nat) + "s"@
    } else if secs < 90 * 60 {
        decimal((secs / 60) as nat) + "m"@
    } else if secs < 48 * 3600 {
        decimal((secs / 3600) as nat) + "h"@
    } else {
        decimal((secs / 86400) as nat) + "d"@
    }
}

pub fn fmt_age(secs: u64) -> (r: String)
    ensures
        r@ == age_text(secs),
{
    if secs < 90 {
        let mut s = text::decimal_text(secs);
        s.append("s");
        s
    } else if secs < 90 * 60 {
        let mut s = text::decimal_text(secs / 60);
        s.append("m");
        s
    } else if secs < 48 * 3600 {
        let mut s = text::decimal_text(secs / 3600);
        s.append("h");
        s
    } else {
        let mut s = text::decimal_text(secs / 86400);
        s.append("d");
        s
    }
}

/// How far the events log has been read.
pub fn cursor_text(c: &Option<Cursor>) -> (r: String)
    ensures
        r@ == (match c {
            Some(c) => "inode "@ + decimal(c.ino as nat) + " offset "@ + decimal(c.offset as nat),
            None => "(events log not read yet)"@,
        }),
{
    match c {
        Some(c) => {
            let mut s = "inode ".to_owned();
            text::push_decimal(&mut s, c.ino);
            s.append(" offset ");
            text::push_decimal(&mut s, c.offset);
            s
        },
        None => "(events log not read yet)".to_owned(),
    }
}

/// When a pull last succeeded.
pub fn pulled_text(last: u64, now: u64) -> (r: String)
    ensures
        r@ == (if last == 0 {
            "(never)"@
        } else {
            age_text(since(now, last)) + " ago"@
        }),
{
    if last == 0 {
        return "(never)".to_owned();
    }
    let mut s = fmt_age(now.saturating_sub(last));
    s.append(" ago");
    s
}

/// One feed.
pub fn feed_text(name: &str, f: &FeedCursor, now: u64) -> (r: String)
    ensures
        r@ == "feed "@ + name@ + ": snapshot "@ + signed_decimal(f.snapshot as int) + " etag "@
            + f.etag@ + " (full replace "@ + age_text(since(now, f.last_full))
            + " ago; entries expire "@ + CROWD_TIMEOUT@ + " after one)"@,
{
    let mut s = "feed ".to_owned();
    s.append(name);
    s.append(": snapshot ");
    let n = sign::signed_text(f.snapshot);
    s.append(n.as_str());
    s.append(" etag ");
    s.append(f.etag.as_str());
    s.append(" (full replace ");
    let a = fmt_age(now.saturating_sub(f.last_full));
    s.append(a.as_str());
    s.append(" ago; entries expire ");
    s.append(CROWD_TIMEOUT);
    s.append(" after one)");
    s
}

/// An age is told in seconds below a minute and a half, in whole minutes below an hour
/// and a half, in whole hours below two days, and in whole days from there on.
pub proof fn law_ages(secs: u64)
    ensures
        secs < 90 ==> age_text(secs) == decimal(secs as nat) + "s"@,
        90 <= secs < 5400 ==> age_text(secs) == decimal((secs / 60) as nat) + "m"@,
        5400 <= secs < 172_800 ==> age_text(secs) == decimal((secs / 3600) as nat) + "h"@,
        172_800 <= secs ==> age_text(secs) == decimal((secs / 86_400) as nat) + "d"@,
        since(secs, 0) == secs,
{
}

/// How long ago something was is the difference, or nothing for what is still to come.
pub proof fn law_since(now: u64, then: u64)
    ensures
        now >= then ==> since(now, then) + then == now,
        now < then ==> since(now, then) == 0,
{
}

} // verus!
