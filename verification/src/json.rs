//! Looking up members of JSON objects.

use vstd::prelude::*;

use crate::foreign::{member_map, Member, MemberView};
use crate::text;

verus! {

/// The member under a key.
pub open spec fn member(m: Map<Seq<char>, MemberView>, k: Seq<char>) -> Option<MemberView> {
    if m.contains_key(k) {
        Some(m[k])
    } else {
        None
    }
}

/// The member under a key, as values.
pub open spec fn shown(m: Option<&Member>) -> Option<MemberView> {
    match m {
        Some(m) => Some(m@),
        None => None,
    }
}

/// The member under a key.
pub fn find<'a>(v: &'a Vec<(String, Member)>, k: &str) -> (r: Option<&'a Member>)
    ensures
        shown(r) == member(member_map(v@), k@),
{
    let mut i: usize = v.len();
    assert(v@.take(i as int) =~= v@);
    while i > 0
        invariant
            i <= v@.len(),
            member(member_map(v@), k@) == member(member_map(v@.take(i as int)), k@),
        decreases i,
    {
        assert(v@.take(i as int).drop_last() =~= v@.take(i - 1));
        i = i - 1;
        if text::same(v[i].0.as_str(), k) {
            return Some(&v[i].1);
        }
    }
    assert(v@.take(0) =~= Seq::empty());
    None
}

/// The text under a key, if there is one.
pub open spec fn text_member(m: Map<Seq<char>, MemberView>, k: Seq<char>) -> Option<Seq<char>> {
    match member(m, k) {
        Some(MemberView::Text(s)) => Some(s),
        _ => None,
    }
}

/// The text under a key, if there is one.
pub fn find_text(v: &Vec<(String, Member)>, k: &str) -> (r: Option<String>)
    ensures
        text::opt_text(r) == text_member(member_map(v@), k@),
{
    match find(v, k) {
        Some(Member::Text(s)) => Some(s.clone()),
        _ => None,
    }
}

/// What stands under a key is the last member with that key, if there is one.
pub proof fn law_last_member_counts(v: Seq<(String, Member)>, k: Seq<char>)
    ensures
        match member(member_map(v), k) {
            Some(m) => exists|i: int|
                0 <= i < v.len() && (#[trigger] v[i]).0@ == k && v[i].1@ == m && forall|j: int|
                    i < j < v.len() ==> (#[trigger] v[j]).0@ != k,
            None => forall|i: int| 0 <= i < v.len() ==> (#[trigger] v[i]).0@ != k,
        },
    decreases v.len(),
{
    if v.len() > 0 {
        let u = v.drop_last();
        law_last_member_counts(u, k);
        if v.last().0@ == k {
            assert(v[v.len() - 1].0@ == k);
        } else {
            match member(member_map(u), k) {
                Some(m) => {
                    let i = choose|i: int|
                        0 <= i < u.len() && (#[trigger] u[i]).0@ == k && u[i].1@ == m && forall|
                            j: int,
                        | i < j < u.len() ==> (#[trigger] u[j]).0@ != k;
                    assert(v[i] == u[i]);
                    assert forall|j: int| i < j < v.len() implies (#[trigger] v[j]).0@ != k by {
                        if j < u.len() {
                            assert(u[j] == v[j]);
                        }
                    }
                },
                None => {
                    assert forall|i: int| 0 <= i < v.len() implies (#[trigger] v[i]).0@ != k by {
                        if i < u.len() {
                            assert(u[i] == v[i]);
                        }
                    }
                },
            }
        }
    }
}

} // verus!
