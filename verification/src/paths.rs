//! Paths as texts.

use vstd::prelude::*;
use vstd::string::*;

use crate::text;

verus! {

/// `leaf` under `dir`: an absolute `leaf` replaces `dir`, and a separator is put
/// between the two where `dir` does not end in one.
pub open spec fn joined(dir: Seq<char>, leaf: Seq<char>) -> Seq<char> {
    if leaf.len() > 0 && leaf[0] == '/' {
        leaf
    } else if dir.len() == 0 || dir.last() == '/' {
        dir + leaf
    } else {
        dir.push('/') + leaf
    }
}

/// `leaf` under `dir`.
pub fn join(dir: &str, leaf: &str) -> (r: String)
    ensures
        r@ == joined(dir@, leaf@),
{
    let d = text::chars(dir);
    let l = text::chars(leaf);
    if l.len() > 0 && l[0] == '/' {
        leaf.to_owned()
    } else {
        let mut out = dir.to_owned();
        if d.len() > 0 && d[d.len() - 1] != '/' {
            out.push('/');
        }
        out.append(leaf);
        out
    }
}

/// A relative path is put under a directory behind exactly one separator of its own,
/// whether or not the directory ends in one; an absolute path stays as it is.
pub proof fn law_joined_by_one_separator(dir: Seq<char>, leaf: Seq<char>)
    ensures
        leaf.len() > 0 && leaf[0] == '/' ==> joined(dir, leaf) == leaf,
        !(leaf.len() > 0 && leaf[0] == '/') && dir.len() > 0 && dir.last() != '/' ==> joined(
            dir,
            leaf,
        ) == dir + "/"@ + leaf && joined(dir + "/"@, leaf) == dir + "/"@ + leaf,
        !(leaf.len() > 0 && leaf[0] == '/') ==> joined(Seq::empty(), leaf) == leaf,
{
    reveal_strlit("/");
    assert("/"@ =~= seq!['/']);
    assert(joined(dir, leaf) =~= joined(dir, leaf));
    assert(dir.push('/') + leaf =~= dir + "/"@ + leaf);
    assert(Seq::<char>::empty() + leaf =~= leaf);
}

} // verus!
