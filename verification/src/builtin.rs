//! Filters that come with the program, by name.

use vstd::prelude::*;
use vstd::string::*;

use crate::filter::{refusal, DefView, FilterDef};
use crate::text;
use crate::text::texts;

verus! {

/// The names of the built-in filters, in order.
pub open spec fn builtin_names() -> Seq<Seq<char>> {
    seq![
        "sshd"@,
        "postfix"@,
        "postfix-sasl"@,
        "dovecot"@,
        "proftpd"@,
        "webmin"@,
        "apache-auth"@,
        "nginx-auth"@,
        "wordpress"@,
        "roundcube"@,
    ]
}

pub fn names() -> (r: Vec<String>)
    ensures
        texts(r@) == builtin_names(),
{
    let mut v: Vec<String> = Vec::new();
    v.push("sshd".to_owned());
    v.push("postfix".to_owned());
    v.push("postfix-sasl".to_owned());
    v.push("dovecot".to_owned());
    v.push("proftpd".to_owned());
    v.push("webmin".to_owned());
    v.push("apache-auth".to_owned());
    v.push("nginx-auth".to_owned());
    v.push("wordpress".to_owned());
    v.push("roundcube".to_owned());
    assert(texts(v@) =~= builtin_names());
    v
}

/// Where a name first stands among the names from `i` on.
pub open spec fn index_from(names: Seq<Seq<char>>, name: Seq<char>, i: int) -> Option<int>
    decreases names.len() - i,
{
    if i < 0 || i >= names.len() {
        None
    } else if names[i] == name {
        Some(i)
    } else {
        index_from(names, name, i + 1)
    }
}

/// A definition or what is wrong with it, as values.
pub open spec fn shown(r: Option<Result<FilterDef, String>>) -> Option<
    Result<DefView, Seq<char>>,
> {
    match r {
        Some(Ok(d)) => Some(Ok(d@)),
        Some(Err(e)) => Some(Err(e@)),
        None => None,
    }
}

/// The built-in definition of a name; `defs` are the definitions of the names, in
/// order, or why they cannot be read.
pub open spec fn builtin_of(defs: Seq<Result<FilterDef, String>>, name: Seq<char>) -> Option<
    Result<DefView, Seq<char>>,
> {
    match index_from(builtin_names(), name, 0) {
        None => None,
        Some(i) => match defs[i] {
            Ok(d) => Some(Ok(d@)),
            Err(e) => Some(Err("builtin filter `"@ + name + "`: "@ + e@)),
        },
    }
}

/// The built-in definition of a name.
pub fn get(name: &str, defs: &Vec<Result<FilterDef, String>>) -> (r: Option<
    Result<FilterDef, String>,
>)
    requires
        defs@.len() == builtin_names().len(),
    ensures
        shown(r) == builtin_of(defs@, name@),
{
    let all = names();
    let mut i: usize = 0;
    assert(texts(all@).len() == all@.len());
    while i < all.len()
        invariant
            i <= all@.len(),
            texts(all@) == builtin_names(),
            all@.len() == builtin_names().len(),
            defs@.len() == all@.len(),
            index_from(builtin_names(), name@, 0) == index_from(builtin_names(), name@, i as int),
        decreases all@.len() - i,
    {
        assert(texts(all@)[i as int] == all@[i as int]@);
        if text::same(all[i].as_str(), name) {
            return match &defs[i] {
                Ok(d) => Some(Ok(d.copy())),
                Err(e) => {
                    let mut out = "builtin filter `".to_owned();
                    out.append(name);
                    out.append("`: ");
                    out.append(e.as_str());
                    Some(Err(out))
                },
            };
        }
        i += 1;
    }
    None
}

/// There is a built-in definition, or a reason why it cannot be read, for exactly the
/// built-in names.
pub proof fn law_answers_for_its_names(defs: Seq<Result<FilterDef, String>>, name: Seq<char>)
    ensures
        builtin_of(defs, name) is Some <==> builtin_names().contains(name),
{
    lemma_index(builtin_names(), name, 0);
}

/// Whether every definition carries the name at its place and is not refused.
pub open spec fn all_good(defs: Seq<Result<FilterDef, String>>) -> bool {
    &&& defs.len() == builtin_names().len()
    &&& forall|i: int|
        0 <= i < defs.len() ==> match #[trigger] defs[i] {
            Ok(d) => d@.name == builtin_names()[i] && refusal(d@) is None,
            Err(_) => false,
        }
}

/// Where every definition carries its own name and is not refused, the answer for every
/// built-in name carries the name asked for and is not refused, so that it compiles.
pub proof fn law_good_definitions_compile(defs: Seq<Result<FilterDef, String>>, name: Seq<char>)
    requires
        all_good(defs),
        builtin_names().contains(name),
    ensures
        builtin_of(defs, name) matches Some(Ok(d)) && d.name == name && refusal(d) is None,
{
    lemma_index(builtin_names(), name, 0);
    let i = index_from(builtin_names(), name, 0)->0;
    assert(defs[i] is Ok);
}

/// An index is found exactly if the name stands there or further on.
proof fn lemma_index(names: Seq<Seq<char>>, name: Seq<char>, i: int)
    requires
        0 <= i <= names.len(),
    ensures
        match index_from(names, name, i) {
            Some(k) => i <= k < names.len() && names[k] == name && forall|j: int|
                i <= j < k ==> names[j] != name,
            None => forall|j: int| i <= j < names.len() ==> names[j] != name,
        },
    decreases names.len() - i,
{
    if i < names.len() {
        lemma_index(names, name, i + 1);
    }
}

/// The filters that come with the program, in order, and the place of each.
pub proof fn law_shipped_names(i: int)
    ensures
        builtin_names().len() == 10,
        builtin_names()[0] == "sshd"@ && builtin_names()[1] == "postfix"@ && builtin_names()[2]
            == "postfix-sasl"@ && builtin_names()[3] == "dovecot"@ && builtin_names()[4]
            == "proftpd"@ && builtin_names()[5] == "webmin"@ && builtin_names()[6]
            == "apache-auth"@ && builtin_names()[7] == "nginx-auth"@ && builtin_names()[8]
            == "wordpress"@ && builtin_names()[9] == "roundcube"@,
{
}

/// The answer for a name is the definition at its place, or its error with the name in
/// front.
pub proof fn law_definition_of_a_name(defs: Seq<Result<FilterDef, String>>, i: int)
    requires
        0 <= i < builtin_names().len(),
        forall|j: int| 0 <= j < i ==> builtin_names()[j] != builtin_names()[i],
    ensures
        match defs[i] {
            Ok(d) => builtin_of(defs, builtin_names()[i]) == Some(Ok::<DefView, Seq<char>>(d@)),
            Err(e) => builtin_of(defs, builtin_names()[i]) == Some(
                Err::<DefView, Seq<char>>(
                    "builtin filter `"@ + builtin_names()[i] + "`: "@ + e@,
                ),
            ),
        },
{
    lemma_index(builtin_names(), builtin_names()[i], 0);
}

} // verus!
