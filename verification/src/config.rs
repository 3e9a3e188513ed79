//! Configuration lookup over host-supplied properties.
//!
//! Scalar configuration comes from the process environment. The host reads
//! the environment and hands the variables in as plain name and value
//! pairs; the lookup computes the conventional variable name — section and
//! property uppercased, joined by a double underscore — and returns the
//! first matching value, for the host to parse.

use vstd::prelude::*;
use vstd::string::StrSliceExecFns;

verus! {

/// One property the host hands in: a variable name and its value.
pub struct Prop {
    pub name: String,
    pub value: String,
}

/// The Unicode uppercase mapping of a character sequence: what
/// `str::to_uppercase` returns, a function of the characters alone.
pub uninterp spec fn upper_of(s: Seq<char>) -> Seq<char>;

/// Relies on `str::to_uppercase`: returns the Unicode uppercase mapping of
/// the characters, which depends on the characters alone.
#[verifier::external_body]
fn to_upper(s: &str) -> (r: String)
    ensures
        r@ == upper_of(s@),
{
    s.to_uppercase()
}

/// The variable name a section and property denote.
pub open spec fn prop_var_name(section: Seq<char>, property: Seq<char>) -> Seq<char> {
    upper_of(section) + seq!['_', '_'] + upper_of(property)
}

/// The value of the first property whose name matches, if any.
pub open spec fn prop_lookup(props: Seq<Prop>, name: Seq<char>) -> Option<Seq<char>>
    decreases props.len(),
{
    if props.len() == 0 {
        None
    } else if props[0].name@ == name {
        Some(props[0].value@)
    } else {
        prop_lookup(props.drop_first(), name)
    }
}

proof fn lemma_prop_lookup_skip(props: Seq<Prop>, name: Seq<char>, i: int)
    requires
        0 <= i <= props.len(),
        forall|j: int| 0 <= j < i ==> (#[trigger] props[j]).name@ != name,
    ensures
        prop_lookup(props, name) == prop_lookup(props.skip(i), name),
    decreases i,
{
    if i > 0 {
        assert(props[0].name@ != name);
        assert forall|j: int| 0 <= j < i - 1 implies (#[trigger] props.drop_first()[j]).name@
            != name by {
            assert(props.drop_first()[j] == props[j + 1]);
        }
        lemma_prop_lookup_skip(props.drop_first(), name, i - 1);
        assert(props.drop_first().skip(i - 1) =~= props.skip(i));
    } else {
        assert(props.skip(0) =~= props);
    }
}

/// Whether `name` is `a`, a double underscore, then `b`.
fn name_matches(name: &str, a: &str, b: &str) -> (r: bool)
    ensures
        r == (name@ == a@ + seq!['_', '_'] + b@),
{
    let ghost expected = a@ + seq!['_', '_'] + b@;
    let na = a.unicode_len();
    let nb = b.unicode_len();
    let nn = name.unicode_len();
    let total = match na.checked_add(2) {
        Some(t) => match t.checked_add(nb) {
            Some(t2) => t2,
            None => {
                return false;
            },
        },
        None => {
            return false;
        },
    };
    if nn != total {
        return false;
    }
    let mut i: usize = 0;
    while i < na
        invariant
            i <= na,
            na == a@.len(),
            nb == b@.len(),
            nn == name@.len(),
            nn == na + 2 + nb,
            expected == a@ + seq!['_', '_'] + b@,
            forall|j: int| 0 <= j < i ==> name@[j] == expected[j],
        decreases na - i,
    {
        if name.get_char(i) != a.get_char(i) {
            proof {
                assert(expected[i as int] == a@[i as int]);
            }
            return false;
        }
        proof {
            assert(expected[i as int] == a@[i as int]);
        }
        i = i + 1;
    }
    if name.get_char(na) != '_' || name.get_char(na + 1) != '_' {
        proof {
            assert(expected[na as int] == '_');
            assert(expected[na as int + 1] == '_');
        }
        return false;
    }
    let mut j: usize = 0;
    while j < nb
        invariant
            j <= nb,
            na == a@.len(),
            nb == b@.len(),
            nn == name@.len(),
            nn == na + 2 + nb,
            expected == a@ + seq!['_', '_'] + b@,
            forall|k: int| 0 <= k < na + 2 ==> name@[k] == expected[k],
            forall|k: int| 0 <= k < j ==> #[trigger] name@[na + 2 + k] == expected[na + 2 + k],
        decreases nb - j,
    {
        if name.get_char(na + 2 + j) != b.get_char(j) {
            proof {
                assert(expected[na + 2 + j as int] == b@[j as int]);
            }
            return false;
        }
        proof {
            assert(expected[na + 2 + j as int] == b@[j as int]);
        }
        j = j + 1;
    }
    proof {
        assert forall|idx: int| 0 <= idx < nn implies name@[idx] == expected[idx] by {
            if idx >= na + 2 {
                let k = idx - (na + 2);
                assert(name@[na + 2 + k] == expected[na + 2 + k]);
            }
        }
        assert(name@ =~= expected);
    }
    true
}

/// Looks the property up among the host-supplied variables: the value of
/// the first pair whose name is the section and property's conventional
/// variable name, or nothing when no pair matches. Parsing the value is
/// the caller's business.
pub fn get_prop(props: &Vec<Prop>, section: &str, property: &str) -> (r: Option<String>)
    ensures
        match r {
            Some(v) => prop_lookup(props@, prop_var_name(section@, property@)) == Some(v@),
            None => prop_lookup(props@, prop_var_name(section@, property@)) is None,
        },
{
    let ghost name = prop_var_name(section@, property@);
    let su = to_upper(section);
    let pu = to_upper(property);
    let mut i: usize = 0;
    while i < props.len()
        invariant
            i <= props@.len(),
            su@ == upper_of(section@),
            pu@ == upper_of(property@),
            name == prop_var_name(section@, property@),
            forall|j: int| 0 <= j < i ==> (#[trigger] props@[j]).name@ != name,
        decreases props@.len() - i,
    {
        if name_matches(props[i].name.as_str(), su.as_str(), pu.as_str()) {
            proof {
                lemma_prop_lookup_skip(props@, name, i as int);
                assert(props@.skip(i as int)[0] == props@[i as int]);
            }
            return Some(props[i].value.clone());
        }
        i = i + 1;
    }
    proof {
        lemma_prop_lookup_skip(props@, name, i as int);
        assert(props@.skip(i as int) =~= Seq::<Prop>::empty());
    }
    None
}

} // verus!
