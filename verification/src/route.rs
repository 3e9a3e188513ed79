//! HTTP method guards for route declarations.

use vstd::prelude::*;
use vstd::string::StrSliceExecFns;

verus! {

/// The HTTP method a route is guarded by.
#[derive(Clone, Copy, PartialEq, Eq, Structural, Debug)]
pub enum GuardType {
    Get,
    Post,
    Put,
    Delete,
    Head,
    Connect,
    Options,
    Trace,
    Patch,
}

/// The guard constructor name of a method, as the serving layer spells it.
pub open spec fn guard_name(g: GuardType) -> Seq<char> {
    match g {
        GuardType::Get => "Get"@,
        GuardType::Post => "Post"@,
        GuardType::Put => "Put"@,
        GuardType::Delete => "Delete"@,
        GuardType::Head => "Head"@,
        GuardType::Connect => "Connect"@,
        GuardType::Options => "Options"@,
        GuardType::Trace => "Trace"@,
        GuardType::Patch => "Patch"@,
    }
}

/// Which method a lower-case attribute name denotes, if any.
pub open spec fn parse_guard(s: Seq<char>) -> Result<GuardType, ()> {
    if s == "get"@ {
        Ok(GuardType::Get)
    } else if s == "post"@ {
        Ok(GuardType::Post)
    } else if s == "put"@ {
        Ok(GuardType::Put)
    } else if s == "delete"@ {
        Ok(GuardType::Delete)
    } else if s == "head"@ {
        Ok(GuardType::Head)
    } else if s == "connect"@ {
        Ok(GuardType::Connect)
    } else if s == "options"@ {
        Ok(GuardType::Options)
    } else if s == "trace"@ {
        Ok(GuardType::Trace)
    } else if s == "patch"@ {
        Ok(GuardType::Patch)
    } else {
        Err(())
    }
}

fn str_eq_chars(a: &str, b: &str) -> (r: bool)
    ensures
        r == (a@ == b@),
{
    let na = a.unicode_len();
    let nb = b.unicode_len();
    if na != nb {
        return false;
    }
    let mut i: usize = 0;
    while i < na
        invariant
            i <= na,
            na == a@.len(),
            na == b@.len(),
            forall|j: int| 0 <= j < i ==> a@[j] == b@[j],
        decreases na - i,
    {
        if a.get_char(i) != b.get_char(i) {
            return false;
        }
        i = i + 1;
    }
    proof {
        assert(a@ =~= b@);
    }
    true
}

impl GuardType {
    /// The guard constructor name of this method.
    pub fn as_guard(&self) -> (r: &'static str)
        ensures
            r@ == guard_name(*self),
    {
        match self {
            GuardType::Get => "Get",
            GuardType::Post => "Post",
            GuardType::Put => "Put",
            GuardType::Delete => "Delete",
            GuardType::Head => "Head",
            GuardType::Connect => "Connect",
            GuardType::Options => "Options",
            GuardType::Trace => "Trace",
            GuardType::Patch => "Patch",
        }
    }

    /// Parses a lower-case method name into its guard.
    pub fn from_str(input: &str) -> (r: Result<GuardType, ()>)
        ensures
            r == parse_guard(input@),
    {
        if str_eq_chars(input, "get") {
            Ok(GuardType::Get)
        } else if str_eq_chars(input, "post") {
            Ok(GuardType::Post)
        } else if str_eq_chars(input, "put") {
            Ok(GuardType::Put)
        } else if str_eq_chars(input, "delete") {
            Ok(GuardType::Delete)
        } else if str_eq_chars(input, "head") {
            Ok(GuardType::Head)
        } else if str_eq_chars(input, "connect") {
            Ok(GuardType::Connect)
        } else if str_eq_chars(input, "options") {
            Ok(GuardType::Options)
        } else if str_eq_chars(input, "trace") {
            Ok(GuardType::Trace)
        } else if str_eq_chars(input, "patch") {
            Ok(GuardType::Patch)
        } else {
            Err(())
        }
    }
}

} // verus!
