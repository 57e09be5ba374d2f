//! Principal classification. Heat should reflect human demand, so automated
//! accessors (machine accounts, service accounts, system principals) are told apart
//! and can be left out of scoring.

use crate::text::{ascii_upper, begins, chars_of, same_text, starts_with, text_of};
use vstd::prelude::*;

verus! {

#[derive(Debug, Clone, Copy, PartialEq, Eq, Structural)]
pub enum PrincipalClass {
    Human,
    /// A computer account: its name ends in `$`.
    Machine,
    /// LOCAL SERVICE or NETWORK SERVICE.
    Service,
    /// SYSTEM, a well-known system SID, or ANONYMOUS LOGON.
    System,
    /// No name: observed but not classified.
    Unknown,
}

impl PrincipalClass {
    /// Whether a principal is normally left out of heat scoring. An unknown one is
    /// not: better to count a genuine user twice than to drop activity.
    pub fn is_automation(self) -> (r: bool)
        ensures
            r == (self == PrincipalClass::Machine || self == PrincipalClass::Service || self
                == PrincipalClass::System),
    {
        match self {
            PrincipalClass::Machine => true,
            PrincipalClass::Service => true,
            PrincipalClass::System => true,
            PrincipalClass::Human => false,
            PrincipalClass::Unknown => false,
        }
    }
}

/// What stands after the last backslash; all of a text without one.
pub open spec fn bare_name(s: Seq<char>) -> Seq<char>
    decreases s.len(),
{
    if s.len() == 0 || s.last() == '\\' {
        Seq::empty()
    } else {
        bare_name(s.drop_last()).push(s.last())
    }
}

/// A text with its ASCII letters in upper case.
pub open spec fn upper_case(s: Seq<char>) -> Seq<char> {
    s.map_values(|c: char| ascii_upper(c))
}

/// The class of an account: nothing, a well-known SID, a well-known name, a computer
/// account, or else a person.
pub open spec fn class_of(account: Seq<char>) -> PrincipalClass {
    let bare = bare_name(account);
    let upper = upper_case(bare);
    if account.len() == 0 || account == "<unknown>"@ {
        PrincipalClass::Unknown
    } else if starts_with(account, "S-1-5-18"@) {
        PrincipalClass::System
    } else if starts_with(account, "S-1-5-19"@) || starts_with(account, "S-1-5-20"@) {
        PrincipalClass::Service
    } else if starts_with(account, "S-1-5-7"@) {
        PrincipalClass::System
    } else if upper == "SYSTEM"@ || upper == "ANONYMOUS LOGON"@ {
        PrincipalClass::System
    } else if upper == "LOCAL SERVICE"@ || upper == "NETWORK SERVICE"@ {
        PrincipalClass::Service
    } else if bare.len() > 0 && bare.last() == '$' {
        PrincipalClass::Machine
    } else {
        PrincipalClass::Human
    }
}

fn upper_char(c: char) -> (r: char)
    ensures
        r == ascii_upper(c),
{
    if 'a' <= c && c <= 'z' {
        ((c as u8) - 32) as char
    } else {
        c
    }
}

/// What stands behind the last backslash is the bare name.
pub proof fn lemma_bare_name(s: Seq<char>, from: int)
    requires
        0 <= from <= s.len(),
        from > 0 ==> s[from - 1] == '\\',
        forall|i: int| from <= i < s.len() ==> s[i] != '\\',
    ensures
        bare_name(s) == s.skip(from),
    decreases s.len(),
{
    if from < s.len() {
        lemma_bare_name(s.drop_last(), from);
        assert(s.drop_last().skip(from).push(s.last()) =~= s.skip(from));
    } else {
        assert(s.skip(from) =~= Seq::empty());
    }
}

/// Classify an account: `DOMAIN\name`, a bare name, or a SID.
pub fn classify(account: &str) -> (r: PrincipalClass)
    ensures
        r == class_of(account@),
{
    let v = chars_of(account);
    if v.len() == 0 || same_text(account, "<unknown>") {
        return PrincipalClass::Unknown;
    }
    if begins(v.as_slice(), "S-1-5-18") {
        return PrincipalClass::System;
    }
    if begins(v.as_slice(), "S-1-5-19") || begins(v.as_slice(), "S-1-5-20") {
        return PrincipalClass::Service;
    }
    if begins(v.as_slice(), "S-1-5-7") {
        return PrincipalClass::System;
    }
    let mut from: usize = v.len();
    while from > 0 && v[from - 1] != '\\'
        invariant
            from <= v@.len(),
            forall|i: int| from <= i < v@.len() ==> v@[i] != '\\',
        decreases from,
    {
        from = from - 1;
    }
    proof {
        lemma_bare_name(v@, from as int);
    }
    let ghost bare = v@.skip(from as int);
    let mut upper: Vec<char> = Vec::new();
    let mut i: usize = from;
    while i < v.len()
        invariant
            from <= i <= v@.len(),
            bare == v@.skip(from as int),
            upper@ == upper_case(bare.take(i - from)),
        decreases v@.len() - i,
    {
        upper.push(upper_char(v[i]));
        assert(upper@ =~= upper_case(bare.take(i + 1 - from)));
        i = i + 1;
    }
    assert(bare.take(bare.len() as int) =~= bare);
    let name = text_of(upper.as_slice(), 0, upper.len());
    assert(upper@.subrange(0, upper@.len() as int) =~= upper@);
    if same_text(name.as_str(), "SYSTEM") || same_text(name.as_str(), "ANONYMOUS LOGON") {
        return PrincipalClass::System;
    }
    if same_text(name.as_str(), "LOCAL SERVICE") || same_text(name.as_str(), "NETWORK SERVICE") {
        return PrincipalClass::Service;
    }
    if from < v.len() && v[v.len() - 1] == '$' {
        return PrincipalClass::Machine;
    }
    PrincipalClass::Human
}

} // verus!
