//! The permission levels of API keys.

use crate::text;
use vstd::prelude::*;

verus! {

/// What a key may do. Each level includes the ones before it.
#[derive(Debug, Clone, Copy, PartialEq, Eq, PartialOrd, Ord, Structural)]
pub enum Scope {
    /// Looking memories up.
    Read,
    /// Looking memories up and adding to them.
    Write,
    /// Everything, and the only level that a key for all tenants may have.
    Admin,
}

/// The place of a level in the order of the levels.
pub open spec fn level(scope: Scope) -> int {
    match scope {
        Scope::Read => 0,
        Scope::Write => 1,
        Scope::Admin => 2,
    }
}

/// The name of a level.
pub open spec fn scope_name(scope: Scope) -> Seq<char> {
    match scope {
        Scope::Read => "read"@,
        Scope::Write => "write"@,
        Scope::Admin => "admin"@,
    }
}

/// The level with a name.
pub open spec fn scope_named(name: Seq<char>) -> Option<Scope> {
    if name == "read"@ {
        Some(Scope::Read)
    } else if name == "write"@ {
        Some(Scope::Write)
    } else if name == "admin"@ {
        Some(Scope::Admin)
    } else {
        None
    }
}

impl Scope {
    /// Whether this level is enough where `needed` is asked for.
    pub fn allows(self, needed: Scope) -> (r: bool)
        ensures
            r == (level(self) >= level(needed)),
    {
        match (self, needed) {
            (Scope::Admin, _) => true,
            (Scope::Write, Scope::Admin) => false,
            (Scope::Write, _) => true,
            (Scope::Read, Scope::Read) => true,
            (Scope::Read, _) => false,
        }
    }

    /// The level with a name.
    pub fn parse(s: &str) -> (r: Option<Scope>)
        ensures
            r == scope_named(s@),
    {
        if text::same_text(s, "read") {
            Some(Scope::Read)
        } else if text::same_text(s, "write") {
            Some(Scope::Write)
        } else if text::same_text(s, "admin") {
            Some(Scope::Admin)
        } else {
            None
        }
    }

    /// The name of this level.
    pub fn as_str(self) -> (r: &'static str)
        ensures
            r@ == scope_name(self),
    {
        match self {
            Scope::Read => "read",
            Scope::Write => "write",
            Scope::Admin => "admin",
        }
    }
}

/// Every level is enough for itself; what is enough for a level is enough for
/// the levels below it; of two levels one is enough for the other, and both only
/// if they are the same.
pub proof fn law_levels_are_ordered(a: Scope, b: Scope, c: Scope)
    ensures
        level(a) >= level(a),
        level(a) >= level(b) && level(b) >= level(c) ==> level(a) >= level(c),
        level(a) >= level(b) || level(b) >= level(a),
        level(a) >= level(b) && level(b) >= level(a) ==> a == b,
{
}

/// The name of a level stands for that level and for no other, and every name
/// that stands for a level is that level's name.
pub proof fn law_names_stand_for_levels(scope: Scope, name: Seq<char>)
    ensures
        scope_named(scope_name(scope)) == Some(scope),
        scope_named(name) == Some(scope) <==> name == scope_name(scope),
{
    reveal_strlit("read");
    reveal_strlit("write");
    reveal_strlit("admin");
    assert("read"@.len() == 4 && "write"@.len() == 5 && "admin"@.len() == 5);
    assert("write"@[0] == 'w' && "admin"@[0] == 'a');
}

/// To write includes to read, to administer includes both, and neither is
/// included in what comes before it; and the levels are called as they are.
pub proof fn law_the_levels_and_their_names()
    ensures
        level(Scope::Read) < level(Scope::Write) < level(Scope::Admin),
        scope_name(Scope::Read) == "read"@,
        scope_name(Scope::Write) == "write"@,
        scope_name(Scope::Admin) == "admin"@,
{
}

} // verus!
