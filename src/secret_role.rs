use vstd::prelude::*;
use crate::error::Error;
use vstd::string::StringSliceAdditionalSpecFns;

verus! {

/// The hidden role of a seat.
#[derive(Clone, Copy, PartialEq, Eq, Structural, Hash, Debug, PartialOrd, Ord)]
pub enum SecretRole {
    Liberal,
    RegularFascist,
    Hitler,
}

/// Every role but `Liberal` is on the fascist team.
pub open spec fn role_is_fascist(r: SecretRole) -> bool {
    r != SecretRole::Liberal
}

/// ASCII lower-casing of one byte.
pub open spec fn ascii_lower(b: u8) -> u8 {
    if 0x41 <= b && b <= 0x5a {
        (b + 0x20) as u8
    } else {
        b
    }
}

pub open spec fn lower_bytes(s: Seq<u8>) -> Seq<u8> {
    s.map_values(|b: u8| ascii_lower(b))
}

/// The role that a name stands for, compared case-insensitively:
/// "h"/"hitler", "f"/"fascist", "l"/"b"/"lib"/"blue"/"liberal".
pub open spec fn role_of_bytes(s: Seq<u8>) -> Option<SecretRole> {
    let l = lower_bytes(s);
    if l == seq![0x68u8] || l == seq![0x68u8, 0x69, 0x74, 0x6c, 0x65, 0x72] {
        Some(SecretRole::Hitler)
    } else if l == seq![0x66u8] || l == seq![0x66u8, 0x61, 0x73, 0x63, 0x69, 0x73, 0x74] {
        Some(SecretRole::RegularFascist)
    } else if l == seq![0x6cu8] || l == seq![0x62u8] || l == seq![0x6cu8, 0x69, 0x62]
        || l == seq![0x62u8, 0x6c, 0x75, 0x65]
        || l == seq![0x6cu8, 0x69, 0x62, 0x65, 0x72, 0x61, 0x6c] {
        Some(SecretRole::Liberal)
    } else {
        None
    }
}

fn lowercase_bytes(s: &[u8]) -> (r: Vec<u8>)
    ensures
        r@ == lower_bytes(s@),
{
    let mut r: Vec<u8> = Vec::new();
    let mut i: usize = 0;
    while i < s.len()
        invariant
            i <= s@.len(),
            r@ == lower_bytes(s@.subrange(0, i as int)),
        decreases s@.len() - i,
    {
        let b = s[i];
        let lb = if 0x41 <= b && b <= 0x5a {
            b + 0x20
        } else {
            b
        };
        r.push(lb);
        i = i + 1;
        assert(s@.subrange(0, i as int) == s@.subrange(0, i - 1 as int).push(b));
    }
    assert(s@.subrange(0, s@.len() as int) == s@);
    r
}

/// Byte-wise equality of two byte strings.
pub fn bytes_equal(a: &Vec<u8>, b: &Vec<u8>) -> (r: bool)
    ensures
        r == (a@ == b@),
{
    if a.len() != b.len() {
        return false;
    }
    let mut i: usize = 0;
    while i < a.len()
        invariant
            a@.len() == b@.len(),
            i <= a@.len(),
            forall|j: int| 0 <= j < i ==> a@[j] == b@[j],
        decreases a@.len() - i,
    {
        if a[i] != b[i] {
            return false;
        }
        i = i + 1;
    }
    assert(a@ =~= b@);
    true
}

impl View for SecretRole {
    type V = SecretRole;

    open spec fn view(&self) -> SecretRole {
        *self
    }
}

impl DeepView for SecretRole {
    type V = SecretRole;

    open spec fn deep_view(&self) -> SecretRole {
        *self
    }
}

impl SecretRole {
    pub fn is_fascist(&self) -> (r: bool)
        ensures
            r == role_is_fascist(*self),
    {
        !matches!(self, SecretRole::Liberal)
    }

    /// Parses a role name; unknown names are a `ParseRoleError` holding the input.
    pub fn parse(s: &str) -> (r: Result<SecretRole, Error>)
        ensures
            role_of_bytes(s.spec_bytes()) matches Some(role) ==> r == Ok::<SecretRole, Error>(role),
            role_of_bytes(s.spec_bytes()) is None ==> r is Err,
            r matches Err(e) ==> (e matches Error::ParseRoleError(t) && t@ == s@),
    {
        let l = lowercase_bytes(s.as_bytes());
        let h1 = vec![0x68u8];
        let h2 = vec![0x68u8, 0x69, 0x74, 0x6c, 0x65, 0x72];
        let f1 = vec![0x66u8];
        let f2 = vec![0x66u8, 0x61, 0x73, 0x63, 0x69, 0x73, 0x74];
        let l1 = vec![0x6cu8];
        let l2 = vec![0x62u8];
        let l3 = vec![0x6cu8, 0x69, 0x62];
        let l4 = vec![0x62u8, 0x6c, 0x75, 0x65];
        let l5 = vec![0x6cu8, 0x69, 0x62, 0x65, 0x72, 0x61, 0x6c];
        assert(h1@ =~= seq![0x68u8]);
        assert(h2@ =~= seq![0x68u8, 0x69, 0x74, 0x6c, 0x65, 0x72]);
        assert(f1@ =~= seq![0x66u8]);
        assert(f2@ =~= seq![0x66u8, 0x61, 0x73, 0x63, 0x69, 0x73, 0x74]);
        assert(l1@ =~= seq![0x6cu8]);
        assert(l2@ =~= seq![0x62u8]);
        assert(l3@ =~= seq![0x6cu8, 0x69, 0x62]);
        assert(l4@ =~= seq![0x62u8, 0x6c, 0x75, 0x65]);
        assert(l5@ =~= seq![0x6cu8, 0x69, 0x62, 0x65, 0x72, 0x61, 0x6c]);
        if bytes_equal(&l, &h1) || bytes_equal(&l, &h2) {
            Ok(SecretRole::Hitler)
        } else if bytes_equal(&l, &f1) || bytes_equal(&l, &f2) {
            Ok(SecretRole::RegularFascist)
        } else if bytes_equal(&l, &l1) || bytes_equal(&l, &l2) || bytes_equal(&l, &l3) || bytes_equal(&l, &l4) || bytes_equal(&l, &l5) {
            Ok(SecretRole::Liberal)
        } else {
            Err(Error::ParseRoleError(s.to_owned()))
        }
    }

    /// Display name of the role.
    pub fn name(&self) -> (r: &'static str)
        ensures
            *self == SecretRole::Liberal ==> r@ == "Liberal"@,
            *self == SecretRole::RegularFascist ==> r@ == "Fascist"@,
            *self == SecretRole::Hitler ==> r@ == "Hitler"@,
    {
        match self {
            SecretRole::Liberal => "Liberal",
            SecretRole::RegularFascist => "Fascist",
            SecretRole::Hitler => "Hitler",
        }
    }
}

} // verus!
