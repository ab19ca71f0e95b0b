use vstd::prelude::*;

verus! {

/// A policy card: liberal (blue) or fascist (red).
#[derive(Clone, Copy, PartialEq, Eq, Structural, Hash, Debug)]
pub enum Policy {
    Liberal,
    Fascist,
}

/// The canonical rank of a policy: fascist sorts before liberal.
pub open spec fn policy_rank(p: Policy) -> nat {
    match p {
        Policy::Fascist => 0,
        Policy::Liberal => 1,
    }
}

/// The policy that a single claim letter stands for ('l'/'b' liberal,
/// 'f'/'r' fascist, either case).
pub open spec fn policy_of_byte(b: u8) -> Option<Policy> {
    if b == 0x6c || b == 0x4c || b == 0x62 || b == 0x42 {
        Some(Policy::Liberal)
    } else if b == 0x66 || b == 0x46 || b == 0x72 || b == 0x52 {
        Some(Policy::Fascist)
    } else {
        None
    }
}

impl View for Policy {
    type V = Policy;

    open spec fn view(&self) -> Policy {
        *self
    }
}

impl DeepView for Policy {
    type V = Policy;

    open spec fn deep_view(&self) -> Policy {
        *self
    }
}

impl Policy {
    /// Position of this policy in the canonical order (fascist first).
    pub fn rank(&self) -> (r: u8)
        ensures
            r as nat == policy_rank(*self),
    {
        match self {
            Policy::Fascist => 0,
            Policy::Liberal => 1,
        }
    }

    /// Parses one claim letter.
    pub fn from_byte(b: u8) -> (r: Option<Policy>)
        ensures
            r == policy_of_byte(b),
    {
        if b == 0x6c || b == 0x4c || b == 0x62 || b == 0x42 {
            Some(Policy::Liberal)
        } else if b == 0x66 || b == 0x46 || b == 0x72 || b == 0x52 {
            Some(Policy::Fascist)
        } else {
            None
        }
    }

    /// The single-letter display form: "B" for liberal, "R" for fascist.
    pub fn letter(&self) -> (r: char)
        ensures
            r == (if *self == Policy::Liberal { 'B' } else { 'R' }),
    {
        match self {
            Policy::Liberal => 'B',
            Policy::Fascist => 'R',
        }
    }
}

} // verus!
