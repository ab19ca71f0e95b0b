use vstd::prelude::*;
use crate::election::{ElectionResult, PresidentialAction};
use crate::error::PlayerID;

verus! {

/// The presidential rotation: who was president last, who is next, and who
/// follows (kept apart so that a special election changes only the next one).
#[derive(Debug, Clone, Copy, PartialEq, Eq, Structural)]
pub struct Rotation {
    pub current: PlayerID,
    pub next: PlayerID,
    pub follow_on: PlayerID,
}

/// `next` takes the follow-on seat, which moves on by one seat round the table.
pub open spec fn spec_advance_mod_one(next: PlayerID, follow_on: PlayerID, table_size: nat) -> (PlayerID, PlayerID) {
    (follow_on, if follow_on >= table_size { 1 } else { (follow_on + 1) as usize })
}

/// Moves `next` on past dead players, at most `fuel` times.
pub open spec fn spec_skip_dead(next: PlayerID, follow_on: PlayerID, table_size: nat, dead: Seq<PlayerID>, fuel: nat) -> (PlayerID, PlayerID)
    decreases fuel,
{
    if fuel == 0 || !dead.contains(next) {
        (next, follow_on)
    } else {
        let (n, f) = spec_advance_mod_one(next, follow_on, table_size);
        spec_skip_dead(n, f, table_size, dead, (fuel - 1) as nat)
    }
}

/// The next president takes office; the one after is the next living player.
pub open spec fn spec_advance_one(s: Rotation, table_size: nat, dead: Seq<PlayerID>) -> Rotation {
    let (n, f) = spec_advance_mod_one(s.next, s.follow_on, table_size);
    let (n2, f2) = spec_skip_dead(n, f, table_size, dead, table_size + 1);
    Rotation { current: s.next, next: n2, follow_on: f2 }
}

/// Advances until `president` holds office, at most `fuel` times.
pub open spec fn spec_advance_until(s: Rotation, president: PlayerID, table_size: nat, dead: Seq<PlayerID>, fuel: nat) -> Rotation
    decreases fuel,
{
    if fuel == 0 || s.current == president {
        s
    } else {
        spec_advance_until(spec_advance_one(s, table_size, dead), president, table_size, dead, (fuel - 1) as nat)
    }
}

/// The rotation and the dead players after the history: a top-deck passes
/// three presidencies, a government advances to its president and then
/// applies a kill or a special election.
pub open spec fn rotation_after(govs: Seq<ElectionResult>, table_size: nat) -> (Rotation, Seq<PlayerID>)
    decreases govs.len(),
{
    if govs.len() == 0 {
        (Rotation { current: 0, next: 1, follow_on: 2 }, Seq::empty())
    } else {
        let (s, dead) = rotation_after(govs.drop_last(), table_size);
        match govs.last() {
            ElectionResult::TopDeck(_, _) => (
                spec_advance_one(spec_advance_one(spec_advance_one(s, table_size, dead), table_size, dead), table_size, dead),
                dead,
            ),
            ElectionResult::Election(g) => {
                let s2 = spec_advance_until(s, g.president, table_size, dead, 2 * table_size + 2);
                match g.presidential_action {
                    PresidentialAction::Kill(p) => (s2, dead.push(p)),
                    PresidentialAction::SpecialElection(np) => (Rotation { current: s2.current, next: np, follow_on: s2.next }, dead),
                    _ => (s2, dead),
                }
            },
        }
    }
}

/// `player` can be one of the next three presidents.
pub open spec fn eligible_president(govs: Seq<ElectionResult>, table_size: nat, player: PlayerID) -> bool {
    let (s, dead) = rotation_after(govs, table_size);
    let s1 = spec_advance_one(s, table_size, dead);
    let s2 = spec_advance_one(s1, table_size, dead);
    let s3 = spec_advance_one(s2, table_size, dead);
    s1.current == player || s2.current == player || s3.current == player
}

fn advance_mod_one(next: PlayerID, follow_on: PlayerID, table_size: usize) -> (r: (PlayerID, PlayerID))
    ensures
        r == spec_advance_mod_one(next, follow_on, table_size as nat),
{
    (follow_on, if follow_on >= table_size { 1 } else { follow_on + 1 })
}

fn advance_one(s: Rotation, table_size: usize, dead: &Vec<PlayerID>) -> (r: Rotation)
    requires
        table_size < usize::MAX,
    ensures
        r == spec_advance_one(s, table_size as nat, dead@),
{
    let (n0, f0) = advance_mod_one(s.next, s.follow_on, table_size);
    let mut n = n0;
    let mut f = f0;
    let mut fuel: usize = table_size + 1;
    while fuel > 0 && crate::counter::contains_player(dead, n)
        invariant
            spec_skip_dead(n0, f0, table_size as nat, dead@, table_size as nat + 1)
                == spec_skip_dead(n, f, table_size as nat, dead@, fuel as nat),
        decreases fuel,
    {
        let (n2, f2) = advance_mod_one(n, f, table_size);
        n = n2;
        f = f2;
        fuel = fuel - 1;
    }
    Rotation { current: s.next, next: n, follow_on: f }
}

fn advance_until(s: Rotation, president: PlayerID, table_size: usize, dead: &Vec<PlayerID>) -> (r: Rotation)
    requires
        table_size < usize::MAX / 4,
    ensures
        r == spec_advance_until(s, president, table_size as nat, dead@, 2 * table_size as nat + 2),
{
    let mut cur = s;
    let mut fuel: usize = 2 * table_size + 2;
    while fuel > 0 && cur.current != president
        invariant
            table_size < usize::MAX / 4,
            spec_advance_until(s, president, table_size as nat, dead@, 2 * table_size as nat + 2)
                == spec_advance_until(cur, president, table_size as nat, dead@, fuel as nat),
        decreases fuel,
    {
        cur = advance_one(cur, table_size, dead);
        fuel = fuel - 1;
    }
    cur
}

/// The rotation and the dead players after the history.
pub fn rotation_after_history(governments: &Vec<ElectionResult>, table_size: usize) -> (r: (Rotation, Vec<PlayerID>))
    requires
        table_size < usize::MAX / 4,
    ensures
        (r.0, r.1@) == rotation_after(governments@, table_size as nat),
{
    let mut s = Rotation { current: 0, next: 1, follow_on: 2 };
    let mut dead: Vec<PlayerID> = Vec::new();
    let mut i: usize = 0;
    while i < governments.len()
        invariant
            table_size < usize::MAX / 4,
            i <= governments@.len(),
            (s, dead@) == rotation_after(governments@.subrange(0, i as int), table_size as nat),
        decreases governments@.len() - i,
    {
        assert(governments@.subrange(0, i + 1 as int).drop_last() =~= governments@.subrange(0, i as int));
        match &governments[i] {
            ElectionResult::TopDeck(_, _) => {
                s = advance_one(s, table_size, &dead);
                s = advance_one(s, table_size, &dead);
                s = advance_one(s, table_size, &dead);
            },
            ElectionResult::Election(gov) => {
                s = advance_until(s, gov.president, table_size, &dead);
                match gov.presidential_action {
                    PresidentialAction::Kill(p) => {
                        dead.push(p);
                    },
                    PresidentialAction::SpecialElection(np) => {
                        s = Rotation { current: s.current, next: np, follow_on: s.next };
                    },
                    _ => {},
                }
            },
        }
        i = i + 1;
    }
    assert(governments@.subrange(0, i as int) =~= governments@);
    (s, dead)
}

/// Whether `player` can be one of the next three presidents.
pub fn is_eligible_president(governments: &Vec<ElectionResult>, table_size: usize, player: PlayerID) -> (r: bool)
    requires
        table_size < usize::MAX / 4,
    ensures
        r == eligible_president(governments@, table_size as nat, player),
{
    let (s, dead) = rotation_after_history(governments, table_size);
    let s1 = advance_one(s, table_size, &dead);
    if s1.current == player {
        return true;
    }
    let s2 = advance_one(s1, table_size, &dead);
    if s2.current == player {
        return true;
    }
    let s3 = advance_one(s2, table_size, &dead);
    s3.current == player
}

} // verus!
