use vstd::prelude::*;
use crate::combinatorics::binomial;
use crate::election::PresidentialAction;
use crate::error::{Error, PlayerID};
use crate::policy::Policy;
use crate::roles::{generate_assignments_cached, is_role_assignment, role_population};
use crate::secret_role::SecretRole;

verus! {

/// The table: seats, roles, deck, board and thresholds.
#[derive(Debug, Clone, Copy, PartialEq, Eq)]
pub struct GameConfiguration {
    pub table_size: usize,
    pub num_regular_fascists: usize,
    pub initial_liberal_deck_policies: usize,
    pub initial_fascist_deck_policies: usize,
    pub initial_placed_liberal_policies: usize,
    pub initial_placed_fascist_policies: usize,
    pub fascist_board_configuration: [PresidentialAction; 5],
    pub hitler_zone_passed_fascist_policies: usize,
    pub veto_zone_passed_fascist_policies: usize,
}

/// A player's seat and display name.
#[derive(Debug, Clone, PartialEq, Eq)]
pub struct PlayerInfo {
    pub seat: PlayerID,
    pub name: String,
}

/// The bounds that every configuration keeps.
pub open spec fn config_ok(c: GameConfiguration) -> bool {
    &&& c.num_regular_fascists < c.table_size / 2
    &&& 5 <= c.table_size <= 10
    &&& 10 <= c.initial_fascist_deck_policies <= 19
    &&& 5 <= c.initial_liberal_deck_policies <= 8
    &&& c.initial_placed_liberal_policies <= 2
    &&& c.initial_placed_fascist_policies <= 2
    &&& 1 <= c.hitler_zone_passed_fascist_policies <= 5
    &&& 1 <= c.veto_zone_passed_fascist_policies <= 5
}

pub open spec fn board_for(table_size: usize) -> [PresidentialAction; 5] {
    if table_size == 5 || table_size == 6 {
        small_board_spec()
    } else if table_size == 7 || table_size == 8 {
        medium_board_spec()
    } else {
        large_board_spec()
    }
}

pub open spec fn small_board_spec() -> [PresidentialAction; 5] {
    [
        PresidentialAction::NoAction,
        PresidentialAction::NoAction,
        PresidentialAction::TopDeckPeek([Policy::Liberal, Policy::Liberal, Policy::Liberal]),
        PresidentialAction::Kill(0),
        PresidentialAction::Kill(0),
    ]
}

pub open spec fn medium_board_spec() -> [PresidentialAction; 5] {
    [
        PresidentialAction::NoAction,
        PresidentialAction::Investigation(0, Policy::Liberal),
        PresidentialAction::SpecialElection(0),
        PresidentialAction::Kill(0),
        PresidentialAction::Kill(0),
    ]
}

pub open spec fn large_board_spec() -> [PresidentialAction; 5] {
    [
        PresidentialAction::Investigation(0, Policy::Liberal),
        PresidentialAction::Investigation(0, Policy::Liberal),
        PresidentialAction::SpecialElection(0),
        PresidentialAction::Kill(0),
        PresidentialAction::Kill(0),
    ]
}

fn small_board() -> (r: [PresidentialAction; 5])
    ensures
        r == small_board_spec(),
{
    [
        PresidentialAction::NoAction,
        PresidentialAction::NoAction,
        PresidentialAction::TopDeckPeek([Policy::Liberal, Policy::Liberal, Policy::Liberal]),
        PresidentialAction::Kill(0),
        PresidentialAction::Kill(0),
    ]
}

fn medium_board() -> (r: [PresidentialAction; 5])
    ensures
        r == medium_board_spec(),
{
    [
        PresidentialAction::NoAction,
        PresidentialAction::Investigation(0, Policy::Liberal),
        PresidentialAction::SpecialElection(0),
        PresidentialAction::Kill(0),
        PresidentialAction::Kill(0),
    ]
}

fn large_board() -> (r: [PresidentialAction; 5])
    ensures
        r == large_board_spec(),
{
    [
        PresidentialAction::Investigation(0, Policy::Liberal),
        PresidentialAction::Investigation(0, Policy::Liberal),
        PresidentialAction::SpecialElection(0),
        PresidentialAction::Kill(0),
        PresidentialAction::Kill(0),
    ]
}

impl GameConfiguration {
    /// The standard setup for `table_size` players (5 to 10), optionally with
    /// the rebalanced deck and board of 6, 7 and 9 player games.
    pub fn new_standard(table_size: usize, rebalanced: bool) -> (r: Result<Self, Error>)
        ensures
            !(5 <= table_size <= 10) ==> r == Err::<Self, Error>(Error::BadPlayerCount(table_size)),
            5 <= table_size <= 10 ==> (r matches Ok(c) && {
                &&& c.table_size == table_size
                &&& c.hitler_zone_passed_fascist_policies == 3
                &&& c.veto_zone_passed_fascist_policies == 5
                &&& c.num_regular_fascists == (table_size - 1) / 2 - 1
                &&& c.initial_liberal_deck_policies == 6
                &&& c.initial_fascist_deck_policies == (if rebalanced && (table_size == 6 || table_size == 7 || table_size == 9) { 10usize } else { 11 })
                &&& c.initial_placed_liberal_policies == 0
                &&& c.initial_placed_fascist_policies == (if rebalanced && table_size == 6 { 1usize } else { 0 })
                &&& c.fascist_board_configuration == board_for(table_size)
                &&& config_ok(c)
            }),
    {
        let board = if table_size == 5 || table_size == 6 {
            small_board()
        } else if table_size == 7 || table_size == 8 {
            medium_board()
        } else if table_size == 9 || table_size == 10 {
            large_board()
        } else {
            return Err(Error::BadPlayerCount(table_size));
        };
        Ok(GameConfiguration {
            table_size,
            hitler_zone_passed_fascist_policies: 3,
            veto_zone_passed_fascist_policies: 5,
            num_regular_fascists: (table_size - 1) / 2 - 1,
            initial_liberal_deck_policies: 6,
            initial_fascist_deck_policies: if rebalanced && (table_size == 6 || table_size == 7 || table_size == 9) {
                10
            } else {
                11
            },
            initial_placed_liberal_policies: 0,
            initial_placed_fascist_policies: if rebalanced && table_size == 6 { 1 } else { 0 },
            fascist_board_configuration: board,
        })
    }

    /// Whether the configuration keeps its bounds.
    pub fn well_formed(&self) -> (r: bool)
        ensures
            r == config_ok(*self),
    {
        self.num_regular_fascists < self.table_size / 2
            && 5 <= self.table_size && self.table_size <= 10
            && 10 <= self.initial_fascist_deck_policies && self.initial_fascist_deck_policies <= 19
            && 5 <= self.initial_liberal_deck_policies && self.initial_liberal_deck_policies <= 8
            && self.initial_placed_liberal_policies <= 2
            && self.initial_placed_fascist_policies <= 2
            && 1 <= self.hitler_zone_passed_fascist_policies && self.hitler_zone_passed_fascist_policies <= 5
            && 1 <= self.veto_zone_passed_fascist_policies && self.veto_zone_passed_fascist_policies <= 5
    }

    /// All role assignments of this table.
    pub fn generate_assignments(&self) -> (r: Vec<Vec<SecretRole>>)
        requires
            config_ok(*self),
        ensures
            r@.len() == binomial((self.table_size - 1) as nat, self.num_regular_fascists as nat) * self.table_size,
            forall|i: int| 0 <= i < r@.len() ==> is_role_assignment(
                #[trigger] r@[i]@, self.table_size as nat, self.num_regular_fascists as nat),
            r.deep_view() == role_population(self.table_size as nat, self.num_regular_fascists as nat),
    {
        generate_assignments_cached(self.table_size, self.num_regular_fascists)
    }

    /// Seats `1..=table_size`, without names.
    pub fn generate_default_info(&self) -> (r: Vec<PlayerInfo>)
        ensures
            r@.len() == self.table_size,
            forall|i: int| 0 <= i < r@.len() ==> (#[trigger] r@[i]).seat == i + 1 && r@[i].name@.len() == 0,
    {
        generate_default_info_cached(self.table_size)
    }
}

fn generate_default_info_cached(table_size: usize) -> (r: Vec<PlayerInfo>)
    ensures
        r@.len() == table_size,
        forall|i: int| 0 <= i < r@.len() ==> (#[trigger] r@[i]).seat == i + 1 && r@[i].name@.len() == 0,
{
    let mut r: Vec<PlayerInfo> = Vec::new();
    let mut i: usize = 0;
    while i < table_size
        invariant
            i <= table_size,
            r@.len() == i,
            forall|k: int| 0 <= k < r@.len() ==> (#[trigger] r@[k]).seat == k + 1 && r@[k].name@.len() == 0,
        decreases table_size - i,
    {
        r.push(PlayerInfo { seat: i + 1, name: String::new() });
        i = i + 1;
    }
    r
}

} // verus!
