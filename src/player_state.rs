use vstd::prelude::*;
use crate::election::{
    claims_in_range, spec_atomic_draw, passed_policy_of, CardContext, ElectedGovernment,
    ElectionResult, PresidentialAction,
};
use crate::error::{Error, PlayerID};
use crate::filter_engine::first_unknown;
use crate::game_configuration::{config_ok, GameConfiguration, PlayerInfo};
use crate::information::Information;
use crate::policy::Policy;
use crate::secret_role::SecretRole;

verus! {

/// The session: the table, the facts entered by hand, the players and the
/// election history.
#[derive(Debug)]
pub struct PlayerState {
    pub table_configuration: GameConfiguration,
    pub available_information: Vec<Information>,
    pub player_info: Vec<PlayerInfo>,
    pub governments: Vec<ElectionResult>,
    /// All role assignments of the table, computed once with the session.
    pub role_assignments: Vec<Vec<SecretRole>>,
}

/// A card context that entry `bound` of the history can hold.
pub open spec fn context_ok(c: CardContext, bound: nat) -> bool {
    &&& c.cards_left + c.cards_discarded <= 64
    &&& c.shuffle_index <= bound
}

/// Entry `i` of the history: claims in range, contexts reachable.
pub open spec fn entry_ok(er: ElectionResult, i: nat) -> bool {
    &&& claims_in_range(er)
    &&& match er {
        ElectionResult::TopDeck(_, c) => context_ok(c, 2 * i),
        ElectionResult::Election(g) => context_ok(g.deck_context, 2 * i) && match g.presidential_action {
            PresidentialAction::PeekAndBurn(_, _, c) => context_ok(c, 2 * i + 1),
            _ => true,
        },
    }
}

pub open spec fn history_ok(govs: Seq<ElectionResult>) -> bool {
    &&& forall|i: int| 0 <= i < govs.len() ==> #[trigger] entry_ok(govs[i], i as nat)
    &&& govs.len() <= usize::MAX / 8
}

/// How many entries passed a policy of kind `p`.
pub open spec fn count_passed(govs: Seq<ElectionResult>, p: Policy) -> nat
    decreases govs.len(),
{
    if govs.len() == 0 {
        0
    } else {
        count_passed(govs.drop_last(), p) + (if passed_policy_of(govs.last()) == p { 1nat } else { 0nat })
    }
}

pub open spec fn kills_player(er: ElectionResult, p: PlayerID) -> bool {
    er matches ElectionResult::Election(g) && g.presidential_action == PresidentialAction::Kill(p)
}

pub open spec fn is_kill(er: ElectionResult) -> bool {
    er matches ElectionResult::Election(g) && g.presidential_action is Kill
}

/// How many players were killed.
pub open spec fn count_kills(govs: Seq<ElectionResult>) -> nat
    decreases govs.len(),
{
    if govs.len() == 0 {
        0
    } else {
        count_kills(govs.drop_last()) + (if is_kill(govs.last()) { 1nat } else { 0nat })
    }
}

/// Some government killed `p`.
pub open spec fn is_dead(govs: Seq<ElectionResult>, p: PlayerID) -> bool {
    exists|i: int| 0 <= i < govs.len() && #[trigger] kills_player(govs[i], p)
}

/// The context that the next draw starts from.
pub open spec fn next_card_context(cfg: GameConfiguration, govs: Seq<ElectionResult>) -> CardContext {
    if govs.len() == 0 {
        CardContext {
            cards_left: (cfg.initial_fascist_deck_policies + cfg.initial_liberal_deck_policies) as usize,
            cards_discarded: 0,
            shuffle_index: 0,
        }
    } else {
        match govs.last() {
            ElectionResult::TopDeck(_, c) => spec_atomic_draw(c, 1, 0),
            ElectionResult::Election(g) => match g.presidential_action {
                PresidentialAction::PeekAndBurn(_, true, c) => spec_atomic_draw(c, 1, 1),
                _ => spec_atomic_draw(g.deck_context, 3, 2),
            },
        }
    }
}

/// A chancellor may serve unless they were in the last government; the last
/// president may serve again once at most five players are alive.
pub open spec fn eligible_chancellor(cfg: GameConfiguration, govs: Seq<ElectionResult>, player: PlayerID) -> bool {
    let alive = cfg.table_size - count_kills(govs);
    if govs.len() == 0 {
        true
    } else {
        match govs.last() {
            ElectionResult::TopDeck(_, _) => true,
            ElectionResult::Election(g) => g.chancellor != player && (g.president != player || alive <= 5),
        }
    }
}

impl PlayerState {
    /// What every session keeps.
    pub open spec fn well_formed(&self) -> bool {
        &&& config_ok(self.table_configuration)
        &&& self.player_info@.len() == self.table_configuration.table_size
        &&& forall|i: int| 0 <= i < self.player_info@.len() ==> (#[trigger] self.player_info@[i]).seat == i + 1
        &&& first_unknown(self.table_configuration.table_size as nat, self.available_information.deep_view()) is None
        &&& history_ok(self.governments@)
        &&& self.role_assignments.deep_view() == crate::roles::role_population(self.table_configuration.table_size as nat,
            self.table_configuration.num_regular_fascists as nat)
        &&& forall|i: int| 0 <= i < self.role_assignments@.len() ==> crate::roles::is_role_assignment(
            #[trigger] self.role_assignments@[i]@, self.table_configuration.table_size as nat,
            self.table_configuration.num_regular_fascists as nat)
        &&& self.role_assignments@.len() == crate::combinatorics::binomial((self.table_configuration.table_size - 1) as nat,
            self.table_configuration.num_regular_fascists as nat) * self.table_configuration.table_size
    }

    /// A fresh session at the table.
    pub fn new(table_configuration: GameConfiguration) -> (r: Self)
        requires
            config_ok(table_configuration),
        ensures
            r.well_formed(),
            r.table_configuration == table_configuration,
            r.available_information@.len() == 0,
            r.governments@.len() == 0,
    {
        let player_info = table_configuration.generate_default_info();
        let role_assignments = table_configuration.generate_assignments();
        let r = PlayerState {
            table_configuration,
            available_information: Vec::new(),
            player_info,
            governments: Vec::new(),
            role_assignments,
        };
        assert(r.available_information.deep_view() =~= Seq::empty());
        r
    }

    /// All role assignments of the table.
    pub fn current_roles(&self) -> (r: &Vec<Vec<SecretRole>>)
        requires
            self.well_formed(),
        ensures
            r@.len() == crate::combinatorics::binomial((self.table_configuration.table_size - 1) as nat,
                self.table_configuration.num_regular_fascists as nat) * self.table_configuration.table_size,
            forall|i: int| 0 <= i < r@.len() ==> crate::roles::is_role_assignment(
                #[trigger] r@[i]@, self.table_configuration.table_size as nat,
                self.table_configuration.num_regular_fascists as nat),
            r.deep_view() == crate::roles::role_population(self.table_configuration.table_size as nat,
                self.table_configuration.num_regular_fascists as nat),
    {
        &self.role_assignments
    }

    /// A player with seat `key` exists.
    pub fn player_exists(&self, key: PlayerID) -> (r: Result<(), Error>)
        requires
            self.well_formed(),
        ensures
            1 <= key <= self.table_configuration.table_size ==> r is Ok,
            !(1 <= key <= self.table_configuration.table_size) ==> r == Err::<(), Error>(Error::BadPlayerID(key)),
    {
        if 1 <= key && key <= self.player_info.len() {
            Ok(())
        } else {
            Err(Error::BadPlayerID(key))
        }
    }

    /// The player exists and is alive.
    pub fn player_interactable(&self, player_id: PlayerID) -> (r: Result<(), Error>)
        requires
            self.well_formed(),
        ensures
            !(1 <= player_id <= self.table_configuration.table_size) ==> r == Err::<(), Error>(Error::BadPlayerID(player_id)),
            (1 <= player_id <= self.table_configuration.table_size) && is_dead(self.governments@, player_id)
                ==> r == Err::<(), Error>(Error::DeadPlayerID(player_id)),
            (1 <= player_id <= self.table_configuration.table_size) && !is_dead(self.governments@, player_id) ==> r is Ok,
    {
        match self.player_exists(player_id) {
            Err(e) => return Err(e),
            Ok(()) => {},
        }
        validate_non_dead(player_id, &self.governments)
    }

    /// Policies of kind `policy` on the board: those placed at the start and
    /// those passed since.
    pub fn count_policies_on_board(&self, policy: Policy) -> (r: usize)
        requires
            self.well_formed(),
        ensures
            r == count_passed(self.governments@, policy) + match policy {
                Policy::Liberal => self.table_configuration.initial_placed_liberal_policies,
                Policy::Fascist => self.table_configuration.initial_placed_fascist_policies,
            },
    {
        let mut count: usize = 0;
        let mut i: usize = 0;
        while i < self.governments.len()
            invariant
                i <= self.governments@.len(),
                self.governments@.len() <= usize::MAX / 8,
                count == count_passed(self.governments@.subrange(0, i as int), policy),
                count <= i,
            decreases self.governments@.len() - i,
        {
            assert(self.governments@.subrange(0, i + 1 as int).drop_last() =~= self.governments@.subrange(0, i as int));
            if self.governments[i].passed_policy() == policy {
                count = count + 1;
            }
            i = i + 1;
        }
        assert(self.governments@.subrange(0, i as int) =~= self.governments@);
        count + match policy {
            Policy::Liberal => self.table_configuration.initial_placed_liberal_policies,
            Policy::Fascist => self.table_configuration.initial_placed_fascist_policies,
        }
    }

    /// Whether `player` may be elected chancellor next.
    pub fn is_eligible_chancellor(&self, player: PlayerID) -> (r: bool)
        requires
            self.well_formed(),
        ensures
            r == eligible_chancellor(self.table_configuration, self.governments@, player),
    {
        let kills = count_kills_exec(&self.governments);
        let players_alive = self.table_configuration.table_size.saturating_sub(kills);
        let n = self.governments.len();
        if n == 0 {
            return true;
        }
        match &self.governments[n - 1] {
            ElectionResult::TopDeck(_, _) => true,
            ElectionResult::Election(gov) => gov.chancellor != player && (gov.president != player || players_alive <= 5),
        }
    }

    /// The context that the next draw starts from.
    pub fn build_next_card_context(&self) -> (r: CardContext)
        requires
            self.well_formed(),
        ensures
            r == next_card_context(self.table_configuration, self.governments@),
            context_ok(r, 2 * self.governments@.len()),
    {
        let n = self.governments.len();
        if n == 0 {
            return CardContext {
                cards_left: self.table_configuration.initial_fascist_deck_policies
                    + self.table_configuration.initial_liberal_deck_policies,
                cards_discarded: 0,
                shuffle_index: 0,
            };
        }
        assert(entry_ok(self.governments@[n - 1], (n - 1) as nat));
        match &self.governments[n - 1] {
            ElectionResult::TopDeck(_, ctxt) => ctxt.atomic_draw(1, 0),
            ElectionResult::Election(gov) => match gov.presidential_action {
                PresidentialAction::PeekAndBurn(_, true, ctxt) => ctxt.atomic_draw(1, 1),
                _ => gov.deck_context.atomic_draw(3, 2),
            },
        }
    }
}

fn count_kills_exec(govs: &Vec<ElectionResult>) -> (r: usize)
    ensures
        r == count_kills(govs@),
{
    let mut count: usize = 0;
    let mut i: usize = 0;
    while i < govs.len()
        invariant
            i <= govs@.len(),
            count == count_kills(govs@.subrange(0, i as int)),
            count <= i,
        decreases govs@.len() - i,
    {
        assert(govs@.subrange(0, i + 1 as int).drop_last() =~= govs@.subrange(0, i as int));
        match &govs[i] {
            ElectionResult::Election(g) => {
                if let PresidentialAction::Kill(_) = g.presidential_action {
                    count = count + 1;
                }
            },
            ElectionResult::TopDeck(_, _) => {},
        }
        i = i + 1;
    }
    assert(govs@.subrange(0, i as int) =~= govs@);
    count
}

/// Fails with `DeadPlayerID` when some government of the history killed
/// `killed_player`.
pub fn validate_non_dead(killed_player: PlayerID, governments: &Vec<ElectionResult>) -> (r: Result<(), Error>)
    ensures
        is_dead(governments@, killed_player) ==> r == Err::<(), Error>(Error::DeadPlayerID(killed_player)),
        !is_dead(governments@, killed_player) ==> r is Ok,
{
    let mut i: usize = 0;
    while i < governments.len()
        invariant
            i <= governments@.len(),
            forall|j: int| 0 <= j < i ==> !#[trigger] kills_player(governments@[j], killed_player),
        decreases governments@.len() - i,
    {
        match &governments[i] {
            ElectionResult::Election(g) => {
                if let PresidentialAction::Kill(d) = g.presidential_action {
                    if d == killed_player {
                        assert(kills_player(governments@[i as int], killed_player));
                        return Err(Error::DeadPlayerID(killed_player));
                    }
                }
            },
            ElectionResult::TopDeck(_, _) => {},
        }
        i = i + 1;
    }
    Ok(())
}

} // verus!
