use vstd::prelude::*;
use crate::deck::{liberal_bytes, parse_pattern, sorted_claim};
use crate::election::{
    spec_atomic_draw, CardContext, ElectedGovernment, ElectionResult, PresidentialAction,
};
use crate::error::{Error, PlayerID};
use crate::filter_engine::{check_players, first_unknown, lemma_first_unknown_all, unknown_player};
use crate::information::{info_players, Information};
use crate::player_state::{
    count_passed, eligible_chancellor, entry_ok, history_ok, is_dead, next_card_context, PlayerState,
};
use crate::policy::Policy;
use crate::rotation::{eligible_president, is_eligible_president};
use vstd::string::StringSliceAdditionalSpecFns;
use vstd::utf8::encode_utf8;

verus! {

/// What `add_government` did.
#[derive(Debug, Clone, Copy, PartialEq, Eq)]
pub enum GovernmentOutcome {
    /// The government was appended to the history.
    Added(ElectedGovernment),
    /// A fascist policy passed with five already on the board: the game is
    /// over and the history stays as it is.
    FascistsWon,
}

/// The extra values that a presidential action asks for.
#[derive(Debug, Clone)]
pub struct ActionArguments {
    /// The target of a kill, an investigation, a party reveal or a special election.
    pub player: Option<PlayerID>,
    /// The claimed policy (one letter) or the claimed peek (three letters).
    pub policies: Option<String>,
    /// Whether the peeked card was burned.
    pub discarded: Option<bool>,
}

/// Why `p` cannot act: no such seat, or dead.
pub open spec fn interactable_error(s: PlayerState, p: PlayerID) -> Option<Error> {
    if !(1 <= p <= s.table_configuration.table_size) {
        Some(Error::BadPlayerID(p))
    } else if is_dead(s.governments@, p) {
        Some(Error::DeadPlayerID(p))
    } else {
        None
    }
}

/// The policy that a government passed: fascist when the president claims no
/// liberal card or the two claims conflict.
pub open spec fn policy_passed_for(president_claimed_blues: nat, chancellor_claimed_blues: nat) -> Policy {
    let conflict = president_claimed_blues > 0 && chancellor_claimed_blues == 0;
    if (conflict && president_claimed_blues > 0) || president_claimed_blues == 0 {
        Policy::Fascist
    } else {
        Policy::Liberal
    }
}

/// A claim pattern of exactly `len` policy letters.
pub open spec fn claim_ok(s: Seq<u8>, len: nat) -> bool {
    crate::deck::all_policy_bytes(s) && s.len() == len
}

pub open spec fn same_action_kind(a: PresidentialAction, b: PresidentialAction) -> bool {
    match (a, b) {
        (PresidentialAction::NoAction, PresidentialAction::NoAction) => true,
        (PresidentialAction::Kill(_), PresidentialAction::Kill(_)) => true,
        (PresidentialAction::Investigation(_, _), PresidentialAction::Investigation(_, _)) => true,
        (PresidentialAction::RevealParty(_, _), PresidentialAction::RevealParty(_, _)) => true,
        (PresidentialAction::TopDeckPeek(_), PresidentialAction::TopDeckPeek(_)) => true,
        (PresidentialAction::SpecialElection(_), PresidentialAction::SpecialElection(_)) => true,
        (PresidentialAction::PeekAndBurn(_, _, _), PresidentialAction::PeekAndBurn(_, _, _)) => true,
        _ => false,
    }
}

/// The arguments that the board's action needs are there and valid.
pub open spec fn action_arguments_ok(s: PlayerState, kind: PresidentialAction, args: ActionArguments) -> bool {
    match kind {
        PresidentialAction::NoAction => true,
        PresidentialAction::Kill(_) | PresidentialAction::SpecialElection(_) =>
            args.player matches Some(p) && interactable_error(s, p) is None,
        PresidentialAction::Investigation(_, _) | PresidentialAction::RevealParty(_, _) =>
            (args.player matches Some(p) && interactable_error(s, p) is None)
                && (args.policies matches Some(t) && claim_ok(encode_utf8(t@), 1)),
        PresidentialAction::TopDeckPeek(_) => args.policies matches Some(t) && claim_ok(encode_utf8(t@), 3),
        PresidentialAction::PeekAndBurn(_, _, _) =>
            (args.policies matches Some(t) && claim_ok(encode_utf8(t@), 1)) && args.discarded is Some,
    }
}

/// The state, apart from the history, is as it was.
pub open spec fn same_but_history(a: PlayerState, b: PlayerState) -> bool {
    &&& a.table_configuration == b.table_configuration
    &&& a.available_information.deep_view() == b.available_information.deep_view()
    &&& a.player_info@ == b.player_info@
}

/// The state, apart from the facts entered by hand, is as it was.
pub open spec fn same_but_facts(a: PlayerState, b: PlayerState) -> bool {
    &&& a.table_configuration == b.table_configuration
    &&& a.governments@ == b.governments@
    &&& a.player_info@ == b.player_info@
}

/// The policies that the arguments claim, sorted, fascist first.
pub open spec fn claimed(args: ActionArguments, len: nat) -> Seq<Policy> {
    sorted_claim(liberal_bytes(encode_utf8(args.policies->Some_0@)), len)
}

/// The board's action `kind` filled in from the arguments; a burn peeks at
/// the card after the three drawn from `context`.
pub open spec fn action_from(kind: PresidentialAction, args: ActionArguments, context: CardContext) -> PresidentialAction {
    match kind {
        PresidentialAction::NoAction => PresidentialAction::NoAction,
        PresidentialAction::Kill(_) => PresidentialAction::Kill(args.player->Some_0),
        PresidentialAction::SpecialElection(_) => PresidentialAction::SpecialElection(args.player->Some_0),
        PresidentialAction::Investigation(_, _) => PresidentialAction::Investigation(args.player->Some_0, claimed(args, 1)[0]),
        PresidentialAction::RevealParty(_, _) => PresidentialAction::RevealParty(args.player->Some_0, claimed(args, 1)[0]),
        PresidentialAction::TopDeckPeek(_) => {
            let c = claimed(args, 3);
            PresidentialAction::TopDeckPeek([c[0], c[1], c[2]])
        },
        PresidentialAction::PeekAndBurn(_, _, _) => PresidentialAction::PeekAndBurn(claimed(args, 1)[0],
            args.discarded->Some_0, spec_atomic_draw(context, 3, 2)),
    }
}

fn target_player(s: &PlayerState, args: &ActionArguments) -> (r: Result<PlayerID, Error>)
    requires
        s.well_formed(),
    ensures
        (args.player matches Some(p) && interactable_error(*s, p) is None) ==> r == Ok::<PlayerID, Error>(args.player->Some_0),
        r matches Ok(p) ==> args.player == Some(p) && interactable_error(*s, p) is None,
{
    match args.player {
        None => Err(Error::MissingArgument),
        Some(p) => match s.player_interactable(p) {
            Err(e) => Err(e),
            Ok(()) => Ok(p),
        },
    }
}

fn claimed_policies(args: &ActionArguments, len: usize) -> (r: Result<Vec<Policy>, Error>)
    ensures
        args.policies matches Some(t) && claim_ok(encode_utf8(t@), len as nat) ==> r is Ok,
        r matches Ok(v) ==> v@.len() == len,
        r is Ok ==> (args.policies matches Some(t) && claim_ok(encode_utf8(t@), len as nat)),
        r matches Ok(v) ==> v@ == claimed(*args, len as nat),
{
    match &args.policies {
        None => Err(Error::MissingArgument),
        Some(t) => match parse_pattern(t.as_str(), len, len) {
            Err(e) => Err(e),
            Ok((_libs, _n, v)) => Ok(v),
        },
    }
}

proof fn lemma_history_push(govs: Seq<ElectionResult>, e: ElectionResult)
    requires
        history_ok(govs),
        entry_ok(e, govs.len()),
        govs.len() < usize::MAX / 8,
    ensures
        history_ok(govs.push(e)),
{
    assert forall|i: int| 0 <= i < govs.push(e).len() implies #[trigger] entry_ok(govs.push(e)[i], i as nat) by {
        if i < govs.len() {
            assert(govs.push(e)[i] == govs[i]);
        }
    }
}

impl PlayerState {
    /// Adds a fact entered by hand; every player it names must have a seat.
    pub fn add_fact(&mut self, info: Information) -> (r: Result<(), Error>)
        requires
            old(self).well_formed(),
        ensures
            final(self).well_formed(),
            match unknown_player(old(self).table_configuration.table_size as nat, info_players(info@)) {
                Some(p) => r == Err::<(), Error>(Error::BadPlayerID(p)) && *final(self) == *old(self),
                None => r is Ok && same_but_facts(*final(self), *old(self))
                    && final(self).available_information.deep_view() == old(self).available_information.deep_view().push(info@),
            },
    {
        match check_players(self.table_configuration.table_size, &info) {
            Err(e) => return Err(e),
            Ok(()) => {},
        }
        let ghost before = self.available_information.deep_view();
        let ghost n = self.table_configuration.table_size as nat;
        self.available_information.push(info);
        proof {
            assert(self.available_information.deep_view() =~= before.push(info@));
            lemma_first_unknown_all(n, before);
            lemma_first_unknown_all(n, before.push(info@));
            assert forall|k: int| 0 <= k < before.push(info@).len() implies #[trigger] unknown_player(n, info_players(before.push(info@)[k])) is None by {
                if k < before.len() {
                    assert(before.push(info@)[k] == before[k]);
                }
            }
        }
        Ok(())
    }

    /// Removes the fact entered by hand with the 1-based `index`.
    pub fn remove_fact(&mut self, index: usize) -> (r: Result<Information, Error>)
        requires
            old(self).well_formed(),
        ensures
            final(self).well_formed(),
            (index == 0 || index > old(self).available_information@.len())
                ==> r == Err::<Information, Error>(Error::BadFactIndex(index)) && *final(self) == *old(self),
            !(index == 0 || index > old(self).available_information@.len()) ==> (r matches Ok(f)
                && f@ == old(self).available_information.deep_view()[index - 1]
                && same_but_facts(*final(self), *old(self))
                && final(self).available_information.deep_view() == old(self).available_information.deep_view().remove(index - 1)),
    {
        if index == 0 || index > self.available_information.len() {
            return Err(Error::BadFactIndex(index));
        }
        let ghost before = self.available_information.deep_view();
        let ghost n = self.table_configuration.table_size as nat;
        let f = self.available_information.remove(index - 1);
        proof {
            let after = before.remove(index - 1);
            assert(self.available_information.deep_view() =~= after);
            lemma_first_unknown_all(n, before);
            lemma_first_unknown_all(n, after);
            assert forall|k: int| 0 <= k < after.len() implies #[trigger] unknown_player(n, info_players(after[k])) is None by {
                if k < index - 1 {
                    assert(after[k] == before[k]);
                } else {
                    assert(after[k] == before[k + 1]);
                }
            }
        }
        Ok(f)
    }

    /// Appends a top-deck of `drawn_policy`, drawn from the next card context.
    pub fn topdeck(&mut self, drawn_policy: Policy) -> (r: ElectionResult)
        requires
            old(self).well_formed(),
            old(self).governments@.len() < usize::MAX / 8,
        ensures
            final(self).well_formed(),
            r == ElectionResult::TopDeck(drawn_policy, next_card_context(old(self).table_configuration, old(self).governments@)),
            final(self).governments@ == old(self).governments@.push(r),
            same_but_history(*final(self), *old(self)),
    {
        let ctx = self.build_next_card_context();
        let e = ElectionResult::TopDeck(drawn_policy, ctx);
        proof {
            lemma_history_push(self.governments@, e);
        }
        self.governments.push(e);
        e
    }

    /// Removes the last entry of the history, if any.
    pub fn pop_government(&mut self) -> (r: Option<ElectionResult>)
        requires
            old(self).well_formed(),
        ensures
            final(self).well_formed(),
            same_but_history(*final(self), *old(self)),
            old(self).governments@.len() == 0 ==> r is None && final(self).governments@ == old(self).governments@,
            old(self).governments@.len() > 0 ==> r == Some(old(self).governments@.last())
                && final(self).governments@ == old(self).governments@.drop_last(),
    {
        let ghost before = self.governments@;
        let r = self.governments.pop();
        proof {
            assert forall|i: int| 0 <= i < self.governments@.len() implies #[trigger] entry_ok(self.governments@[i], i as nat) by {
                assert(self.governments@[i] == before[i]);
            }
        }
        r
    }

    /// Validates and appends an elected government: both players must be
    /// alive, the president next in rotation and the chancellor eligible; the
    /// claims are parsed; the policy that passed follows from the claims; a
    /// fascist policy brings the board's presidential action, whose arguments
    /// come from `args`. Nothing changes unless the government is appended.
    pub fn add_government(
        &mut self,
        president: PlayerID,
        chancellor: PlayerID,
        presidential_pattern: &str,
        chancellor_pattern: &str,
        args: &ActionArguments,
    ) -> (r: Result<GovernmentOutcome, Error>)
        requires
            old(self).well_formed(),
            old(self).governments@.len() < usize::MAX / 8,
        ensures
            final(self).well_formed(),
            same_but_history(*final(self), *old(self)),
            !(r matches Ok(GovernmentOutcome::Added(_))) ==> final(self).governments@ == old(self).governments@,
            interactable_error(*old(self), president) matches Some(e) ==> r == Err::<GovernmentOutcome, Error>(e),
            interactable_error(*old(self), president) is None ==> (interactable_error(*old(self), chancellor) matches Some(e)
                ==> r == Err::<GovernmentOutcome, Error>(e)),
            interactable_error(*old(self), president) is None && interactable_error(*old(self), chancellor) is None
                && !eligible_president(old(self).governments@, old(self).table_configuration.table_size as nat, president)
                ==> r == Err::<GovernmentOutcome, Error>(Error::NotEligiblePresident(president)),
            interactable_error(*old(self), president) is None && interactable_error(*old(self), chancellor) is None
                && eligible_president(old(self).governments@, old(self).table_configuration.table_size as nat, president)
                && (!eligible_chancellor(old(self).table_configuration, old(self).governments@, chancellor) || chancellor == president)
                ==> r == Err::<GovernmentOutcome, Error>(Error::NotEligibleChancellor(chancellor)),
            !claim_ok(presidential_pattern.spec_bytes(), 3) || !claim_ok(chancellor_pattern.spec_bytes(), 2) ==> r is Err,
            ({
                let old_s = *old(self);
                let pb = liberal_bytes(presidential_pattern.spec_bytes());
                let cb = liberal_bytes(chancellor_pattern.spec_bytes());
                let policy = policy_passed_for(pb, cb);
                let prev_fas = count_passed(old_s.governments@, Policy::Fascist) + old_s.table_configuration.initial_placed_fascist_policies;
                let kind = old_s.table_configuration.fascist_board_configuration[prev_fas as int];
                let valid = interactable_error(old_s, president) is None && interactable_error(old_s, chancellor) is None
                    && eligible_president(old_s.governments@, old_s.table_configuration.table_size as nat, president)
                    && eligible_chancellor(old_s.table_configuration, old_s.governments@, chancellor) && chancellor != president
                    && claim_ok(presidential_pattern.spec_bytes(), 3) && claim_ok(chancellor_pattern.spec_bytes(), 2);
                &&& (valid && policy == Policy::Fascist && prev_fas >= 5 ==> r == Ok::<GovernmentOutcome, Error>(GovernmentOutcome::FascistsWon))
                &&& (valid && policy == Policy::Liberal ==> r is Ok)
                &&& (valid && policy == Policy::Fascist && prev_fas < 5 && action_arguments_ok(old_s, kind, *args) ==> r is Ok)
                &&& (valid && (policy == Policy::Liberal || (prev_fas < 5 && action_arguments_ok(old_s, kind, *args)))
                    ==> r matches Ok(GovernmentOutcome::Added(_)))
                &&& (valid && policy == Policy::Fascist && prev_fas < 5 && !action_arguments_ok(old_s, kind, *args) ==> r is Err)
                &&& (r matches Ok(GovernmentOutcome::Added(g)) ==> {
                    &&& valid
                    &&& final(self).governments@ == old_s.governments@.push(ElectionResult::Election(g))
                    &&& g.president == president && g.chancellor == chancellor
                    &&& g.president_claimed_blues == pb && g.chancellor_claimed_blues == cb
                    &&& g.conflict == (pb > 0 && cb == 0)
                    &&& g.policy_passed == policy
                    &&& g.deck_context == next_card_context(old_s.table_configuration, old_s.governments@)
                    &&& g.chancellor_confirmed_not_hitler == (prev_fas >= old_s.table_configuration.hitler_zone_passed_fascist_policies)
                    &&& (policy == Policy::Liberal ==> g.presidential_action == PresidentialAction::NoAction)
                    &&& (policy == Policy::Fascist ==> prev_fas < 5 && same_action_kind(g.presidential_action, kind)
                        && g.presidential_action == action_from(kind, *args, g.deck_context))
                })
            }),
    {
        match self.player_interactable(president) {
            Err(e) => return Err(e),
            Ok(()) => {},
        }
        match self.player_interactable(chancellor) {
            Err(e) => return Err(e),
            Ok(()) => {},
        }
        if !is_eligible_president(&self.governments, self.table_configuration.table_size, president) {
            return Err(Error::NotEligiblePresident(president));
        }
        if !self.is_eligible_chancellor(chancellor) || chancellor == president {
            return Err(Error::NotEligibleChancellor(chancellor));
        }
        let president_claimed_blues = match parse_pattern(presidential_pattern, 3, 3) {
            Err(e) => return Err(e),
            Ok((libs, _n, _v)) => libs,
        };
        let chancellor_claimed_blues = match parse_pattern(chancellor_pattern, 2, 2) {
            Err(e) => return Err(e),
            Ok((libs, _n, _v)) => libs,
        };
        let immediate_conflict = president_claimed_blues > 0 && chancellor_claimed_blues == 0;
        let policy_passed = if (immediate_conflict && president_claimed_blues > 0) || president_claimed_blues == 0 {
            Policy::Fascist
        } else {
            Policy::Liberal
        };
        let prev_fas_policies = self.count_policies_on_board(Policy::Fascist);
        let deck_context = self.build_next_card_context();
        let presidential_action = if policy_passed == Policy::Fascist {
            if prev_fas_policies >= 5 {
                return Ok(GovernmentOutcome::FascistsWon);
            }
            match self.table_configuration.fascist_board_configuration[prev_fas_policies] {
                PresidentialAction::NoAction => PresidentialAction::NoAction,
                PresidentialAction::Kill(_) => match target_player(self, args) {
                    Err(e) => return Err(e),
                    Ok(p) => PresidentialAction::Kill(p),
                },
                PresidentialAction::Investigation(_, _) => {
                    let p = match target_player(self, args) {
                        Err(e) => return Err(e),
                        Ok(p) => p,
                    };
                    match claimed_policies(args, 1) {
                        Err(e) => return Err(e),
                        Ok(v) => PresidentialAction::Investigation(p, v[0]),
                    }
                },
                PresidentialAction::RevealParty(_, _) => {
                    let p = match target_player(self, args) {
                        Err(e) => return Err(e),
                        Ok(p) => p,
                    };
                    match claimed_policies(args, 1) {
                        Err(e) => return Err(e),
                        Ok(v) => PresidentialAction::RevealParty(p, v[0]),
                    }
                },
                PresidentialAction::TopDeckPeek(_) => match claimed_policies(args, 3) {
                    Err(e) => return Err(e),
                    Ok(v) => PresidentialAction::TopDeckPeek([v[0], v[1], v[2]]),
                },
                PresidentialAction::SpecialElection(_) => match target_player(self, args) {
                    Err(e) => return Err(e),
                    Ok(p) => PresidentialAction::SpecialElection(p),
                },
                PresidentialAction::PeekAndBurn(_, _, _) => {
                    let v = match claimed_policies(args, 1) {
                        Err(e) => return Err(e),
                        Ok(v) => v,
                    };
                    let discarded = match args.discarded {
                        None => return Err(Error::MissingArgument),
                        Some(b) => b,
                    };
                    PresidentialAction::PeekAndBurn(v[0], discarded, deck_context.atomic_draw(3, 2))
                },
            }
        } else {
            PresidentialAction::NoAction
        };
        let government = ElectedGovernment {
            president,
            chancellor,
            president_claimed_blues,
            chancellor_claimed_blues,
            conflict: immediate_conflict,
            policy_passed,
            presidential_action,
            deck_context,
            chancellor_confirmed_not_hitler: prev_fas_policies >= self.table_configuration.hitler_zone_passed_fascist_policies,
        };
        let e = ElectionResult::Election(government);
        proof {
            lemma_history_push(self.governments@, e);
        }
        self.governments.push(e);
        Ok(GovernmentOutcome::Added(government))
    }
}

} // verus!
