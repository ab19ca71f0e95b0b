use vstd::prelude::*;
use crate::error::PlayerID;
use crate::policy::Policy;

verus! {

/// Where the draw pile stands just before a (set of) card(s) is drawn.
#[derive(Debug, Clone, Copy, PartialEq, Eq, Structural, Hash, Default)]
pub struct CardContext {
    pub cards_left: usize,
    pub cards_discarded: usize,
    pub shuffle_index: usize,
}

/// A draw of `draw_count` cards with `discard_count` discarded: when fewer
/// than three cards would be left, the discards are shuffled back in and a new
/// shuffle starts; otherwise the cards leave the pile.
pub open spec fn spec_atomic_draw(c: CardContext, draw_count: nat, discard_count: nat) -> CardContext {
    if c.cards_left - draw_count < 3 {
        CardContext {
            cards_left: (c.cards_left + c.cards_discarded) as usize,
            cards_discarded: 0,
            shuffle_index: (c.shuffle_index + 1) as usize,
        }
    } else {
        CardContext {
            cards_left: (c.cards_left - draw_count) as usize,
            cards_discarded: (c.cards_discarded + discard_count) as usize,
            shuffle_index: c.shuffle_index,
        }
    }
}

pub open spec fn atomic_draw_fits(c: CardContext, discard_count: nat) -> bool {
    &&& c.cards_left + c.cards_discarded <= usize::MAX
    &&& c.cards_discarded + discard_count <= usize::MAX
    &&& c.shuffle_index < usize::MAX
}

impl CardContext {
    pub fn atomic_draw(&self, draw_count: usize, discard_count: usize) -> (r: Self)
        requires
            atomic_draw_fits(*self, discard_count as nat),
        ensures
            r == spec_atomic_draw(*self, draw_count as nat, discard_count as nat),
    {
        let mut out = *self;
        if self.cards_left.saturating_sub(draw_count) < 3 {
            out.cards_left = out.cards_left + out.cards_discarded;
            out.cards_discarded = 0;
            out.shuffle_index = out.shuffle_index + 1;
        } else {
            out.cards_discarded = out.cards_discarded + discard_count;
            out.cards_left = out.cards_left - draw_count;
        }
        out
    }
}

/// What a president did after a fascist policy passed.
#[derive(Debug, Clone, Copy, PartialEq, Eq, Hash)]
pub enum PresidentialAction {
    NoAction,
    Kill(PlayerID),
    Investigation(PlayerID, Policy),
    RevealParty(PlayerID, Policy),
    TopDeckPeek([Policy; 3]),
    SpecialElection(PlayerID),
    /// `true` means the peeked card was discarded.
    PeekAndBurn(Policy, bool, CardContext),
}

/// A government that was elected and passed a policy.
#[derive(Debug, Clone, Copy, PartialEq, Eq, Hash)]
pub struct ElectedGovernment {
    pub president: PlayerID,
    pub chancellor: PlayerID,
    pub president_claimed_blues: usize,
    pub chancellor_claimed_blues: usize,
    pub conflict: bool,
    pub policy_passed: Policy,
    pub presidential_action: PresidentialAction,
    pub deck_context: CardContext,
    pub chancellor_confirmed_not_hitler: bool,
}

/// One entry of the election history.
#[derive(Debug, Clone, Copy, PartialEq, Eq, Hash)]
pub enum ElectionResult {
    TopDeck(Policy, CardContext),
    Election(ElectedGovernment),
}

/// Cards drawn by one entry: one for a top-deck, four for a government whose
/// president burned the peeked card, three otherwise.
pub open spec fn drawn_count(er: ElectionResult) -> nat {
    match er {
        ElectionResult::TopDeck(_, _) => 1,
        ElectionResult::Election(g) => match g.presidential_action {
            PresidentialAction::PeekAndBurn(_, true, _) => 4,
            _ => 3,
        },
    }
}

pub open spec fn discarded_count(er: ElectionResult) -> nat {
    match er {
        ElectionResult::TopDeck(_, _) => 0,
        ElectionResult::Election(g) => match g.presidential_action {
            PresidentialAction::PeekAndBurn(_, true, _) => 3,
            _ => 2,
        },
    }
}

pub open spec fn passed_policy_of(er: ElectionResult) -> Policy {
    match er {
        ElectionResult::TopDeck(p, _) => p,
        ElectionResult::Election(g) => g.policy_passed,
    }
}

/// Liberal cards that the entry claims were seen: the top-deck card, or the
/// president's claim plus a burned liberal card.
pub open spec fn seen_blues_of(er: ElectionResult) -> nat {
    match er {
        ElectionResult::TopDeck(Policy::Liberal, _) => 1,
        ElectionResult::TopDeck(Policy::Fascist, _) => 0,
        ElectionResult::Election(g) => (g.president_claimed_blues as nat) + match g.presidential_action {
            PresidentialAction::PeekAndBurn(Policy::Liberal, true, _) => 1nat,
            _ => 0nat,
        },
    }
}

pub open spec fn passed_blues_of(er: ElectionResult) -> nat {
    if passed_policy_of(er) == Policy::Liberal { 1 } else { 0 }
}

/// Claims stay within the cards that were handled: at most three for the
/// president and two for the chancellor.
pub open spec fn claims_in_range(er: ElectionResult) -> bool {
    match er {
        ElectionResult::TopDeck(_, _) => true,
        ElectionResult::Election(g) => g.president_claimed_blues <= 3 && g.chancellor_claimed_blues <= 2,
    }
}

impl ElectionResult {
    pub fn cards_total_drawn_discarded(&self) -> (r: (usize, usize))
        ensures
            r.0 == drawn_count(*self),
            r.1 == discarded_count(*self),
    {
        match self {
            ElectionResult::TopDeck(_, _) => (1, 0),
            ElectionResult::Election(gov) => match gov.presidential_action {
                PresidentialAction::PeekAndBurn(_, true, _) => (4, 3),
                _ => (3, 2),
            },
        }
    }

    pub fn passed_policy(&self) -> (r: Policy)
        ensures
            r == passed_policy_of(*self),
    {
        match self {
            ElectionResult::TopDeck(p, _) => *p,
            ElectionResult::Election(gov) => gov.policy_passed,
        }
    }

    pub fn seen_blues(&self) -> (r: usize)
        requires
            claims_in_range(*self),
        ensures
            r == seen_blues_of(*self),
    {
        match self {
            ElectionResult::TopDeck(Policy::Liberal, _) => 1,
            ElectionResult::TopDeck(Policy::Fascist, _) => 0,
            ElectionResult::Election(gov) => {
                gov.president_claimed_blues + match gov.presidential_action {
                    PresidentialAction::PeekAndBurn(Policy::Liberal, true, _) => 1,
                    _ => 0,
                }
            },
        }
    }

    pub fn passed_blues(&self) -> (r: usize)
        ensures
            r == passed_blues_of(*self),
    {
        if self.passed_policy() == Policy::Liberal {
            1
        } else {
            0
        }
    }

    /// The card context that the entry was drawn from.
    pub fn context(&self) -> (r: CardContext)
        ensures
            r == (match *self {
                ElectionResult::TopDeck(_, c) => c,
                ElectionResult::Election(g) => g.deck_context,
            }),
    {
        match self {
            ElectionResult::TopDeck(_, c) => *c,
            ElectionResult::Election(g) => g.deck_context,
        }
    }
}

/// The elected governments of a history, in order, top-decks left out.
pub open spec fn elected_of(govs: Seq<ElectionResult>) -> Seq<ElectedGovernment>
    decreases govs.len(),
{
    if govs.len() == 0 {
        Seq::empty()
    } else {
        elected_of(govs.drop_last()) + match govs.last() {
            ElectionResult::TopDeck(_, _) => Seq::<ElectedGovernment>::empty(),
            ElectionResult::Election(g) => seq![g],
        }
    }
}

/// The elected governments of `govs`, in order.
pub fn iter_elected(govs: &Vec<ElectionResult>) -> (r: Vec<ElectedGovernment>)
    ensures
        r@ == elected_of(govs@),
{
    let mut r: Vec<ElectedGovernment> = Vec::new();
    let mut i: usize = 0;
    while i < govs.len()
        invariant
            i <= govs@.len(),
            r@ == elected_of(govs@.subrange(0, i as int)),
        decreases govs@.len() - i,
    {
        assert(govs@.subrange(0, i + 1 as int).drop_last() =~= govs@.subrange(0, i as int));
        match &govs[i] {
            ElectionResult::TopDeck(_, _) => {
                assert(r@ =~= elected_of(govs@.subrange(0, i + 1 as int)));
            },
            ElectionResult::Election(g) => {
                r.push(*g);
                assert(r@ =~= elected_of(govs@.subrange(0, i + 1 as int)));
            },
        }
        i = i + 1;
    }
    assert(govs@.subrange(0, govs@.len() as int) =~= govs@);
    r
}

} // verus!
