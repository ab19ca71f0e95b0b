use vstd::prelude::*;
use crate::election::{elected_of, iter_elected, ElectedGovernment, ElectionResult, PresidentialAction};
use crate::error::PlayerID;
use crate::game_configuration::GameConfiguration;
use crate::history::{
    all_claims_in_range, deck_liberal_at, leftover_at, lemma_history_claims, shuffle_bounds,
    shuffle_election_results, sum_seen, sums_fit,
};
use crate::information::{Information, InformationView};
use crate::player_state::{history_ok, PlayerState};
use crate::policy::Policy;

verus! {

/// What one government shows at once: a chancellor confirmed not to be Hitler,
/// a conflict, and what its presidential action revealed.
pub open spec fn government_facts(g: ElectedGovernment) -> Seq<InformationView> {
    (if g.chancellor_confirmed_not_hitler { seq![InformationView::ConfirmedNotHitler(g.chancellor)] } else { seq![] })
    + (if g.conflict { seq![InformationView::PolicyConflict(g.president, g.chancellor)] } else { seq![] })
    + match g.presidential_action {
        PresidentialAction::Kill(d) => seq![InformationView::ConfirmedNotHitler(d)],
        PresidentialAction::Investigation(tee, Policy::Fascist) =>
            seq![InformationView::FascistInvestigation { investigator: g.president, investigatee: tee }],
        PresidentialAction::Investigation(tee, Policy::Liberal) =>
            seq![InformationView::LiberalInvestigation { investigator: g.president, investigatee: tee }],
        PresidentialAction::RevealParty(inv, Policy::Fascist) =>
            seq![InformationView::FascistInvestigation { investigator: inv, investigatee: g.president }],
        PresidentialAction::RevealParty(inv, Policy::Liberal) =>
            seq![InformationView::LiberalInvestigation { investigator: inv, investigatee: g.president }],
        _ => seq![],
    }
}

pub open spec fn immediate_facts(es: Seq<ElectedGovernment>) -> Seq<InformationView>
    decreases es.len(),
{
    if es.len() == 0 { seq![] } else { immediate_facts(es.drop_last()) + government_facts(es.last()) }
}

pub open spec fn liberal_in_peek(claim: [Policy; 3]) -> nat {
    (if claim[0] == Policy::Liberal { 1nat } else { 0nat }) + (if claim[1] == Policy::Liberal { 1nat } else { 0nat })
        + (if claim[2] == Policy::Liberal { 1nat } else { 0nat })
}

/// A peek that the next president's claim contradicts puts the two
/// presidents in conflict.
pub open spec fn peek_pair_facts(first: ElectedGovernment, second: ElectedGovernment) -> Seq<InformationView> {
    match first.presidential_action {
        PresidentialAction::TopDeckPeek(claim) => if second.president_claimed_blues != liberal_in_peek(claim) {
            seq![InformationView::PolicyConflict(first.president, second.president)]
        } else {
            seq![]
        },
        PresidentialAction::PeekAndBurn(claim, false, _) => if (second.president_claimed_blues == 0 && claim == Policy::Liberal)
            || (second.president_claimed_blues == 3 && claim == Policy::Fascist) {
            seq![InformationView::PolicyConflict(first.president, second.president)]
        } else {
            seq![]
        },
        _ => seq![],
    }
}

pub open spec fn peek_facts(es: Seq<ElectedGovernment>) -> Seq<InformationView>
    decreases es.len(),
{
    if es.len() < 2 { seq![] } else { peek_facts(es.drop_last()) + peek_pair_facts(es[es.len() - 2], es.last()) }
}

/// Presidents who claimed fewer than three liberal cards (`low`) or more than none.
pub open spec fn presidents_where(es: Seq<ElectedGovernment>, low: bool) -> Seq<PlayerID>
    decreases es.len(),
{
    if es.len() == 0 {
        seq![]
    } else {
        presidents_where(es.drop_last(), low) + (if (low && es.last().president_claimed_blues < 3)
            || (!low && es.last().president_claimed_blues > 0) { seq![es.last().president] } else { seq![] })
    }
}

/// Too few liberal cards seen for the deck means some president hid one; too
/// many means some president invented one.
pub open spec fn card_count_fact(cfg: GameConfiguration, govs: Seq<ElectionResult>, a: int, b: int) -> Seq<InformationView> {
    let ers = govs.subrange(a, b);
    let seen = sum_seen(ers);
    let lib = deck_liberal_at(cfg, govs, a);
    if seen + leftover_at(cfg, govs, a, b) < lib {
        seq![InformationView::AtLeastOneFascist(presidents_where(elected_of(ers), true))]
    } else if seen > lib {
        seq![InformationView::AtLeastOneFascist(presidents_where(elected_of(ers), false))]
    } else {
        seq![]
    }
}

pub open spec fn card_count_facts(cfg: GameConfiguration, govs: Seq<ElectionResult>, bounds: Seq<(int, int)>) -> Seq<InformationView>
    decreases bounds.len(),
{
    if bounds.len() == 0 {
        seq![]
    } else {
        card_count_facts(cfg, govs, bounds.drop_last()) + card_count_fact(cfg, govs, bounds.last().0, bounds.last().1)
    }
}

/// Everything known: facts deduced from the history, then those entered by hand.
pub open spec fn all_facts(s: PlayerState) -> Seq<InformationView> {
    let es = elected_of(s.governments@);
    immediate_facts(es) + peek_facts(es) + card_count_facts(s.table_configuration, s.governments@, shuffle_bounds(s.governments@))
        + s.available_information.deep_view()
}

pub(crate) fn push_fact(out: &mut Vec<Information>, f: Information)
    ensures
        final(out).deep_view() == old(out).deep_view().push(f@),
{
    let ghost before = out.deep_view();
    out.push(f);
    assert(out.deep_view() =~= before.push(f@));
}

fn government_facts_exec(out: &mut Vec<Information>, g: &ElectedGovernment)
    ensures
        final(out).deep_view() == old(out).deep_view() + government_facts(*g),
{
    let ghost start = out.deep_view();
    if g.chancellor_confirmed_not_hitler {
        push_fact(out, Information::ConfirmedNotHitler(g.chancellor));
    }
    if g.conflict {
        push_fact(out, Information::PolicyConflict(g.president, g.chancellor));
    }
    let ghost mid = out.deep_view();
    match g.presidential_action {
        PresidentialAction::Kill(d) => push_fact(out, Information::ConfirmedNotHitler(d)),
        PresidentialAction::Investigation(tee, Policy::Fascist) =>
            push_fact(out, Information::FascistInvestigation { investigator: g.president, investigatee: tee }),
        PresidentialAction::Investigation(tee, Policy::Liberal) =>
            push_fact(out, Information::LiberalInvestigation { investigator: g.president, investigatee: tee }),
        PresidentialAction::RevealParty(inv, Policy::Fascist) =>
            push_fact(out, Information::FascistInvestigation { investigator: inv, investigatee: g.president }),
        PresidentialAction::RevealParty(inv, Policy::Liberal) =>
            push_fact(out, Information::LiberalInvestigation { investigator: inv, investigatee: g.president }),
        _ => {},
    }
    assert(out.deep_view() =~= start + government_facts(*g));
}

fn peek_pair_exec(out: &mut Vec<Information>, first: &ElectedGovernment, second: &ElectedGovernment)
    ensures
        final(out).deep_view() == old(out).deep_view() + peek_pair_facts(*first, *second),
{
    let ghost start = out.deep_view();
    match first.presidential_action {
        PresidentialAction::TopDeckPeek(claim) => {
            let libs: usize = (if claim[0] == Policy::Liberal { 1usize } else { 0 })
                + (if claim[1] == Policy::Liberal { 1usize } else { 0 })
                + (if claim[2] == Policy::Liberal { 1usize } else { 0 });
            if second.president_claimed_blues != libs {
                push_fact(out, Information::PolicyConflict(first.president, second.president));
            }
        },
        PresidentialAction::PeekAndBurn(claim, false, _) => {
            if (second.president_claimed_blues == 0 && claim == Policy::Liberal)
                || (second.president_claimed_blues == 3 && claim == Policy::Fascist) {
                push_fact(out, Information::PolicyConflict(first.president, second.president));
            }
        },
        _ => {},
    }
    assert(out.deep_view() =~= start + peek_pair_facts(*first, *second));
}

fn presidents_where_exec(es: &Vec<ElectedGovernment>, low: bool) -> (r: Vec<PlayerID>)
    ensures
        r@ == presidents_where(es@, low),
{
    let mut r: Vec<PlayerID> = Vec::new();
    let mut i: usize = 0;
    while i < es.len()
        invariant
            i <= es@.len(),
            r@ == presidents_where(es@.subrange(0, i as int), low),
        decreases es@.len() - i,
    {
        assert(es@.subrange(0, i + 1 as int).drop_last() =~= es@.subrange(0, i as int));
        let g = &es[i];
        if (low && g.president_claimed_blues < 3) || (!low && g.president_claimed_blues > 0) {
            r.push(g.president);
        }
        i = i + 1;
        assert(r@ =~= presidents_where(es@.subrange(0, i as int), low));
    }
    assert(es@.subrange(0, i as int) =~= es@);
    r
}

impl PlayerState {
    /// The facts deduced from the history followed by those entered by hand:
    /// what each government showed, contradicted peeks, and card counts that
    /// no deck could have produced.
    pub fn collect_information(&self) -> (r: Vec<Information>)
        requires
            self.well_formed(),
        ensures
            r.deep_view() == all_facts(*self),
    {
        let govs = &self.governments;
        let cfg = &self.table_configuration;
        let elected = iter_elected(govs);
        let ghost es = elected@;
        let mut out: Vec<Information> = Vec::new();
        assert(out.deep_view() =~= seq![]);
        let mut i: usize = 0;
        while i < elected.len()
            invariant
                es == elected@,
                i <= es.len(),
                out.deep_view() == immediate_facts(es.subrange(0, i as int)),
            decreases es.len() - i,
        {
            assert(es.subrange(0, i + 1 as int).drop_last() =~= es.subrange(0, i as int));
            government_facts_exec(&mut out, &elected[i]);
            i = i + 1;
        }
        assert(es.subrange(0, es.len() as int) =~= es);
        let ghost after_immediate = out.deep_view();
        if elected.len() > 1 {
            assert(peek_facts(es.subrange(0, 1)) =~= seq![]);
            assert(out.deep_view() =~= after_immediate + peek_facts(es.subrange(0, 1)));
            let mut i: usize = 1;
            while i < elected.len()
                invariant
                    es == elected@,
                    1 <= i <= es.len(),
                    out.deep_view() == after_immediate + peek_facts(es.subrange(0, i as int)),
                decreases es.len() - i,
            {
                let ghost pre = es.subrange(0, i as int);
                let ghost cur = es.subrange(0, i + 1 as int);
                proof {
                    assert(cur.drop_last() =~= pre);
                    assert(cur[cur.len() - 2] == es[i - 1]);
                    if pre.len() < 2 {
                        assert(peek_facts(pre) =~= seq![]);
                    }
                }
                peek_pair_exec(&mut out, &elected[i - 1], &elected[i]);
                assert(out.deep_view() =~= after_immediate + peek_facts(cur));
                i = i + 1;
            }
            assert(es.subrange(0, i as int) =~= es);
        } else {
            assert(peek_facts(es) =~= seq![]);
            assert(out.deep_view() =~= after_immediate + peek_facts(es));
        }
        proof {
            lemma_history_claims(govs@);
        }
        assert(sums_fit(*cfg));
        let shuffles = shuffle_election_results(cfg, govs);
        let ghost bounds = shuffle_bounds(govs@);
        let ghost after_peeks = out.deep_view();
        let mut k: usize = 0;
        while k < shuffles.len()
            invariant
                self.well_formed(),
                govs == &self.governments,
                cfg == &self.table_configuration,
                all_claims_in_range(govs@),
                bounds == shuffle_bounds(govs@),
                shuffles@.len() == bounds.len(),
                forall|j: int| 0 <= j < shuffles@.len() ==> crate::history::shuffle_matches(#[trigger] shuffles@[j], *cfg, govs@,
                    bounds[j].0, bounds[j].1),
                k <= bounds.len(),
                out.deep_view() == after_peeks + card_count_facts(*cfg, govs@, bounds.subrange(0, k as int)),
            decreases bounds.len() - k,
        {
            let sa = &shuffles[k];
            assert(crate::history::shuffle_matches(shuffles@[k as int], *cfg, govs@, bounds[k as int].0, bounds[k as int].1));
            proof {
                crate::history::lemma_bounds_in_range(govs@, k as int);
                let (a, b) = bounds[k as int];
                assert forall|t: int| 0 <= t < sa.election_results@.len() implies #[trigger] crate::election::claims_in_range(sa.election_results@[t]) by {
                    assert(sa.election_results@[t] == govs@[a + t]);
                }
                assert(bounds.subrange(0, k + 1 as int).drop_last() =~= bounds.subrange(0, k as int));
            }
            let seen = sa.total_seen_blues();
            let ghost before = out.deep_view();
            if seen < sa.initial_deck_liberal && sa.total_leftover < sa.initial_deck_liberal - seen {
                let es2 = iter_elected(&sa.election_results);
                let ps = presidents_where_exec(&es2, true);
                push_fact(&mut out, Information::AtLeastOneFascist(ps));
            } else if seen > sa.initial_deck_liberal {
                let es2 = iter_elected(&sa.election_results);
                let ps = presidents_where_exec(&es2, false);
                push_fact(&mut out, Information::AtLeastOneFascist(ps));
            }
            assert(out.deep_view() =~= before + card_count_fact(*cfg, govs@, bounds[k as int].0, bounds[k as int].1));
            k = k + 1;
        }
        assert(bounds.subrange(0, bounds.len() as int) =~= bounds);
        let ghost after_cards = out.deep_view();
        let manual = &self.available_information;
        let mut j: usize = 0;
        while j < manual.len()
            invariant
                j <= manual@.len(),
                out.deep_view() == after_cards + manual.deep_view().subrange(0, j as int),
            decreases manual@.len() - j,
        {
            let f = manual[j].duplicate();
            push_fact(&mut out, f);
            j = j + 1;
            assert(out.deep_view() =~= after_cards + manual.deep_view().subrange(0, j as int));
        }
        assert(manual.deep_view().subrange(0, manual@.len() as int) =~= manual.deep_view());
        out
    }
}

} // verus!
