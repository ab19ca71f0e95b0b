use sh_tool::counter::complex_card_counter;
use sh_tool::deck::FilterResult;
use sh_tool::election::{CardContext, ElectedGovernment, ElectionResult, PresidentialAction};
use sh_tool::error::Error;
use sh_tool::filter_engine::{
    filter_role_assignments, no_aggressive_hitler_filter, no_fascist_fascist_conflict_filter,
    role_histogram, universal_deducable_information, valid_role_assignments,
};
use sh_tool::information::Information;
use sh_tool::policy::Policy;
use sh_tool::roles::generate_assignments_cached;
use sh_tool::secret_role::SecretRole;
use sh_tool::tree::fold_children_legal_draws;

use SecretRole::{Hitler as H, Liberal as L, RegularFascist as F};

fn gov(president: usize, chancellor: usize, pres_blues: usize, chanc_blues: usize) -> ElectionResult {
    let conflict = pres_blues > 0 && chanc_blues == 0;
    ElectionResult::Election(ElectedGovernment {
        president,
        chancellor,
        president_claimed_blues: pres_blues,
        chancellor_claimed_blues: chanc_blues,
        conflict,
        policy_passed: if conflict || pres_blues == 0 { Policy::Fascist } else { Policy::Liberal },
        presidential_action: PresidentialAction::NoAction,
        deck_context: CardContext::default(),
        chancellor_confirmed_not_hitler: false,
    })
}

#[test]
fn hard_fact_hitler_keeps_four() {
    let pop = generate_assignments_cached(5, 1);
    assert_eq!(pop.len(), 20);
    let facts = vec![Information::HardFact(3, SecretRole::Hitler)];
    let kept = filter_role_assignments(&pop, 5, &facts, false, false).unwrap();
    assert_eq!(kept.len(), 4);
    assert!(kept.iter().all(|a| a[2] == H));
}

#[test]
fn conflict_excludes_hitler_with_strict_toggles() {
    let roles = vec![H, L, L, F, L];
    let facts = vec![Information::PolicyConflict(1, 2)];
    assert_eq!(universal_deducable_information(&roles, &facts[0]).unwrap(), true);
    assert_eq!(no_aggressive_hitler_filter(&roles, &facts[0]).unwrap(), false);
    assert_eq!(valid_role_assignments(&roles, &facts, true, true).unwrap(), false);
    assert_eq!(valid_role_assignments(&roles, &facts, false, false).unwrap(), true);
}

#[test]
fn deduction_rules() {
    let roles = vec![L, F, H, L, L];
    let fi = Information::FascistInvestigation { investigator: 2, investigatee: 3 };
    assert_eq!(universal_deducable_information(&roles, &fi).unwrap(), true);
    assert_eq!(no_fascist_fascist_conflict_filter(&roles, &fi).unwrap(), false);
    let li = Information::LiberalInvestigation { investigator: 2, investigatee: 3 };
    assert_eq!(universal_deducable_information(&roles, &li).unwrap(), true);
    let li2 = Information::LiberalInvestigation { investigator: 1, investigatee: 3 };
    assert_eq!(universal_deducable_information(&roles, &li2).unwrap(), false);
    let alo = Information::AtLeastOneFascist(vec![1, 4, 5]);
    assert_eq!(universal_deducable_information(&roles, &alo).unwrap(), false);
    let alo2 = Information::AtLeastOneFascist(vec![1, 3]);
    assert_eq!(universal_deducable_information(&roles, &alo2).unwrap(), true);
    assert_eq!(universal_deducable_information(&roles, &Information::ConfirmedNotHitler(3)).unwrap(), false);
}

#[test]
fn unknown_player_is_an_error() {
    let roles = vec![L, F, H, L, L];
    let fact = Information::PolicyConflict(2, 9);
    assert!(matches!(universal_deducable_information(&roles, &fact), Err(Error::BadPlayerID(9))));
    let facts = vec![Information::ConfirmedNotHitler(1), Information::AtLeastOneFascist(vec![0, 7])];
    assert!(matches!(valid_role_assignments(&roles, &facts, true, true), Err(Error::BadPlayerID(0))));
    let pop = generate_assignments_cached(5, 1);
    assert!(matches!(filter_role_assignments(&pop, 5, &facts, false, false), Err(Error::BadPlayerID(0))));
}

#[test]
fn contradicting_facts_are_inconsistent() {
    let pop = generate_assignments_cached(5, 1);
    let facts = vec![Information::HardFact(1, H), Information::ConfirmedNotHitler(1)];
    assert!(matches!(filter_role_assignments(&pop, 5, &facts, false, false), Err(Error::LogicalInconsistency)));
}

#[test]
fn no_facts_keep_the_population() {
    let pop = generate_assignments_cached(6, 1);
    let kept = filter_role_assignments(&pop, 6, &vec![], true, true).unwrap();
    assert_eq!(kept, pop);
}

#[test]
fn histogram_rows_add_up() {
    let pop = generate_assignments_cached(5, 1);
    let facts = vec![Information::HardFact(3, H)];
    let kept = filter_role_assignments(&pop, 5, &facts, false, false).unwrap();
    let h = role_histogram(&kept, 5);
    assert_eq!(h.len(), 5);
    for row in &h {
        assert_eq!(row.liberal.num_checked, 4);
        assert_eq!(row.liberal.num_matching + row.regular_fascist.num_matching + row.hitler.num_matching, 4);
    }
    assert_eq!(h[2].hitler, FilterResult { num_matching: 4, num_checked: 4 });
    assert_eq!(h[0].regular_fascist, FilterResult { num_matching: 1, num_checked: 4 });
    assert_eq!(h[0].liberal, FilterResult { num_matching: 3, num_checked: 4 });
    assert_eq!(h[0].get(SecretRole::Liberal).num_matching, 3);
    assert_eq!(FilterResult::none(7), FilterResult { num_matching: 0, num_checked: 7 });
}

#[test]
fn counter_counts_hypotheses() {
    // 3 liberal, 2 fascist cards; hypothesis: the first three cards hold 2 liberal.
    let h = gov(1, 2, 2, 1);
    let r = complex_card_counter(3, 2, &vec![], &vec![], &vec![], &vec![], &vec![], &h);
    assert_eq!(r, FilterResult { num_matching: 6, num_checked: 10 });
    let r2 = complex_card_counter(3, 2, &vec![], &vec![h], &vec![], &vec![], &vec![], &ElectionResult::TopDeck(Policy::Liberal, CardContext::default()));
    assert_eq!(r2, FilterResult { num_matching: 3, num_checked: 6 });
}

#[test]
fn counter_never_grows_with_more_constraints() {
    let facts = vec![gov(1, 2, 2, 1)];
    let more = vec![gov(1, 2, 2, 1), gov(3, 4, 1, 1)];
    let probe = gov(5, 1, 1, 1);
    let a = complex_card_counter(6, 11, &facts, &vec![], &vec![], &vec![1], &vec![], &probe);
    let b = complex_card_counter(6, 11, &more, &vec![], &vec![], &vec![1], &vec![], &probe);
    assert!(b.num_checked <= a.num_checked);
    let c = complex_card_counter(6, 11, &facts, &vec![gov(1, 2, 2, 1)], &vec![], &vec![1], &vec![], &probe);
    assert!(c.num_checked <= a.num_checked);
    let d = complex_card_counter(6, 11, &facts, &vec![], &vec![Some(vec![4])], &vec![], &vec![], &probe);
    assert_eq!(d.num_checked, 0);
}

#[test]
fn confirmed_liberal_president_must_match_the_draw() {
    let facts = vec![gov(1, 2, 3, 2)];
    let r = complex_card_counter(3, 2, &facts, &vec![], &vec![], &vec![1], &vec![], &gov(3, 4, 0, 0));
    assert_eq!(r.num_checked, 1);
}

#[test]
fn folding_unions_children_sets() {
    let a = vec![None, Some(vec![1]), Some(vec![2])];
    let b = vec![None, Some(vec![3]), None, Some(vec![0])];
    let f = fold_children_legal_draws(&vec![a, b]).unwrap();
    assert_eq!(f, vec![None, Some(vec![1, 3]), None]);
    assert_eq!(fold_children_legal_draws(&vec![]), None);
}

#[test]
fn card_context_reshuffles_below_three() {
    let c = CardContext { cards_left: 3, cards_discarded: 2, shuffle_index: 0 };
    assert_eq!(c.atomic_draw(3, 2), CardContext { cards_left: 5, cards_discarded: 0, shuffle_index: 1 });
    let d = CardContext { cards_left: 17, cards_discarded: 0, shuffle_index: 0 };
    assert_eq!(d.atomic_draw(3, 2), CardContext { cards_left: 14, cards_discarded: 2, shuffle_index: 0 });
}

#[test]
fn election_result_counts() {
    let g = gov(1, 2, 2, 1);
    assert_eq!(g.cards_total_drawn_discarded(), (3, 2));
    assert_eq!(g.seen_blues(), 2);
    assert_eq!(g.passed_blues(), 1);
    let t = ElectionResult::TopDeck(Policy::Liberal, CardContext::default());
    assert_eq!(t.cards_total_drawn_discarded(), (1, 0));
    assert_eq!(t.seen_blues(), 1);
    let mut burn = gov(1, 2, 1, 1);
    if let ElectionResult::Election(ref mut e) = burn {
        e.presidential_action = PresidentialAction::PeekAndBurn(Policy::Liberal, true, CardContext::default());
    }
    assert_eq!(burn.cards_total_drawn_discarded(), (4, 3));
    assert_eq!(burn.seen_blues(), 2);
}

#[test]
fn pinning_a_hypothesis_keeps_its_matches() {
    let facts = vec![gov(1, 2, 2, 1)];
    let h = gov(3, 4, 1, 1);
    let a = complex_card_counter(6, 11, &facts, &vec![], &vec![], &vec![], &vec![], &h);
    let b = complex_card_counter(6, 11, &facts, &vec![h], &vec![], &vec![], &vec![], &gov(5, 1, 1, 1));
    assert_eq!(b.num_checked, a.num_matching);
}
