use sh_tool::election::{CardContext, ElectionResult, PresidentialAction};
use sh_tool::error::Error;
use sh_tool::game_configuration::GameConfiguration;
use sh_tool::information::Information;
use sh_tool::player_state::PlayerState;
use sh_tool::policy::Policy;
use sh_tool::rotation::is_eligible_president;
use sh_tool::session::{ActionArguments, GovernmentOutcome};
use sh_tool::tree::{generate_probability_forest, TreeNode};

fn no_args() -> ActionArguments {
    ActionArguments { player: None, policies: None, discarded: None }
}

fn five_player_game() -> PlayerState {
    PlayerState::new(GameConfiguration::new_standard(5, false).unwrap())
}

fn added(r: Result<GovernmentOutcome, Error>) -> sh_tool::election::ElectedGovernment {
    match r {
        Ok(GovernmentOutcome::Added(g)) => g,
        other => panic!("expected an added government, got {:?}", other),
    }
}

#[test]
fn standard_configurations() {
    assert!(matches!(GameConfiguration::new_standard(4, false), Err(Error::BadPlayerCount(4))));
    assert!(matches!(GameConfiguration::new_standard(11, true), Err(Error::BadPlayerCount(11))));
    let c = GameConfiguration::new_standard(7, false).unwrap();
    assert_eq!(c.num_regular_fascists, 2);
    assert_eq!(c.initial_fascist_deck_policies, 11);
    assert!(c.well_formed());
    let r = GameConfiguration::new_standard(6, true).unwrap();
    assert_eq!(r.initial_fascist_deck_policies, 10);
    assert_eq!(r.initial_placed_fascist_policies, 1);
    assert_eq!(r.fascist_board_configuration[2], PresidentialAction::TopDeckPeek([Policy::Liberal; 3]));
    let s = PlayerState::new(c);
    assert_eq!(s.current_roles().len(), 105);
}

#[test]
fn first_presidents_in_rotation() {
    assert!(is_eligible_president(&vec![], 5, 1));
    assert!(is_eligible_president(&vec![], 5, 3));
    assert!(!is_eligible_president(&vec![], 5, 4));
}

#[test]
fn governments_are_validated_and_appended() {
    let mut s = five_player_game();
    let g = added(s.add_government(1, 2, "bbr", "bb", &no_args()));
    assert_eq!(g.policy_passed, Policy::Liberal);
    assert!(!g.conflict);
    assert_eq!(g.president_claimed_blues, 2);
    assert_eq!(g.deck_context, CardContext { cards_left: 17, cards_discarded: 0, shuffle_index: 0 });
    assert!(matches!(s.add_government(1, 3, "bbr", "bb", &no_args()), Err(Error::NotEligiblePresident(1))));
    assert!(matches!(s.add_government(3, 2, "bbr", "bb", &no_args()), Err(Error::NotEligibleChancellor(2))));
    assert!(matches!(s.add_government(3, 3, "bbr", "bb", &no_args()), Err(Error::NotEligibleChancellor(3))));
    assert!(matches!(s.add_government(9, 3, "bbr", "bb", &no_args()), Err(Error::BadPlayerID(9))));
    assert!(matches!(s.add_government(2, 3, "bbx", "bb", &no_args()), Err(Error::ParsePolicyError(_))));
    assert!(matches!(s.add_government(2, 3, "bb", "bb", &no_args()), Err(Error::TooShortPatternError { .. })));
    assert_eq!(s.governments.len(), 1);
    let g2 = added(s.add_government(2, 3, "bbr", "rr", &no_args()));
    assert!(g2.conflict);
    assert_eq!(g2.policy_passed, Policy::Fascist);
    assert_eq!(g2.deck_context, CardContext { cards_left: 14, cards_discarded: 2, shuffle_index: 0 });
    assert_eq!(s.count_policies_on_board(Policy::Fascist), 1);
    assert_eq!(s.count_policies_on_board(Policy::Liberal), 1);
    assert_eq!(s.build_next_card_context(), CardContext { cards_left: 11, cards_discarded: 4, shuffle_index: 0 });
    let facts = s.collect_information();
    assert!(facts.contains(&Information::PolicyConflict(2, 3)));
}

#[test]
fn board_actions_kill_and_peek() {
    let mut s = five_player_game();
    added(s.add_government(1, 2, "rrr", "rr", &no_args()));
    added(s.add_government(2, 3, "rrr", "rr", &no_args()));
    assert!(matches!(s.add_government(3, 4, "rrr", "rr", &no_args()), Err(Error::MissingArgument)));
    let peek = ActionArguments { player: None, policies: Some("bbb".to_string()), discarded: None };
    let g3 = added(s.add_government(3, 4, "rrr", "rr", &peek));
    assert_eq!(g3.presidential_action, PresidentialAction::TopDeckPeek([Policy::Liberal; 3]));
    let kill = ActionArguments { player: Some(2), policies: None, discarded: None };
    let g4 = added(s.add_government(4, 5, "brr", "rr", &kill));
    assert_eq!(g4.presidential_action, PresidentialAction::Kill(2));
    assert!(g4.chancellor_confirmed_not_hitler);
    assert!(matches!(s.player_interactable(2), Err(Error::DeadPlayerID(2))));
    let facts = s.collect_information();
    assert!(facts.contains(&Information::PolicyConflict(3, 4)));
    assert!(facts.contains(&Information::ConfirmedNotHitler(2)));
    assert!(facts.contains(&Information::ConfirmedNotHitler(5)));
    assert!(facts.contains(&Information::PolicyConflict(4, 5)));
    assert!(!s.is_eligible_chancellor(5));
    assert!(s.is_eligible_chancellor(4));
}

#[test]
fn fascists_win_leaves_history_unchanged() {
    let mut s = five_player_game();
    let mut cfg = s.table_configuration;
    cfg.initial_placed_fascist_policies = 2;
    s = PlayerState::new(cfg);
    let peek = ActionArguments { player: None, policies: Some("rrr".to_string()), discarded: None };
    let kill = |p| ActionArguments { player: Some(p), policies: None, discarded: None };
    added(s.add_government(1, 2, "rrr", "rr", &peek));
    added(s.add_government(2, 3, "rrr", "rr", &kill(5)));
    added(s.add_government(3, 4, "rrr", "rr", &kill(1)));
    assert_eq!(s.add_government(4, 2, "rrr", "rr", &no_args()).unwrap(), GovernmentOutcome::FascistsWon);
    assert_eq!(s.governments.len(), 3);
}

#[test]
fn facts_are_added_and_removed() {
    let mut s = five_player_game();
    assert!(matches!(s.add_fact(Information::HardFact(6, sh_tool::secret_role::SecretRole::Hitler)), Err(Error::BadPlayerID(6))));
    s.add_fact(Information::HardFact(3, sh_tool::secret_role::SecretRole::Hitler)).unwrap();
    assert_eq!(s.available_information.len(), 1);
    assert!(matches!(s.remove_fact(2), Err(Error::BadFactIndex(2))));
    assert!(matches!(s.remove_fact(0), Err(Error::BadFactIndex(0))));
    let removed = s.remove_fact(1).unwrap();
    assert_eq!(removed, Information::HardFact(3, sh_tool::secret_role::SecretRole::Hitler));
    assert!(matches!(s.remove_fact(1), Err(Error::BadFactIndex(1))));
}

#[test]
fn histogram_of_a_session() {
    let mut s = five_player_game();
    s.add_fact(Information::HardFact(3, sh_tool::secret_role::SecretRole::Hitler)).unwrap();
    let h = s.filtered_histogramm(true, true, &vec![]).unwrap();
    assert_eq!(h.len(), 5);
    assert_eq!(h[2].hitler.num_matching, 4);
    for row in &h {
        assert_eq!(row.liberal.num_matching + row.regular_fascist.num_matching + row.hitler.num_matching, row.liberal.num_checked);
    }
    s.add_fact(Information::ConfirmedNotHitler(3)).unwrap();
    assert!(matches!(s.filtered_histogramm(true, true, &vec![]), Err(Error::LogicalInconsistency)));
}

#[test]
fn topdeck_and_undo() {
    let mut s = five_player_game();
    let t = s.topdeck(Policy::Fascist);
    assert_eq!(t, ElectionResult::TopDeck(Policy::Fascist, CardContext { cards_left: 17, cards_discarded: 0, shuffle_index: 0 }));
    assert_eq!(s.build_next_card_context(), CardContext { cards_left: 16, cards_discarded: 0, shuffle_index: 0 });
    assert_eq!(s.pop_government(), Some(t));
    assert_eq!(s.pop_government(), None);
}

fn check_tree(nodes: &Vec<TreeNode>) {
    assert!(TreeNode::probability_check_recursive(nodes));
}

#[test]
fn probability_tree_conserves_probability() {
    let mut s = five_player_game();
    added(s.add_government(1, 2, "bbr", "bb", &no_args()));
    added(s.add_government(2, 3, "brr", "rr", &no_args()));
    let forest = generate_probability_forest(&s);
    assert_eq!(forest.len(), 1);
    assert_eq!(forest[0].shuffle_index, 0);
    assert!(!forest[0].roots.is_empty());
    check_tree(&forest[0].roots);
    for root in &forest[0].roots {
        assert!(root.relative_probability.num_matching > 0);
        assert_eq!(root.children.is_empty(), false);
    }
}

#[test]
fn shuffles_group_the_history() {
    let mut s = five_player_game();
    added(s.add_government(1, 2, "bbr", "bb", &no_args()));
    s.topdeck(Policy::Liberal);
    let shuffles = sh_tool::history::shuffle_election_results(&s.table_configuration, &s.governments);
    assert_eq!(shuffles.len(), 1);
    assert_eq!(shuffles[0].initial_deck_liberal, 6);
    assert_eq!(shuffles[0].initial_deck_fascist, 11);
    assert_eq!(shuffles[0].total_leftover, 13);
    assert_eq!(shuffles[0].total_discarded, 2);
    assert_eq!(shuffles[0].total_seen_blues(), 3);
}

#[test]
fn special_election_overrides_only_the_next_president() {
    let mut s = PlayerState::new(GameConfiguration::new_standard(7, false).unwrap());
    added(s.add_government(1, 2, "rrr", "rr", &no_args()));
    let investigate = ActionArguments { player: Some(4), policies: Some("r".to_string()), discarded: None };
    let g2 = added(s.add_government(2, 3, "rrr", "rr", &investigate));
    assert_eq!(g2.presidential_action, PresidentialAction::Investigation(4, Policy::Fascist));
    let special = ActionArguments { player: Some(6), policies: None, discarded: None };
    let g3 = added(s.add_government(3, 4, "rrr", "rr", &special));
    assert_eq!(g3.presidential_action, PresidentialAction::SpecialElection(6));
    assert!(is_eligible_president(&s.governments, 7, 6));
    assert!(is_eligible_president(&s.governments, 7, 4));
    assert!(!is_eligible_president(&s.governments, 7, 7));
    added(s.add_government(6, 1, "bbr", "bb", &no_args()));
    assert!(is_eligible_president(&s.governments, 7, 4));
    assert!(is_eligible_president(&s.governments, 7, 5));
    assert!(!is_eligible_president(&s.governments, 7, 7));
    assert!(!is_eligible_president(&s.governments, 7, 1));
    let facts = s.collect_information();
    assert!(facts.contains(&Information::FascistInvestigation { investigator: 2, investigatee: 4 }));
}

#[test]
fn probability_tree_with_a_top_deck() {
    let mut s = five_player_game();
    added(s.add_government(1, 2, "bbr", "bb", &no_args()));
    s.topdeck(Policy::Fascist);
    added(s.add_government(5, 1, "brr", "br", &no_args()));
    added(s.add_government(1, 3, "rrr", "rr", &no_args()));
    let forest = generate_probability_forest(&s);
    assert_eq!(forest.len(), 1);
    check_tree(&forest[0].roots);
    let total: usize = forest[0].roots.iter().map(|r| r.relative_probability.num_matching).sum();
    assert_eq!(total, forest[0].roots[0].relative_probability.num_checked);
    for root in &forest[0].roots {
        for child in &root.children {
            assert!(matches!(child.relevant_election_result, ElectionResult::TopDeck(Policy::Fascist, _)));
            check_tree(&child.children);
        }
    }
}

#[test]
fn kill_records_the_named_target() {
    let mut s = PlayerState::new(GameConfiguration::new_standard(5, false).unwrap());
    let mut cfg = s.table_configuration;
    cfg.initial_placed_fascist_policies = 2;
    s = PlayerState::new(cfg);
    let peek = ActionArguments { player: None, policies: Some("rbr".to_string()), discarded: None };
    let g1 = added(s.add_government(1, 2, "rrr", "rr", &peek));
    assert_eq!(g1.presidential_action, PresidentialAction::TopDeckPeek([Policy::Fascist, Policy::Fascist, Policy::Liberal]));
    let kill = ActionArguments { player: Some(4), policies: None, discarded: None };
    let g2 = added(s.add_government(2, 3, "rrr", "rr", &kill));
    assert_eq!(g2.presidential_action, PresidentialAction::Kill(4));
}
