use sh_tool::deck::FilterResult;
use sh_tool::filter_engine::RoleHistogram;
use sh_tool::queries::rank_by_hitler;
use sh_tool::error::Error;
use sh_tool::game_configuration::{GameConfiguration, PlayerInfo};
use sh_tool::information::Information;
use sh_tool::input::{
    action_for_choice, check_value_answer, executable_parser, parse_player_name, pick_player, InvocationStrategy,
    ValueAnswer,
};
use sh_tool::election::PresidentialAction;
use sh_tool::player_state::PlayerState;
use sh_tool::policy::Policy;
use sh_tool::report::{generate_claim_pattern_from_blues, generate_dot_report, GraphStatement};
use sh_tool::secret_role::SecretRole;
use sh_tool::session::ActionArguments;
use sh_tool::teams::impossible_teams_of;
use sh_tool::roles::generate_assignments_cached;

fn five_player_game() -> PlayerState {
    PlayerState::new(GameConfiguration::new_standard(5, false).unwrap())
}

fn named(names: &[&str]) -> Vec<PlayerInfo> {
    names.iter().enumerate().map(|(i, n)| PlayerInfo { seat: i + 1, name: n.to_string() }).collect()
}

#[test]
fn impossible_teams_with_known_hitler() {
    let mut s = five_player_game();
    s.add_fact(Information::HardFact(3, SecretRole::Hitler)).unwrap();
    s.add_fact(Information::HardFact(1, SecretRole::Liberal)).unwrap();
    let teams = s.impossible_teams(true, true).unwrap();
    assert_eq!(teams, vec![vec![1], vec![2, 4], vec![2, 5], vec![4, 5]]);
}

#[test]
fn impossible_teams_skip_supersets() {
    let pop = generate_assignments_cached(5, 1);
    let kept: Vec<Vec<SecretRole>> = pop.into_iter().filter(|a| a[0] == SecretRole::Liberal && a[1] == SecretRole::Liberal).collect();
    let teams = impossible_teams_of(&kept, 5, 2);
    assert_eq!(teams, vec![vec![1], vec![2]]);
    let all = generate_assignments_cached(5, 1);
    assert_eq!(impossible_teams_of(&all, 5, 2), Vec::<Vec<usize>>::new());
    let two_fascists: Vec<Vec<SecretRole>> = generate_assignments_cached(5, 1)
        .into_iter()
        .filter(|a| !(a[3].is_fascist() && a[4].is_fascist()))
        .collect();
    assert_eq!(impossible_teams_of(&two_fascists, 5, 2), vec![vec![4, 5]]);
}

#[test]
fn overview_graph_statements() {
    let mut s = five_player_game();
    let none = ActionArguments { player: None, policies: None, discarded: None };
    s.add_government(1, 2, "bbr", "bb", &none).unwrap();
    s.add_government(2, 3, "bbr", "rr", &none).unwrap();
    s.add_fact(Information::PolicyConflict(4, 5)).unwrap();
    s.add_fact(Information::PolicyConflict(3, 2)).unwrap();
    s.add_fact(Information::FascistInvestigation { investigator: 1, investigatee: 5 }).unwrap();
    s.add_fact(Information::HardFact(4, SecretRole::Liberal)).unwrap();
    let st = generate_dot_report(&s.collect_information(), &s.governments, &s.player_info);
    assert_eq!(st[0], GraphStatement::Government {
        president: 1,
        chancellor: 2,
        index: 1,
        policy_passed: Policy::Liberal,
        in_conflict: false,
        president_claimed_blues: 2,
        chancellor_claimed_blues: 2,
    });
    assert!(matches!(st[1], GraphStatement::Government { index: 2, in_conflict: true, .. }));
    assert!(st.contains(&GraphStatement::Conflict { left: 4, right: 5 }));
    assert!(!st.contains(&GraphStatement::Conflict { left: 3, right: 2 }));
    assert!(st.contains(&GraphStatement::Investigation { investigator: 1, investigatee: 5, fascist: true }));
    assert!(st.contains(&GraphStatement::Player { player: 4, confirmed_not_hitler: false, known_roles: vec![SecretRole::Liberal] }));
    assert_eq!(st.iter().filter(|x| matches!(x, GraphStatement::Player { .. })).count(), 5);
}

#[test]
fn claim_patterns() {
    assert_eq!(generate_claim_pattern_from_blues(1, 3), vec![Policy::Fascist, Policy::Fascist, Policy::Liberal]);
    assert_eq!(generate_claim_pattern_from_blues(0, 2), vec![Policy::Fascist, Policy::Fascist]);
}

#[test]
fn player_names_resolve() {
    let players = named(&["Alice", "Bob", "", "Carol", "Dave"]);
    assert_eq!(parse_player_name("3", &players).unwrap(), 3);
    assert_eq!(parse_player_name("ALICE", &players).unwrap(), 1);
    assert_eq!(parse_player_name("carl", &players).unwrap(), 4);
    assert!(matches!(parse_player_name("Zed", &players), Err(Error::ParseNameError(t)) if t == "zed"));
    let unnamed = named(&["", ""]);
    assert!(matches!(parse_player_name("Bob", &unnamed), Err(Error::ParseNameError(_))));
    let one = named(&["Bob"]);
    assert_eq!(parse_player_name("bop", &one).unwrap(), 1);
    assert!(parse_player_name("xxxxxx", &one).is_err());
}

#[test]
fn picking_among_scores() {
    assert_eq!(pick_player(&vec![]), None);
    assert_eq!(pick_player(&vec![(2, 3)]), Some(2));
    assert_eq!(pick_player(&vec![(2, 4)]), None);
    assert_eq!(pick_player(&vec![(1, 5), (2, 1), (3, 6)]), Some(2));
    assert_eq!(pick_player(&vec![(1, 2), (2, 1), (3, 6)]), None);
    assert_eq!(pick_player(&vec![(1, 0), (2, 0)]), Some(1));
}

#[test]
fn executables() {
    let (l, s) = executable_parser("BASH").unwrap();
    assert_eq!(l, "bash");
    assert_eq!(s, InvocationStrategy::Bash);
    assert_eq!(executable_parser("Dot").unwrap().1, InvocationStrategy::Directly);
    assert_eq!(executable_parser("").unwrap().1, InvocationStrategy::Manual);
    assert!(matches!(executable_parser("Zsh"), Err(Error::BadExecutable(t)) if t == "Zsh"));
}

#[test]
fn value_answers() {
    assert_eq!(check_value_answer("", Some(7), 5, 10), ValueAnswer::Accepted(7));
    assert_eq!(check_value_answer("", None, 1, 7), ValueAnswer::NotANumber);
    assert_eq!(check_value_answer("four", Some(7), 5, 10), ValueAnswer::NotANumber);
    assert_eq!(check_value_answer("4", Some(7), 5, 10), ValueAnswer::TooSmall);
    assert_eq!(check_value_answer("11", Some(7), 5, 10), ValueAnswer::TooLarge);
    assert_eq!(check_value_answer("9", Some(7), 5, 10), ValueAnswer::Accepted(9));
    assert_eq!(check_value_answer("+8", Some(7), 5, 10), ValueAnswer::Accepted(8));
    assert_eq!(check_value_answer("-6", Some(7), 5, 10), ValueAnswer::NotANumber);
    assert_eq!(check_value_answer("+", Some(7), 5, 10), ValueAnswer::NotANumber);
    assert_eq!(action_for_choice(2), Some(PresidentialAction::Kill(0)));
    assert_eq!(action_for_choice(0), None);
    assert_eq!(action_for_choice(8), None);
}

#[test]
fn shuffle_probability_without_lies() {
    let mut s = five_player_game();
    let none = ActionArguments { player: None, policies: None, discarded: None };
    s.add_government(1, 2, "bbr", "bb", &none).unwrap();
    let r = s.total_draw_probability();
    assert_eq!(r.len(), 1);
    assert_eq!(r[0].0, 0);
    // The first 14 cards hold the 4 liberal cards not seen: 1001 ways, times 3 for the rest.
    assert_eq!(r[0].1.num_checked, 12376);
    let expected: usize = 1001 * 3;
    assert_eq!(r[0].1.num_matching, expected);
}

#[test]
fn hitler_ranking_is_stable() {
    let row = |player: usize, h: usize| RoleHistogram {
        player,
        liberal: FilterResult { num_matching: 0, num_checked: 10 },
        regular_fascist: FilterResult { num_matching: 0, num_checked: 10 },
        hitler: FilterResult { num_matching: h, num_checked: 10 },
    };
    let ranked = rank_by_hitler(vec![row(1, 2), row(2, 5), row(3, 2), row(4, 1), row(5, 5)]);
    let order: Vec<usize> = ranked.iter().map(|r| r.player).collect();
    assert_eq!(order, vec![2, 5, 1, 3, 4]);
}

#[test]
fn one_node_per_player_with_its_marks() {
    let mut s = five_player_game();
    s.add_fact(Information::ConfirmedNotHitler(2)).unwrap();
    s.add_fact(Information::HardFact(2, SecretRole::Liberal)).unwrap();
    s.add_fact(Information::HardFact(2, SecretRole::Liberal)).unwrap();
    let st = generate_dot_report(&s.collect_information(), &s.governments, &s.player_info);
    let nodes: Vec<&GraphStatement> = st.iter().filter(|x| matches!(x, GraphStatement::Player { .. })).collect();
    assert_eq!(nodes.len(), 5);
    assert_eq!(*nodes[1], GraphStatement::Player {
        player: 2,
        confirmed_not_hitler: true,
        known_roles: vec![SecretRole::Liberal, SecretRole::Liberal],
    });
    assert_eq!(*nodes[0], GraphStatement::Player { player: 1, confirmed_not_hitler: false, known_roles: vec![] });
    assert_eq!(check_value_answer("99999999999999999999999", None, 0, 10), ValueAnswer::NotANumber);
}
