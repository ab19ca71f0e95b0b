use sh_tool::deck::{compute_window_histogram, count_policies, generate_internal, next_blues_count, parse_pattern};
use sh_tool::error::Error;
use sh_tool::policy::Policy;
use sh_tool::roles::generate_assignments_cached;
use sh_tool::secret_role::SecretRole;

const B: Policy = Policy::Liberal;
const R: Policy = Policy::Fascist;

#[test]
fn deck_population_two_liberal_one_fascist() {
    let decks = generate_internal(2, 1);
    assert_eq!(decks.num_cards, 3);
    assert_eq!(decks.actual_decks.len(), 3);
    for expected in [vec![B, B, R], vec![B, R, B], vec![R, B, B]] {
        assert!(decks.actual_decks.contains(&expected));
    }
    assert_eq!(count_policies(&vec![B, B, R], 0, 2, Policy::Liberal), 2);
}

#[test]
fn deck_population_size_and_distinctness() {
    let decks = generate_internal(6, 11);
    assert_eq!(decks.actual_decks.len(), 12376);
    let mut sorted: Vec<Vec<u8>> = decks
        .actual_decks
        .iter()
        .map(|d| d.iter().map(|p| p.rank()).collect())
        .collect();
    sorted.sort();
    sorted.dedup();
    assert_eq!(sorted.len(), 12376);
    for d in &decks.actual_decks {
        assert_eq!(d.len(), 17);
        assert_eq!(d.iter().filter(|p| **p == Policy::Liberal).count(), 6);
    }
}

#[test]
fn deck_population_edge_cases() {
    assert_eq!(generate_internal(0, 0).actual_decks, vec![Vec::<Policy>::new()]);
    assert_eq!(generate_internal(0, 3).actual_decks, vec![vec![R, R, R]]);
    assert_eq!(generate_internal(3, 0).actual_decks, vec![vec![B, B, B]]);
}

#[test]
fn count_policies_cuts_the_window_at_the_end() {
    let deck = vec![B, R, B, B];
    assert_eq!(count_policies(&deck, 2, 5, Policy::Liberal), 2);
    assert_eq!(count_policies(&deck, 7, 2, Policy::Liberal), 0);
    assert_eq!(count_policies(&deck, 0, 4, Policy::Fascist), 1);
}

#[test]
fn window_histogram_counts_every_deck_once() {
    let decks = generate_internal(3, 2).actual_decks;
    let h = compute_window_histogram(&decks, 2);
    assert_eq!(h, vec![1, 6, 3]);
    assert_eq!(h.iter().sum::<usize>(), 10);
}

#[test]
fn next_blues_two_of_two() {
    let r = next_blues_count(3, 2, 2, 2, 0, 0);
    assert_eq!(r.num_matching, 3);
    assert_eq!(r.num_checked, 10);
}

#[test]
fn next_blues_with_guarantees() {
    let r = next_blues_count(3, 2, 3, 2, 1, 1);
    assert_eq!(r.num_checked, 9);
    assert_eq!(r.num_matching, 6);
}

#[test]
fn parse_pattern_sorts_and_counts() {
    let (libs, len, sorted) = parse_pattern("bRl", 3, 3).unwrap();
    assert_eq!(libs, 2);
    assert_eq!(len, 3);
    assert_eq!(sorted, vec![R, B, B]);
}

#[test]
fn parse_pattern_errors() {
    assert!(matches!(parse_pattern("bx", 3, 0), Err(Error::ParsePolicyError(t)) if t == "x"));
    assert!(matches!(parse_pattern("bbbb", 3, 3), Err(Error::TooLongPatternError { have: 3, requested: 4 })));
    assert!(matches!(parse_pattern("b", 3, 2), Err(Error::TooShortPatternError { have: 3, requested: 1 })));
    assert_eq!(parse_pattern("", 3, 0).unwrap().1, 0);
}

#[test]
fn role_population_five_seats_one_fascist() {
    let pop = generate_assignments_cached(5, 1);
    assert_eq!(pop.len(), 20);
    for a in &pop {
        assert_eq!(a.len(), 5);
        assert_eq!(a.iter().filter(|r| **r == SecretRole::Hitler).count(), 1);
        assert_eq!(a.iter().filter(|r| **r == SecretRole::RegularFascist).count(), 1);
    }
}

#[test]
fn role_population_size_and_distinctness() {
    let pop = generate_assignments_cached(7, 2);
    assert_eq!(pop.len(), 105);
    let mut v = pop.clone();
    v.sort();
    v.dedup();
    assert_eq!(v.len(), 105);
    for a in &pop {
        assert_eq!(a.iter().filter(|r| **r == SecretRole::Hitler).count(), 1);
        assert_eq!(a.iter().filter(|r| **r == SecretRole::RegularFascist).count(), 2);
    }
}

#[test]
fn role_population_order() {
    let pop = generate_assignments_cached(3, 1);
    #[allow(non_snake_case)]
    let (H, L, F) = (SecretRole::Hitler, SecretRole::Liberal, SecretRole::RegularFascist);
    assert_eq!(pop, vec![
        vec![H, F, L],
        vec![F, H, L],
        vec![F, L, H],
        vec![H, L, F],
        vec![L, H, F],
        vec![L, F, H],
    ]);
}

#[test]
fn policy_letters_and_order() {
    assert_eq!(Policy::Liberal.letter(), 'B');
    assert_eq!(Policy::Fascist.letter(), 'R');
    assert!(Policy::Fascist.rank() < Policy::Liberal.rank());
    assert_eq!(Policy::from_byte(b'L'), Some(Policy::Liberal));
    assert_eq!(Policy::from_byte(b'r'), Some(Policy::Fascist));
    assert_eq!(Policy::from_byte(b'x'), None);
}

#[test]
fn secret_role_parsing() {
    assert_eq!(SecretRole::parse("HITLER").unwrap(), SecretRole::Hitler);
    assert_eq!(SecretRole::parse("f").unwrap(), SecretRole::RegularFascist);
    assert_eq!(SecretRole::parse("Blue").unwrap(), SecretRole::Liberal);
    assert!(matches!(SecretRole::parse("xyz"), Err(Error::ParseRoleError(t)) if t == "xyz"));
    assert!(SecretRole::Hitler.is_fascist());
    assert!(!SecretRole::Liberal.is_fascist());
    assert_eq!(SecretRole::RegularFascist.name(), "Fascist");
}

#[test]
fn next_blues_counts_add_up() {
    let total = next_blues_count(6, 11, 3, 0, 1, 1).num_checked;
    let sum: usize = (0..=3).map(|k| next_blues_count(6, 11, 3, k, 1, 1).num_matching).sum();
    assert_eq!(sum, total);
}
