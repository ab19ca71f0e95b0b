use vstd::prelude::*;
use crate::election::{ElectedGovernment, ElectionResult, PresidentialAction};
use crate::error::PlayerID;
use crate::game_configuration::PlayerInfo;
use crate::information::{Information, InformationView};
use crate::policy::Policy;
use crate::secret_role::SecretRole;

verus! {

/// One statement of the government overview graph.
#[derive(Debug, Clone, PartialEq, Eq)]
pub enum GraphStatement {
    /// Government number `index` (1-based): president to chancellor, coloured
    /// by the policy passed, two-headed when the two are in conflict.
    Government {
        president: PlayerID,
        chancellor: PlayerID,
        index: usize,
        policy_passed: Policy,
        in_conflict: bool,
        president_claimed_blues: usize,
        chancellor_claimed_blues: usize,
    },
    /// A president killed a player.
    Kill { president: PlayerID, killed: PlayerID },
    /// A conflict that no government edge shows.
    Conflict { left: PlayerID, right: PlayerID },
    /// An investigation with its claimed result.
    Investigation { investigator: PlayerID, investigatee: PlayerID, fascist: bool },
    /// A player, marked where confirmed not Hitler, coloured by known roles.
    Player { player: PlayerID, confirmed_not_hitler: bool, known_roles: Vec<SecretRole> },
}

pub open spec fn is_conflict_between(i: InformationView, a: PlayerID, b: PlayerID) -> bool {
    i == InformationView::PolicyConflict(a, b) || i == InformationView::PolicyConflict(b, a)
}

/// The government shows a conflict: claimed, or recorded as a fact.
pub open spec fn government_in_conflict(g: ElectedGovernment, infos: Seq<InformationView>) -> bool {
    g.conflict || exists|k: int| 0 <= k < infos.len() && #[trigger] is_conflict_between(infos[k], g.president, g.chancellor)
}

/// The pairs whose conflict a government edge already shows.
pub open spec fn handled_pair(govs: Seq<ElectionResult>, infos: Seq<InformationView>, a: PlayerID, b: PlayerID) -> bool {
    exists|k: int| 0 <= k < govs.len() && #[trigger] handled_at(govs[k], infos, a, b)
}

pub open spec fn handled_at(er: ElectionResult, infos: Seq<InformationView>, a: PlayerID, b: PlayerID) -> bool {
    er matches ElectionResult::Election(g) && government_in_conflict(g, infos)
        && ((g.president == a && g.chancellor == b) || (g.president == b && g.chancellor == a))
}

fn is_conflict_between_exec(i: &Information, a: PlayerID, b: PlayerID) -> (r: bool)
    ensures
        r == is_conflict_between(i@, a, b),
{
    match i {
        Information::PolicyConflict(l, r) => (*l == a && *r == b) || (*l == b && *r == a),
        _ => false,
    }
}

fn conflict_recorded(infos: &Vec<Information>, a: PlayerID, b: PlayerID) -> (r: bool)
    ensures
        r == exists|k: int| 0 <= k < infos@.len() && #[trigger] is_conflict_between(infos.deep_view()[k], a, b),
{
    let mut i: usize = 0;
    while i < infos.len()
        invariant
            i <= infos@.len(),
            forall|k: int| 0 <= k < i ==> !#[trigger] is_conflict_between(infos.deep_view()[k], a, b),
        decreases infos@.len() - i,
    {
        assert(infos.deep_view()[i as int] == infos@[i as int]@);
        if is_conflict_between_exec(&infos[i], a, b) {
            return true;
        }
        i = i + 1;
    }
    false
}

/// A government edge describes the government it numbers.
pub open spec fn government_statement_ok(st: GraphStatement, govs: Seq<ElectionResult>, infos: Seq<InformationView>) -> bool {
    match st {
        GraphStatement::Government { president, chancellor, index, in_conflict, .. } => 1 <= index <= govs.len()
            && match govs[index - 1] {
                ElectionResult::Election(g) => g.president == president && g.chancellor == chancellor
                    && in_conflict == government_in_conflict(g, infos),
                _ => false,
            },
        _ => true,
    }
}

/// A conflict edge stands for a recorded conflict that no government edge shows.
pub open spec fn conflict_statement_ok(st: GraphStatement, govs: Seq<ElectionResult>, infos: Seq<InformationView>) -> bool {
    match st {
        GraphStatement::Conflict { left, right } => !handled_pair(govs, infos, left, right)
            && exists|t: int| 0 <= t < infos.len() && infos[t] == InformationView::PolicyConflict(left, right),
        _ => true,
    }
}

/// A player node stands for a seated player.
pub open spec fn player_statement_ok(st: GraphStatement, players: Seq<PlayerInfo>) -> bool {
    match st {
        GraphStatement::Player { player, .. } => exists|q: int| 0 <= q < players.len() && players[q].seat == player,
        _ => true,
    }
}

pub open spec fn government_edge(g: ElectedGovernment, j: int, infos: Seq<InformationView>) -> GraphStatement {
    GraphStatement::Government {
        president: g.president, chancellor: g.chancellor, index: (j + 1) as usize, policy_passed: g.policy_passed,
        in_conflict: government_in_conflict(g, infos),
        president_claimed_blues: g.president_claimed_blues, chancellor_claimed_blues: g.chancellor_claimed_blues,
    }
}

/// Entry `j`, where it is a government, has its edge among `sts`.
pub open spec fn government_shown(sts: Seq<GraphStatement>, govs: Seq<ElectionResult>, infos: Seq<InformationView>, j: int) -> bool {
    match govs[j] {
        ElectionResult::Election(g) => exists|k: int| 0 <= k < sts.len() && sts[k] == government_edge(g, j, infos),
        _ => true,
    }
}

/// Some fact confirms that `seat` is not Hitler.
pub open spec fn confirmed_in(infos: Seq<InformationView>, seat: PlayerID) -> bool {
    exists|j: int| 0 <= j < infos.len() && infos[j] == InformationView::ConfirmedNotHitler(seat)
}

/// The roles that hard facts give `seat`, in order.
pub open spec fn hard_roles(infos: Seq<InformationView>, seat: PlayerID) -> Seq<SecretRole>
    decreases infos.len(),
{
    if infos.len() == 0 {
        seq![]
    } else {
        hard_roles(infos.drop_last(), seat) + match infos.last() {
            InformationView::HardFact(p, role) => if p == seat { seq![role] } else { seq![] },
            _ => seq![],
        }
    }
}

/// The node of `seat`: marked exactly where a fact confirms it not Hitler,
/// coloured by the roles its hard facts give, in order.
pub open spec fn player_node(st: GraphStatement, seat: PlayerID, infos: Seq<InformationView>) -> bool {
    match st {
        GraphStatement::Player { player, confirmed_not_hitler, known_roles } => player == seat
            && confirmed_not_hitler == confirmed_in(infos, seat) && known_roles@ == hard_roles(infos, seat),
        _ => false,
    }
}

/// Fact `j`, where it is a conflict that no government edge shows, has its
/// edge among `sts`.
pub open spec fn conflict_shown(sts: Seq<GraphStatement>, govs: Seq<ElectionResult>, infos: Seq<InformationView>, j: int) -> bool {
    match infos[j] {
        InformationView::PolicyConflict(l, r) => handled_pair(govs, infos, l, r)
            || sts.contains(GraphStatement::Conflict { left: l, right: r }),
        _ => true,
    }
}

proof fn lemma_conflict_push(sts: Seq<GraphStatement>, x: GraphStatement, govs: Seq<ElectionResult>,
    infos: Seq<InformationView>, m: int)
    requires
        forall|q: int| 0 <= q < m ==> #[trigger] conflict_shown(sts, govs, infos, q),
    ensures
        forall|q: int| 0 <= q < m ==> #[trigger] conflict_shown(sts.push(x), govs, infos, q),
{
    assert forall|q: int| 0 <= q < m implies #[trigger] conflict_shown(sts.push(x), govs, infos, q) by {
        assert(conflict_shown(sts, govs, infos, q));
        match infos[q] {
            InformationView::PolicyConflict(l, r) => {
                if !handled_pair(govs, infos, l, r) {
                    lemma_contains_push(sts, x, GraphStatement::Conflict { left: l, right: r });
                }
            },
            _ => {},
        }
    }
}

/// Player `seat` has its node among `sts`.
pub open spec fn player_shown(sts: Seq<GraphStatement>, seat: PlayerID) -> bool {
    exists|k: int| 0 <= k < sts.len() && (#[trigger] sts[k] matches GraphStatement::Player { player, .. } && player == seat)
}

/// Entry `j`, where it is a kill, has its edge among `sts`.
pub open spec fn kill_shown(sts: Seq<GraphStatement>, govs: Seq<ElectionResult>, j: int) -> bool {
    match govs[j] {
        ElectionResult::Election(g) => match g.presidential_action {
            PresidentialAction::Kill(p) => sts.contains(GraphStatement::Kill { president: g.president, killed: p }),
            _ => true,
        },
        _ => true,
    }
}

/// Fact `j`, where it is an investigation, has its edge among `sts`.
pub open spec fn investigation_shown(sts: Seq<GraphStatement>, infos: Seq<InformationView>, j: int) -> bool {
    match infos[j] {
        InformationView::LiberalInvestigation { investigator, investigatee } =>
            sts.contains(GraphStatement::Investigation { investigator, investigatee, fascist: false }),
        InformationView::FascistInvestigation { investigator, investigatee } =>
            sts.contains(GraphStatement::Investigation { investigator, investigatee, fascist: true }),
        _ => true,
    }
}

proof fn lemma_contains_push(sts: Seq<GraphStatement>, x: GraphStatement, y: GraphStatement)
    requires
        sts.contains(y),
    ensures
        sts.push(x).contains(y),
{
    let k = choose|k: int| 0 <= k < sts.len() && sts[k] == y;
    assert(sts.push(x)[k] == y);
}

proof fn lemma_kept_push(sts: Seq<GraphStatement>, x: GraphStatement, govs: Seq<ElectionResult>,
    infos: Seq<InformationView>, n: int, m: int)
    requires
        forall|q: int| 0 <= q < n ==> #[trigger] kill_shown(sts, govs, q),
        forall|q: int| 0 <= q < m ==> #[trigger] investigation_shown(sts, infos, q),
    ensures
        forall|q: int| 0 <= q < n ==> #[trigger] kill_shown(sts.push(x), govs, q),
        forall|q: int| 0 <= q < m ==> #[trigger] investigation_shown(sts.push(x), infos, q),
{
    assert forall|q: int| 0 <= q < n implies #[trigger] kill_shown(sts.push(x), govs, q) by {
        assert(kill_shown(sts, govs, q));
        match govs[q] {
            ElectionResult::Election(g) => match g.presidential_action {
                PresidentialAction::Kill(p) => lemma_contains_push(sts, x, GraphStatement::Kill { president: g.president, killed: p }),
                _ => {},
            },
            _ => {},
        }
    }
    assert forall|q: int| 0 <= q < m implies #[trigger] investigation_shown(sts.push(x), infos, q) by {
        assert(investigation_shown(sts, infos, q));
        match infos[q] {
            InformationView::LiberalInvestigation { investigator, investigatee } =>
                lemma_contains_push(sts, x, GraphStatement::Investigation { investigator, investigatee, fascist: false }),
            InformationView::FascistInvestigation { investigator, investigatee } =>
                lemma_contains_push(sts, x, GraphStatement::Investigation { investigator, investigatee, fascist: true }),
            _ => {},
        }
    }
}

proof fn lemma_shown_push(sts: Seq<GraphStatement>, x: GraphStatement, govs: Seq<ElectionResult>, infos: Seq<InformationView>, n: int)
    requires
        forall|q: int| 0 <= q < n ==> #[trigger] government_shown(sts, govs, infos, q),
    ensures
        forall|q: int| 0 <= q < n ==> #[trigger] government_shown(sts.push(x), govs, infos, q),
{
    assert forall|q: int| 0 <= q < n implies #[trigger] government_shown(sts.push(x), govs, infos, q) by {
        assert(government_shown(sts, govs, infos, q));
        match govs[q] {
            ElectionResult::Election(g) => {
                let k = choose|k: int| 0 <= k < sts.len() && sts[k] == government_edge(g, q, infos);
                assert(sts.push(x)[k] == government_edge(g, q, infos));
            },
            _ => {},
        }
    }
}

/// The government overview: one edge per government (and per kill), then
/// the investigations and the conflicts that no government edge shows, then
/// one node per player with what is known of them.
pub fn generate_dot_report(
    information: &Vec<Information>,
    governments: &Vec<ElectionResult>,
    players: &Vec<PlayerInfo>,
) -> (r: Vec<GraphStatement>)
    requires
        governments@.len() < usize::MAX,
    ensures
        forall|k: int| 0 <= k < r@.len() ==> government_statement_ok(#[trigger] r@[k], governments@, information.deep_view()),
        forall|k: int| 0 <= k < r@.len() ==> conflict_statement_ok(#[trigger] r@[k], governments@, information.deep_view()),
        forall|k: int| 0 <= k < r@.len() ==> player_statement_ok(#[trigger] r@[k], players@),
        forall|j: int| 0 <= j < governments@.len() ==> #[trigger] government_shown(r@, governments@, information.deep_view(), j),
        forall|j: int| 0 <= j < governments@.len() ==> #[trigger] kill_shown(r@, governments@, j),
        forall|j: int| 0 <= j < information@.len() ==> #[trigger] investigation_shown(r@, information.deep_view(), j),
        forall|q: int| 0 <= q < players@.len() ==> #[trigger] player_shown(r@, players@[q].seat),
        forall|j: int| 0 <= j < information@.len() ==> #[trigger] conflict_shown(r@, governments@, information.deep_view(), j),
        r@.len() >= players@.len(),
        forall|q: int| 0 <= q < players@.len() ==> player_node(#[trigger] r@[r@.len() - players@.len() + q],
            players@[q].seat, information.deep_view()),
        forall|k: int| 0 <= k < r@.len() - players@.len() ==> !(#[trigger] r@[k] is Player),
{
    let ghost infos = information.deep_view();
    let mut statements: Vec<GraphStatement> = Vec::new();
    let mut i: usize = 0;
    while i < governments.len()
        invariant
            infos == information.deep_view(),
            governments@.len() < usize::MAX,
            i <= governments@.len(),
            forall|k: int| 0 <= k < statements@.len() ==> government_statement_ok(#[trigger] statements@[k], governments@, infos),
            forall|k: int| 0 <= k < statements@.len() ==> (#[trigger] statements@[k] matches GraphStatement::Government { index, .. } ==> index <= i),
            forall|k: int| 0 <= k < statements@.len() ==> !(#[trigger] statements@[k] is Conflict) && !(statements@[k] is Player),
            forall|j: int| 0 <= j < i ==> #[trigger] government_shown(statements@, governments@, infos, j),
            forall|j: int| 0 <= j < i ==> #[trigger] kill_shown(statements@, governments@, j),
        decreases governments@.len() - i,
    {
        match &governments[i] {
            ElectionResult::Election(g) => {
                let in_conflict = g.conflict || conflict_recorded(information, g.president, g.chancellor);
                let ghost n = statements@.len();
                let ghost before = statements@;
                statements.push(GraphStatement::Government {
                    president: g.president,
                    chancellor: g.chancellor,
                    index: i + 1,
                    policy_passed: g.policy_passed,
                    in_conflict,
                    president_claimed_blues: g.president_claimed_blues,
                    chancellor_claimed_blues: g.chancellor_claimed_blues,
                });
                assert(statements@[n as int] is Government);
                proof {
                    lemma_shown_push(before, statements@[n as int], governments@, infos, i as int);
                    lemma_kept_push(before, statements@[n as int], governments@, infos, i as int, 0);
                    assert(statements@[n as int] == government_edge(*g, i as int, infos));
                    assert(government_shown(statements@, governments@, infos, i as int));
                }
                if let PresidentialAction::Kill(killed) = g.presidential_action {
                    let ghost before2 = statements@;
                    statements.push(GraphStatement::Kill { president: g.president, killed });
                    proof {
                        lemma_shown_push(before2, statements@[before2.len() as int], governments@, infos, i + 1);
                        lemma_kept_push(before2, statements@[before2.len() as int], governments@, infos, i as int, 0);
                        assert(statements@[before2.len() as int] == GraphStatement::Kill { president: g.president, killed });
                    }
                }
            },
            ElectionResult::TopDeck(_, _) => {},
        }
        i = i + 1;
    }
    let mut j: usize = 0;
    while j < information.len()
        invariant
            infos == information.deep_view(),
            j <= infos.len(),
            forall|k: int| 0 <= k < statements@.len() ==> government_statement_ok(#[trigger] statements@[k], governments@, infos),
            forall|k: int| 0 <= k < statements@.len() ==> conflict_statement_ok(#[trigger] statements@[k], governments@, infos),
            forall|k: int| 0 <= k < statements@.len() ==> !(#[trigger] statements@[k] is Player),
            forall|q: int| 0 <= q < governments@.len() ==> #[trigger] government_shown(statements@, governments@, infos, q),
            forall|q: int| 0 <= q < governments@.len() ==> #[trigger] kill_shown(statements@, governments@, q),
            forall|q: int| 0 <= q < j ==> #[trigger] investigation_shown(statements@, infos, q),
            forall|q: int| 0 <= q < j ==> #[trigger] conflict_shown(statements@, governments@, infos, q),
            forall|k: int| 0 <= k < statements@.len() ==> !(#[trigger] statements@[k] is Player),
        decreases infos.len() - j,
    {
        assert(infos[j as int] == information@[j as int]@);
        match &information[j] {
            Information::PolicyConflict(left, right) => {
                if !handled(governments, information, *left, *right) {
                    let ghost before = statements@;
                    statements.push(GraphStatement::Conflict { left: *left, right: *right });
                    proof {
                        lemma_shown_push(before, statements@[before.len() as int], governments@, infos, governments@.len() as int);
                        lemma_kept_push(before, statements@[before.len() as int], governments@, infos, governments@.len() as int, j as int);
                        lemma_conflict_push(before, statements@[before.len() as int], governments@, infos, j as int);
                        assert(statements@.contains(statements@[before.len() as int]));
                    }
                }
            },
            Information::LiberalInvestigation { investigator, investigatee } => {
                let ghost before = statements@;
                statements.push(GraphStatement::Investigation { investigator: *investigator, investigatee: *investigatee, fascist: false });
                proof {
                        lemma_shown_push(before, statements@[before.len() as int], governments@, infos, governments@.len() as int);
                        lemma_kept_push(before, statements@[before.len() as int], governments@, infos, governments@.len() as int, j as int);
                        lemma_conflict_push(before, statements@[before.len() as int], governments@, infos, j as int);
                        assert(statements@.contains(statements@[before.len() as int]));
                    }
            },
            Information::FascistInvestigation { investigator, investigatee } => {
                let ghost before = statements@;
                statements.push(GraphStatement::Investigation { investigator: *investigator, investigatee: *investigatee, fascist: true });
                proof {
                        lemma_shown_push(before, statements@[before.len() as int], governments@, infos, governments@.len() as int);
                        lemma_kept_push(before, statements@[before.len() as int], governments@, infos, governments@.len() as int, j as int);
                        lemma_conflict_push(before, statements@[before.len() as int], governments@, infos, j as int);
                        assert(statements@.contains(statements@[before.len() as int]));
                    }
            },
            _ => {},
        }
        j = j + 1;
    }
    let ghost base = statements@.len();
    let mut p: usize = 0;
    while p < players.len()
        invariant
            infos == information.deep_view(),
            p <= players@.len(),
            forall|k: int| 0 <= k < statements@.len() ==> government_statement_ok(#[trigger] statements@[k], governments@, infos),
            forall|k: int| 0 <= k < statements@.len() ==> conflict_statement_ok(#[trigger] statements@[k], governments@, infos),
            forall|k: int| 0 <= k < statements@.len() ==> player_statement_ok(#[trigger] statements@[k], players@),
            forall|q: int| 0 <= q < governments@.len() ==> #[trigger] government_shown(statements@, governments@, infos, q),
            forall|q: int| 0 <= q < governments@.len() ==> #[trigger] kill_shown(statements@, governments@, q),
            forall|q: int| 0 <= q < infos.len() ==> #[trigger] investigation_shown(statements@, infos, q),
            forall|q: int| 0 <= q < p ==> #[trigger] player_shown(statements@, players@[q].seat),
            forall|q: int| 0 <= q < infos.len() ==> #[trigger] conflict_shown(statements@, governments@, infos, q),
            statements@.len() == base + p,
            forall|k: int| 0 <= k < base ==> !(#[trigger] statements@[k] is Player),
            forall|q: int| 0 <= q < p ==> player_node(#[trigger] statements@[base + q], players@[q].seat, infos),
        decreases players@.len() - p,
    {
        let seat = players[p].seat;
        let mut confirmed = false;
        let mut known_roles: Vec<SecretRole> = Vec::new();
        let mut j: usize = 0;
        while j < information.len()
            invariant
                infos == information.deep_view(),
                j <= information@.len(),
                confirmed == exists|t: int| 0 <= t < j && infos[t] == InformationView::ConfirmedNotHitler(seat),
                known_roles@ == hard_roles(infos.subrange(0, j as int), seat),
            decreases information@.len() - j,
        {
            assert(infos[j as int] == information@[j as int]@);
            assert(infos.subrange(0, j + 1 as int).drop_last() =~= infos.subrange(0, j as int));
            let ghost before_roles = known_roles@;
            match &information[j] {
                Information::ConfirmedNotHitler(x) => {
                    if *x == seat {
                        confirmed = true;
                    }
                },
                Information::HardFact(x, role) => {
                    if *x == seat {
                        known_roles.push(*role);
                    }
                },
                _ => {},
            }
            assert(known_roles@ =~= hard_roles(infos.subrange(0, j + 1 as int), seat));
            j = j + 1;
        }
        assert(infos.subrange(0, information@.len() as int) =~= infos);
        assert(confirmed == confirmed_in(infos, seat));
        let ghost before = statements@;
        statements.push(GraphStatement::Player { player: seat, confirmed_not_hitler: confirmed, known_roles });
        proof {
            lemma_shown_push(before, statements@[before.len() as int], governments@, infos, governments@.len() as int);
            lemma_kept_push(before, statements@[before.len() as int], governments@, infos, governments@.len() as int, infos.len() as int);
            lemma_conflict_push(before, statements@[before.len() as int], governments@, infos, infos.len() as int);
            assert forall|q: int| 0 <= q < p + 1 implies player_node(#[trigger] statements@[base + q], players@[q].seat, infos) by {
                if q < p {
                    assert(statements@[base + q] == before[base + q]);
                }
            }
            assert forall|k: int| 0 <= k < base implies !(#[trigger] statements@[k] is Player) by {
                assert(statements@[k] == before[k]);
            }
            assert forall|q: int| 0 <= q < p + 1 implies #[trigger] player_shown(statements@, players@[q].seat) by {
                if q < p {
                    assert(player_shown(before, players@[q].seat));
                    let k = choose|k: int| 0 <= k < before.len() && (#[trigger] before[k] matches GraphStatement::Player { player, .. } && player == players@[q].seat);
                    assert(statements@[k] == before[k]);
                } else {
                    assert(statements@[before.len() as int] matches GraphStatement::Player { player, .. } && player == players@[q].seat);
                }
            }
        }
        p = p + 1;
    }
    statements
}

/// Whether a government edge already shows the conflict between `a` and `b`.
fn handled(governments: &Vec<ElectionResult>, information: &Vec<Information>, a: PlayerID, b: PlayerID) -> (r: bool)
    ensures
        r == handled_pair(governments@, information.deep_view(), a, b),
{
    let mut i: usize = 0;
    while i < governments.len()
        invariant
            i <= governments@.len(),
            forall|k: int| 0 <= k < i ==> !#[trigger] handled_at(governments@[k], information.deep_view(), a, b),
        decreases governments@.len() - i,
    {
        match &governments[i] {
            ElectionResult::Election(g) => {
                if (g.president == a && g.chancellor == b) || (g.president == b && g.chancellor == a) {
                    if g.conflict || conflict_recorded(information, g.president, g.chancellor) {
                        assert(handled_at(governments@[i as int], information.deep_view(), a, b));
                        return true;
                    }
                }
            },
            ElectionResult::TopDeck(_, _) => {},
        }
        i = i + 1;
    }
    false
}

/// The claim written out: fascist letters first, then liberal ones.
pub fn generate_claim_pattern_from_blues(blues: usize, pattern_length: usize) -> (r: Vec<Policy>)
    requires
        blues <= pattern_length,
    ensures
        r@ == crate::deck::sorted_claim(blues as nat, pattern_length as nat),
{
    let mut r: Vec<Policy> = Vec::new();
    let mut i: usize = 0;
    while i < pattern_length
        invariant
            i <= pattern_length,
            blues <= pattern_length,
            r@ == crate::deck::sorted_claim(blues as nat, pattern_length as nat).subrange(0, i as int),
        decreases pattern_length - i,
    {
        if i < pattern_length - blues {
            r.push(Policy::Fascist);
        } else {
            r.push(Policy::Liberal);
        }
        i = i + 1;
        assert(r@ =~= crate::deck::sorted_claim(blues as nat, pattern_length as nat).subrange(0, i as int));
    }
    assert(r@ =~= crate::deck::sorted_claim(blues as nat, pattern_length as nat));
    r
}

} // verus!
