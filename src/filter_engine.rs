use vstd::prelude::*;
use crate::deck::FilterResult;
use crate::error::{Error, PlayerID};
use crate::information::{info_players, Information, InformationView};
use crate::secret_role::{role_is_fascist, SecretRole};

verus! {

/// The first of `players` that has no seat among `n` seats.
pub open spec fn unknown_player(n: nat, players: Seq<PlayerID>) -> Option<PlayerID>
    decreases players.len(),
{
    if players.len() == 0 {
        None
    } else if !(1 <= players[0] <= n) {
        Some(players[0])
    } else {
        unknown_player(n, players.drop_first())
    }
}

/// The first unknown player named by the first fact of `infos` that names one.
pub open spec fn first_unknown(n: nat, infos: Seq<InformationView>) -> Option<PlayerID>
    decreases infos.len(),
{
    if infos.len() == 0 {
        None
    } else if unknown_player(n, info_players(infos[0])) is Some {
        unknown_player(n, info_players(infos[0]))
    } else {
        first_unknown(n, infos.drop_first())
    }
}

/// No fact of `infos` names an unknown player exactly when each fact names
/// none.
pub proof fn lemma_first_unknown_all(n: nat, infos: Seq<InformationView>)
    ensures
        first_unknown(n, infos) is None <==> forall|k: int| 0 <= k < infos.len()
            ==> #[trigger] unknown_player(n, info_players(infos[k])) is None,
    decreases infos.len(),
{
    if infos.len() > 0 {
        lemma_first_unknown_all(n, infos.drop_first());
        if first_unknown(n, infos) is None {
            assert forall|k: int| 0 <= k < infos.len() implies #[trigger] unknown_player(n, info_players(infos[k])) is None by {
                if k > 0 {
                    assert(infos[k] == infos.drop_first()[k - 1]);
                }
            }
        }
        if forall|k: int| 0 <= k < infos.len() ==> #[trigger] unknown_player(n, info_players(infos[k])) is None {
            assert forall|k: int| 0 <= k < infos.drop_first().len() implies #[trigger] unknown_player(n, info_players(infos.drop_first()[k])) is None by {
                assert(infos.drop_first()[k] == infos[k + 1]);
            }
            assert(unknown_player(n, info_players(infos[0])) is None);
        }
    }
}

/// The role of seat `p`.
pub open spec fn role_of(a: Seq<SecretRole>, p: PlayerID) -> SecretRole {
    a[p - 1]
}

pub open spec fn fascist_at(a: Seq<SecretRole>, p: PlayerID) -> bool {
    role_is_fascist(role_of(a, p))
}

/// What a fact says under any honest account of the rules.
pub open spec fn universally_deducible(a: Seq<SecretRole>, i: InformationView) -> bool {
    match i {
        InformationView::ConfirmedNotHitler(p) => role_of(a, p) != SecretRole::Hitler,
        InformationView::PolicyConflict(l, r) => fascist_at(a, l) || fascist_at(a, r),
        InformationView::LiberalInvestigation { investigator, investigatee } =>
            role_of(a, investigatee) == SecretRole::Liberal
                || (fascist_at(a, investigator) && fascist_at(a, investigatee)),
        InformationView::FascistInvestigation { investigator, investigatee } =>
            fascist_at(a, investigator) || fascist_at(a, investigatee),
        InformationView::HardFact(p, role) => role_of(a, p) == role,
        InformationView::AtLeastOneFascist(v) => exists|j: int| 0 <= j < v.len() && fascist_at(a, #[trigger] v[j]),
    }
}

/// Hitler takes no part in a conflict and does not accuse anybody.
pub open spec fn no_aggressive_hitler(a: Seq<SecretRole>, i: InformationView) -> bool {
    match i {
        InformationView::PolicyConflict(l, r) => role_of(a, l) != SecretRole::Hitler && role_of(a, r) != SecretRole::Hitler,
        InformationView::FascistInvestigation { investigator, .. } => role_of(a, investigator) != SecretRole::Hitler,
        _ => true,
    }
}

/// Fascists do not attack each other.
pub open spec fn no_fascist_fascist_conflict(a: Seq<SecretRole>, i: InformationView) -> bool {
    match i {
        InformationView::PolicyConflict(l, r) => fascist_at(a, l) != fascist_at(a, r),
        InformationView::FascistInvestigation { investigator, investigatee } =>
            fascist_at(a, investigator) != fascist_at(a, investigatee),
        _ => true,
    }
}

pub open spec fn fact_holds(a: Seq<SecretRole>, i: InformationView, no_aggressive: bool, no_ff: bool) -> bool {
    &&& universally_deducible(a, i)
    &&& (no_aggressive ==> no_aggressive_hitler(a, i))
    &&& (no_ff ==> no_fascist_fascist_conflict(a, i))
}

/// The assignment agrees with every fact.
pub open spec fn valid_assignment(a: Seq<SecretRole>, infos: Seq<InformationView>, no_aggressive: bool, no_ff: bool) -> bool {
    forall|k: int| 0 <= k < infos.len() ==> #[trigger] fact_holds(a, infos[k], no_aggressive, no_ff)
}

/// Checks that every player the fact names has a seat.
pub fn check_players(n: usize, info: &Information) -> (r: Result<(), Error>)
    ensures
        match unknown_player(n as nat, info_players(info@)) {
            Some(p) => r == Err::<(), Error>(Error::BadPlayerID(p)),
            None => r is Ok,
        },
{
    let ghost ps = info_players(info@);
    let single = |p: PlayerID| -> (r: Result<(), Error>)
        ensures
            r == (if 1 <= p <= n { Ok::<(), Error>(()) } else { Err(Error::BadPlayerID(p)) }),
        {
            if 1 <= p && p <= n {
                Ok(())
            } else {
                Err(Error::BadPlayerID(p))
            }
        };
    match info {
        Information::ConfirmedNotHitler(p) | Information::HardFact(p, _) => {
            assert(seq![*p].drop_first() =~= Seq::<PlayerID>::empty());
            assert(ps == seq![*p]);
            reveal_with_fuel(unknown_player, 2);
            single(*p)
        },
        Information::PolicyConflict(l, r) | Information::LiberalInvestigation { investigator: l, investigatee: r }
        | Information::FascistInvestigation { investigator: l, investigatee: r } => {
            assert(seq![*l, *r].drop_first() =~= seq![*r]);
            assert(seq![*r].drop_first() =~= Seq::<PlayerID>::empty());
            assert(ps == seq![*l, *r]);
            reveal_with_fuel(unknown_player, 3);
            match single(*l) {
                Err(e) => Err(e),
                Ok(()) => single(*r),
            }
        },
        Information::AtLeastOneFascist(v) => {
            assert(v@.subrange(0, v@.len() as int) =~= v@);
            assert(ps == v@);
            let mut i: usize = 0;
            while i < v.len()
                invariant
                    i <= v@.len(),
                    info_players(info@) == v@,
                    unknown_player(n as nat, v@) == unknown_player(n as nat, v@.subrange(i as int, v@.len() as int)),
                decreases v@.len() - i,
            {
                let ghost rest = v@.subrange(i as int, v@.len() as int);
                assert(rest[0] == v@[i as int]);
                assert(rest.drop_first() =~= v@.subrange(i + 1, v@.len() as int));
                if !(1 <= v[i] && v[i] <= n) {
                    return Err(Error::BadPlayerID(v[i]));
                }
                i = i + 1;
            }
            assert(v@.subrange(v@.len() as int, v@.len() as int) =~= Seq::<PlayerID>::empty());
            Ok(())
        },
    }
}

fn role(a: &Vec<SecretRole>, p: PlayerID) -> (r: SecretRole)
    requires
        1 <= p <= a@.len(),
    ensures
        r == role_of(a@, p),
{
    a[p - 1]
}

/// Whether the assignment agrees with what the fact says under any honest
/// account of the rules; a fact naming a player without a seat is an error.
pub fn universal_deducable_information(roles: &Vec<SecretRole>, information: &Information) -> (r: Result<bool, Error>)
    ensures
        match unknown_player(roles@.len(), info_players(information@)) {
            Some(p) => r == Err::<bool, Error>(Error::BadPlayerID(p)),
            None => r == Ok::<bool, Error>(universally_deducible(roles@, information@)),
        },
{
    match check_players(roles.len(), information) {
        Err(e) => return Err(e),
        Ok(()) => {},
    }
    proof {
        assert(unknown_player(roles@.len(), info_players(information@)) is None);
    }
    match information {
        Information::ConfirmedNotHitler(p) => {
            assert(1 <= *p <= roles@.len()) by { reveal_with_fuel(unknown_player, 2); }
            Ok(role(roles, *p) != SecretRole::Hitler)
        },
        Information::PolicyConflict(l, r) => {
            assert(1 <= *l <= roles@.len() && 1 <= *r <= roles@.len()) by { reveal_with_fuel(unknown_player, 3); }
            Ok(role(roles, *l).is_fascist() || role(roles, *r).is_fascist())
        },
        Information::LiberalInvestigation { investigator, investigatee } => {
            assert(1 <= *investigator <= roles@.len() && 1 <= *investigatee <= roles@.len()) by { reveal_with_fuel(unknown_player, 3); }
            Ok(role(roles, *investigatee) == SecretRole::Liberal
                || (role(roles, *investigator).is_fascist() && role(roles, *investigatee).is_fascist()))
        },
        Information::FascistInvestigation { investigator, investigatee } => {
            assert(1 <= *investigator <= roles@.len() && 1 <= *investigatee <= roles@.len()) by { reveal_with_fuel(unknown_player, 3); }
            Ok(role(roles, *investigator).is_fascist() || role(roles, *investigatee).is_fascist())
        },
        Information::HardFact(p, r) => {
            assert(1 <= *p <= roles@.len()) by { reveal_with_fuel(unknown_player, 2); }
            Ok(role(roles, *p) == *r)
        },
        Information::AtLeastOneFascist(v) => {
            assert(information@ == InformationView::AtLeastOneFascist(v@));
            proof {
                lemma_all_known(roles@.len(), v@);
            }
            let mut i: usize = 0;
            while i < v.len()
                invariant
                    i <= v@.len(),
                    information@ == InformationView::AtLeastOneFascist(v@),
                    unknown_player(roles@.len(), v@) is None,
                    forall|j: int| 0 <= j < v@.len() ==> 1 <= #[trigger] v@[j] <= roles@.len(),
                    forall|j: int| 0 <= j < i ==> !fascist_at(roles@, #[trigger] v@[j]),
                decreases v@.len() - i,
            {
                if role(roles, v[i]).is_fascist() {
                    assert(fascist_at(roles@, v@[i as int]));
                    return Ok(true);
                }
                i = i + 1;
            }
            Ok(false)
        },
    }
}

proof fn lemma_all_known(n: nat, v: Seq<PlayerID>)
    requires
        unknown_player(n, v) is None,
    ensures
        forall|j: int| 0 <= j < v.len() ==> 1 <= #[trigger] v[j] <= n,
    decreases v.len(),
{
    if v.len() > 0 {
        lemma_all_known(n, v.drop_first());
        assert forall|j: int| 0 <= j < v.len() implies 1 <= #[trigger] v[j] <= n by {
            if j > 0 {
                assert(v[j] == v.drop_first()[j - 1]);
            }
        }
    }
}

/// Whether Hitler stays out of the fact's conflict or accusation.
pub fn no_aggressive_hitler_filter(roles: &Vec<SecretRole>, information: &Information) -> (r: Result<bool, Error>)
    ensures
        match unknown_player(roles@.len(), info_players(information@)) {
            Some(p) => r == Err::<bool, Error>(Error::BadPlayerID(p)),
            None => r == Ok::<bool, Error>(no_aggressive_hitler(roles@, information@)),
        },
{
    match check_players(roles.len(), information) {
        Err(e) => return Err(e),
        Ok(()) => {},
    }
    match information {
        Information::PolicyConflict(l, r) => {
            assert(1 <= *l <= roles@.len() && 1 <= *r <= roles@.len()) by { reveal_with_fuel(unknown_player, 3); }
            Ok(role(roles, *l) != SecretRole::Hitler && role(roles, *r) != SecretRole::Hitler)
        },
        Information::FascistInvestigation { investigator, investigatee } => {
            assert(1 <= *investigator <= roles@.len()) by { reveal_with_fuel(unknown_player, 3); }
            Ok(role(roles, *investigator) != SecretRole::Hitler)
        },
        _ => Ok(true),
    }
}

/// Whether the fact's conflict or accusation sets a fascist against a liberal.
pub fn no_fascist_fascist_conflict_filter(roles: &Vec<SecretRole>, information: &Information) -> (r: Result<bool, Error>)
    ensures
        match unknown_player(roles@.len(), info_players(information@)) {
            Some(p) => r == Err::<bool, Error>(Error::BadPlayerID(p)),
            None => r == Ok::<bool, Error>(no_fascist_fascist_conflict(roles@, information@)),
        },
{
    match check_players(roles.len(), information) {
        Err(e) => return Err(e),
        Ok(()) => {},
    }
    match information {
        Information::PolicyConflict(l, r) => {
            assert(1 <= *l <= roles@.len() && 1 <= *r <= roles@.len()) by { reveal_with_fuel(unknown_player, 3); }
            Ok(role(roles, *l).is_fascist() != role(roles, *r).is_fascist())
        },
        Information::FascistInvestigation { investigator, investigatee } => {
            assert(1 <= *investigator <= roles@.len() && 1 <= *investigatee <= roles@.len()) by { reveal_with_fuel(unknown_player, 3); }
            Ok(role(roles, *investigator).is_fascist() != role(roles, *investigatee).is_fascist())
        },
        _ => Ok(true),
    }
}

/// Whether the assignment agrees with every fact under the chosen
/// relaxations; the first fact naming a player without a seat is an error.
pub fn valid_role_assignments(
    roles: &Vec<SecretRole>,
    information: &Vec<Information>,
    no_aggressive_hitler: bool,
    no_fascist_fascist_conflict: bool,
) -> (r: Result<bool, Error>)
    ensures
        match first_unknown(roles@.len(), information.deep_view()) {
            Some(p) => r == Err::<bool, Error>(Error::BadPlayerID(p)),
            None => r == Ok::<bool, Error>(valid_assignment(roles@, information.deep_view(), no_aggressive_hitler, no_fascist_fascist_conflict)),
        },
{
    let ghost infos = information.deep_view();
    assert(infos.subrange(0, infos.len() as int) =~= infos);
    let mut all_hold = true;
    let mut i: usize = 0;
    while i < information.len()
        invariant
            infos == information.deep_view(),
            i <= infos.len(),
            first_unknown(roles@.len(), infos) == first_unknown(roles@.len(), infos.subrange(i as int, infos.len() as int)),
            all_hold == forall|k: int| 0 <= k < i ==> #[trigger] fact_holds(roles@, infos[k], no_aggressive_hitler, no_fascist_fascist_conflict),
        decreases infos.len() - i,
    {
        let info = &information[i];
        let ghost rest = infos.subrange(i as int, infos.len() as int);
        assert(rest[0] == info@);
        assert(rest.drop_first() =~= infos.subrange(i + 1, infos.len() as int));
        let u = match universal_deducable_information(roles, info) {
            Err(e) => return Err(e),
            Ok(b) => b,
        };
        let h = if no_aggressive_hitler {
            match no_aggressive_hitler_filter(roles, info) {
                Err(e) => return Err(e),
                Ok(b) => b,
            }
        } else {
            true
        };
        let c = if no_fascist_fascist_conflict {
            match no_fascist_fascist_conflict_filter(roles, info) {
                Err(e) => return Err(e),
                Ok(b) => b,
            }
        } else {
            true
        };
        assert((u && h && c) == fact_holds(roles@, infos[i as int], no_aggressive_hitler, no_fascist_fascist_conflict));
        all_hold = all_hold && u && h && c;
        i = i + 1;
    }
    Ok(all_hold)
}

/// All assignments of the population have `n` seats.
pub open spec fn uniform_population(pop: Seq<Seq<SecretRole>>, n: nat) -> bool {
    forall|i: int| 0 <= i < pop.len() ==> (#[trigger] pop[i]).len() == n
}

fn copy_assignment(a: &Vec<SecretRole>) -> (r: Vec<SecretRole>)
    ensures
        r@ == a@,
{
    let mut r: Vec<SecretRole> = Vec::new();
    let mut i: usize = 0;
    while i < a.len()
        invariant
            i <= a@.len(),
            r@ == a@.subrange(0, i as int),
        decreases a@.len() - i,
    {
        r.push(a[i]);
        i = i + 1;
        assert(r@ =~= a@.subrange(0, i as int));
    }
    assert(a@.subrange(0, a@.len() as int) =~= a@);
    r
}

/// The assignments of `population` that agree with every fact. A fact naming
/// a player without a seat is an error; so is an empty result, which means
/// that the facts contradict each other.
pub fn filter_role_assignments(
    population: &Vec<Vec<SecretRole>>,
    n: usize,
    information: &Vec<Information>,
    no_aggressive_hitler: bool,
    no_fascist_fascist_conflict: bool,
) -> (r: Result<Vec<Vec<SecretRole>>, Error>)
    requires
        uniform_population(population.deep_view(), n as nat),
    ensures
        ({
            let pop = population.deep_view();
            let kept = pop.filter(|a: Seq<SecretRole>| valid_assignment(a, information.deep_view(), no_aggressive_hitler, no_fascist_fascist_conflict));
            if pop.len() > 0 && first_unknown(n as nat, information.deep_view()) is Some {
                r == Err::<Vec<Vec<SecretRole>>, Error>(Error::BadPlayerID(first_unknown(n as nat, information.deep_view())->Some_0))
            } else if kept.len() == 0 {
                r == Err::<Vec<Vec<SecretRole>>, Error>(Error::LogicalInconsistency)
            } else {
                r matches Ok(v) && v.deep_view() == kept
            }
        }),
{
    let ghost pop = population.deep_view();
    let ghost infos = information.deep_view();
    let mut kept: Vec<Vec<SecretRole>> = Vec::new();
    let mut i: usize = 0;
    while i < population.len()
        invariant
            pop == population.deep_view(),
            infos == information.deep_view(),
            uniform_population(pop, n as nat),
            i <= pop.len(),
            i > 0 ==> first_unknown(n as nat, infos) is None,
            kept.deep_view() == pop.subrange(0, i as int).filter(
                |a: Seq<SecretRole>| valid_assignment(a, infos, no_aggressive_hitler, no_fascist_fascist_conflict)),
        decreases pop.len() - i,
    {
        let a = &population[i];
        proof {
            assert(a.deep_view() =~= a@);
            assert(pop[i as int] == a@);
        }
        let ghost before = kept.deep_view();
        match valid_role_assignments(a, information, no_aggressive_hitler, no_fascist_fascist_conflict) {
            Err(e) => {
                return Err(e);
            },
            Ok(true) => {
                let c = copy_assignment(a);
                assert(c.deep_view() =~= c@);
                kept.push(c);
                assert(kept.deep_view() =~= before.push(a@));
            },
            Ok(false) => {},
        }
        i = i + 1;
        proof {
            reveal(Seq::filter);
            assert(pop.subrange(0, i as int).drop_last() =~= pop.subrange(0, i - 1 as int));
        }
    }
    assert(pop.subrange(0, pop.len() as int) =~= pop);
    if kept.len() == 0 {
        Err(Error::LogicalInconsistency)
    } else {
        Ok(kept)
    }
}

/// How many assignments of `pop` give seat index `i` the role `r`.
pub open spec fn count_with_role(pop: Seq<Seq<SecretRole>>, i: int, r: SecretRole) -> nat
    decreases pop.len(),
{
    if pop.len() == 0 {
        0
    } else {
        count_with_role(pop.drop_last(), i, r) + (if pop.last()[i] == r { 1nat } else { 0nat })
    }
}

/// For one player, how many of the filtered assignments give each role.
#[derive(Debug, Clone, Copy, PartialEq, Eq)]
pub struct RoleHistogram {
    pub player: PlayerID,
    pub liberal: FilterResult,
    pub regular_fascist: FilterResult,
    pub hitler: FilterResult,
}

impl RoleHistogram {
    /// The count of one role.
    pub fn get(&self, role: SecretRole) -> (r: FilterResult)
        ensures
            role == SecretRole::Liberal ==> r == self.liberal,
            role == SecretRole::RegularFascist ==> r == self.regular_fascist,
            role == SecretRole::Hitler ==> r == self.hitler,
    {
        match role {
            SecretRole::Liberal => self.liberal,
            SecretRole::RegularFascist => self.regular_fascist,
            SecretRole::Hitler => self.hitler,
        }
    }
}

/// Per player, per role, how many of the assignments give the player the
/// role, out of all assignments.
pub fn role_histogram(filtered: &Vec<Vec<SecretRole>>, n: usize) -> (r: Vec<RoleHistogram>)
    requires
        uniform_population(filtered.deep_view(), n as nat),
    ensures
        r@.len() == n,
        forall|i: int| 0 <= i < n ==> {
            let h = #[trigger] r@[i];
            let pop = filtered.deep_view();
            &&& h.player == i + 1
            &&& h.liberal == FilterResult { num_matching: count_with_role(pop, i, SecretRole::Liberal) as usize, num_checked: pop.len() as usize }
            &&& h.regular_fascist == FilterResult { num_matching: count_with_role(pop, i, SecretRole::RegularFascist) as usize, num_checked: pop.len() as usize }
            &&& h.hitler == FilterResult { num_matching: count_with_role(pop, i, SecretRole::Hitler) as usize, num_checked: pop.len() as usize }
        },
{
    let ghost pop = filtered.deep_view();
    let mut out: Vec<RoleHistogram> = Vec::new();
    let mut i: usize = 0;
    while i < n
        invariant
            pop == filtered.deep_view(),
            uniform_population(pop, n as nat),
            i <= n,
            out@.len() == i,
            forall|k: int| 0 <= k < i ==> {
                let h = #[trigger] out@[k];
                &&& h.player == k + 1
                &&& h.liberal == FilterResult { num_matching: count_with_role(pop, k, SecretRole::Liberal) as usize, num_checked: pop.len() as usize }
                &&& h.regular_fascist == FilterResult { num_matching: count_with_role(pop, k, SecretRole::RegularFascist) as usize, num_checked: pop.len() as usize }
                &&& h.hitler == FilterResult { num_matching: count_with_role(pop, k, SecretRole::Hitler) as usize, num_checked: pop.len() as usize }
            },
        decreases n - i,
    {
        let mut lib: usize = 0;
        let mut fasc: usize = 0;
        let mut hit: usize = 0;
        let mut j: usize = 0;
        while j < filtered.len()
            invariant
                pop == filtered.deep_view(),
                uniform_population(pop, n as nat),
                i < n,
                j <= pop.len(),
                lib == count_with_role(pop.subrange(0, j as int), i as int, SecretRole::Liberal),
                fasc == count_with_role(pop.subrange(0, j as int), i as int, SecretRole::RegularFascist),
                hit == count_with_role(pop.subrange(0, j as int), i as int, SecretRole::Hitler),
                lib <= j && fasc <= j && hit <= j,
            decreases pop.len() - j,
        {
            proof {
                assert(filtered@[j as int].deep_view() =~= filtered@[j as int]@);
                assert(pop[j as int] == filtered@[j as int]@);
                assert(pop[j as int].len() == n);
                assert(pop.subrange(0, j + 1 as int).drop_last() =~= pop.subrange(0, j as int));
            }
            match filtered[j][i] {
                SecretRole::Liberal => lib = lib + 1,
                SecretRole::RegularFascist => fasc = fasc + 1,
                SecretRole::Hitler => hit = hit + 1,
            }
            j = j + 1;
        }
        assert(pop.subrange(0, pop.len() as int) =~= pop);
        let total = filtered.len();
        out.push(RoleHistogram {
            player: i + 1,
            liberal: FilterResult { num_matching: lib, num_checked: total },
            regular_fascist: FilterResult { num_matching: fasc, num_checked: total },
            hitler: FilterResult { num_matching: hit, num_checked: total },
        });
        i = i + 1;
    }
    out
}

/// For every player, the counts of the three roles add up to the number of
/// assignments.
pub proof fn lemma_histogram_conservation(pop: Seq<Seq<SecretRole>>, n: nat, i: int)
    requires
        uniform_population(pop, n),
        0 <= i < n,
    ensures
        count_with_role(pop, i, SecretRole::Liberal) + count_with_role(pop, i, SecretRole::RegularFascist)
            + count_with_role(pop, i, SecretRole::Hitler) == pop.len(),
    decreases pop.len(),
{
    if pop.len() > 0 {
        assert(uniform_population(pop.drop_last(), n)) by {
            assert forall|k: int| 0 <= k < pop.drop_last().len() implies (#[trigger] pop.drop_last()[k]).len() == n by {
                assert(pop.drop_last()[k] == pop[k]);
            }
        }
        lemma_histogram_conservation(pop.drop_last(), n, i);
    }
}

/// Filtering with no facts keeps the whole population.
pub proof fn lemma_no_facts_keep_all(pop: Seq<Seq<SecretRole>>, no_aggressive: bool, no_ff: bool)
    ensures
        pop.filter(|a: Seq<SecretRole>| valid_assignment(a, Seq::<InformationView>::empty(), no_aggressive, no_ff)) == pop,
    decreases pop.len(),
{
    reveal(Seq::filter);
    if pop.len() > 0 {
        lemma_no_facts_keep_all(pop.drop_last(), no_aggressive, no_ff);
        assert(pop.drop_last().push(pop.last()) =~= pop);
    }
}

/// Every element that filtering keeps comes from the sequence.
pub proof fn lemma_filter_member<A>(s: Seq<A>, p: spec_fn(A) -> bool, i: int)
    requires
        0 <= i < s.filter(p).len(),
    ensures
        exists|j: int| 0 <= j < s.len() && s[j] == s.filter(p)[i],
    decreases s.len(),
{
    reveal(Seq::filter);
    if s.len() > 0 {
        let sub = s.drop_last().filter(p);
        if i < sub.len() {
            lemma_filter_member(s.drop_last(), p, i);
            let j = choose|j: int| 0 <= j < s.drop_last().len() && s.drop_last()[j] == sub[i];
            assert(s[j] == s.filter(p)[i]);
        } else {
            assert(s[s.len() - 1] == s.filter(p)[i]);
        }
    }
}

/// The liberal count of a seat never exceeds the number of assignments.
pub proof fn lemma_role_count_bounded(pop: Seq<Seq<SecretRole>>, i: int)
    ensures
        count_with_role(pop, i, SecretRole::Liberal) <= pop.len(),
    decreases pop.len(),
{
    if pop.len() > 0 {
        lemma_role_count_bounded(pop.drop_last(), i);
    }
}

} // verus!
