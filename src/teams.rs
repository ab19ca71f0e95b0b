use vstd::prelude::*;
use crate::combinatorics::{combinations_from, combinations_of_range, increasing_within, lemma_combinations_shape};
use crate::error::{Error, PlayerID};
use crate::filter_engine::{fascist_at, uniform_population};
use crate::player_state::PlayerState;
use crate::secret_role::SecretRole;

verus! {

/// Every player of `team` is a fascist in `a`.
pub open spec fn all_fascist(a: Seq<SecretRole>, team: Seq<PlayerID>) -> bool {
    forall|i: int| 0 <= i < team.len() ==> #[trigger] fascist_at(a, team[i])
}

/// Some assignment of `kept` makes the whole team fascist.
pub open spec fn team_possible(kept: Seq<Seq<SecretRole>>, team: Seq<PlayerID>) -> bool {
    exists|j: int| 0 <= j < kept.len() && #[trigger] all_fascist(kept[j], team)
}

pub open spec fn is_subset(x: Seq<PlayerID>, y: Seq<PlayerID>) -> bool {
    forall|i: int| 0 <= i < x.len() ==> y.contains(#[trigger] x[i])
}

/// Some team already found lies within `team`.
pub open spec fn covers(found: Seq<Seq<PlayerID>>, team: Seq<PlayerID>) -> bool {
    exists|j: int| 0 <= j < found.len() && #[trigger] is_subset(found[j], team)
}

/// The teams of `k` seats out of `1..=n`, in lexicographic order.
pub open spec fn candidate_teams(n: nat, k: nat) -> Seq<Seq<PlayerID>> {
    combinations_from(0, n, k).map_values(|c: Seq<usize>| c.map_values(|x: usize| (x + 1) as usize))
}

/// The minimal teams of up to `k` players that cannot all be fascist at
/// once: by increasing size, each team that no smaller such team lies within
/// and that no assignment of `kept` makes entirely fascist.
pub open spec fn teams_upto(kept: Seq<Seq<SecretRole>>, n: nat, k: nat) -> Seq<Seq<PlayerID>>
    decreases k,
{
    if k == 0 {
        seq![]
    } else {
        let prev = teams_upto(kept, n, (k - 1) as nat);
        prev + candidate_teams(n, k).filter(|c: Seq<PlayerID>| !covers(prev, c) && !team_possible(kept, c))
    }
}

fn team_of(c: &Vec<usize>, n: usize) -> (r: Vec<PlayerID>)
    requires
        forall|j: int| 0 <= j < c@.len() ==> c@[j] < n,
    ensures
        r@ == c@.map_values(|x: usize| (x + 1) as usize),
        forall|j: int| 0 <= j < r@.len() ==> 1 <= #[trigger] r@[j] <= n,
{
    let mut r: Vec<PlayerID> = Vec::new();
    let mut i: usize = 0;
    while i < c.len()
        invariant
            i <= c@.len(),
            forall|j: int| 0 <= j < c@.len() ==> c@[j] < n,
            r@ == c@.subrange(0, i as int).map_values(|x: usize| (x + 1) as usize),
            forall|j: int| 0 <= j < r@.len() ==> 1 <= #[trigger] r@[j] <= n,
        decreases c@.len() - i,
    {
        r.push(c[i] + 1);
        i = i + 1;
        assert(r@ =~= c@.subrange(0, i as int).map_values(|x: usize| (x + 1) as usize));
    }
    assert(c@.subrange(0, c@.len() as int) =~= c@);
    r
}

fn subset_exec(x: &Vec<PlayerID>, y: &Vec<PlayerID>) -> (r: bool)
    ensures
        r == is_subset(x@, y@),
{
    let mut i: usize = 0;
    while i < x.len()
        invariant
            i <= x@.len(),
            forall|j: int| 0 <= j < i ==> y@.contains(#[trigger] x@[j]),
        decreases x@.len() - i,
    {
        if !crate::counter::contains_player(y, x[i]) {
            return false;
        }
        i = i + 1;
    }
    true
}

fn covered(found: &Vec<Vec<PlayerID>>, upto: usize, team: &Vec<PlayerID>) -> (r: bool)
    requires
        upto <= found@.len(),
    ensures
        r == covers(found.deep_view().subrange(0, upto as int), team@),
{
    let ghost f = found.deep_view().subrange(0, upto as int);
    let mut i: usize = 0;
    while i < upto
        invariant
            upto <= found@.len(),
            f == found.deep_view().subrange(0, upto as int),
            i <= upto,
            forall|j: int| 0 <= j < i ==> !#[trigger] is_subset(f[j], team@),
        decreases upto - i,
    {
        assert(f[i as int] == found@[i as int]@);
        if subset_exec(&found[i], team) {
            assert(is_subset(f[i as int], team@));
            return true;
        }
        i = i + 1;
    }
    false
}

fn possible(kept: &Vec<Vec<SecretRole>>, n: usize, team: &Vec<PlayerID>) -> (r: bool)
    requires
        uniform_population(kept.deep_view(), n as nat),
        forall|j: int| 0 <= j < team@.len() ==> 1 <= #[trigger] team@[j] <= n,
    ensures
        r == team_possible(kept.deep_view(), team@),
{
    let ghost ks = kept.deep_view();
    let mut j: usize = 0;
    while j < kept.len()
        invariant
            ks == kept.deep_view(),
            uniform_population(ks, n as nat),
            forall|t: int| 0 <= t < team@.len() ==> 1 <= #[trigger] team@[t] <= n,
            j <= ks.len(),
            forall|q: int| 0 <= q < j ==> !#[trigger] all_fascist(ks[q], team@),
        decreases ks.len() - j,
    {
        let a = &kept[j];
        assert(a.deep_view() =~= a@);
        assert(ks[j as int] == a@);
        assert(a@.len() == n);
        let mut all = true;
        let mut i: usize = 0;
        while i < team.len()
            invariant
                i <= team@.len(),
                a@.len() == n,
                forall|t: int| 0 <= t < team@.len() ==> 1 <= #[trigger] team@[t] <= n,
                all == forall|t: int| 0 <= t < i ==> #[trigger] fascist_at(a@, team@[t]),
            decreases team@.len() - i,
        {
            let p = team[i];
            let f = a[p - 1].is_fascist();
            assert(f == fascist_at(a@, team@[i as int]));
            all = all && f;
            i = i + 1;
        }
        if all {
            assert(all_fascist(ks[j as int], team@));
            return true;
        }
        j = j + 1;
    }
    false
}

/// The minimal teams of up to `num_fascists` players that no assignment of
/// `kept` makes entirely fascist, by increasing size.
pub fn impossible_teams_of(kept: &Vec<Vec<SecretRole>>, table_size: usize, num_fascists: usize) -> (r: Vec<Vec<PlayerID>>)
    requires
        uniform_population(kept.deep_view(), table_size as nat),
        table_size < usize::MAX,
        num_fascists < usize::MAX,
    ensures
        r.deep_view() == teams_upto(kept.deep_view(), table_size as nat, num_fascists as nat),
{
    let ghost ks = kept.deep_view();
    let mut found: Vec<Vec<PlayerID>> = Vec::new();
    let mut size: usize = 1;
    assert(found.deep_view() =~= teams_upto(ks, table_size as nat, 0));
    while size <= num_fascists
        invariant
            ks == kept.deep_view(),
            uniform_population(ks, table_size as nat),
            table_size < usize::MAX,
            1 <= size,
            size <= num_fascists + 1,
            num_fascists < usize::MAX,
            found.deep_view() == teams_upto(ks, table_size as nat, (size - 1) as nat),
        decreases num_fascists + 1 - size,
    {
        let combos = combinations_of_range(table_size, size);
        proof {
            lemma_combinations_shape(0, table_size as nat, size as nat);
        }
        let ghost prev = found.deep_view();
        let ghost cands = candidate_teams(table_size as nat, size as nat);
        let ghost pred = |c: Seq<PlayerID>| !covers(prev, c) && !team_possible(ks, c);
        let upto = found.len();
        let mut ci: usize = 0;
        while ci < combos.len()
            invariant
                ks == kept.deep_view(),
                uniform_population(ks, table_size as nat),
                table_size < usize::MAX,
                combos.deep_view() == combinations_from(0, table_size as nat, size as nat),
                forall|t: int| 0 <= t < combos.deep_view().len() ==> increasing_within(
                    #[trigger] combos.deep_view()[t], 0, table_size as nat, size as nat),
                cands == candidate_teams(table_size as nat, size as nat),
                cands.len() == combos@.len(),
                upto == prev.len(),
                prev.len() <= found@.len(),
                found.deep_view().subrange(0, upto as int) == prev,
                pred == (|c: Seq<PlayerID>| !covers(prev, c) && !team_possible(ks, c)),
                ci <= combos@.len(),
                found.deep_view() == prev + cands.subrange(0, ci as int).filter(pred),
            decreases combos@.len() - ci,
        {
            let c = &combos[ci];
            assert(c@ == combos.deep_view()[ci as int]);
            assert(increasing_within(c@, 0, table_size as nat, size as nat));
            let team = team_of(c, table_size);
            assert(team@ == cands[ci as int]);
            let keep = !covered(&found, upto, &team) && !possible(kept, table_size, &team);
            assert(keep == pred(team@));
            let ghost before = found.deep_view();
            if keep {
                assert(team.deep_view() =~= team@);
                found.push(team);
                assert(found.deep_view() =~= before.push(cands[ci as int]));
            }
            ci = ci + 1;
            proof {
                reveal(Seq::filter);
                assert(cands.subrange(0, ci as int).drop_last() =~= cands.subrange(0, ci - 1 as int));
                assert(found.deep_view().subrange(0, upto as int) =~= prev);
            }
        }
        assert(cands.subrange(0, cands.len() as int) =~= cands);
        size = size + 1;
    }
    found
}

impl PlayerState {
    /// The minimal teams that cannot all be fascist at once, given everything
    /// known; teams have up to as many players as there are fascists.
    pub fn impossible_teams(&self, allow_fascist_fascist_conflict: bool, allow_aggressive_hitler: bool) -> (r: Result<Vec<Vec<PlayerID>>, Error>)
        requires
            self.well_formed(),
        ensures
            ({
                let n = self.table_configuration.table_size as nat;
                let facts = crate::queries::filter_facts(*self, seq![]);
                let kept = crate::queries::kept_assignments(*self, facts, allow_fascist_fascist_conflict, allow_aggressive_hitler);
                &&& crate::filter_engine::first_unknown(n, facts) is None && kept.len() > 0 ==> (r matches Ok(v)
                    && v.deep_view() == teams_upto(kept, n, self.table_configuration.num_regular_fascists as nat + 1))
                &&& crate::filter_engine::first_unknown(n, facts) is None && kept.len() == 0 ==> r == Err::<Vec<Vec<PlayerID>>, Error>(Error::LogicalInconsistency)
                &&& crate::filter_engine::first_unknown(n, facts) is Some ==> r == Err::<Vec<Vec<PlayerID>>, Error>(
                    Error::BadPlayerID(crate::filter_engine::first_unknown(n, facts)->Some_0))
            }),
    {
        let no_facts: Vec<crate::information::Information> = Vec::new();
        assert(no_facts.deep_view() =~= seq![]);
        let filtered = match self.filter_assigned_roles(allow_fascist_fascist_conflict, allow_aggressive_hitler, &no_facts) {
            Err(e) => return Err(e),
            Ok(v) => v,
        };
        Ok(impossible_teams_of(&filtered, self.table_configuration.table_size, self.table_configuration.num_regular_fascists + 1))
    }
}

} // verus!
