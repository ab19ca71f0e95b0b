use vstd::prelude::*;
use crate::deck::{all_decks, next_blues_count, window_guaranteed, count_window, FilterResult};
use crate::deduction::all_facts;
use crate::error::Error;
use crate::filter_engine::{
    filter_role_assignments, first_unknown, role_histogram, uniform_population, valid_assignment,
    count_with_role, RoleHistogram,
};
use crate::history::{
    deck_fascist_at, deck_liberal_at, leftover_at, lemma_bounds_in_range, lemma_history_claims,
    shuffle_bounds, shuffle_election_results, shuffle_matches, sum_seen, sat_sub, sums_fit,
};
use crate::information::Information;
use crate::player_state::PlayerState;
use crate::policy::Policy;
use crate::roles::is_role_assignment;
use crate::secret_role::SecretRole;

verus! {

/// The facts that filtering uses: everything known plus `temporary`.
pub open spec fn filter_facts(s: PlayerState, temporary: Seq<crate::information::InformationView>) -> Seq<crate::information::InformationView> {
    all_facts(s) + temporary
}

/// The assignments of the table that agree with `facts`.
pub open spec fn kept_assignments(s: PlayerState, facts: Seq<crate::information::InformationView>, allow_ff: bool, allow_ah: bool) -> Seq<Seq<SecretRole>> {
    crate::roles::role_population(s.table_configuration.table_size as nat, s.table_configuration.num_regular_fascists as nat).filter(
        |a: Seq<SecretRole>| valid_assignment(a, facts, !allow_ah, !allow_ff))
}

fn concat_facts(a: Vec<Information>, b: &Vec<Information>) -> (r: Vec<Information>)
    ensures
        r.deep_view() == a.deep_view() + b.deep_view(),
{
    let mut r = a;
    let ghost start = r.deep_view();
    let mut i: usize = 0;
    while i < b.len()
        invariant
            i <= b@.len(),
            r.deep_view() == start + b.deep_view().subrange(0, i as int),
        decreases b@.len() - i,
    {
        let ghost before = r.deep_view();
        crate::deduction::push_fact(&mut r, b[i].duplicate());
        assert(b.deep_view()[i as int] == b@[i as int]@);
        assert(r.deep_view() =~= before.push(b.deep_view()[i as int]));
        assert(b.deep_view().subrange(0, i + 1 as int) =~= b.deep_view().subrange(0, i as int).push(b.deep_view()[i as int]));
        i = i + 1;
        assert(r.deep_view() =~= start + b.deep_view().subrange(0, i as int));
    }
    assert(b.deep_view().subrange(0, b@.len() as int) =~= b.deep_view());
    r
}

impl PlayerState {
    /// The role assignments of the table that agree with everything known and
    /// with `temporary`. Fascists attacking each other and an active Hitler are
    /// ruled out unless allowed.
    pub fn filter_assigned_roles(
        &self,
        allow_fascist_fascist_conflict: bool,
        allow_aggressive_hitler: bool,
        temporary: &Vec<Information>,
    ) -> (r: Result<Vec<Vec<SecretRole>>, Error>)
        requires
            self.well_formed(),
        ensures
            ({
                let n = self.table_configuration.table_size as nat;
                let facts = filter_facts(*self, temporary.deep_view());
                if first_unknown(n, facts) is Some {
                    r == Err::<Vec<Vec<SecretRole>>, Error>(Error::BadPlayerID(first_unknown(n, facts)->Some_0))
                } else if kept_assignments(*self, facts, allow_fascist_fascist_conflict, allow_aggressive_hitler).len() == 0 {
                    r == Err::<Vec<Vec<SecretRole>>, Error>(Error::LogicalInconsistency)
                } else {
                    &&& r matches Ok(v) && v.deep_view() == kept_assignments(*self, facts, allow_fascist_fascist_conflict, allow_aggressive_hitler)
                    &&& r matches Ok(v) ==> v@.len() > 0 && forall|i: int| 0 <= i < v@.len() ==> {
                        &&& is_role_assignment(#[trigger] v@[i]@, n, self.table_configuration.num_regular_fascists as nat)
                        &&& valid_assignment(v@[i]@, facts, !allow_aggressive_hitler, !allow_fascist_fascist_conflict)
                    }
                }
            }),
            r matches Ok(v) ==> uniform_population(v.deep_view(), self.table_configuration.table_size as nat),
    {
        let roles = self.current_roles();
        let facts = concat_facts(self.collect_information(), temporary);
        let n = self.table_configuration.table_size;
        proof {
            crate::combinatorics::lemma_choose_positive((n - 1) as nat, self.table_configuration.num_regular_fascists as nat);
            assert(roles@.len() > 0) by (nonlinear_arith)
                requires
                    roles@.len() == crate::combinatorics::binomial((n - 1) as nat, self.table_configuration.num_regular_fascists as nat) * n,
                    crate::combinatorics::binomial((n - 1) as nat, self.table_configuration.num_regular_fascists as nat) > 0,
                    n > 0;
            assert forall|i: int| 0 <= i < roles.deep_view().len() implies (#[trigger] roles.deep_view()[i]).len() == n by {
                assert(roles.deep_view()[i] == roles@[i].deep_view());
                assert(roles@[i].deep_view() =~= roles@[i]@);
                assert(is_role_assignment(roles@[i]@, n as nat, self.table_configuration.num_regular_fascists as nat));
            }
        }
        let r = filter_role_assignments(roles, n, &facts, !allow_aggressive_hitler, !allow_fascist_fascist_conflict);
        proof {
            let pop = roles.deep_view();
            let pred = |a: Seq<SecretRole>| valid_assignment(a, facts.deep_view(), !allow_aggressive_hitler, !allow_fascist_fascist_conflict);
            match r {
            Ok(ref v) => {
                assert forall|i: int| 0 <= i < v@.len() implies {
                    &&& is_role_assignment(#[trigger] v@[i]@, n as nat, self.table_configuration.num_regular_fascists as nat)
                    &&& valid_assignment(v@[i]@, facts.deep_view(), !allow_aggressive_hitler, !allow_fascist_fascist_conflict)
                } by {
                    assert(v.deep_view()[i] == v@[i].deep_view());
                    assert(v@[i].deep_view() =~= v@[i]@);
                    pop.lemma_filter_pred(pred, i);
                    crate::filter_engine::lemma_filter_member(pop, pred, i);
                    let j = choose|j: int| 0 <= j < pop.len() && pop[j] == pop.filter(pred)[i];
                    assert(pop[j] == roles@[j].deep_view());
                    assert(roles@[j].deep_view() =~= roles@[j]@);
                    assert(is_role_assignment(roles@[j]@, n as nat, self.table_configuration.num_regular_fascists as nat));
                }
                assert forall|i: int| 0 <= i < v.deep_view().len() implies (#[trigger] v.deep_view()[i]).len() == n by {
                    assert(v.deep_view()[i] == v@[i].deep_view());
                    assert(v@[i].deep_view() =~= v@[i]@);
                    assert(is_role_assignment(v@[i]@, n as nat, self.table_configuration.num_regular_fascists as nat));
                }
            },
            Err(_) => {},
            }
        }
        r
    }

    /// Per player, how many of the filtered assignments give each role.
    pub fn filtered_histogramm(
        &self,
        allow_fascist_fascist_conflict: bool,
        allow_aggressive_hitler: bool,
        temporary: &Vec<Information>,
    ) -> (r: Result<Vec<RoleHistogram>, Error>)
        requires
            self.well_formed(),
        ensures
            r matches Ok(h) ==> h@.len() == self.table_configuration.table_size && forall|i: int| 0 <= i < h@.len() ==> {
                let e = #[trigger] h@[i];
                &&& e.player == i + 1
                &&& e.liberal.num_checked > 0
                &&& e.liberal.num_matching + e.regular_fascist.num_matching + e.hitler.num_matching == e.liberal.num_checked
                &&& e.regular_fascist.num_checked == e.liberal.num_checked && e.hitler.num_checked == e.liberal.num_checked
            },
            ({
                let n = self.table_configuration.table_size as nat;
                let facts = filter_facts(*self, temporary.deep_view());
                let kept = kept_assignments(*self, facts, allow_fascist_fascist_conflict, allow_aggressive_hitler);
                &&& first_unknown(n, facts) is Some ==> r == Err::<Vec<RoleHistogram>, Error>(Error::BadPlayerID(first_unknown(n, facts)->Some_0))
                &&& first_unknown(n, facts) is None && kept.len() == 0 ==> r == Err::<Vec<RoleHistogram>, Error>(Error::LogicalInconsistency)
                &&& first_unknown(n, facts) is None && kept.len() > 0 ==> (r matches Ok(h) && forall|i: int| 0 <= i < n ==> {
                    let e = #[trigger] h@[i];
                    &&& e.liberal.num_matching == count_with_role(kept, i, SecretRole::Liberal) && e.liberal.num_checked == kept.len()
                    &&& e.regular_fascist.num_matching == count_with_role(kept, i, SecretRole::RegularFascist) && e.regular_fascist.num_checked == kept.len()
                    &&& e.hitler.num_matching == count_with_role(kept, i, SecretRole::Hitler) && e.hitler.num_checked == kept.len()
                })
            }),
    {
        let filtered = match self.filter_assigned_roles(allow_fascist_fascist_conflict, allow_aggressive_hitler, temporary) {
            Err(e) => return Err(e),
            Ok(v) => v,
        };
        let n = self.table_configuration.table_size;
        let h = role_histogram(&filtered, n);
        let total = filtered.len();
        proof {
            assert forall|i: int| 0 <= i < h@.len() implies {
                let e = #[trigger] h@[i];
                &&& e.player == i + 1
                &&& e.liberal.num_checked > 0
                &&& e.liberal.num_matching + e.regular_fascist.num_matching + e.hitler.num_matching == e.liberal.num_checked
                &&& e.regular_fascist.num_checked == e.liberal.num_checked && e.hitler.num_checked == e.liberal.num_checked
            } by {
                crate::filter_engine::lemma_histogram_conservation(filtered.deep_view(), n as nat, i);
                assert(filtered.deep_view().len() == filtered@.len());
                assert(filtered@.len() > 0);
                assert(filtered@.len() == total);
            }
            let kept = filtered.deep_view();
            assert forall|i: int| 0 <= i < n implies {
                let e = #[trigger] h@[i];
                &&& e.liberal.num_matching == count_with_role(kept, i, SecretRole::Liberal) && e.liberal.num_checked == kept.len()
                &&& e.regular_fascist.num_matching == count_with_role(kept, i, SecretRole::RegularFascist) && e.regular_fascist.num_checked == kept.len()
                &&& e.hitler.num_matching == count_with_role(kept, i, SecretRole::Hitler) && e.hitler.num_checked == kept.len()
            } by {
                crate::filter_engine::lemma_histogram_conservation(filtered.deep_view(), n as nat, i);
                assert(filtered.deep_view().len() == filtered@.len());
                assert(filtered@.len() == total);
            }
        }
        Ok(h)
    }
}

impl PlayerState {
    /// For each shuffle, the chance that its undrawn cards hold exactly the
    /// liberal cards that nobody claimed to have seen, assuming nobody lied.
    pub fn total_draw_probability(&self) -> (r: Vec<(usize, FilterResult)>)
        requires
            self.well_formed(),
        ensures
            r@.len() == shuffle_bounds(self.governments@).len(),
            forall|k: int| 0 <= k < r@.len() ==> {
                let (a, b) = shuffle_bounds(self.governments@)[k];
                let cfg = self.table_configuration;
                let govs = self.governments@;
                let lib = deck_liberal_at(cfg, govs, a);
                let fasc = deck_fascist_at(cfg, govs, a);
                let window = leftover_at(cfg, govs, a, b) as int;
                let desired = sat_sub(lib as int, sum_seen(govs.subrange(a, b)) as int);
                &&& (#[trigger] r@[k]).0 == crate::history::shuffle_of(govs[a])
                &&& r@[k].1.num_checked == all_decks(lib, fasc).filter(|d: Seq<Policy>| window_guaranteed(d, window, 0, 0)).len()
                &&& r@[k].1.num_matching == all_decks(lib, fasc).filter(|d: Seq<Policy>| window_guaranteed(d, window, 0, 0)
                    && count_window(d, 0, window, Policy::Liberal) == desired).len()
            },
    {
        proof {
            lemma_history_claims(self.governments@);
        }
        let shuffles = shuffle_election_results(&self.table_configuration, &self.governments);
        let ghost bounds = shuffle_bounds(self.governments@);
        let mut out: Vec<(usize, FilterResult)> = Vec::new();
        let mut k: usize = 0;
        while k < shuffles.len()
            invariant
                self.well_formed(),
                crate::history::all_claims_in_range(self.governments@),
                bounds == shuffle_bounds(self.governments@),
                shuffles@.len() == bounds.len(),
                forall|j: int| 0 <= j < shuffles@.len() ==> shuffle_matches(#[trigger] shuffles@[j], self.table_configuration,
                    self.governments@, bounds[j].0, bounds[j].1),
                k <= shuffles@.len(),
                out@.len() == k,
                forall|j: int| 0 <= j < k ==> {
                    let (a, b) = bounds[j];
                    let cfg = self.table_configuration;
                    let govs = self.governments@;
                    let lib = deck_liberal_at(cfg, govs, a);
                    let fasc = deck_fascist_at(cfg, govs, a);
                    let window = leftover_at(cfg, govs, a, b) as int;
                    let desired = sat_sub(lib as int, sum_seen(govs.subrange(a, b)) as int);
                    &&& (#[trigger] out@[j]).0 == crate::history::shuffle_of(govs[a])
                    &&& out@[j].1.num_checked == all_decks(lib, fasc).filter(|d: Seq<Policy>| window_guaranteed(d, window, 0, 0)).len()
                    &&& out@[j].1.num_matching == all_decks(lib, fasc).filter(|d: Seq<Policy>| window_guaranteed(d, window, 0, 0)
                        && count_window(d, 0, window, Policy::Liberal) == desired).len()
                },
            decreases shuffles@.len() - k,
        {
            let sa = &shuffles[k];
            proof {
                assert(shuffle_matches(shuffles@[k as int], self.table_configuration, self.governments@, bounds[k as int].0, bounds[k as int].1));
                lemma_bounds_in_range(self.governments@, k as int);
                let (a, b) = bounds[k as int];
                assert forall|t: int| 0 <= t < sa.election_results@.len() implies #[trigger] crate::election::claims_in_range(sa.election_results@[t]) by {
                    assert(sa.election_results@[t] == self.governments@[a + t]);
                }
            }
            let seen = sa.total_seen_blues();
            let fr = next_blues_count(sa.initial_deck_liberal, sa.initial_deck_fascist, sa.total_leftover,
                sa.initial_deck_liberal.saturating_sub(seen), 0, 0);
            out.push((sa.shuffle_index, fr));
            k = k + 1;
        }
        out
    }
}

/// `x` placed after every entry whose Hitler count is at least its own.
pub open spec fn insert_ranked(r: Seq<RoleHistogram>, x: RoleHistogram) -> Seq<RoleHistogram>
    decreases r.len(),
{
    if r.len() == 0 {
        seq![x]
    } else if r.last().hitler.num_matching >= x.hitler.num_matching {
        r.push(x)
    } else {
        insert_ranked(r.drop_last(), x).push(r.last())
    }
}

/// The players by decreasing count of assignments that make them Hitler;
/// players with equal counts keep their order.
pub open spec fn ranked(h: Seq<RoleHistogram>) -> Seq<RoleHistogram>
    decreases h.len(),
{
    if h.len() == 0 {
        seq![]
    } else {
        insert_ranked(ranked(h.drop_last()), h.last())
    }
}

pub open spec fn sorted_by_hitler(r: Seq<RoleHistogram>) -> bool {
    forall|i: int, j: int| 0 <= i < j < r.len() ==> (#[trigger] r[i]).hitler.num_matching >= (#[trigger] r[j]).hitler.num_matching
}

proof fn lemma_insert_position(r: Seq<RoleHistogram>, x: RoleHistogram, j: int)
    requires
        0 <= j <= r.len(),
        forall|k: int| j <= k < r.len() ==> (#[trigger] r[k]).hitler.num_matching < x.hitler.num_matching,
        j > 0 ==> r[j - 1].hitler.num_matching >= x.hitler.num_matching,
    ensures
        insert_ranked(r, x) == r.insert(j, x),
    decreases r.len(),
{
    if r.len() == 0 {
        assert(r.insert(j, x) =~= seq![x]);
    } else if j == r.len() {
        assert(r.insert(j, x) =~= r.push(x));
    } else {
        let d = r.drop_last();
        assert forall|k: int| j <= k < d.len() implies (#[trigger] d[k]).hitler.num_matching < x.hitler.num_matching by {
            assert(d[k] == r[k]);
        }
        lemma_insert_position(d, x, j);
        assert(d.insert(j, x).push(r.last()) =~= r.insert(j, x));
    }
}

proof fn lemma_insert_sorted(r: Seq<RoleHistogram>, x: RoleHistogram)
    requires
        sorted_by_hitler(r),
    ensures
        sorted_by_hitler(insert_ranked(r, x)),
        insert_ranked(r, x).len() == r.len() + 1,
        forall|i: int| 0 <= i < insert_ranked(r, x).len() ==> (#[trigger] insert_ranked(r, x)[i]) == x || r.contains(insert_ranked(r, x)[i]),
    decreases r.len(),
{
    if r.len() > 0 && r.last().hitler.num_matching < x.hitler.num_matching {
        let d = r.drop_last();
        lemma_insert_sorted(d, x);
        let t = insert_ranked(d, x);
        assert forall|i: int| 0 <= i < t.len() implies t[i].hitler.num_matching >= r.last().hitler.num_matching by {
            if t[i] != x {
                let k = choose|k: int| 0 <= k < d.len() && d[k] == t[i];
                assert(d[k] == r[k]);
            }
        }
        assert forall|i: int| 0 <= i < insert_ranked(r, x).len() implies (#[trigger] insert_ranked(r, x)[i]) == x
            || r.contains(insert_ranked(r, x)[i]) by {
            if i < t.len() && t[i] != x {
                let k = choose|k: int| 0 <= k < d.len() && d[k] == t[i];
                assert(r[k] == t[i]);
            } else if i == t.len() {
                assert(r[r.len() - 1] == r.last());
            }
        }
    } else if r.len() > 0 {
        assert forall|i: int| 0 <= i < insert_ranked(r, x).len() implies (#[trigger] insert_ranked(r, x)[i]) == x
            || r.contains(insert_ranked(r, x)[i]) by {
            if i < r.len() {
                assert(r.push(x)[i] == r[i]);
            }
        }
    }
}

/// The players by decreasing count of assignments that make them Hitler;
/// players with equal counts keep their order.
pub fn rank_by_hitler(histogram: Vec<RoleHistogram>) -> (r: Vec<RoleHistogram>)
    ensures
        r@ == ranked(histogram@),
        r@.len() == histogram@.len(),
        sorted_by_hitler(r@),
{
    let mut r: Vec<RoleHistogram> = Vec::new();
    let mut i: usize = 0;
    while i < histogram.len()
        invariant
            i <= histogram@.len(),
            r@ == ranked(histogram@.subrange(0, i as int)),
            r@.len() == i,
            sorted_by_hitler(r@),
        decreases histogram@.len() - i,
    {
        let x = histogram[i];
        let mut j: usize = r.len();
        while j > 0 && r[j - 1].hitler.num_matching < x.hitler.num_matching
            invariant
                j <= r@.len(),
                forall|k: int| j <= k < r@.len() ==> (#[trigger] r@[k]).hitler.num_matching < x.hitler.num_matching,
            decreases j,
        {
            j = j - 1;
        }
        proof {
            lemma_insert_position(r@, x, j as int);
            lemma_insert_sorted(r@, x);
            assert(histogram@.subrange(0, i + 1 as int).drop_last() =~= histogram@.subrange(0, i as int));
        }
        r.insert(j, x);
        i = i + 1;
    }
    assert(histogram@.subrange(0, i as int) =~= histogram@);
    r
}

} // verus!
