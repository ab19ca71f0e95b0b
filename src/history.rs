use vstd::prelude::*;
use crate::election::{
    claims_in_range, discarded_count, drawn_count, seen_blues_of, ElectionResult,
};
use crate::game_configuration::GameConfiguration;
use crate::player_state::{count_passed, history_ok, entry_ok};
use crate::policy::Policy;

verus! {

/// The shuffle an entry was drawn in.
pub open spec fn shuffle_of(er: ElectionResult) -> usize {
    match er {
        ElectionResult::TopDeck(_, c) => c.shuffle_index,
        ElectionResult::Election(g) => g.deck_context.shuffle_index,
    }
}

/// The maximal runs `(start, end)` of consecutive entries drawn in one shuffle.
pub open spec fn shuffle_bounds(govs: Seq<ElectionResult>) -> Seq<(int, int)>
    decreases govs.len(),
{
    if govs.len() == 0 {
        Seq::empty()
    } else {
        let b = shuffle_bounds(govs.drop_last());
        let n = govs.len() - 1;
        if b.len() > 0 && shuffle_of(govs[b.last().0]) == shuffle_of(govs[n]) {
            b.update(b.len() - 1, (b.last().0, govs.len() as int))
        } else {
            b.push((n, govs.len() as int))
        }
    }
}

pub open spec fn sum_drawn(ers: Seq<ElectionResult>) -> nat
    decreases ers.len(),
{
    if ers.len() == 0 { 0 } else { sum_drawn(ers.drop_last()) + drawn_count(ers.last()) }
}

pub open spec fn sum_discarded(ers: Seq<ElectionResult>) -> nat
    decreases ers.len(),
{
    if ers.len() == 0 { 0 } else { sum_discarded(ers.drop_last()) + discarded_count(ers.last()) }
}

pub open spec fn sum_seen(ers: Seq<ElectionResult>) -> nat
    decreases ers.len(),
{
    if ers.len() == 0 { 0 } else { sum_seen(ers.drop_last()) + seen_blues_of(ers.last()) }
}

/// `a - b`, or 0 where `b` is larger.
pub open spec fn sat_sub(a: int, b: int) -> nat {
    if a >= b { (a - b) as nat } else { 0 }
}

/// One shuffle of the history: its entries, the deck it started with and
/// the cards it left undrawn.
#[derive(Debug, Clone)]
pub struct ShuffleAnalysis {
    pub shuffle_index: usize,
    pub election_results: Vec<ElectionResult>,
    pub initial_deck_fascist: usize,
    pub initial_deck_liberal: usize,
    pub total_discarded: usize,
    pub total_leftover: usize,
}

/// The shuffle made of entries `a..b`: the deck holds every card not placed
/// on the board before the shuffle began.
pub open spec fn shuffle_matches(s: ShuffleAnalysis, cfg: GameConfiguration, govs: Seq<ElectionResult>, a: int, b: int) -> bool {
    let ers = govs.subrange(a, b);
    &&& s.shuffle_index == shuffle_of(govs[a])
    &&& s.election_results@ == ers
    &&& s.initial_deck_fascist == deck_fascist_at(cfg, govs, a)
    &&& s.initial_deck_liberal == deck_liberal_at(cfg, govs, a)
    &&& s.total_discarded == sum_discarded(ers)
    &&& s.total_leftover == leftover_at(cfg, govs, a, b)
}

pub open spec fn reds_before(cfg: GameConfiguration, govs: Seq<ElectionResult>, a: int) -> nat {
    (cfg.initial_placed_fascist_policies + count_passed(govs.subrange(0, a), Policy::Fascist)) as nat
}

pub open spec fn blues_before(cfg: GameConfiguration, govs: Seq<ElectionResult>, a: int) -> nat {
    (cfg.initial_placed_liberal_policies + count_passed(govs.subrange(0, a), Policy::Liberal)) as nat
}

/// Fascist cards in the deck when the shuffle starting at entry `a` began.
pub open spec fn deck_fascist_at(cfg: GameConfiguration, govs: Seq<ElectionResult>, a: int) -> nat {
    sat_sub(cfg.initial_placed_fascist_policies + cfg.initial_fascist_deck_policies, reds_before(cfg, govs, a) as int)
}

/// Liberal cards in the deck when the shuffle starting at entry `a` began.
pub open spec fn deck_liberal_at(cfg: GameConfiguration, govs: Seq<ElectionResult>, a: int) -> nat {
    sat_sub(cfg.initial_placed_liberal_policies + cfg.initial_liberal_deck_policies, blues_before(cfg, govs, a) as int)
}

/// Cards the shuffle of entries `a..b` left undrawn.
pub open spec fn leftover_at(cfg: GameConfiguration, govs: Seq<ElectionResult>, a: int, b: int) -> nat {
    let total = cfg.initial_placed_liberal_policies + cfg.initial_liberal_deck_policies
        + cfg.initial_placed_fascist_policies + cfg.initial_fascist_deck_policies;
    sat_sub(sat_sub(total as int, (reds_before(cfg, govs, a) + blues_before(cfg, govs, a)) as int) as int, sum_drawn(govs.subrange(a, b)) as int)
}

pub open spec fn all_claims_in_range(govs: Seq<ElectionResult>) -> bool {
    forall|i: int| 0 <= i < govs.len() ==> #[trigger] claims_in_range(govs[i])
}

pub proof fn lemma_history_claims(govs: Seq<ElectionResult>)
    requires
        history_ok(govs),
    ensures
        all_claims_in_range(govs),
{
    assert forall|i: int| 0 <= i < govs.len() implies #[trigger] claims_in_range(govs[i]) by {
        assert(entry_ok(govs[i], i as nat));
    }
}

/// Fits of a configuration that the sums below need.
pub open spec fn sums_fit(cfg: GameConfiguration) -> bool {
    &&& cfg.initial_placed_liberal_policies + cfg.initial_liberal_deck_policies
        + cfg.initial_placed_fascist_policies + cfg.initial_fascist_deck_policies <= 1000
}

fn count_passed_range(govs: &Vec<ElectionResult>, a: usize, b: usize, p: Policy) -> (r: usize)
    requires
        a <= b <= govs@.len(),
    ensures
        r == count_passed(govs@.subrange(a as int, b as int), p),
        r <= b - a,
{
    let mut count: usize = 0;
    let mut i: usize = a;
    while i < b
        invariant
            a <= i <= b <= govs@.len(),
            count == count_passed(govs@.subrange(a as int, i as int), p),
            count <= i - a,
        decreases b - i,
    {
        assert(govs@.subrange(a as int, i + 1 as int).drop_last() =~= govs@.subrange(a as int, i as int));
        if govs[i].passed_policy() == p {
            count = count + 1;
        }
        i = i + 1;
    }
    count
}

fn sums_range(govs: &Vec<ElectionResult>, a: usize, b: usize) -> (r: (usize, usize, usize))
    requires
        a <= b <= govs@.len(),
        all_claims_in_range(govs@),
        govs@.len() <= usize::MAX / 8,
    ensures
        r.0 == sum_drawn(govs@.subrange(a as int, b as int)),
        r.1 == sum_discarded(govs@.subrange(a as int, b as int)),
        r.2 == sum_seen(govs@.subrange(a as int, b as int)),
{
    let mut drawn: usize = 0;
    let mut discarded: usize = 0;
    let mut seen: usize = 0;
    let mut i: usize = a;
    while i < b
        invariant
            a <= i <= b <= govs@.len(),
            all_claims_in_range(govs@),
            govs@.len() <= usize::MAX / 8,
            drawn == sum_drawn(govs@.subrange(a as int, i as int)),
            discarded == sum_discarded(govs@.subrange(a as int, i as int)),
            seen == sum_seen(govs@.subrange(a as int, i as int)),
            drawn <= 4 * (i - a),
            discarded <= 4 * (i - a),
            seen <= 4 * (i - a),
        decreases b - i,
    {
        assert(govs@.subrange(a as int, i + 1 as int).drop_last() =~= govs@.subrange(a as int, i as int));
        assert(claims_in_range(govs@[i as int]));
        let (d, x) = govs[i].cards_total_drawn_discarded();
        let s = govs[i].seen_blues();
        drawn = drawn + d;
        discarded = discarded + x;
        seen = seen + s;
        i = i + 1;
    }
    (drawn, discarded, seen)
}

pub proof fn lemma_bounds_in_range(govs: Seq<ElectionResult>, k: int)
    requires
        0 <= k < shuffle_bounds(govs).len(),
    ensures
        0 <= shuffle_bounds(govs)[k].0 < shuffle_bounds(govs)[k].1 <= govs.len(),
{
    lemma_bounds_shape(govs);
    let (a, b) = shuffle_bounds(govs)[k];
}

proof fn lemma_bounds_shape(govs: Seq<ElectionResult>)
    ensures
        forall|k: int| 0 <= k < shuffle_bounds(govs).len() ==> {
            let (a, b) = #[trigger] shuffle_bounds(govs)[k];
            0 <= a < b <= govs.len()
        },
        shuffle_bounds(govs).len() > 0 ==> shuffle_bounds(govs).last().1 == govs.len(),
    decreases govs.len(),
{
    if govs.len() > 0 {
        lemma_bounds_shape(govs.drop_last());
    }
}

/// The maximal runs of consecutive entries drawn in one shuffle.
pub fn compute_shuffle_bounds(govs: &Vec<ElectionResult>) -> (r: Vec<(usize, usize)>)
    ensures
        r@.len() == shuffle_bounds(govs@).len(),
        forall|k: int| 0 <= k < r@.len() ==> (#[trigger] r@[k]).0 as int == shuffle_bounds(govs@)[k].0
            && r@[k].1 as int == shuffle_bounds(govs@)[k].1,
        forall|k: int| 0 <= k < r@.len() ==> (#[trigger] r@[k]).0 < r@[k].1 <= govs@.len(),
{
    let mut r: Vec<(usize, usize)> = Vec::new();
    let mut i: usize = 0;
    while i < govs.len()
        invariant
            i <= govs@.len(),
            r@.len() == shuffle_bounds(govs@.subrange(0, i as int)).len(),
            forall|k: int| 0 <= k < r@.len() ==> (#[trigger] r@[k]).0 as int == shuffle_bounds(govs@.subrange(0, i as int))[k].0
                && r@[k].1 as int == shuffle_bounds(govs@.subrange(0, i as int))[k].1,
            forall|k: int| 0 <= k < r@.len() ==> (#[trigger] r@[k]).0 < r@[k].1 <= i,
            r@.len() > 0 ==> r@.last().1 == i,
        decreases govs@.len() - i,
    {
        let ghost pre = govs@.subrange(0, i as int);
        let ghost cur = govs@.subrange(0, i + 1 as int);
        assert(cur.drop_last() =~= pre);
        let n = r.len();
        let extend = if n > 0 {
            let start = r[n - 1].0;
            assert(cur[start as int] == govs@[start as int]);
            govs[start].context().shuffle_index == govs[i].context().shuffle_index
        } else {
            false
        };
        if extend {
            let start = r[n - 1].0;
            r.set(n - 1, (start, i + 1));
        } else {
            r.push((i, i + 1));
        }
        i = i + 1;
        proof {
            let b = shuffle_bounds(cur);
            assert forall|k: int| 0 <= k < r@.len() implies (#[trigger] r@[k]).0 as int == b[k].0 && r@[k].1 as int == b[k].1 by {}
        }
    }
    assert(govs@.subrange(0, i as int) =~= govs@);
    r
}

/// The shuffles of the history, in order.
pub fn shuffle_election_results(cfg: &GameConfiguration, govs: &Vec<ElectionResult>) -> (r: Vec<ShuffleAnalysis>)
    requires
        history_ok(govs@),
        sums_fit(*cfg),
    ensures
        r@.len() == shuffle_bounds(govs@).len(),
        forall|k: int| 0 <= k < r@.len() ==> shuffle_matches(#[trigger] r@[k], *cfg, govs@,
            shuffle_bounds(govs@)[k].0, shuffle_bounds(govs@)[k].1),
{
    proof {
        lemma_history_claims(govs@);
    }
    let bounds = compute_shuffle_bounds(govs);
    let total_lib = cfg.initial_placed_liberal_policies + cfg.initial_liberal_deck_policies;
    let total_fasc = cfg.initial_placed_fascist_policies + cfg.initial_fascist_deck_policies;
    let mut r: Vec<ShuffleAnalysis> = Vec::new();
    let mut k: usize = 0;
    while k < bounds.len()
        invariant
            history_ok(govs@),
            all_claims_in_range(govs@),
            sums_fit(*cfg),
            total_lib == cfg.initial_placed_liberal_policies + cfg.initial_liberal_deck_policies,
            total_fasc == cfg.initial_placed_fascist_policies + cfg.initial_fascist_deck_policies,
            bounds@.len() == shuffle_bounds(govs@).len(),
            forall|j: int| 0 <= j < bounds@.len() ==> (#[trigger] bounds@[j]).0 as int == shuffle_bounds(govs@)[j].0
                && bounds@[j].1 as int == shuffle_bounds(govs@)[j].1,
            forall|j: int| 0 <= j < bounds@.len() ==> (#[trigger] bounds@[j]).0 < bounds@[j].1 <= govs@.len(),
            k <= bounds@.len(),
            r@.len() == k,
            forall|j: int| 0 <= j < k ==> shuffle_matches(#[trigger] r@[j], *cfg, govs@,
                shuffle_bounds(govs@)[j].0, shuffle_bounds(govs@)[j].1),
        decreases bounds@.len() - k,
    {
        let (a, b) = bounds[k];
        assert(bounds@[k as int].0 < bounds@[k as int].1 <= govs@.len());
        let reds_before = cfg.initial_placed_fascist_policies + count_passed_range(govs, 0, a, Policy::Fascist);
        let blues_before = cfg.initial_placed_liberal_policies + count_passed_range(govs, 0, a, Policy::Liberal);
        let (drawn, discarded, _seen) = sums_range(govs, a, b);
        let mut ers: Vec<ElectionResult> = Vec::new();
        let mut i: usize = a;
        while i < b
            invariant
                a <= i <= b <= govs@.len(),
                ers@ == govs@.subrange(a as int, i as int),
            decreases b - i,
        {
            ers.push(govs[i]);
            i = i + 1;
            assert(ers@ =~= govs@.subrange(a as int, i as int));
        }
        let s = ShuffleAnalysis {
            shuffle_index: govs[a].context().shuffle_index,
            election_results: ers,
            initial_deck_fascist: total_fasc.saturating_sub(reds_before),
            initial_deck_liberal: total_lib.saturating_sub(blues_before),
            total_discarded: discarded,
            total_leftover: (total_lib + total_fasc).saturating_sub(reds_before + blues_before).saturating_sub(drawn),
        };
        r.push(s);
        k = k + 1;
    }
    r
}

impl ShuffleAnalysis {
    /// The liberal cards that the shuffle's entries claim were seen.
    pub fn total_seen_blues(&self) -> (r: usize)
        requires
            all_claims_in_range(self.election_results@),
            self.election_results@.len() <= usize::MAX / 8,
        ensures
            r == sum_seen(self.election_results@),
    {
        let (_d, _x, seen) = sums_range(&self.election_results, 0, self.election_results.len());
        assert(self.election_results@.subrange(0, self.election_results@.len() as int) =~= self.election_results@);
        seen
    }
}

} // verus!
