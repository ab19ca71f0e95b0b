use vstd::prelude::*;
use crate::deck::{
    all_decks, count_policies, count_window, generate_internal, lemma_filter_filter,
    lemma_filter_weaker, DeckState, FilterResult,
};
use crate::election::{
    claims_in_range, drawn_count, passed_blues_of, seen_blues_of, ElectedGovernment,
    ElectionResult,
};
use crate::error::PlayerID;
use crate::policy::Policy;

verus! {

/// Cards drawn by the entries before entry `i`: where entry `i`'s window starts.
pub open spec fn offset_before(ers: Seq<ElectionResult>, i: int) -> nat
    decreases i,
{
    if i <= 0 || i > ers.len() {
        0
    } else {
        offset_before(ers, i - 1) + drawn_count(ers[i - 1])
    }
}

pub open spec fn blue_at(d: Seq<Policy>, ers: Seq<ElectionResult>, i: int) -> nat {
    count_window(d, offset_before(ers, i) as int, drawn_count(ers[i]) as int, Policy::Liberal)
}

pub open spec fn red_at(d: Seq<Policy>, ers: Seq<ElectionResult>, i: int) -> nat {
    count_window(d, offset_before(ers, i) as int, drawn_count(ers[i]) as int, Policy::Fascist)
}

/// A chancellor known to be liberal told the truth: the two cards handed over
/// held the claimed liberal and fascist cards.
pub open spec fn chancellor_honest(g: ElectedGovernment, blue: nat, red: nat, libs: Seq<PlayerID>) -> bool {
    libs.contains(g.chancellor) ==> g.chancellor_claimed_blues <= blue
        && 2 - g.chancellor_claimed_blues <= red
}

/// Entry `i` of the hard facts fits deck `d`: its window holds the card that
/// passed, and presidents and chancellors known to be liberal told the truth.
pub open spec fn hard_fact_holds(d: Seq<Policy>, ers: Seq<ElectionResult>, i: int, libs: Seq<PlayerID>) -> bool {
    let blue = blue_at(d, ers, i);
    let red = red_at(d, ers, i);
    &&& blue >= passed_blues_of(ers[i])
    &&& red + passed_blues_of(ers[i]) >= 1
    &&& match ers[i] {
        ElectionResult::TopDeck(_, _) => true,
        ElectionResult::Election(g) => (libs.contains(g.president) ==> g.president_claimed_blues == blue)
            && chancellor_honest(g, blue, red, libs),
    }
}

pub open spec fn hard_facts_hold(d: Seq<Policy>, ers: Seq<ElectionResult>, libs: Seq<PlayerID>) -> bool {
    forall|i: int| 0 <= i < ers.len() ==> #[trigger] hard_fact_holds(d, ers, i, libs)
}

/// Entry `i` fits deck `d` on the path under study: its window shows one of
/// the liberal counts allowed at that position (where a set is given), and
/// players assumed liberal on the path told the truth.
pub open spec fn path_fact_holds(
    d: Seq<Policy>,
    ers: Seq<ElectionResult>,
    i: int,
    sets: Seq<Option<Seq<usize>>>,
    assumed: Seq<PlayerID>,
) -> bool {
    let blue = blue_at(d, ers, i);
    let red = red_at(d, ers, i);
    &&& (i < sets.len() && sets[i] is Some ==> sets[i]->Some_0.contains(blue as usize))
    &&& match ers[i] {
        ElectionResult::TopDeck(_, _) => true,
        ElectionResult::Election(g) => (assumed.contains(g.president) ==> seen_blues_of(ers[i]) == blue)
            && chancellor_honest(g, blue, red, assumed),
    }
}

/// Each hypothesis shows exactly its claimed liberal cards in its window.
pub open spec fn hypotheses_hold(d: Seq<Policy>, hyps: Seq<ElectionResult>) -> bool {
    forall|i: int| 0 <= i < hyps.len() ==> #[trigger] blue_at(d, hyps, i) == seen_blues_of(hyps[i])
}

pub open spec fn path_kept(
    d: Seq<Policy>,
    ers: Seq<ElectionResult>,
    hyps: Seq<ElectionResult>,
    sets: Seq<Option<Seq<usize>>>,
    assumed: Seq<PlayerID>,
) -> bool {
    &&& forall|i: int| 0 <= i < ers.len() ==> #[trigger] path_fact_holds(d, ers, i, sets, assumed)
    &&& hypotheses_hold(d, hyps)
}

/// The decks that fit the hard facts (as far as `hard_libs` are known to be
/// liberal) and then the path: follow-on sets, players assumed liberal and
/// the hypotheses.
pub open spec fn counter_survivors(
    num_lib: nat,
    num_fasc: nat,
    ers: Seq<ElectionResult>,
    hyps: Seq<ElectionResult>,
    sets: Seq<Option<Seq<usize>>>,
    hard_libs: Seq<PlayerID>,
    assumed: Seq<PlayerID>,
) -> Seq<Seq<Policy>> {
    all_decks(num_lib, num_fasc).filter(|d: Seq<Policy>| hard_facts_hold(d, ers, hard_libs)).filter(
        |d: Seq<Policy>| path_kept(d, ers, hyps, sets, assumed),
    )
}

/// The next entry after the hypotheses shows the liberal cards it claims.
pub open spec fn new_hypothesis_holds(d: Seq<Policy>, hyps: Seq<ElectionResult>, new: ElectionResult) -> bool {
    count_window(d, offset_before(hyps, hyps.len() as int) as int, drawn_count(new) as int, Policy::Liberal)
        == seen_blues_of(new)
}

/// Entries that a counter can take: claims in range, windows that fit `usize`.
pub open spec fn entries_fit(ers: Seq<ElectionResult>) -> bool {
    &&& forall|i: int| 0 <= i < ers.len() ==> #[trigger] claims_in_range(ers[i])
    &&& 4 * ers.len() <= usize::MAX
}

proof fn lemma_offset_step(ers: Seq<ElectionResult>, i: int)
    requires
        0 <= i < ers.len(),
    ensures
        offset_before(ers, i + 1) == offset_before(ers, i) + drawn_count(ers[i]),
{
}

proof fn lemma_offset_bound(ers: Seq<ElectionResult>, i: int)
    requires
        0 <= i <= ers.len(),
    ensures
        offset_before(ers, i) <= 4 * i,
    decreases i,
{
    if i > 0 {
        lemma_offset_bound(ers, i - 1);
    }
}

/// Offsets of the entries of a history do not change when entries are added
/// behind them.
pub proof fn lemma_offset_push(ers: Seq<ElectionResult>, e: ElectionResult, i: int)
    requires
        0 <= i <= ers.len(),
    ensures
        offset_before(ers.push(e), i) == offset_before(ers, i),
    decreases i,
{
    if i > 0 {
        lemma_offset_push(ers, e, i - 1);
        assert(ers.push(e)[i - 1] == ers[i - 1]);
    }
}

/// Whether `p` is in `v`.
pub fn contains_player(v: &Vec<PlayerID>, p: PlayerID) -> (r: bool)
    ensures
        r == v@.contains(p),
{
    let mut i: usize = 0;
    while i < v.len()
        invariant
            i <= v@.len(),
            forall|j: int| 0 <= j < i ==> v@[j] != p,
        decreases v@.len() - i,
    {
        if v[i] == p {
            assert(v@[i as int] == p);
            return true;
        }
        i = i + 1;
    }
    false
}

fn chancellor_honest_exec(g: &ElectedGovernment, blue: usize, red: usize, libs: &Vec<PlayerID>) -> (r: bool)
    requires
        g.chancellor_claimed_blues <= 2,
    ensures
        r == chancellor_honest(*g, blue as nat, red as nat, libs@),
{
    !contains_player(libs, g.chancellor) || (g.chancellor_claimed_blues <= blue && 2 - g.chancellor_claimed_blues <= red)
}

fn check_hard_facts(d: &Vec<Policy>, ers: &Vec<ElectionResult>, libs: &Vec<PlayerID>) -> (r: bool)
    requires
        entries_fit(ers@),
    ensures
        r == hard_facts_hold(d@, ers@, libs@),
{
    let mut offset: usize = 0;
    let mut i: usize = 0;
    while i < ers.len()
        invariant
            entries_fit(ers@),
            i <= ers@.len(),
            offset == offset_before(ers@, i as int),
            offset <= 4 * i,
            forall|j: int| 0 <= j < i ==> #[trigger] hard_fact_holds(d@, ers@, j, libs@),
        decreases ers@.len() - i,
    {
        let er = &ers[i];
        assert(claims_in_range(ers@[i as int]));
        let (drawn, _discarded) = er.cards_total_drawn_discarded();
        let blue = count_policies(d, offset, drawn, Policy::Liberal);
        let red = count_policies(d, offset, drawn, Policy::Fascist);
        let pb = er.passed_blues();
        let good_liberals = match er {
            ElectionResult::Election(g) => (!contains_player(libs, g.president) || g.president_claimed_blues == blue)
                && chancellor_honest_exec(g, blue, red, libs),
            ElectionResult::TopDeck(_, _) => true,
        };
        let ok = blue >= pb && (red >= 1 || pb >= 1) && good_liberals;
        assert(ok == hard_fact_holds(d@, ers@, i as int, libs@));
        if !ok {
            return false;
        }
        proof {
            lemma_offset_step(ers@, i as int);
        }
        offset = offset + drawn;
        i = i + 1;
    }
    true
}

fn check_path(
    d: &Vec<Policy>,
    ers: &Vec<ElectionResult>,
    hyps: &Vec<ElectionResult>,
    sets: &Vec<Option<Vec<usize>>>,
    assumed: &Vec<PlayerID>,
) -> (r: bool)
    requires
        entries_fit(ers@),
        entries_fit(hyps@),
    ensures
        r == path_kept(d@, ers@, hyps@, sets.deep_view(), assumed@),
{
    let mut offset: usize = 0;
    let mut i: usize = 0;
    while i < ers.len()
        invariant
            entries_fit(ers@),
            i <= ers@.len(),
            offset == offset_before(ers@, i as int),
            offset <= 4 * i,
            forall|j: int| 0 <= j < i ==> #[trigger] path_fact_holds(d@, ers@, j, sets.deep_view(), assumed@),
        decreases ers@.len() - i,
    {
        let er = &ers[i];
        assert(claims_in_range(ers@[i as int]));
        let (drawn, _discarded) = er.cards_total_drawn_discarded();
        let blue = count_policies(d, offset, drawn, Policy::Liberal);
        let red = count_policies(d, offset, drawn, Policy::Fascist);
        let follow_on = if i < sets.len() {
            match &sets[i] {
                Some(set) => {
                    assert(sets.deep_view()[i as int] == Some(set@));
                    contains_player(set, blue)
                },
                None => true,
            }
        } else {
            true
        };
        let good_liberals = match er {
            ElectionResult::Election(g) => (!contains_player(assumed, g.president) || er.seen_blues() == blue)
                && chancellor_honest_exec(g, blue, red, assumed),
            ElectionResult::TopDeck(_, _) => true,
        };
        let ok = follow_on && good_liberals;
        assert(ok == path_fact_holds(d@, ers@, i as int, sets.deep_view(), assumed@));
        if !ok {
            return false;
        }
        proof {
            lemma_offset_step(ers@, i as int);
        }
        offset = offset + drawn;
        i = i + 1;
    }
    let mut offset: usize = 0;
    let mut i: usize = 0;
    while i < hyps.len()
        invariant
            entries_fit(hyps@),
            i <= hyps@.len(),
            offset == offset_before(hyps@, i as int),
            offset <= 4 * i,
            forall|j: int| 0 <= j < i ==> #[trigger] blue_at(d@, hyps@, j) == seen_blues_of(hyps@[j]),
        decreases hyps@.len() - i,
    {
        let er = &hyps[i];
        assert(claims_in_range(hyps@[i as int]));
        let (drawn, _discarded) = er.cards_total_drawn_discarded();
        let blue = count_policies(d, offset, drawn, Policy::Liberal);
        if blue != er.seen_blues() {
            assert(blue_at(d@, hyps@, i as int) != seen_blues_of(hyps@[i as int]));
            assert(!hypotheses_hold(d@, hyps@));
            return false;
        }
        proof {
            lemma_offset_step(hyps@, i as int);
        }
        offset = offset + drawn;
        i = i + 1;
    }
    true
}

/// Where the window after all hypotheses starts.
fn hypotheses_offset(hyps: &Vec<ElectionResult>) -> (r: usize)
    requires
        entries_fit(hyps@),
    ensures
        r == offset_before(hyps@, hyps@.len() as int),
{
    let mut offset: usize = 0;
    let mut i: usize = 0;
    while i < hyps.len()
        invariant
            entries_fit(hyps@),
            i <= hyps@.len(),
            offset == offset_before(hyps@, i as int),
            offset <= 4 * i,
        decreases hyps@.len() - i,
    {
        let (drawn, _discarded) = hyps[i].cards_total_drawn_discarded();
        proof {
            lemma_offset_step(hyps@, i as int);
        }
        offset = offset + drawn;
        i = i + 1;
    }
    offset
}

fn copy_deck(d: &Vec<Policy>) -> (r: Vec<Policy>)
    ensures
        r@ == d@,
{
    let mut r: Vec<Policy> = Vec::new();
    let mut i: usize = 0;
    while i < d.len()
        invariant
            i <= d@.len(),
            r@ == d@.subrange(0, i as int),
        decreases d@.len() - i,
    {
        r.push(d[i]);
        i = i + 1;
        assert(r@ =~= d@.subrange(0, i as int));
    }
    assert(d@.subrange(0, d@.len() as int) =~= d@);
    r
}

/// The decks of the composition that fit the hard facts, as far as the
/// players in `hard_confirmed_libs` are known to be liberal.
pub fn hard_facted_complex_card_counter(
    num_total_lib: usize,
    num_total_fasc: usize,
    hard_facts: &Vec<ElectionResult>,
    hard_confirmed_libs: &Vec<PlayerID>,
) -> (r: DeckState)
    requires
        num_total_lib + num_total_fasc <= usize::MAX,
        entries_fit(hard_facts@),
    ensures
        r.num_cards == num_total_lib + num_total_fasc,
        r.actual_decks.deep_view() == all_decks(num_total_lib as nat, num_total_fasc as nat).filter(
            |d: Seq<Policy>| hard_facts_hold(d, hard_facts@, hard_confirmed_libs@)),
{
    let decks = generate_internal(num_total_lib, num_total_fasc);
    let ghost ds = decks.actual_decks.deep_view();
    let mut kept: Vec<Vec<Policy>> = Vec::new();
    let mut i: usize = 0;
    while i < decks.actual_decks.len()
        invariant
            i <= ds.len(),
            ds == decks.actual_decks.deep_view(),
            entries_fit(hard_facts@),
            kept.deep_view() == ds.subrange(0, i as int).filter(
                |d: Seq<Policy>| hard_facts_hold(d, hard_facts@, hard_confirmed_libs@)),
        decreases ds.len() - i,
    {
        let d = &decks.actual_decks[i];
        proof {
            assert(d.deep_view() =~= d@);
            assert(ds[i as int] == d@);
        }
        let ghost before = kept.deep_view();
        if check_hard_facts(d, hard_facts, hard_confirmed_libs) {
            let c = copy_deck(d);
            assert(c.deep_view() =~= c@);
            kept.push(c);
            assert(kept.deep_view() =~= before.push(d@));
        }
        i = i + 1;
        proof {
            reveal(Seq::filter);
            assert(ds.subrange(0, i as int).drop_last() =~= ds.subrange(0, i - 1 as int));
        }
    }
    assert(ds.subrange(0, ds.len() as int) =~= ds);
    DeckState { num_cards: decks.num_cards, actual_decks: kept }
}

/// Among decks that already fit the hard facts, counts those that fit the
/// path (`num_checked`), and among them those that also show the new
/// hypothesis (`num_matching`).
pub fn count_on_hard_facted(
    decks: &DeckState,
    hard_facts: &Vec<ElectionResult>,
    hypotheses: &Vec<ElectionResult>,
    legal_follow_on_sets: &Vec<Option<Vec<usize>>>,
    path_assumed_liberals: &Vec<PlayerID>,
    new_hypothesis: &ElectionResult,
) -> (r: FilterResult)
    requires
        entries_fit(hard_facts@),
        entries_fit(hypotheses@),
        claims_in_range(*new_hypothesis),
    ensures
        ({
            let survivors = decks.actual_decks.deep_view().filter(
                |d: Seq<Policy>| path_kept(d, hard_facts@, hypotheses@, legal_follow_on_sets.deep_view(), path_assumed_liberals@));
            &&& r.num_checked == survivors.len()
            &&& r.num_matching == survivors.filter(|d: Seq<Policy>| new_hypothesis_holds(d, hypotheses@, *new_hypothesis)).len()
        }),
{
    let ghost ds = decks.actual_decks.deep_view();
    let target_offset = hypotheses_offset(hypotheses);
    let (drawn, _discarded) = new_hypothesis.cards_total_drawn_discarded();
    let seen = new_hypothesis.seen_blues();
    let ghost sets = legal_follow_on_sets.deep_view();
    let mut checked: usize = 0;
    let mut matching: usize = 0;
    let mut i: usize = 0;
    while i < decks.actual_decks.len()
        invariant
            i <= ds.len(),
            ds == decks.actual_decks.deep_view(),
            sets == legal_follow_on_sets.deep_view(),
            entries_fit(hard_facts@),
            entries_fit(hypotheses@),
            target_offset == offset_before(hypotheses@, hypotheses@.len() as int),
            drawn == drawn_count(*new_hypothesis),
            seen == seen_blues_of(*new_hypothesis),
            checked == ds.subrange(0, i as int).filter(
                |d: Seq<Policy>| path_kept(d, hard_facts@, hypotheses@, sets, path_assumed_liberals@)).len(),
            matching == ds.subrange(0, i as int).filter(
                |d: Seq<Policy>| path_kept(d, hard_facts@, hypotheses@, sets, path_assumed_liberals@)).filter(
                |d: Seq<Policy>| new_hypothesis_holds(d, hypotheses@, *new_hypothesis)).len(),
            checked <= i,
            matching <= checked,
        decreases ds.len() - i,
    {
        let d = &decks.actual_decks[i];
        proof {
            assert(d.deep_view() =~= d@);
            assert(ds[i as int] == d@);
        }
        let ghost prefix = ds.subrange(0, i as int);
        let ghost kept_before = prefix.filter(
            |d: Seq<Policy>| path_kept(d, hard_facts@, hypotheses@, sets, path_assumed_liberals@));
        let keep = check_path(d, hard_facts, hypotheses, legal_follow_on_sets, path_assumed_liberals);
        if keep {
            checked = checked + 1;
            if count_policies(d, target_offset, drawn, Policy::Liberal) == seen {
                matching = matching + 1;
            }
        }
        i = i + 1;
        proof {
            reveal(Seq::filter);
            assert(ds.subrange(0, i as int).drop_last() =~= prefix);
            assert(ds.subrange(0, i as int).last() == d@);
            if keep {
                assert(kept_before.push(d@).drop_last() =~= kept_before);
            }
        }
    }
    assert(ds.subrange(0, ds.len() as int) =~= ds);
    FilterResult { num_matching: matching, num_checked: checked }
}

/// Counts the decks that survive the hard facts and the path
/// (`num_checked`), and among them those that also show the new hypothesis
/// (`num_matching`).
pub fn complex_card_counter(
    num_total_lib: usize,
    num_total_fasc: usize,
    hard_facts: &Vec<ElectionResult>,
    hypotheses: &Vec<ElectionResult>,
    legal_follow_on_sets: &Vec<Option<Vec<usize>>>,
    hard_confirmed_liberals: &Vec<PlayerID>,
    path_assumed_liberals: &Vec<PlayerID>,
    new_hypothesis: &ElectionResult,
) -> (r: FilterResult)
    requires
        num_total_lib + num_total_fasc <= usize::MAX,
        entries_fit(hard_facts@),
        entries_fit(hypotheses@),
        claims_in_range(*new_hypothesis),
    ensures
        ({
            let survivors = counter_survivors(num_total_lib as nat, num_total_fasc as nat, hard_facts@,
                hypotheses@, legal_follow_on_sets.deep_view(), hard_confirmed_liberals@, path_assumed_liberals@);
            &&& r.num_checked == survivors.len()
            &&& r.num_matching == survivors.filter(|d: Seq<Policy>| new_hypothesis_holds(d, hypotheses@, *new_hypothesis)).len()
        }),
{
    let decks = hard_facted_complex_card_counter(num_total_lib, num_total_fasc, hard_facts, hard_confirmed_liberals);
    count_on_hard_facted(&decks, hard_facts, hypotheses, legal_follow_on_sets, path_assumed_liberals, new_hypothesis)
}

/// Adding a hard fact behind the others never lets more decks survive.
pub proof fn lemma_counter_monotone_hard_fact(
    num_lib: nat,
    num_fasc: nat,
    ers: Seq<ElectionResult>,
    extra: ElectionResult,
    hyps: Seq<ElectionResult>,
    sets: Seq<Option<Seq<usize>>>,
    hard_libs: Seq<PlayerID>,
    assumed: Seq<PlayerID>,
)
    ensures
        counter_survivors(num_lib, num_fasc, ers.push(extra), hyps, sets, hard_libs, assumed).len()
            <= counter_survivors(num_lib, num_fasc, ers, hyps, sets, hard_libs, assumed).len(),
{
    let all = all_decks(num_lib, num_fasc);
    let ers2 = ers.push(extra);
    let h1 = |d: Seq<Policy>| hard_facts_hold(d, ers, hard_libs);
    let path_before = |d: Seq<Policy>| path_kept(d, ers, hyps, sets, assumed);
    let h2 = |d: Seq<Policy>| hard_facts_hold(d, ers2, hard_libs);
    let path_after = |d: Seq<Policy>| path_kept(d, ers2, hyps, sets, assumed);
    lemma_filter_filter(all, h1, path_before);
    lemma_filter_filter(all, h2, path_after);
    assert forall|d: Seq<Policy>| #[trigger] h2(d) && path_after(d) implies h1(d) && path_before(d) by {
        {
            assert forall|i: int| 0 <= i < ers.len() implies #[trigger] hard_fact_holds(d, ers, i, hard_libs) by {
                lemma_offset_push(ers, extra, i);
                assert(ers2[i] == ers[i]);
                assert(hard_fact_holds(d, ers2, i, hard_libs));
            }
            assert forall|i: int| 0 <= i < ers.len() implies #[trigger] path_fact_holds(d, ers, i, sets, assumed) by {
                lemma_offset_push(ers, extra, i);
                assert(ers2[i] == ers[i]);
                assert(path_fact_holds(d, ers2, i, sets, assumed));
            }
        }
    }
    lemma_filter_weaker(all, |d: Seq<Policy>| h2(d) && path_after(d), |d: Seq<Policy>| h1(d) && path_before(d));
}

/// Adding a hypothesis behind the others never lets more decks survive.
pub proof fn lemma_counter_monotone_hypothesis(
    num_lib: nat,
    num_fasc: nat,
    ers: Seq<ElectionResult>,
    hyps: Seq<ElectionResult>,
    extra: ElectionResult,
    sets: Seq<Option<Seq<usize>>>,
    hard_libs: Seq<PlayerID>,
    assumed: Seq<PlayerID>,
)
    ensures
        counter_survivors(num_lib, num_fasc, ers, hyps.push(extra), sets, hard_libs, assumed).len()
            <= counter_survivors(num_lib, num_fasc, ers, hyps, sets, hard_libs, assumed).len(),
{
    let all = all_decks(num_lib, num_fasc);
    let hyps2 = hyps.push(extra);
    let h = |d: Seq<Policy>| hard_facts_hold(d, ers, hard_libs);
    let path_before = |d: Seq<Policy>| path_kept(d, ers, hyps, sets, assumed);
    let path_after = |d: Seq<Policy>| path_kept(d, ers, hyps2, sets, assumed);
    lemma_filter_filter(all, h, path_before);
    lemma_filter_filter(all, h, path_after);
    assert forall|d: Seq<Policy>| h(d) && #[trigger] path_after(d) implies h(d) && path_before(d) by {
        {
            assert forall|i: int| 0 <= i < hyps.len() implies #[trigger] blue_at(d, hyps, i) == seen_blues_of(hyps[i]) by {
                lemma_offset_push(hyps, extra, i);
                assert(hyps2[i] == hyps[i]);
                assert(blue_at(d, hyps2, i) == seen_blues_of(hyps2[i]));
            }
        }
    }
    lemma_filter_weaker(all, |d: Seq<Policy>| h(d) && path_after(d), |d: Seq<Policy>| h(d) && path_before(d));
}

/// Pinning one more hypothesis keeps exactly the surviving decks that show
/// it as the next entry.
pub proof fn lemma_counter_pinned_hypothesis(
    num_lib: nat,
    num_fasc: nat,
    ers: Seq<ElectionResult>,
    hyps: Seq<ElectionResult>,
    h: ElectionResult,
    sets: Seq<Option<Seq<usize>>>,
    hard_libs: Seq<PlayerID>,
    assumed: Seq<PlayerID>,
)
    ensures
        counter_survivors(num_lib, num_fasc, ers, hyps.push(h), sets, hard_libs, assumed)
            == counter_survivors(num_lib, num_fasc, ers, hyps, sets, hard_libs, assumed).filter(
                |d: Seq<Policy>| new_hypothesis_holds(d, hyps, h)),
{
    let all = all_decks(num_lib, num_fasc);
    let hyps2 = hyps.push(h);
    let hard = |d: Seq<Policy>| hard_facts_hold(d, ers, hard_libs);
    let path_before = |d: Seq<Policy>| path_kept(d, ers, hyps, sets, assumed);
    let path_after = |d: Seq<Policy>| path_kept(d, ers, hyps2, sets, assumed);
    let pinned = |d: Seq<Policy>| new_hypothesis_holds(d, hyps, h);
    let both = |d: Seq<Policy>| path_before(d) && pinned(d);
    assert forall|d: Seq<Policy>| #[trigger] path_after(d) == both(d) by {
        assert forall|i: int| 0 <= i < hyps.len() implies #[trigger] blue_at(d, hyps2, i) == blue_at(d, hyps, i) by {
            lemma_offset_push(hyps, h, i);
            assert(hyps2[i] == hyps[i]);
        }
        lemma_offset_push(hyps, h, hyps.len() as int);
        assert(hyps2[hyps.len() as int] == h);
        if path_after(d) {
            assert(blue_at(d, hyps2, hyps.len() as int) == seen_blues_of(hyps2[hyps.len() as int]));
            assert forall|i: int| 0 <= i < hyps.len() implies #[trigger] blue_at(d, hyps, i) == seen_blues_of(hyps[i]) by {
                assert(blue_at(d, hyps2, i) == seen_blues_of(hyps2[i]));
                assert(hyps2[i] == hyps[i]);
            }
        }
        if both(d) {
            assert forall|i: int| 0 <= i < hyps2.len() implies #[trigger] blue_at(d, hyps2, i) == seen_blues_of(hyps2[i]) by {
                if i < hyps.len() {
                    assert(hyps2[i] == hyps[i]);
                    assert(blue_at(d, hyps, i) == seen_blues_of(hyps[i]));
                }
            }
        }
    }
    assert(path_after =~= both);
    lemma_filter_filter(all.filter(hard), path_before, pinned);
}

} // verus!
