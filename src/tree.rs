use vstd::prelude::*;
use crate::counter::{
    blue_at, count_on_hard_facted, counter_survivors, hard_facted_complex_card_counter, entries_fit, hard_facts_hold, new_hypothesis_holds,
    offset_before, path_fact_holds, path_kept,
};
use crate::deck::{all_decks, count_window, DeckState, FilterResult};
use crate::deduction::push_fact;
use crate::election::{claims_in_range, drawn_count, passed_blues_of, seen_blues_of, ElectedGovernment, ElectionResult};
use crate::error::PlayerID;
use crate::filter_engine::{count_with_role, first_unknown};
use crate::history::{
    all_claims_in_range, lemma_bounds_in_range, lemma_history_claims, shuffle_bounds, shuffle_election_results,
    shuffle_matches, shuffle_of, ShuffleAnalysis,
};
use crate::information::{Information, InformationView};
use crate::player_state::PlayerState;
use crate::policy::Policy;
use crate::queries::{filter_facts, kept_assignments};
use crate::secret_role::SecretRole;

verus! {

broadcast use vstd::std_specs::vec::group_vec_axioms;

/// A node of the claim tree: one possible true claim of one entry of a
/// shuffle, with its probability relative to its parent.
#[derive(Debug)]
pub struct TreeNode {
    pub relative_probability: FilterResult,
    pub original_claimed_blues: usize,
    pub relevant_election_result: ElectionResult,
    pub children: Vec<TreeNode>,
}

pub open spec fn sum_matching(nodes: Seq<TreeNode>) -> nat
    decreases nodes.len(),
{
    if nodes.len() == 0 {
        0
    } else {
        sum_matching(nodes.drop_last()) + (nodes.last().relative_probability.num_matching as nat)
    }
}

pub open spec fn max_checked(nodes: Seq<TreeNode>) -> nat
    decreases nodes.len(),
{
    if nodes.len() == 0 {
        0
    } else {
        let m = max_checked(nodes.drop_last());
        let c = nodes.last().relative_probability.num_checked as nat;
        if c > m { c } else { m }
    }
}

/// The government with the president's claim replaced.
pub open spec fn with_claim(g: ElectedGovernment, claim: usize) -> ElectedGovernment {
    ElectedGovernment { president_claimed_blues: claim, ..g }
}

/// The full tree below entry `start`: one node for a top-deck, three for a
/// government (its president having truly seen the passed policy's colour
/// plus zero, one or two more liberal cards), each with the tree of the next
/// entry below it.
pub open spec fn generated(nodes: Seq<TreeNode>, ers: Seq<ElectionResult>, start: int) -> bool
    decreases ers.len() - start,
{
    if start >= ers.len() || start < 0 {
        nodes.len() == 0
    } else {
        match ers[start] {
            ElectionResult::TopDeck(_, _) => nodes.len() == 1 && {
                let n = nodes[0];
                &&& n.relevant_election_result == ers[start]
                &&& n.original_claimed_blues == passed_blues_of(ers[start])
                &&& n.relative_probability == FilterResult { num_matching: 0, num_checked: 1 }
                &&& generated(n.children@, ers, start + 1)
            },
            ElectionResult::Election(g) => nodes.len() == 3 && forall|x: int| 0 <= x < 3 ==> {
                let n = #[trigger] nodes[x];
                &&& n.relevant_election_result == ElectionResult::Election(with_claim(g, (passed_blues_of(ers[start]) + x) as usize))
                &&& n.original_claimed_blues == g.president_claimed_blues
                &&& n.relative_probability == FilterResult { num_matching: 0, num_checked: 1 }
                &&& generated(n.children@, ers, start + 1)
            },
        }
    }
}

/// The claim tree of the entries `start..` of `ers`.
pub fn recursively_generate_tree(ers: &Vec<ElectionResult>, start: usize) -> (r: Vec<TreeNode>)
    requires
        all_claims_in_range(ers@),
    ensures
        generated(r@, ers@, start as int),
    decreases ers@.len() - start,
{
    if start >= ers.len() {
        return Vec::new();
    }
    let er = ers[start];
    let next = start + 1;
    let passed_blues = er.passed_blues();
    assert(claims_in_range(ers@[start as int]));
    match er {
        ElectionResult::TopDeck(_, _) => {
            let children = recursively_generate_tree(ers, next);
            let node = TreeNode {
                relative_probability: FilterResult::none(1),
                original_claimed_blues: passed_blues,
                relevant_election_result: er,
                children,
            };
            let mut out: Vec<TreeNode> = Vec::new();
            out.push(node);
            out
        },
        ElectionResult::Election(eg) => {
            let mut out: Vec<TreeNode> = Vec::new();
            let mut x: usize = 0;
            while x < 3
                invariant
                    x <= 3,
                    out@.len() == x,
                    all_claims_in_range(ers@),
                    start < ers@.len(),
                    ers@[start as int] == er,
                    next == start + 1,
                    claims_in_range(er),
                    er == ElectionResult::Election(eg),
                    passed_blues == passed_blues_of(er),
                    passed_blues <= 1,
                    forall|y: int| 0 <= y < x ==> {
                        let n = #[trigger] out@[y];
                        &&& n.relevant_election_result == ElectionResult::Election(with_claim(eg, (passed_blues + y) as usize))
                        &&& n.original_claimed_blues == eg.president_claimed_blues
                        &&& n.relative_probability == FilterResult { num_matching: 0, num_checked: 1 }
                        &&& generated(n.children@, ers@, start + 1)
                    },
                decreases 3 - x,
            {
                let copy = ElectedGovernment { president_claimed_blues: passed_blues + x, ..eg };
                assert(copy == with_claim(eg, (passed_blues + x) as usize));
                let children = recursively_generate_tree(ers, next);
                out.push(TreeNode {
                    relative_probability: FilterResult::none(1),
                    original_claimed_blues: eg.president_claimed_blues,
                    relevant_election_result: ElectionResult::Election(copy),
                    children,
                });
                x = x + 1;
            }
            out
        },
    }
}

impl TreeNode {
    /// The president must have lied: the assumed true claim differs from the
    /// one made.
    pub open spec fn spec_pres_guaranteed_fasc(&self) -> bool {
        self.relevant_election_result matches ElectionResult::Election(eg)
            && eg.president_claimed_blues != self.original_claimed_blues
    }

    /// The chancellor must have lied: no pair handed over fits both claims.
    pub open spec fn spec_guaranteed_fasc_chancellor(&self) -> bool {
        self.relevant_election_result matches ElectionResult::Election(eg)
            && (eg.president_claimed_blues - eg.chancellor_claimed_blues > 1
                || eg.chancellor_claimed_blues - eg.president_claimed_blues > 1)
    }

    pub fn pres_guaranteed_fasc(&self) -> (r: bool)
        ensures
            r == self.spec_pres_guaranteed_fasc(),
    {
        match &self.relevant_election_result {
            ElectionResult::Election(eg) => eg.president_claimed_blues != self.original_claimed_blues,
            ElectionResult::TopDeck(_, _) => false,
        }
    }

    pub fn guaranteed_fasc_chancellor(&self) -> (r: bool)
        ensures
            r == self.spec_guaranteed_fasc_chancellor(),
    {
        match &self.relevant_election_result {
            ElectionResult::Election(eg) => {
                if eg.president_claimed_blues > eg.chancellor_claimed_blues {
                    eg.president_claimed_blues - eg.chancellor_claimed_blues > 1
                } else {
                    eg.chancellor_claimed_blues - eg.president_claimed_blues > 1
                }
            },
            ElectionResult::TopDeck(_, _) => false,
        }
    }

    /// Whether the siblings' matching counts add up to their shared number of
    /// checked decks, under every node of `nodes`.
    pub fn probability_check_recursive(nodes: &Vec<TreeNode>) -> (r: bool)
        ensures
            r == conserved(nodes@),
        decreases nodes@,
    {
        let mut sum: u128 = 0;
        let mut max: usize = 0;
        let mut all_below = true;
        let mut i: usize = 0;
        while i < nodes.len()
            invariant
                i <= nodes@.len(),
                sum == sum_matching(nodes@.subrange(0, i as int)),
                max == max_checked(nodes@.subrange(0, i as int)),
                sum <= i * 0xffff_ffff_ffff_ffffu128,
                all_below == children_conserved(nodes@, i as int),
            decreases nodes@.len() - i,
        {
            assert(nodes@.subrange(0, i + 1 as int).drop_last() =~= nodes@.subrange(0, i as int));
            let n = &nodes[i];
            sum = sum + n.relative_probability.num_matching as u128;
            if n.relative_probability.num_checked > max {
                max = n.relative_probability.num_checked;
            }
            let below = TreeNode::probability_check_recursive(&n.children);

            all_below = all_below && below;
            i = i + 1;
        }
        assert(nodes@.subrange(0, i as int) =~= nodes@);
        sum == max as u128 && all_below
    }
}

/// Siblings `nodes` share their denominator and every children list below
/// them does too.
pub open spec fn conserved(nodes: Seq<TreeNode>) -> bool
    decreases nodes, nodes.len() + 1,
{
    sum_matching(nodes) == max_checked(nodes) && children_conserved(nodes, nodes.len() as int)
}

/// The children lists of the first `k` of `nodes` conserve probability.
pub open spec fn children_conserved(nodes: Seq<TreeNode>, k: int) -> bool
    decreases nodes, if k > 0 { k } else { 0 },
{
    if k <= 0 || k > nodes.len() {
        true
    } else {
        children_conserved(nodes, k - 1) && conserved(nodes[k - 1].children@)
    }
}

/// `m` is `n` with branches pruned: the same entry and claim, and its
/// children are derived, in order, from some of `n`'s children.
pub open spec fn derived(m: TreeNode, n: TreeNode) -> bool
    decreases n, n.children@.len() + 1,
{
    &&& m.relevant_election_result == n.relevant_election_result
    &&& m.original_claimed_blues == n.original_claimed_blues
    &&& embedded(m.children@, n.children@, m.children@.len() as int, n.children@.len() as int)
}

/// The first `i` of `ms` are derived, in order, from some of the first `j`
/// of `ns`.
pub open spec fn embedded(ms: Seq<TreeNode>, ns: Seq<TreeNode>, i: int, j: int) -> bool
    decreases ns, if j > 0 { j } else { 0 },
{
    if i <= 0 {
        true
    } else if j <= 0 || j > ns.len() || i > ms.len() {
        false
    } else {
        (derived(ms[i - 1], ns[j - 1]) && embedded(ms, ns, i - 1, j - 1)) || embedded(ms, ns, i, j - 1)
    }
}

proof fn lemma_embedded_mono(ms: Seq<TreeNode>, ns: Seq<TreeNode>, i: int, j: int, k: int)
    requires
        embedded(ms, ns, i, j),
        j <= k <= ns.len(),
        i <= ms.len(),
    ensures
        embedded(ms, ns, i, k),
    decreases k - j,
{
    if k > j {
        lemma_embedded_mono(ms, ns, i, j, k - 1);
    }
}

proof fn lemma_embedded_prefix(ms: Seq<TreeNode>, x: TreeNode, ns: Seq<TreeNode>, i: int, j: int)
    requires
        i <= ms.len(),
    ensures
        embedded(ms.push(x), ns, i, j) == embedded(ms, ns, i, j),
    decreases if j > 0 { j } else { 0 },
{
    if i > 0 && j > 0 && j <= ns.len() {
        lemma_embedded_prefix(ms, x, ns, i - 1, j - 1);
        lemma_embedded_prefix(ms, x, ns, i, j - 1);
        assert(ms.push(x)[i - 1] == ms[i - 1]);
    }
}

proof fn lemma_embedded_push(ms: Seq<TreeNode>, x: TreeNode, ns: Seq<TreeNode>, j: int, k: int)
    requires
        embedded(ms, ns, ms.len() as int, j),
        0 <= j <= k < ns.len(),
        derived(x, ns[k]),
    ensures
        embedded(ms.push(x), ns, ms.len() as int + 1, k + 1),
{
    lemma_embedded_mono(ms, ns, ms.len() as int, j, k);
    lemma_embedded_prefix(ms, x, ns, ms.len() as int, k);
    assert(ms.push(x)[ms.len() as int] == x);
}

proof fn lemma_embedded_empty(ms: Seq<TreeNode>, ns: Seq<TreeNode>)
    requires
        ms.len() == 0,
    ensures
        embedded(ms, ns, 0, ns.len() as int),
{
}

/// The facts that a node's assumed claim forces: a president who must have
/// lied, a chancellor who must have lied.
pub open spec fn node_facts(n: TreeNode) -> Seq<InformationView> {
    (if n.spec_pres_guaranteed_fasc() {
        seq![InformationView::AtLeastOneFascist(seq![n.relevant_election_result->Election_0.president])]
    } else {
        seq![]
    }) + (if n.spec_guaranteed_fasc_chancellor() {
        seq![InformationView::AtLeastOneFascist(seq![n.relevant_election_result->Election_0.chancellor])]
    } else {
        seq![]
    })
}

/// Some role assignment agrees with everything known and with `facts`.
pub open spec fn path_consistent(s: PlayerState, facts: Seq<InformationView>) -> bool {
    let all = filter_facts(s, facts);
    &&& first_unknown(s.table_configuration.table_size as nat, all) is None
    &&& kept_assignments(s, all, true, true).len() > 0
}

fn copy_facts(v: &Vec<Information>) -> (r: Vec<Information>)
    ensures
        r.deep_view() == v.deep_view(),
{
    let mut r: Vec<Information> = Vec::new();
    let mut i: usize = 0;
    while i < v.len()
        invariant
            i <= v@.len(),
            r.deep_view() == v.deep_view().subrange(0, i as int),
        decreases v@.len() - i,
    {
        let ghost before = r.deep_view();
        push_fact(&mut r, v[i].duplicate());
        assert(v.deep_view()[i as int] == v@[i as int]@);
        i = i + 1;
        assert(r.deep_view() =~= v.deep_view().subrange(0, i as int));
    }
    assert(v.deep_view().subrange(0, v@.len() as int) =~= v.deep_view());
    r
}

/// `path_facts` followed by the facts that `node` forces.
fn extend_facts(path_facts: &Vec<Information>, node: &TreeNode) -> (r: Vec<Information>)
    ensures
        r.deep_view() == path_facts.deep_view() + node_facts(*node),
{
    let mut r = copy_facts(path_facts);
    let ghost start = r.deep_view();
    match &node.relevant_election_result {
        ElectionResult::Election(eg) => {
            if node.pres_guaranteed_fasc() {
                let mut v: Vec<PlayerID> = Vec::new();
                v.push(eg.president);
                assert(v@ =~= seq![eg.president]);
                push_fact(&mut r, Information::AtLeastOneFascist(v));
            }
            if node.guaranteed_fasc_chancellor() {
                let mut v: Vec<PlayerID> = Vec::new();
                v.push(eg.chancellor);
                assert(v@ =~= seq![eg.chancellor]);
                push_fact(&mut r, Information::AtLeastOneFascist(v));
            }
        },
        ElectionResult::TopDeck(_, _) => {},
    }
    assert(r.deep_view() =~= start + node_facts(*node));
    r
}

/// Whether some role assignment agrees with everything known and `facts`.
pub fn logically_consistent_path_filter(s: &PlayerState, facts: &Vec<Information>) -> (r: bool)
    requires
        s.well_formed(),
    ensures
        r == path_consistent(*s, facts.deep_view()),
{
    s.filter_assigned_roles(true, true, facts).is_ok()
}

/// Some leaf below `node` keeps the facts forced along its path consistent
/// with everything known (`facts` holds those of the ancestors).
pub open spec fn path_survives(s: PlayerState, facts: Seq<InformationView>, node: TreeNode) -> bool
    decreases node, node.children@.len() + 1,
{
    if node.children@.len() == 0 {
        path_consistent(s, facts + node_facts(node))
    } else {
        any_child_survives(s, facts + node_facts(node), node, node.children@.len() as int)
    }
}

/// Some of the first `k` children of `parent` survives.
pub open spec fn any_child_survives(s: PlayerState, facts: Seq<InformationView>, parent: TreeNode, k: int) -> bool
    decreases parent, if k > 0 { k } else { 0 },
{
    if k <= 0 || k > parent.children@.len() {
        false
    } else {
        any_child_survives(s, facts, parent, k - 1) || path_survives(s, facts, parent.children@[k - 1])
    }
}

/// The entries of the first `k` children of `parent` that survive, in order.
pub open spec fn surviving_ers(s: PlayerState, facts: Seq<InformationView>, parent: TreeNode, k: int) -> Seq<ElectionResult>
    decreases if k > 0 { k } else { 0 },
{
    if k <= 0 || k > parent.children@.len() {
        seq![]
    } else {
        surviving_ers(s, facts, parent, k - 1) + (if path_survives(s, facts, parent.children@[k - 1]) {
            seq![parent.children@[k - 1].relevant_election_result]
        } else {
            seq![]
        })
    }
}

/// Keeps the paths of the subtree at `node` whose forced facts stay
/// consistent with everything known (`path_facts` holds those of the
/// ancestors); a node whose children are all dropped is dropped too.
pub fn filter_paths_recursive(s: &PlayerState, path_facts: &Vec<Information>, node: TreeNode) -> (r: Option<TreeNode>)
    requires
        s.well_formed(),
    ensures
        r is Some <==> path_survives(*s, path_facts.deep_view(), node),
        r matches Some(m) ==> m.relevant_election_result == node.relevant_election_result
            && m.original_claimed_blues == node.original_claimed_blues
            && m.relative_probability == node.relative_probability
            && m.children@.map_values(|c: TreeNode| c.relevant_election_result)
                == surviving_ers(*s, path_facts.deep_view() + node_facts(node), node, node.children@.len() as int),
        r matches Some(m) ==> derived(m, node),
    decreases node,
{
    let facts = extend_facts(path_facts, &node);
    let ghost fs = facts.deep_view();
    let TreeNode { relative_probability, original_claimed_blues, relevant_election_result, children } = node;
    if children.len() == 0 {
        if logically_consistent_path_filter(s, &facts) {
            assert(children@.map_values(|c: TreeNode| c.relevant_election_result) =~= seq![]);
            proof {
                lemma_embedded_empty(children@, children@);
            }
            return Some(TreeNode { relative_probability, original_claimed_blues, relevant_election_result, children });
        }
        return None;
    }
    let ghost all = children@;
    assert(children@.subrange(0, children@.len() as int) =~= children@);
    let mut rest = children;
    let mut kept: Vec<TreeNode> = Vec::new();
    assert(kept@.map_values(|c: TreeNode| c.relevant_election_result) =~= surviving_ers(*s, fs, node, 0));
    while rest.len() > 0
        invariant
            s.well_formed(),
            all == node.children@,
            fs == path_facts.deep_view() + node_facts(node),
            facts.deep_view() == fs,
            rest@.len() <= all.len(),
            rest@ == all.subrange(all.len() - rest@.len(), all.len() as int),
            forall|k: int| 0 <= k < all.len() ==> decreases_to!(node => all[k]),
            kept@.map_values(|c: TreeNode| c.relevant_election_result)
                == surviving_ers(*s, fs, node, all.len() - rest@.len()),
            (kept@.len() > 0) == any_child_survives(*s, fs, node, all.len() - rest@.len()),
            embedded(kept@, all, kept@.len() as int, all.len() - rest@.len()),
        decreases rest@.len(),
    {
        let ghost before = rest@;
        let ghost k = all.len() - before.len();
        let c = rest.remove(0);
        assert(c == all[k]);
        assert(rest@ =~= all.subrange(all.len() - rest@.len(), all.len() as int));
        let ghost before_kept = kept@;
        match filter_paths_recursive(s, &facts, c) {
            Some(m) => {
                proof {
                    lemma_embedded_push(before_kept, m, all, k, k);
                }
                kept.push(m);
                assert(kept@.map_values(|c: TreeNode| c.relevant_election_result)
                    =~= before_kept.map_values(|c: TreeNode| c.relevant_election_result).push(m.relevant_election_result));
            },
            None => {},
        }
        assert(kept@.map_values(|c: TreeNode| c.relevant_election_result) =~= surviving_ers(*s, fs, node, k + 1));
        proof {
            if kept@.len() == before_kept.len() {
                lemma_embedded_mono(kept@, all, kept@.len() as int, k, k + 1);
            }
        }
    }
    if kept.len() == 0 {
        None
    } else {
        Some(TreeNode { relative_probability, original_claimed_blues, relevant_election_result, children: kept })
    }
}

/// Entry-wise union of two per-entry sets of allowed liberal counts, as long
/// as the shorter one; an entry without a set stays without.
pub open spec fn union_sets(l: Seq<Option<Seq<usize>>>, r: Seq<Option<Seq<usize>>>) -> Seq<Option<Seq<usize>>> {
    let n = if l.len() < r.len() { l.len() } else { r.len() };
    Seq::new(n, |i: int| match (l[i], r[i]) {
        (Some(a), Some(b)) => Some(a + b),
        _ => None,
    })
}

/// The union of all children's allowed counts, folded from the left.
pub open spec fn fold_sets(sets: Seq<Seq<Option<Seq<usize>>>>) -> Option<Seq<Option<Seq<usize>>>>
    decreases sets.len(),
{
    if sets.len() == 0 {
        None
    } else if sets.len() == 1 {
        Some(sets[0])
    } else {
        Some(union_sets(fold_sets(sets.drop_last())->Some_0, sets.last()))
    }
}

/// Where every input has no set at `j`, neither has the fold.
pub proof fn lemma_fold_keeps_none(sets: Seq<Seq<Option<Seq<usize>>>>, j: int)
    requires
        sets.len() > 0,
        forall|k: int| 0 <= k < sets.len() ==> j < (#[trigger] sets[k]).len() && sets[k][j] is None,
        0 <= j,
    ensures
        j < fold_sets(sets)->Some_0.len(),
        fold_sets(sets)->Some_0[j] is None,
    decreases sets.len(),
{
    if sets.len() > 1 {
        lemma_fold_keeps_none(sets.drop_last(), j);
        assert(sets.drop_last()[0] == sets[0]);
    }
}

fn copy_set(v: &Option<Vec<usize>>) -> (r: Option<Vec<usize>>)
    ensures
        r.deep_view() == v.deep_view(),
{
    match v {
        None => None,
        Some(a) => {
            let mut c: Vec<usize> = Vec::new();
            let mut i: usize = 0;
            while i < a.len()
                invariant
                    i <= a@.len(),
                    c@ == a@.subrange(0, i as int),
                decreases a@.len() - i,
            {
                c.push(a[i]);
                i = i + 1;
                assert(c@ =~= a@.subrange(0, i as int));
            }
            assert(a@.subrange(0, a@.len() as int) =~= a@);
            Some(c)
        },
    }
}

fn union_exec(l: &Vec<Option<Vec<usize>>>, r: &Vec<Option<Vec<usize>>>) -> (out: Vec<Option<Vec<usize>>>)
    ensures
        out.deep_view() == union_sets(l.deep_view(), r.deep_view()),
{
    let n = if l.len() < r.len() { l.len() } else { r.len() };
    let ghost target = union_sets(l.deep_view(), r.deep_view());
    let mut out: Vec<Option<Vec<usize>>> = Vec::new();
    let mut i: usize = 0;
    while i < n
        invariant
            n == target.len(),
            n <= l@.len() && n <= r@.len(),
            target == union_sets(l.deep_view(), r.deep_view()),
            i <= n,
            out.deep_view() == target.subrange(0, i as int),
        decreases n - i,
    {
        let item = match (&l[i], &r[i]) {
            (Some(a), Some(b)) => {
                let mut c: Vec<usize> = Vec::new();
                let mut k: usize = 0;
                while k < a.len()
                    invariant
                        k <= a@.len(),
                        c@ == a@.subrange(0, k as int),
                    decreases a@.len() - k,
                {
                    c.push(a[k]);
                    k = k + 1;
                    assert(c@ =~= a@.subrange(0, k as int));
                }
                let mut k: usize = 0;
                while k < b.len()
                    invariant
                        k <= b@.len(),
                        c@ == a@ + b@.subrange(0, k as int),
                    decreases b@.len() - k,
                {
                    c.push(b[k]);
                    k = k + 1;
                    assert(c@ =~= a@ + b@.subrange(0, k as int));
                }
                assert(b@.subrange(0, b@.len() as int) =~= b@);
                assert(a@.subrange(0, a@.len() as int) =~= a@);
                assert(a.deep_view() =~= a@);
                assert(b.deep_view() =~= b@);
                assert(c.deep_view() =~= c@);
                Some(c)
            },
            _ => None,
        };
        proof {
            assert(l.deep_view()[i as int] == l@[i as int].deep_view());
            assert(r.deep_view()[i as int] == r@[i as int].deep_view());
        }
        let ghost before = out.deep_view();
        let ghost iv = item.deep_view();
        assert(iv == target[i as int]);
        out.push(item);
        assert(out.deep_view() =~= before.push(iv));
        i = i + 1;
        assert(out.deep_view() =~= target.subrange(0, i as int));
    }
    assert(target.subrange(0, n as int) =~= target);
    out
}

/// Folds the children's allowed counts into one per-entry union; `None`
/// when there are no children.
pub fn fold_children_legal_draws(follow_on_path_sets: &Vec<Vec<Option<Vec<usize>>>>) -> (r: Option<Vec<Option<Vec<usize>>>>)
    ensures
        r.deep_view() == fold_sets(follow_on_path_sets.deep_view()),
{
    let ghost sets = follow_on_path_sets.deep_view();
    if follow_on_path_sets.len() == 0 {
        return None;
    }
    let mut acc: Vec<Option<Vec<usize>>> = Vec::new();
    let first = &follow_on_path_sets[0];
    let mut i: usize = 0;
    while i < first.len()
        invariant
            i <= first@.len(),
            acc.deep_view() == first.deep_view().subrange(0, i as int),
        decreases first@.len() - i,
    {
        let c = copy_set(&first[i]);
        proof { assert(first.deep_view()[i as int] == first@[i as int].deep_view()); }
        let ghost before = acc.deep_view();
        let ghost cv = c.deep_view();
        acc.push(c);
        assert(acc.deep_view() =~= before.push(cv));
        i = i + 1;
        assert(acc.deep_view() =~= first.deep_view().subrange(0, i as int));
    }
    assert(first.deep_view().subrange(0, first@.len() as int) =~= first.deep_view());
    assert(sets[0] == first.deep_view());
    assert(sets.subrange(0, 1).drop_last() =~= Seq::<Seq<Option<Seq<usize>>>>::empty());
    assert(fold_sets(sets.subrange(0, 1)) == Some(sets[0]));
    let mut k: usize = 1;
    while k < follow_on_path_sets.len()
        invariant
            sets == follow_on_path_sets.deep_view(),
            1 <= k <= sets.len(),
            fold_sets(sets.subrange(0, k as int)) == Some(acc.deep_view()),
        decreases sets.len() - k,
    {
        let next = union_exec(&acc, &follow_on_path_sets[k]);
        proof {
            assert(sets[k as int] == follow_on_path_sets@[k as int].deep_view());
            assert(sets.subrange(0, k + 1 as int).drop_last() =~= sets.subrange(0, k as int));
        }
        acc = next;
        k = k + 1;
    }
    assert(sets.subrange(0, sets.len() as int) =~= sets);
    Some(acc)
}

/// Seats `1..=k` that every kept assignment makes liberal.
pub open spec fn confirmed_upto(kept: Seq<Seq<SecretRole>>, k: nat) -> Seq<PlayerID>
    decreases k,
{
    if k == 0 {
        seq![]
    } else {
        confirmed_upto(kept, (k - 1) as nat) + (if count_with_role(kept, k - 1, SecretRole::Liberal) == kept.len() {
            seq![k as PlayerID]
        } else {
            seq![]
        })
    }
}

/// The players that must be liberal given everything known and `facts`.
pub open spec fn confirmed_liberals_spec(s: PlayerState, facts: Seq<InformationView>) -> Seq<PlayerID> {
    confirmed_upto(kept_assignments(s, filter_facts(s, facts), true, true), s.table_configuration.table_size as nat)
}

/// The players that every role assignment agreeing with everything known and
/// `facts` makes liberal; `None` when no assignment agrees.
pub fn confirmed_liberals(s: &PlayerState, facts: &Vec<Information>) -> (r: Option<Vec<PlayerID>>)
    requires
        s.well_formed(),
    ensures
        path_consistent(*s, facts.deep_view()) ==> r is Some,
        !path_consistent(*s, facts.deep_view()) ==> r is None,
        r matches Some(v) ==> v@ == confirmed_liberals_spec(*s, facts.deep_view()),
{
    let h = match s.filtered_histogramm(true, true, facts) {
        Err(_) => return None,
        Ok(h) => h,
    };
    let n = s.table_configuration.table_size;
    let ghost kept = kept_assignments(*s, filter_facts(*s, facts.deep_view()), true, true);
    let mut out: Vec<PlayerID> = Vec::new();
    let mut i: usize = 0;
    while i < n
        invariant
            n == s.table_configuration.table_size,
            h@.len() == n,
            kept == kept_assignments(*s, filter_facts(*s, facts.deep_view()), true, true),
            kept.len() > 0,
            forall|k: int| 0 <= k < n ==> {
                let e = #[trigger] h@[k];
                &&& e.liberal.num_matching == count_with_role(kept, k, SecretRole::Liberal) && e.liberal.num_checked == kept.len()
            },
            i <= n,
            out@ == confirmed_upto(kept, i as nat),
        decreases n - i,
    {
        let e = h[i];
        proof {
            crate::filter_engine::lemma_role_count_bounded(kept, i as int);
        }
        if e.liberal.num_matching == e.liberal.num_checked {
            out.push(i + 1);
        }
        i = i + 1;
        assert(out@ =~= confirmed_upto(kept, i as nat));
    }
    Some(out)
}

fn claims_ok(er: &ElectionResult) -> (r: bool)
    ensures
        r == claims_in_range(*er),
{
    match er {
        ElectionResult::TopDeck(_, _) => true,
        ElectionResult::Election(g) => g.president_claimed_blues <= 3 && g.chancellor_claimed_blues <= 2,
    }
}

/// What a shuffle's counter calls need.
pub open spec fn shuffle_fits(sa: ShuffleAnalysis) -> bool {
    &&& all_claims_in_range(sa.election_results@)
    &&& sa.election_results@.len() <= usize::MAX / 8
    &&& sa.initial_deck_liberal + sa.initial_deck_fascist <= usize::MAX
}

/// The counter's answer for one entry after a path of hypotheses.
pub open spec fn counted(
    sa: ShuffleAnalysis,
    path: Seq<ElectionResult>,
    sets: Seq<Option<Seq<usize>>>,
    hard_libs: Seq<PlayerID>,
    path_libs: Seq<PlayerID>,
    er: ElectionResult,
    fr: FilterResult,
) -> bool {
    let survivors = counter_survivors(sa.initial_deck_liberal as nat, sa.initial_deck_fascist as nat,
        sa.election_results@, path, sets, hard_libs, path_libs);
    &&& fr.num_checked == survivors.len()
    &&& fr.num_matching == survivors.filter(|d: Seq<Policy>| new_hypothesis_holds(d, path, er)).len()
}

fn path_with(path: &Vec<ElectionResult>, er: ElectionResult) -> (r: Vec<ElectionResult>)
    ensures
        r@ == path@.push(er),
{
    let mut r: Vec<ElectionResult> = Vec::new();
    let mut i: usize = 0;
    while i < path.len()
        invariant
            i <= path@.len(),
            r@ == path@.subrange(0, i as int),
        decreases path@.len() - i,
    {
        r.push(path[i]);
        i = i + 1;
        assert(r@ =~= path@.subrange(0, i as int));
    }
    r.push(er);
    assert(r@ =~= path@.push(er));
    r
}

fn none_sets(len: usize) -> (r: Vec<Option<Vec<usize>>>)
    ensures
        r.deep_view() == Seq::new(len as nat, |j: int| None::<Seq<usize>>),
        r@.len() == len,
{
    let mut r: Vec<Option<Vec<usize>>> = Vec::new();
    let mut i: usize = 0;
    while i < len
        invariant
            i <= len,
            r.deep_view() == Seq::new(i as nat, |j: int| None::<Seq<usize>>),
            r@.len() == i,
        decreases len - i,
    {
        let ghost before = r.deep_view();
        r.push(None);
        assert(r.deep_view() =~= before.push(None));
        i = i + 1;
        assert(r.deep_view() =~= Seq::new(i as nat, |j: int| None::<Seq<usize>>));
    }
    r
}

/// How many decks the counter matches for `er` after `path`.
pub open spec fn matched(sa: ShuffleAnalysis, path: Seq<ElectionResult>, sets: Seq<Option<Seq<usize>>>,
    hard: Seq<PlayerID>, libs: Seq<PlayerID>, er: ElectionResult) -> nat {
    counter_survivors(sa.initial_deck_liberal as nat, sa.initial_deck_fascist as nat, sa.election_results@, path, sets,
        hard, libs).filter(|d: Seq<Policy>| new_hypothesis_holds(d, path, er)).len()
}

/// Some entry of `ers` matches some deck.
pub open spec fn some_matched(sa: ShuffleAnalysis, path: Seq<ElectionResult>, sets: Seq<Option<Seq<usize>>>,
    hard: Seq<PlayerID>, libs: Seq<PlayerID>, ers: Seq<ElectionResult>) -> bool {
    exists|i: int| 0 <= i < ers.len() && #[trigger] matched(sa, path, sets, hard, libs, ers[i]) > 0
}

/// The node's entry can stand at `depth` of the shuffle.
pub open spec fn node_fits(sa: ShuffleAnalysis, node: TreeNode, depth: int) -> bool {
    &&& claims_in_range(node.relevant_election_result)
    &&& 0 <= depth < sa.election_results@.len()
    &&& drawn_count(node.relevant_election_result) == drawn_count(sa.election_results@[depth])
}

/// The allowed liberal counts that the subtree at `node` needs, when it
/// survives annotation: a leaf that some deck matches, or an inner node one of
/// whose surviving children some deck matches once every child's needs are
/// folded together.
pub open spec fn annotated(sa: ShuffleAnalysis, s: PlayerState, hard: Seq<PlayerID>, path: Seq<ElectionResult>,
    facts: Seq<InformationView>, node: TreeNode, depth: int) -> Option<Seq<Option<Seq<usize>>>>
    decreases node, node.children@.len() + 1,
{
    if !node_fits(sa, node, depth) || !path_consistent(s, facts) {
        None
    } else {
        let pl = confirmed_liberals_spec(s, facts);
        let own = Some(seq![seen_blues_of(node.relevant_election_result) as usize]);
        if node.children@.len() == 0 {
            let nones = Seq::new((depth + 1) as nat, |j: int| None::<Seq<usize>>);
            if matched(sa, path, nones, hard, pl, node.relevant_election_result) > 0 {
                Some(nones.update(depth, own))
            } else {
                None
            }
        } else if depth + 1 >= sa.election_results@.len() {
            None
        } else {
            let cp = path.push(node.relevant_election_result);
            let cf = facts + node_facts(node);
            let n = node.children@.len() as int;
            let ks = kept_sets(sa, s, hard, cp, cf, node.children@, depth + 1, n);
            let ke = kept_ers(sa, s, hard, cp, cf, node.children@, depth + 1, n);
            if ks.len() == 0 {
                None
            } else if some_matched(sa, cp, fold_sets(ks)->Some_0, hard, pl, ke) {
                Some(fold_sets(ks)->Some_0.update(depth, own))
            } else {
                None
            }
        }
    }
}

/// The needs of the first `k` of `children` that survive annotation.
pub open spec fn kept_sets(sa: ShuffleAnalysis, s: PlayerState, hard: Seq<PlayerID>, path: Seq<ElectionResult>,
    facts: Seq<InformationView>, children: Seq<TreeNode>, depth: int, k: int) -> Seq<Seq<Option<Seq<usize>>>>
    decreases children, if k > 0 { k } else { 0 },
{
    if k <= 0 || k > children.len() {
        seq![]
    } else {
        kept_sets(sa, s, hard, path, facts, children, depth, k - 1) + match annotated(sa, s, hard, path, facts, children[k - 1], depth) {
            Some(v) => seq![v],
            None => seq![],
        }
    }
}

/// The entries of the first `k` of `children` that survive annotation.
pub open spec fn kept_ers(sa: ShuffleAnalysis, s: PlayerState, hard: Seq<PlayerID>, path: Seq<ElectionResult>,
    facts: Seq<InformationView>, children: Seq<TreeNode>, depth: int, k: int) -> Seq<ElectionResult>
    decreases children, if k > 0 { k } else { 0 },
{
    if k <= 0 || k > children.len() {
        seq![]
    } else {
        kept_ers(sa, s, hard, path, facts, children, depth, k - 1) + if annotated(sa, s, hard, path, facts, children[k - 1], depth) is Some {
            seq![children[k - 1].relevant_election_result]
        } else {
            seq![]
        }
    }
}

/// Every node of `nodes`, at every depth, matches some deck.
pub open spec fn positive_tree(nodes: Seq<TreeNode>) -> bool
    decreases nodes, nodes.len() + 1,
{
    nodes_positive(nodes, nodes.len() as int)
}

pub open spec fn nodes_positive(nodes: Seq<TreeNode>, k: int) -> bool
    decreases nodes, if k > 0 { k } else { 0 },
{
    if k <= 0 || k > nodes.len() {
        true
    } else {
        nodes_positive(nodes, k - 1) && nodes[k - 1].relative_probability.num_matching > 0
            && positive_tree(nodes[k - 1].children@)
    }
}

proof fn lemma_prefix_push(nodes: Seq<TreeNode>, c: TreeNode, k: int)
    requires
        0 <= k <= nodes.len(),
    ensures
        children_conserved(nodes.push(c), k) == children_conserved(nodes, k),
        nodes_positive(nodes.push(c), k) == nodes_positive(nodes, k),
    decreases k,
{
    if k > 0 {
        lemma_prefix_push(nodes, c, k - 1);
        assert(nodes.push(c)[k - 1] == nodes[k - 1]);
    }
}

proof fn lemma_tree_push(nodes: Seq<TreeNode>, c: TreeNode)
    requires
        children_conserved(nodes, nodes.len() as int),
        nodes_positive(nodes, nodes.len() as int),
        conserved(c.children@),
        positive_tree(c.children@),
        c.relative_probability.num_matching > 0,
    ensures
        children_conserved(nodes.push(c), nodes.len() as int + 1),
        nodes_positive(nodes.push(c), nodes.len() as int + 1),
{
    lemma_prefix_push(nodes, c, nodes.len() as int);
    assert(nodes.push(c)[nodes.len() as int] == c);
}

proof fn lemma_empty_tree(nodes: Seq<TreeNode>)
    requires
        nodes.len() == 0,
    ensures
        conserved(nodes),
        positive_tree(nodes),
{
    assert(sum_matching(nodes) == 0);
    assert(max_checked(nodes) == 0);
}

/// Annotates the subtree at `node` (at `depth`, below the entries `path`)
/// with relative probabilities, bottom-up. A leaf is counted against the
/// shuffle's history; an inner node's children are counted after the path
/// through the node, each restricted at every later entry to the liberal
/// counts that some surviving descendant needs. Branches that no deck allows
/// are dropped. Returns the node with the allowed counts that its subtree
/// needs, its own at `depth`.
pub fn annotate_trees_relative_recursive(
    sa: &ShuffleAnalysis,
    s: &PlayerState,
    hard_confirmed_libs: &Vec<PlayerID>,
    hard_decks: &DeckState,
    path: &Vec<ElectionResult>,
    path_facts: &Vec<Information>,
    node: TreeNode,
    depth: usize,
) -> (r: Option<(TreeNode, Vec<Option<Vec<usize>>>)>)
    requires
        s.well_formed(),
        shuffle_fits(*sa),
        entries_fit(path@),
        path@.len() == depth,
        depth < usize::MAX / 8,
        forall|i: int| 0 <= i < depth ==> drawn_count(#[trigger] path@[i]) == drawn_count(sa.election_results@[i]),
        hard_decks.actual_decks.deep_view() == all_decks(sa.initial_deck_liberal as nat, sa.initial_deck_fascist as nat).filter(
            |d: Seq<Policy>| hard_facts_hold(d, sa.election_results@, hard_confirmed_libs@)),
    ensures
        r matches Some((m, sets)) ==> {
            let sv = sets.deep_view();
            let pl = confirmed_liberals_spec(*s, path_facts.deep_view());
            &&& m.relevant_election_result == node.relevant_election_result
            &&& m.original_claimed_blues == node.original_claimed_blues
            &&& claims_in_range(node.relevant_election_result)
            &&& depth < sa.election_results@.len()
            &&& drawn_count(node.relevant_election_result) == drawn_count(sa.election_results@[depth as int])
            &&& sv.len() > depth
            &&& sv[depth as int] == Some(seq![seen_blues_of(node.relevant_election_result) as usize])
            &&& forall|j: int| 0 <= j < depth ==> #[trigger] sv[j] is None
            &&& (node.children@.len() == 0 ==> m.children@.len() == 0
                && counted(*sa, path@, sv.update(depth as int, None), hard_confirmed_libs@, pl,
                    node.relevant_election_result, m.relative_probability)
                && m.relative_probability.num_matching > 0)
            &&& (node.children@.len() > 0 ==> m.children@.len() > 0
                && m.relative_probability == node.relative_probability
                && distinct_claims(m.children@)
                && sum_matching(m.children@) == max_checked(m.children@)
                && sum_matching(m.children@) == counter_survivors(sa.initial_deck_liberal as nat, sa.initial_deck_fascist as nat,
                    sa.election_results@, path@.push(node.relevant_election_result), sv.update(depth as int, None),
                    hard_confirmed_libs@, pl).len()
                && forall|i: int| 0 <= i < m.children@.len() ==> {
                    let c = #[trigger] m.children@[i];
                    &&& c.relative_probability.num_matching > 0
                    &&& counted(*sa, path@.push(node.relevant_election_result), sv.update(depth as int, None),
                        hard_confirmed_libs@, pl, c.relevant_election_result, c.relative_probability)
                })
        },
        (r is Some) == (annotated(*sa, *s, hard_confirmed_libs@, path@, path_facts.deep_view(), node, depth as int) is Some),
        r matches Some((m, sets)) ==> sets.deep_view()
            == annotated(*sa, *s, hard_confirmed_libs@, path@, path_facts.deep_view(), node, depth as int)->Some_0
            && conserved(m.children@) && positive_tree(m.children@),
        r matches Some((m, sets)) ==> derived(m, node),
    decreases node,
{
    if !claims_ok(&node.relevant_election_result) {
        return None;
    }
    if depth >= sa.election_results.len() {
        return None;
    }
    let (node_drawn, _) = node.relevant_election_result.cards_total_drawn_discarded();
    let (history_drawn, _) = sa.election_results[depth].cards_total_drawn_discarded();
    if node_drawn != history_drawn {
        return None;
    }
    let path_libs = match confirmed_liberals(s, path_facts) {
        None => return None,
        Some(v) => v,
    };
    let seen = node.relevant_election_result.seen_blues();
    let ghost pl = confirmed_liberals_spec(*s, path_facts.deep_view());
    let TreeNode { relative_probability, original_claimed_blues, relevant_election_result, children } = node;
    if children.len() == 0 {
        let mut out_vec = none_sets(depth + 1);
        let rel = count_on_hard_facted(hard_decks, &sa.election_results, path, &out_vec, &path_libs, &relevant_election_result);
        let ghost before = out_vec.deep_view();
        let mut own: Vec<usize> = Vec::new();
        own.push(seen);
        assert(own@ =~= seq![seen]);
        assert(own.deep_view() =~= own@);
        out_vec.set(depth, Some(own));
        proof {
            assert(out_vec.deep_view() =~= before.update(depth as int, Some(seq![seen])));
            assert(out_vec.deep_view().update(depth as int, None) =~= before);
        }
        proof {
            lemma_empty_tree(children@);
            lemma_embedded_empty(children@, children@);
            assert(before =~= Seq::new((depth + 1) as nat, |j: int| None::<Seq<usize>>));
            assert(seen_blues_of(relevant_election_result) as usize == seen);
        }
        if rel.num_matching > 0 {
            return Some((TreeNode { relative_probability: rel, original_claimed_blues, relevant_election_result, children }, out_vec));
        }
        return None;
    }
    if depth + 1 >= sa.election_results.len() {
        return None;
    }
    let child_path = path_with(path, relevant_election_result);
    let child_facts = extend_facts(path_facts, &TreeNode { relative_probability, original_claimed_blues, relevant_election_result, children: Vec::new() });
    let ghost cfv = path_facts.deep_view() + node_facts(node);
    assert(child_facts.deep_view() == cfv);
    proof {
        assert forall|i: int| 0 <= i < depth + 1 implies drawn_count(#[trigger] child_path@[i]) == drawn_count(sa.election_results@[i]) by {
            if i < depth {
                assert(child_path@[i] == path@[i]);
            }
        }
    }
    let ghost all = children@;
    assert(children@.subrange(0, children@.len() as int) =~= children@);
    let mut rest = children;
    let mut kept: Vec<TreeNode> = Vec::new();
    let mut kept_needs: Vec<Vec<Option<Vec<usize>>>> = Vec::new();
    let ghost mut src: Seq<int> = seq![];
    while rest.len() > 0
        invariant
            s.well_formed(),
            shuffle_fits(*sa),
            entries_fit(child_path@),
            child_path@.len() == depth + 1,
            depth + 1 < usize::MAX / 8,
            depth + 1 < sa.election_results@.len(),
            forall|i: int| 0 <= i < depth + 1 ==> drawn_count(#[trigger] child_path@[i]) == drawn_count(sa.election_results@[i]),
            hard_decks.actual_decks.deep_view() == all_decks(sa.initial_deck_liberal as nat, sa.initial_deck_fascist as nat).filter(
                |d: Seq<Policy>| hard_facts_hold(d, sa.election_results@, hard_confirmed_libs@)),
            rest@.len() <= all.len(),
            rest@ == all.subrange(all.len() - rest@.len(), all.len() as int),
            forall|k: int| 0 <= k < all.len() ==> decreases_to!(node => all[k]),
            kept@.len() == kept_needs@.len(),
            all == node.children@,
            child_facts.deep_view() == cfv,
            child_path@ == path@.push(node.relevant_election_result),
            kept_needs.deep_view() == kept_sets(*sa, *s, hard_confirmed_libs@, child_path@, cfv, all, depth + 1,
                all.len() - rest@.len()),
            kept@.map_values(|c: TreeNode| c.relevant_election_result) == kept_ers(*sa, *s, hard_confirmed_libs@,
                child_path@, cfv, all, depth + 1, all.len() - rest@.len()),
            forall|k: int| 0 <= k < kept@.len() ==> conserved((#[trigger] kept@[k]).children@) && positive_tree(kept@[k].children@),
            src.len() == kept@.len(),
            forall|k: int| 0 <= k < src.len() ==> 0 <= #[trigger] src[k] < all.len() - rest@.len()
                && derived(kept@[k], all[src[k]]),
            forall|k1: int, k2: int| 0 <= k1 < k2 < src.len() ==> #[trigger] src[k1] < #[trigger] src[k2],
            forall|k: int| 0 <= k < kept_needs@.len() ==> {
                let sv = #[trigger] kept_needs@[k].deep_view();
                &&& sv.len() > depth + 1
                &&& forall|j: int| 0 <= j < depth + 1 ==> #[trigger] sv[j] is None
                &&& sv[depth + 1] == Some(seq![seen_blues_of(kept@[k].relevant_election_result) as usize])
            },
            forall|k: int| 0 <= k < kept@.len() ==> claims_in_range(#[trigger] kept@[k].relevant_election_result)
                && drawn_count(kept@[k].relevant_election_result) == drawn_count(sa.election_results@[depth + 1]),
        decreases rest@.len(),
    {
        let ghost before_rest = rest@;
        let ghost pos = all.len() - before_rest.len();
        let c = rest.remove(0);
        assert(c == all[pos]);
        assert(rest@ =~= all.subrange(all.len() - rest@.len(), all.len() as int));
        let ghost before_kept = kept@;
        let ghost before_needs = kept_needs.deep_view();
        match annotate_trees_relative_recursive(sa, s, hard_confirmed_libs, hard_decks, &child_path, &child_facts, c, depth + 1) {
            Some((m, sets)) => {
                kept.push(m);
                proof {
                    src = src.push(pos);
                }
                let ghost sv = sets.deep_view();
                kept_needs.push(sets);
                assert(kept_needs.deep_view() =~= before_needs.push(sv));
                assert(kept@.map_values(|c: TreeNode| c.relevant_election_result)
                    =~= before_kept.map_values(|c: TreeNode| c.relevant_election_result).push(m.relevant_election_result));
                assert forall|k: int| 0 <= k < kept@.len() implies conserved((#[trigger] kept@[k]).children@)
                    && positive_tree(kept@[k].children@) by {
                    if k < before_kept.len() {
                        assert(kept@[k] == before_kept[k]);
                    }
                }
                assert forall|k: int| 0 <= k < src.len() implies 0 <= #[trigger] src[k] < all.len() - rest@.len()
                    && derived(kept@[k], all[src[k]]) by {
                    if k < before_kept.len() {
                        assert(kept@[k] == before_kept[k]);
                    }
                }
            },
            None => {},
        }
        assert(kept_needs.deep_view() =~= kept_sets(*sa, *s, hard_confirmed_libs@, child_path@, cfv, all, depth + 1, pos + 1));
        assert(kept@.map_values(|c: TreeNode| c.relevant_election_result) =~= kept_ers(*sa, *s, hard_confirmed_libs@,
            child_path@, cfv, all, depth + 1, pos + 1));
    }
    let folded = match fold_children_legal_draws(&kept_needs) {
        None => return None,
        Some(f) => f,
    };
    proof {
        let ss = kept_needs.deep_view();
        assert forall|j: int| 0 <= j < depth + 1 implies j < folded.deep_view().len() && #[trigger] folded.deep_view()[j] is None by {
            assert forall|k: int| 0 <= k < ss.len() implies j < (#[trigger] ss[k]).len() && ss[k][j] is None by {
                assert(ss[k] == kept_needs@[k].deep_view());
            }
            lemma_fold_keeps_none(ss, j);
        }
        assert(folded.deep_view()[depth as int] is None);
    }
    let ghost fv = folded.deep_view();
    let ghost big_p = path@.push(relevant_election_result);
    let ghost surv = counter_survivors(sa.initial_deck_liberal as nat, sa.initial_deck_fascist as nat,
        sa.election_results@, big_p, fv, hard_confirmed_libs@, pl);
    let ghost off = offset_before(sa.election_results@, depth + 1) as int;
    let ghost dr = drawn_count(sa.election_results@[depth + 1]) as int;
    proof {
        assert(child_path@ == big_p);
        lemma_offset_same_draws(big_p, sa.election_results@, depth + 1);
    }
    let mut final_children: Vec<TreeNode> = Vec::new();
    let ghost all_kept = kept@;
    let ghost all_src = src;
    assert(kept@.subrange(0, kept@.len() as int) =~= kept@);
    let mut rest = kept;
    while rest.len() > 0
        invariant
            s.well_formed(),
            shuffle_fits(*sa),
            entries_fit(child_path@),
            child_path@ == big_p,
            big_p == path@.push(relevant_election_result),
            big_p.len() == depth + 1,
            depth + 1 < sa.election_results@.len(),
            off == offset_before(big_p, big_p.len() as int),
            dr == drawn_count(sa.election_results@[depth + 1]),
            fv == folded.deep_view(),
            surv == counter_survivors(sa.initial_deck_liberal as nat, sa.initial_deck_fascist as nat,
                sa.election_results@, big_p, fv, hard_confirmed_libs@, pl),
            path_libs@ == pl,
            hard_decks.actual_decks.deep_view() == all_decks(sa.initial_deck_liberal as nat, sa.initial_deck_fascist as nat).filter(
                |d: Seq<Policy>| hard_facts_hold(d, sa.election_results@, hard_confirmed_libs@)),
            rest@.len() <= all_kept.len(),
            rest@ == all_kept.subrange(all_kept.len() - rest@.len(), all_kept.len() as int),
            forall|k: int| 0 <= k < all_kept.len() ==> claims_in_range(#[trigger] all_kept[k].relevant_election_result)
                && drawn_count(all_kept[k].relevant_election_result) == dr,
            forall|i: int| 0 <= i < final_children@.len() ==> {
                let c = #[trigger] final_children@[i];
                &&& c.relative_probability.num_matching > 0
                &&& counted(*sa, big_p, fv, hard_confirmed_libs@, pl, c.relevant_election_result, c.relative_probability)
                &&& c.relative_probability.num_matching == showing(surv, off, dr, seen_blues_of(c.relevant_election_result))
            },
            distinct_claims(final_children@),
            forall|i: int| 0 <= i < final_children@.len() ==> claims_in_range(#[trigger] final_children@[i].relevant_election_result),
            forall|q: int| 0 <= q < all_kept.len() - rest@.len() ==>
                claimed_by_some(final_children@, seen_blues_of((#[trigger] all_kept[q]).relevant_election_result))
                || showing(surv, off, dr, seen_blues_of(all_kept[q].relevant_election_result)) == 0,
            (final_children@.len() > 0) == exists|i: int| 0 <= i < all_kept.len() - rest@.len()
                && #[trigger] matched(*sa, big_p, fv, hard_confirmed_libs@, pl, all_kept[i].relevant_election_result) > 0,
            forall|k: int| 0 <= k < all_kept.len() ==> conserved((#[trigger] all_kept[k]).children@) && positive_tree(all_kept[k].children@),
            children_conserved(final_children@, final_children@.len() as int),
            nodes_positive(final_children@, final_children@.len() as int),
            all == node.children@,
            all_src.len() == all_kept.len(),
            forall|k: int| 0 <= k < all_src.len() ==> 0 <= #[trigger] all_src[k] < all.len()
                && derived(all_kept[k], all[all_src[k]]),
            forall|k1: int, k2: int| 0 <= k1 < k2 < all_src.len() ==> #[trigger] all_src[k1] < #[trigger] all_src[k2],
            embedded(final_children@, all, final_children@.len() as int,
                if all_kept.len() - rest@.len() == 0 { 0 } else { all_src[all_kept.len() - rest@.len() - 1] + 1 }),
        decreases rest@.len(),
    {
        let ghost before_rest = rest@;
        let ghost q = all_kept.len() - before_rest.len();
        let mut c = rest.remove(0);
        assert(c == all_kept[q]);
        assert(rest@ =~= all_kept.subrange(all_kept.len() - rest@.len(), all_kept.len() as int));
        let rel = count_on_hard_facted(hard_decks, &sa.election_results, &child_path, &folded, &path_libs, &c.relevant_election_result);
        let c_seen = c.relevant_election_result.seen_blues();
        proof {
            let by_hypothesis = |d: Seq<Policy>| new_hypothesis_holds(d, big_p, c.relevant_election_result);
            let by_count = |d: Seq<Policy>| count_window(d, off, dr, Policy::Liberal) == seen_blues_of(c.relevant_election_result);
            assert(by_hypothesis =~= by_count);
        }
        let mut duplicate = false;
        let mut k: usize = 0;
        while k < final_children.len()
            invariant
                k <= final_children@.len(),
                forall|i: int| 0 <= i < final_children@.len() ==> claims_in_range(#[trigger] final_children@[i].relevant_election_result),
                !duplicate ==> forall|t: int| 0 <= t < k ==> seen_blues_of((#[trigger] final_children@[t]).relevant_election_result) != c_seen,
                duplicate ==> claimed_by_some(final_children@, c_seen as nat),
                c_seen == seen_blues_of(c.relevant_election_result),
            decreases final_children@.len() - k,
        {
            if final_children[k].relevant_election_result.seen_blues() == c_seen {
                duplicate = true;
                assert(seen_blues_of(final_children@[k as int].relevant_election_result) == c_seen);
            }
            k = k + 1;
        }
        let ghost before_final = final_children@;
        let ghost jprev = if q == 0 { 0 } else { all_src[q - 1] + 1 };
        proof {
            if q > 0 {
                assert(all_src[q - 1] < all_src[q]);
            }
        }
        c.relative_probability = rel;
        assert(derived(c, all[all_src[q]]));
        assert(rel.num_matching == matched(*sa, big_p, fv, hard_confirmed_libs@, pl, c.relevant_election_result));
        if rel.num_matching > 0 && !duplicate {
            proof {
                lemma_tree_push(before_final, c);
                lemma_embedded_push(before_final, c, all, jprev, all_src[q]);
            }
            final_children.push(c);
            proof {
                assert forall|i: int, j: int| 0 <= i < j < final_children@.len() implies
                    seen_blues_of((#[trigger] final_children@[i]).relevant_election_result)
                        != seen_blues_of((#[trigger] final_children@[j]).relevant_election_result) by {
                    if j == final_children@.len() - 1 {
                        assert(final_children@[i] == before_final[i]);
                    } else {
                        assert(final_children@[i] == before_final[i]);
                        assert(final_children@[j] == before_final[j]);
                    }
                }
            }
        }
        proof {
            assert(c.relative_probability.num_matching == showing(surv, off, dr, seen_blues_of(c.relevant_election_result)));
            if final_children@.len() == before_final.len() {
                lemma_embedded_mono(final_children@, all, final_children@.len() as int, jprev, all_src[q] + 1);
            }
            assert forall|q2: int| 0 <= q2 < all_kept.len() - rest@.len() implies
                claimed_by_some(final_children@, seen_blues_of((#[trigger] all_kept[q2]).relevant_election_result))
                || showing(surv, off, dr, seen_blues_of(all_kept[q2].relevant_election_result)) == 0 by {
                let v = seen_blues_of(all_kept[q2].relevant_election_result);
                if final_children@.len() > before_final.len() {
                    assert(final_children@ == before_final.push(c));
                    if q2 < q {
                        if claimed_by_some(before_final, v) {
                            lemma_claimed_push_keeps(before_final, c, v);
                        }
                    } else {
                        assert(final_children@[before_final.len() as int] == c);
                    }
                } else {
                    assert(final_children@ == before_final);
                }
            }
        }
    }
    proof {
        let ke = kept_ers(*sa, *s, hard_confirmed_libs@, child_path@, cfv, all, depth + 1, all.len() as int);
        assert(ke == all_kept.map_values(|c: TreeNode| c.relevant_election_result));
        assert(kept_needs.deep_view() == kept_sets(*sa, *s, hard_confirmed_libs@, child_path@, cfv, all, depth + 1, all.len() as int));
        assert(fv == fold_sets(kept_needs.deep_view())->Some_0);
        if some_matched(*sa, big_p, fv, hard_confirmed_libs@, pl, ke) {
            let i = choose|i: int| 0 <= i < ke.len() && #[trigger] matched(*sa, big_p, fv, hard_confirmed_libs@, pl, ke[i]) > 0;
            assert(ke[i] == all_kept[i].relevant_election_result);
        }
        if final_children@.len() > 0 {
            let i = choose|i: int| 0 <= i < all_kept.len()
                && #[trigger] matched(*sa, big_p, fv, hard_confirmed_libs@, pl, all_kept[i].relevant_election_result) > 0;
            assert(ke[i] == all_kept[i].relevant_election_result);
        }
    }
    if final_children.len() == 0 {
        return None;
    }
    proof {
        lemma_node_conserves(sa, surv, fv, final_children@, all_kept, kept_needs.deep_view(), off, dr, depth as int,
            big_p, hard_confirmed_libs@, pl);
        assert forall|i: int| 0 <= i < final_children@.len() implies (#[trigger] final_children@[i]).relative_probability.num_checked
            == surv.len() by {
            assert(counted(*sa, big_p, fv, hard_confirmed_libs@, pl, final_children@[i].relevant_election_result,
                final_children@[i].relative_probability));
        }
        lemma_max_checked_shared(final_children@, surv.len());
    }
    proof {
        let last = all_kept.len() - 1;
        if all_kept.len() > 0 {
            lemma_embedded_mono(final_children@, all, final_children@.len() as int, all_src[last] + 1, all.len() as int);
        }
    }
    let mut out_sets = folded;
    let mut own: Vec<usize> = Vec::new();
    own.push(seen);
    assert(own@ =~= seq![seen]);
    assert(own.deep_view() =~= own@);
    assert(out_sets@.len() == out_sets.deep_view().len());
    out_sets.set(depth, Some(own));
    proof {
        let ov = out_sets.deep_view();
        assert(ov =~= fv.update(depth as int, Some(seq![seen])));
        assert(ov.update(depth as int, None) =~= fv);
        assert(seen_blues_of(relevant_election_result) as usize == seen);
    }
    Some((TreeNode { relative_probability, original_claimed_blues, relevant_election_result, children: final_children }, out_sets))
}

/// The players known to be liberal at the start of a shuffle, or none where
/// no assignment agrees with what is known.
pub open spec fn root_hard_libs(s: PlayerState) -> Seq<PlayerID> {
    if path_consistent(s, seq![]) { confirmed_liberals_spec(s, seq![]) } else { seq![] }
}

/// Each root's probability is the counter's answer at the start of the
/// shuffle, under the given allowed counts and known liberals, and the roots'
/// matching counts add up to the decks that survive there.
pub open spec fn roots_counted(sa: ShuffleAnalysis, roots: Seq<TreeNode>, hard: Seq<PlayerID>, sets: Seq<Option<Seq<usize>>>) -> bool {
    &&& forall|i: int| 0 <= i < roots.len() ==> counted(sa, seq![], sets, hard, seq![],
        (#[trigger] roots[i]).relevant_election_result, roots[i].relative_probability)
    &&& sum_matching(roots) == counter_survivors(sa.initial_deck_liberal as nat, sa.initial_deck_fascist as nat,
        sa.election_results@, seq![], sets, hard, seq![]).len()
    &&& sum_matching(roots) == max_checked(roots)
}

/// Annotates each tree of a shuffle with relative probabilities; the roots
/// are counted at the start of the shuffle, restricted to the liberal counts
/// that some surviving branch needs. Without any surviving branch there is
/// no tree.
pub fn annotate_trees_relative(trees: Vec<TreeNode>, sa: &ShuffleAnalysis, s: &PlayerState) -> (r: Vec<TreeNode>)
    requires
        s.well_formed(),
        shuffle_fits(*sa),
    ensures
        r@.len() <= trees@.len(),
        r@.len() > 0 ==> exists|hard: Seq<PlayerID>, sets: Seq<Option<Seq<usize>>>| #[trigger] roots_counted(*sa, r@, hard, sets),
        ({
            let hl = root_hard_libs(*s);
            let ks = kept_sets(*sa, *s, hl, seq![], seq![], trees@, 0, trees@.len() as int);
            let ke = kept_ers(*sa, *s, hl, seq![], seq![], trees@, 0, trees@.len() as int);
            &&& (r@.len() > 0) == (ks.len() > 0 && some_matched(*sa, seq![], fold_sets(ks)->Some_0, hl, seq![], ke))
            &&& forall|i: int| 0 <= i < r@.len() ==> ke.contains((#[trigger] r@[i]).relevant_election_result)
        }),
        conserved(r@),
        positive_tree(r@),
        embedded(r@, trees@, r@.len() as int, trees@.len() as int),
{
    let no_facts: Vec<Information> = Vec::new();
    let hard_confirmed_libs = match confirmed_liberals(s, &no_facts) {
        Some(v) => v,
        None => Vec::new(),
    };
    let no_path: Vec<ElectionResult> = Vec::new();
    assert(entries_fit(no_path@));
    assert(no_facts.deep_view() =~= seq![]);
    assert(no_path@ =~= seq![]);
    assert(hard_confirmed_libs@ == root_hard_libs(*s));
    let ghost hl = root_hard_libs(*s);
    let hard_decks = hard_facted_complex_card_counter(sa.initial_deck_liberal, sa.initial_deck_fascist,
        &sa.election_results, &hard_confirmed_libs);
    let ghost all = trees@;
    assert(trees@.subrange(0, trees@.len() as int) =~= trees@);
    let mut rest = trees;
    let mut roots: Vec<TreeNode> = Vec::new();
    let mut sets: Vec<Vec<Option<Vec<usize>>>> = Vec::new();
    let ghost mut src: Seq<int> = seq![];
    while rest.len() > 0
        invariant
            s.well_formed(),
            shuffle_fits(*sa),
            no_path@.len() == 0,
            entries_fit(no_path@),
            rest@.len() <= all.len(),
            roots@.len() + rest@.len() <= all.len(),
            rest@ == all.subrange(all.len() - rest@.len(), all.len() as int),
            roots@.len() == sets@.len(),
            hl == hard_confirmed_libs@,
            no_facts.deep_view() == Seq::<InformationView>::empty(),
            no_path@ == Seq::<ElectionResult>::empty(),
            sets.deep_view() == kept_sets(*sa, *s, hl, seq![], seq![], all, 0, all.len() - rest@.len()),
            roots@.map_values(|c: TreeNode| c.relevant_election_result) == kept_ers(*sa, *s, hl, seq![], seq![],
                all, 0, all.len() - rest@.len()),
            forall|k: int| 0 <= k < roots@.len() ==> conserved((#[trigger] roots@[k]).children@) && positive_tree(roots@[k].children@),
            src.len() == roots@.len(),
            forall|k: int| 0 <= k < src.len() ==> 0 <= #[trigger] src[k] < all.len() - rest@.len()
                && derived(roots@[k], all[src[k]]),
            forall|k1: int, k2: int| 0 <= k1 < k2 < src.len() ==> #[trigger] src[k1] < #[trigger] src[k2],
            hard_decks.actual_decks.deep_view() == all_decks(sa.initial_deck_liberal as nat, sa.initial_deck_fascist as nat).filter(
                |d: Seq<Policy>| hard_facts_hold(d, sa.election_results@, hard_confirmed_libs@)),
            forall|k: int| 0 <= k < sets@.len() ==> {
                let sv = #[trigger] sets@[k].deep_view();
                &&& sv.len() > 0
                &&& sv[0] == Some(seq![seen_blues_of(roots@[k].relevant_election_result) as usize])
            },
            forall|k: int| 0 <= k < roots@.len() ==> claims_in_range(#[trigger] roots@[k].relevant_election_result)
                && 0 < sa.election_results@.len()
                && drawn_count(roots@[k].relevant_election_result) == drawn_count(sa.election_results@[0]),
        decreases rest@.len(),
    {
        let ghost before_rest = rest@;
        let ghost pos = all.len() - before_rest.len();
        let t = rest.remove(0);
        assert(t == all[pos]);
        assert(rest@ =~= all.subrange(all.len() - rest@.len(), all.len() as int));
        let ghost before_roots = roots@;
        let ghost before_sets = sets.deep_view();
        match annotate_trees_relative_recursive(sa, s, &hard_confirmed_libs, &hard_decks, &no_path, &no_facts, t, 0) {
            Some((m, v)) => {
                roots.push(m);
                proof {
                    src = src.push(pos);
                }
                let ghost vv = v.deep_view();
                sets.push(v);
                assert(sets.deep_view() =~= before_sets.push(vv));
                assert(roots@.map_values(|c: TreeNode| c.relevant_election_result)
                    =~= before_roots.map_values(|c: TreeNode| c.relevant_election_result).push(m.relevant_election_result));
                assert forall|k: int| 0 <= k < roots@.len() implies conserved((#[trigger] roots@[k]).children@)
                    && positive_tree(roots@[k].children@) by {
                    if k < before_roots.len() {
                        assert(roots@[k] == before_roots[k]);
                    }
                }
                assert forall|k: int| 0 <= k < src.len() implies 0 <= #[trigger] src[k] < all.len() - rest@.len()
                    && derived(roots@[k], all[src[k]]) by {
                    if k < before_roots.len() {
                        assert(roots@[k] == before_roots[k]);
                    }
                }
            },
            None => {},
        }
        assert(sets.deep_view() =~= kept_sets(*sa, *s, hl, seq![], seq![], all, 0, pos + 1));
        assert(roots@.map_values(|c: TreeNode| c.relevant_election_result) =~= kept_ers(*sa, *s, hl, seq![], seq![], all, 0, pos + 1));
    }
    let follow_on_card_constraints = match fold_children_legal_draws(&sets) {
        None => {
            let r: Vec<TreeNode> = Vec::new();
            proof {
                lemma_empty_tree(r@);
                lemma_embedded_empty(r@, all);
            }
            return r;
        },
        Some(f) => f,
    };
    let ghost fv = follow_on_card_constraints.deep_view();
    let ghost big_p: Seq<ElectionResult> = seq![];
    let ghost surv = counter_survivors(sa.initial_deck_liberal as nat, sa.initial_deck_fascist as nat,
        sa.election_results@, big_p, fv, hard_confirmed_libs@, seq![]);
    let ghost off: int = 0;
    let ghost dr = drawn_count(sa.election_results@[0]) as int;
    assert(no_path@ =~= big_p);
    let ghost all_roots = roots@;
    let ghost all_src = src;
    let ghost ke = kept_ers(*sa, *s, hl, seq![], seq![], all, 0, all.len() as int);
    assert(ke == all_roots.map_values(|c: TreeNode| c.relevant_election_result));
    assert(sets.deep_view() == kept_sets(*sa, *s, hl, seq![], seq![], all, 0, all.len() as int));
    assert(roots@.subrange(0, roots@.len() as int) =~= roots@);
    let mut rest = roots;
    let mut out: Vec<TreeNode> = Vec::new();
    while rest.len() > 0
        invariant
            shuffle_fits(*sa),
            no_path@ == big_p,
            big_p.len() == 0,
            entries_fit(no_path@),
            0 < sa.election_results@.len() || all_roots.len() == 0,
            off == offset_before(big_p, 0),
            dr == drawn_count(sa.election_results@[0]),
            fv == follow_on_card_constraints.deep_view(),
            surv == counter_survivors(sa.initial_deck_liberal as nat, sa.initial_deck_fascist as nat,
                sa.election_results@, big_p, fv, hard_confirmed_libs@, seq![]),
            hard_decks.actual_decks.deep_view() == all_decks(sa.initial_deck_liberal as nat, sa.initial_deck_fascist as nat).filter(
                |d: Seq<Policy>| hard_facts_hold(d, sa.election_results@, hard_confirmed_libs@)),
            rest@.len() <= all_roots.len(),
            out@.len() + rest@.len() <= all_roots.len(),
            all_roots.len() <= all.len(),
            rest@ == all_roots.subrange(all_roots.len() - rest@.len(), all_roots.len() as int),
            forall|k: int| 0 <= k < all_roots.len() ==> claims_in_range(#[trigger] all_roots[k].relevant_election_result)
                && drawn_count(all_roots[k].relevant_election_result) == dr,
            forall|i: int| 0 <= i < out@.len() ==> {
                let c = #[trigger] out@[i];
                &&& counted(*sa, seq![], fv, hard_confirmed_libs@, seq![], c.relevant_election_result, c.relative_probability)
                &&& c.relative_probability.num_matching == showing(surv, off, dr, seen_blues_of(c.relevant_election_result))
            },
            distinct_claims(out@),
            forall|i: int| 0 <= i < out@.len() ==> claims_in_range(#[trigger] out@[i].relevant_election_result),
            forall|q: int| 0 <= q < all_roots.len() - rest@.len() ==>
                claimed_by_some(out@, seen_blues_of((#[trigger] all_roots[q]).relevant_election_result))
                || showing(surv, off, dr, seen_blues_of(all_roots[q].relevant_election_result)) == 0,
            hl == hard_confirmed_libs@,
            ke == all_roots.map_values(|c: TreeNode| c.relevant_election_result),
            (out@.len() > 0) == exists|i: int| 0 <= i < all_roots.len() - rest@.len()
                && #[trigger] matched(*sa, big_p, fv, hl, seq![], all_roots[i].relevant_election_result) > 0,
            forall|k: int| 0 <= k < all_roots.len() ==> conserved((#[trigger] all_roots[k]).children@) && positive_tree(all_roots[k].children@),
            children_conserved(out@, out@.len() as int),
            nodes_positive(out@, out@.len() as int),
            forall|i: int| 0 <= i < out@.len() ==> ke.contains((#[trigger] out@[i]).relevant_election_result),
            all_src.len() == all_roots.len(),
            forall|k: int| 0 <= k < all_src.len() ==> 0 <= #[trigger] all_src[k] < all.len()
                && derived(all_roots[k], all[all_src[k]]),
            forall|k1: int, k2: int| 0 <= k1 < k2 < all_src.len() ==> #[trigger] all_src[k1] < #[trigger] all_src[k2],
            embedded(out@, all, out@.len() as int,
                if all_roots.len() - rest@.len() == 0 { 0 } else { all_src[all_roots.len() - rest@.len() - 1] + 1 }),
        decreases rest@.len(),
    {
        let ghost before_rest = rest@;
        let ghost q = all_roots.len() - before_rest.len();
        let mut c = rest.remove(0);
        assert(c == all_roots[q]);
        assert(rest@ =~= all_roots.subrange(all_roots.len() - rest@.len(), all_roots.len() as int));
        let no_libs: Vec<PlayerID> = Vec::new();
        assert(no_libs@ =~= seq![]);
        c.relative_probability = count_on_hard_facted(&hard_decks, &sa.election_results, &no_path,
            &follow_on_card_constraints, &no_libs, &c.relevant_election_result);
        proof {
            let by_hypothesis = |d: Seq<Policy>| new_hypothesis_holds(d, big_p, c.relevant_election_result);
            let by_count = |d: Seq<Policy>| count_window(d, off, dr, Policy::Liberal) == seen_blues_of(c.relevant_election_result);
            assert(by_hypothesis =~= by_count);
            assert(big_p =~= seq![]);
            assert(no_libs@ =~= seq![]);
            assert(counted(*sa, seq![], fv, hard_confirmed_libs@, seq![], c.relevant_election_result, c.relative_probability));
            assert(c.relative_probability.num_matching == showing(surv, off, dr, seen_blues_of(c.relevant_election_result)));
            assert(c.relative_probability.num_matching == matched(*sa, big_p, fv, hl, seq![], c.relevant_election_result));
        }
        let c_seen = c.relevant_election_result.seen_blues();
        let mut duplicate = false;
        let mut k: usize = 0;
        while k < out.len()
            invariant
                k <= out@.len(),
                forall|i: int| 0 <= i < out@.len() ==> claims_in_range(#[trigger] out@[i].relevant_election_result),
                !duplicate ==> forall|t: int| 0 <= t < k ==> seen_blues_of((#[trigger] out@[t]).relevant_election_result) != c_seen,
                duplicate ==> claimed_by_some(out@, c_seen as nat),
                c_seen == seen_blues_of(c.relevant_election_result),
            decreases out@.len() - k,
        {
            if out[k].relevant_election_result.seen_blues() == c_seen {
                duplicate = true;
                assert(seen_blues_of(out@[k as int].relevant_election_result) == c_seen);
            }
            k = k + 1;
        }
        let ghost before_out = out@;
        let ghost jprev = if q == 0 { 0 } else { all_src[q - 1] + 1 };
        proof {
            if q > 0 {
                assert(all_src[q - 1] < all_src[q]);
            }
        }
        assert(derived(c, all[all_src[q]]));
        if c.relative_probability.num_matching > 0 && !duplicate {
            proof {
                lemma_tree_push(before_out, c);
                lemma_embedded_push(before_out, c, all, jprev, all_src[q]);
            }
            out.push(c);
            proof {
                assert forall|i: int, j: int| 0 <= i < j < out@.len() implies
                    seen_blues_of((#[trigger] out@[i]).relevant_election_result)
                        != seen_blues_of((#[trigger] out@[j]).relevant_election_result) by {
                    assert(out@[i] == before_out[i]);
                    if j < out@.len() - 1 {
                        assert(out@[j] == before_out[j]);
                    }
                }
            }
        }
        proof {
            assert forall|q2: int| 0 <= q2 < all_roots.len() - rest@.len() implies
                claimed_by_some(out@, seen_blues_of((#[trigger] all_roots[q2]).relevant_election_result))
                || showing(surv, off, dr, seen_blues_of(all_roots[q2].relevant_election_result)) == 0 by {
                let v = seen_blues_of(all_roots[q2].relevant_election_result);
                if out@.len() > before_out.len() {
                    assert(out@ == before_out.push(c));
                    if q2 < q {
                        if claimed_by_some(before_out, v) {
                            lemma_claimed_push_keeps(before_out, c, v);
                        }
                    } else {
                        assert(out@[before_out.len() as int] == c);
                    }
                } else {
                    assert(out@ == before_out);
                }
            }
            if out@.len() == before_out.len() {
                lemma_embedded_mono(out@, all, out@.len() as int, jprev, all_src[q] + 1);
            }
            assert forall|i: int| 0 <= i < out@.len() implies ke.contains((#[trigger] out@[i]).relevant_election_result) by {
                if i < before_out.len() {
                    assert(out@[i] == before_out[i]);
                } else {
                    assert(ke[q] == all_roots[q].relevant_election_result);
                }
            }
        }
    }
    proof {
        if all_roots.len() > 0 {
            lemma_embedded_mono(out@, all, out@.len() as int, all_src[all_roots.len() - 1] + 1, all.len() as int);
        }
        assert(fv == fold_sets(sets.deep_view())->Some_0);
        if some_matched(*sa, seq![], fv, hl, seq![], ke) {
            let i = choose|i: int| 0 <= i < ke.len() && #[trigger] matched(*sa, seq![], fv, hl, seq![], ke[i]) > 0;
            assert(ke[i] == all_roots[i].relevant_election_result);
            assert(big_p =~= seq![]);
        }
        if out@.len() > 0 {
            let i = choose|i: int| 0 <= i < all_roots.len()
                && #[trigger] matched(*sa, big_p, fv, hl, seq![], all_roots[i].relevant_election_result) > 0;
            assert(ke[i] == all_roots[i].relevant_election_result);
            assert(big_p =~= seq![]);
        } else {
            lemma_empty_tree(out@);
        }
        if out@.len() > 0 {
            assert(sets.deep_view().len() == all_roots.len());
            assert forall|k: int| 0 <= k < sets.deep_view().len() implies (#[trigger] sets.deep_view()[k]).len() > -1 + 1
                && sets.deep_view()[k][-1 + 1] == Some(seq![seen_blues_of(all_roots[k].relevant_election_result) as usize]) by {
                assert(sets.deep_view()[k] == sets@[k].deep_view());
            }
            lemma_node_conserves(sa, surv, fv, out@, all_roots, sets.deep_view(), off, dr, -1,
                big_p, hard_confirmed_libs@, seq![]);
            assert(big_p =~= seq![]);
            assert forall|i: int| 0 <= i < out@.len() implies (#[trigger] out@[i]).relative_probability.num_checked
                == surv.len() by {
                assert(counted(*sa, seq![], fv, hard_confirmed_libs@, seq![], out@[i].relevant_election_result,
                    out@[i].relative_probability));
            }
            lemma_max_checked_shared(out@, surv.len());
            assert(roots_counted(*sa, out@, hard_confirmed_libs@, fv));
        }
    }
    out
}

/// The tree of a shuffle: its roots are counted against the shuffle's deck
/// and add up to the decks that survive there; every children list below
/// conserves probability and every node matches some deck.
pub open spec fn tree_of_shuffle(t: ShuffleTree, cfg: crate::game_configuration::GameConfiguration,
    govs: Seq<ElectionResult>, a: int, b: int) -> bool {
    &&& exists|sa: ShuffleAnalysis| #[trigger] shuffle_matches(sa, cfg, govs, a, b) && (t.roots@.len() > 0 ==>
        exists|hard: Seq<PlayerID>, sets: Seq<Option<Seq<usize>>>| #[trigger] roots_counted(sa, t.roots@, hard, sets))
    &&& conserved(t.roots@)
    &&& positive_tree(t.roots@)
}

/// The entries of the first `k` of `trees` some of whose paths stay consistent.
pub open spec fn surviving_roots(s: PlayerState, trees: Seq<TreeNode>, k: int) -> Seq<ElectionResult>
    decreases if k > 0 { k } else { 0 },
{
    if k <= 0 || k > trees.len() {
        seq![]
    } else {
        surviving_roots(s, trees, k - 1) + (if path_survives(s, seq![], trees[k - 1]) {
            seq![trees[k - 1].relevant_election_result]
        } else {
            seq![]
        })
    }
}

/// The roots of a shuffle's tree come from annotating `consistent`, the
/// consistent paths of the generated tree `generated_roots` of the shuffle
/// `sa`: there are roots exactly when some of them matches a deck.
pub open spec fn built_from(s: PlayerState, t: ShuffleTree, sa: ShuffleAnalysis, generated_roots: Seq<TreeNode>,
    consistent: Seq<TreeNode>) -> bool {
    let hl = root_hard_libs(s);
    let ks = kept_sets(sa, s, hl, seq![], seq![], consistent, 0, consistent.len() as int);
    let ke = kept_ers(sa, s, hl, seq![], seq![], consistent, 0, consistent.len() as int);
    &&& generated(generated_roots, sa.election_results@, 0)
    &&& embedded(consistent, generated_roots, consistent.len() as int, generated_roots.len() as int)
    &&& embedded(t.roots@, consistent, t.roots@.len() as int, consistent.len() as int)
    &&& consistent.map_values(|c: TreeNode| c.relevant_election_result)
        == surviving_roots(s, generated_roots, generated_roots.len() as int)
    &&& (t.roots@.len() > 0) == (ks.len() > 0 && some_matched(sa, seq![], fold_sets(ks)->Some_0, hl, seq![], ke))
    &&& forall|i: int| 0 <= i < t.roots@.len() ==> ke.contains((#[trigger] t.roots@[i]).relevant_election_result)
}

pub open spec fn built_witness(s: PlayerState, t: ShuffleTree, a: int, b: int, sa: ShuffleAnalysis,
    generated_roots: Seq<TreeNode>, consistent: Seq<TreeNode>) -> bool {
    shuffle_matches(sa, s.table_configuration, s.governments@, a, b) && built_from(s, t, sa, generated_roots, consistent)
}

/// The tree of the shuffle of entries `a..b` is built from its generated and
/// filtered trees.
pub open spec fn tree_built(s: PlayerState, t: ShuffleTree, a: int, b: int) -> bool {
    exists|sa: ShuffleAnalysis, g: Seq<TreeNode>, c: Seq<TreeNode>| #[trigger] built_witness(s, t, a, b, sa, g, c)
}

/// The annotated claim trees of one shuffle.
#[derive(Debug)]
pub struct ShuffleTree {
    pub shuffle_index: usize,
    pub roots: Vec<TreeNode>,
}

/// For each shuffle of the history, the tree of true claims that stay
/// logically consistent and that some deck allows, with relative
/// probabilities.
pub fn generate_probability_forest(s: &PlayerState) -> (r: Vec<ShuffleTree>)
    requires
        s.well_formed(),
    ensures
        r@.len() == shuffle_bounds(s.governments@).len(),
        forall|k: int| 0 <= k < r@.len() ==> (#[trigger] r@[k]).shuffle_index
            == shuffle_of(s.governments@[shuffle_bounds(s.governments@)[k].0]),
        forall|k: int| 0 <= k < r@.len() ==> tree_of_shuffle(#[trigger] r@[k], s.table_configuration, s.governments@,
            shuffle_bounds(s.governments@)[k].0, shuffle_bounds(s.governments@)[k].1),
        forall|k: int| 0 <= k < r@.len() ==> tree_built(*s, #[trigger] r@[k], shuffle_bounds(s.governments@)[k].0,
            shuffle_bounds(s.governments@)[k].1),
{
    proof {
        lemma_history_claims(s.governments@);
    }
    let shuffles = shuffle_election_results(&s.table_configuration, &s.governments);
    let ghost bounds = shuffle_bounds(s.governments@);
    let mut out: Vec<ShuffleTree> = Vec::new();
    let mut k: usize = 0;
    while k < shuffles.len()
        invariant
            s.well_formed(),
            all_claims_in_range(s.governments@),
            bounds == shuffle_bounds(s.governments@),
            shuffles@.len() == bounds.len(),
            forall|j: int| 0 <= j < shuffles@.len() ==> shuffle_matches(#[trigger] shuffles@[j], s.table_configuration,
                s.governments@, bounds[j].0, bounds[j].1),
            k <= shuffles@.len(),
            out@.len() == k,
            forall|j: int| 0 <= j < k ==> (#[trigger] out@[j]).shuffle_index == shuffle_of(s.governments@[bounds[j].0]),
            forall|j: int| 0 <= j < k ==> tree_of_shuffle(#[trigger] out@[j], s.table_configuration, s.governments@,
                bounds[j].0, bounds[j].1),
            forall|j: int| 0 <= j < k ==> tree_built(*s, #[trigger] out@[j], bounds[j].0, bounds[j].1),
        decreases shuffles@.len() - k,
    {
        let sa = &shuffles[k];
        proof {
            assert(shuffle_matches(shuffles@[k as int], s.table_configuration, s.governments@, bounds[k as int].0, bounds[k as int].1));
            lemma_bounds_in_range(s.governments@, k as int);
            let (a, b) = bounds[k as int];
            assert forall|t: int| 0 <= t < sa.election_results@.len() implies #[trigger] claims_in_range(sa.election_results@[t]) by {
                assert(sa.election_results@[t] == s.governments@[a + t]);
            }
        }
        let trees = recursively_generate_tree(&sa.election_results, 0);
        let no_facts: Vec<Information> = Vec::new();
        assert(no_facts.deep_view() =~= seq![]);
        let ghost all = trees@;
        assert(trees@.subrange(0, trees@.len() as int) =~= trees@);
        let mut rest = trees;
        let mut consistent: Vec<TreeNode> = Vec::new();
        assert(consistent@.map_values(|c: TreeNode| c.relevant_election_result) =~= surviving_roots(*s, all, 0));
        while rest.len() > 0
            invariant
                s.well_formed(),
                no_facts.deep_view() == Seq::<InformationView>::empty(),
                rest@.len() <= all.len(),
                rest@ == all.subrange(all.len() - rest@.len(), all.len() as int),
                consistent@.map_values(|c: TreeNode| c.relevant_election_result)
                    == surviving_roots(*s, all, all.len() - rest@.len()),
                embedded(consistent@, all, consistent@.len() as int, all.len() - rest@.len()),
            decreases rest@.len(),
        {
            let ghost before_rest = rest@;
            let ghost pos = all.len() - before_rest.len();
            let t = rest.remove(0);
            assert(t == all[pos]);
            assert(rest@ =~= all.subrange(all.len() - rest@.len(), all.len() as int));
            let ghost before_c = consistent@;
            match filter_paths_recursive(s, &no_facts, t) {
                Some(m) => {
                    proof {
                        lemma_embedded_push(before_c, m, all, pos, pos);
                    }
                    consistent.push(m);
                    assert(consistent@.map_values(|c: TreeNode| c.relevant_election_result)
                        =~= before_c.map_values(|c: TreeNode| c.relevant_election_result).push(m.relevant_election_result));
                },
                None => {},
            }
            assert(consistent@.map_values(|c: TreeNode| c.relevant_election_result) =~= surviving_roots(*s, all, pos + 1));
            proof {
                if consistent@.len() == before_c.len() {
                    lemma_embedded_mono(consistent@, all, consistent@.len() as int, pos, pos + 1);
                }
            }
        }
        let ghost cons = consistent@;
        let roots = annotate_trees_relative(consistent, sa, s);
        let ghost before = out@;
        let t = ShuffleTree { shuffle_index: sa.shuffle_index, roots };
        assert(tree_of_shuffle(t, s.table_configuration, s.governments@, bounds[k as int].0, bounds[k as int].1)) by {
            assert(shuffle_matches(*sa, s.table_configuration, s.governments@, bounds[k as int].0, bounds[k as int].1));
        }
        assert(built_from(*s, t, *sa, all, cons));
        out.push(t);
        assert forall|j: int| 0 <= j < k + 1 implies tree_of_shuffle(#[trigger] out@[j], s.table_configuration, s.governments@,
            bounds[j].0, bounds[j].1) by {
            if j < k {
                assert(out@[j] == before[j]);
            }
        }
        assert forall|j: int| 0 <= j < k + 1 implies tree_built(*s, #[trigger] out@[j], bounds[j].0, bounds[j].1) by {
            if j < k {
                assert(out@[j] == before[j]);
            } else {
                assert(out@[j] == t);
                assert(built_witness(*s, t, bounds[j].0, bounds[j].1, *sa, all, cons));
            }
        }
        k = k + 1;
    }
    out
}

/// Where two histories draw the same number of cards at each of their first
/// `n` entries, entry `n` starts at the same offset.
pub proof fn lemma_offset_same_draws(p: Seq<ElectionResult>, e: Seq<ElectionResult>, n: int)
    requires
        0 <= n <= p.len(),
        n <= e.len(),
        forall|i: int| 0 <= i < n ==> drawn_count(#[trigger] p[i]) == drawn_count(e[i]),
    ensures
        offset_before(p, n) == offset_before(e, n),
    decreases n,
{
    if n > 0 {
        lemma_offset_same_draws(p, e, n - 1);
    }
}

/// Where every input has a set at `j`, the fold has one, holding exactly the
/// values of the inputs' sets.
pub proof fn lemma_fold_member(sets: Seq<Seq<Option<Seq<usize>>>>, j: int)
    requires
        sets.len() > 0,
        0 <= j,
        forall|k: int| 0 <= k < sets.len() ==> j < (#[trigger] sets[k]).len() && sets[k][j] is Some,
    ensures
        j < fold_sets(sets)->Some_0.len(),
        fold_sets(sets)->Some_0[j] is Some,
        forall|x: usize| fold_sets(sets)->Some_0[j]->Some_0.contains(x) <==> exists|k: int| 0 <= k < sets.len()
            && (#[trigger] sets[k])[j]->Some_0.contains(x),
    decreases sets.len(),
{
    if sets.len() == 1 {
        assert forall|x: usize| fold_sets(sets)->Some_0[j]->Some_0.contains(x) <==> exists|k: int| 0 <= k < sets.len()
            && (#[trigger] sets[k])[j]->Some_0.contains(x) by {
            if fold_sets(sets)->Some_0[j]->Some_0.contains(x) {
                assert(sets[0][j]->Some_0.contains(x));
            }
        }
    } else {
        let rest = sets.drop_last();
        lemma_fold_member(rest, j);
        assert forall|k: int| 0 <= k < rest.len() implies j < (#[trigger] rest[k]).len() && rest[k][j] is Some by {
            assert(rest[k] == sets[k]);
        }
        let a = fold_sets(rest)->Some_0[j]->Some_0;
        let b = sets.last()[j]->Some_0;
        assert(fold_sets(sets)->Some_0[j] == Some(a + b));
        assert forall|x: usize| fold_sets(sets)->Some_0[j]->Some_0.contains(x) <==> exists|k: int| 0 <= k < sets.len()
            && (#[trigger] sets[k])[j]->Some_0.contains(x) by {
            if (a + b).contains(x) {
                let t = choose|t: int| 0 <= t < (a + b).len() && (a + b)[t] == x;
                if t < a.len() {
                    assert(a[t] == x);
                    assert(a.contains(x));
                    let k = choose|k: int| 0 <= k < rest.len() && (#[trigger] rest[k])[j]->Some_0.contains(x);
                    assert(rest[k] == sets[k]);
                } else {
                    assert(b[t - a.len()] == x);
                    assert(sets[sets.len() - 1][j]->Some_0.contains(x));
                }
            }
            if exists|k: int| 0 <= k < sets.len() && (#[trigger] sets[k])[j]->Some_0.contains(x) {
                let k = choose|k: int| 0 <= k < sets.len() && (#[trigger] sets[k])[j]->Some_0.contains(x);
                if k < sets.len() - 1 {
                    assert(rest[k] == sets[k]);
                    assert(a.contains(x));
                    let t = choose|t: int| 0 <= t < a.len() && a[t] == x;
                    assert((a + b)[t] == x);
                } else {
                    let t = choose|t: int| 0 <= t < b.len() && b[t] == x;
                    assert((a + b)[a.len() + t] == x);
                }
            }
        }
    }
}

/// The decks of `s` that show `v` liberal cards in the window.
pub open spec fn showing(s: Seq<Seq<Policy>>, off: int, dr: int, v: nat) -> nat {
    s.filter(|d: Seq<Policy>| count_window(d, off, dr, Policy::Liberal) == v).len()
}

/// Over `children`, the decks of `s` that show each child's count.
pub open spec fn sum_showing(s: Seq<Seq<Policy>>, children: Seq<TreeNode>, off: int, dr: int) -> nat
    decreases children.len(),
{
    if children.len() == 0 {
        0
    } else {
        sum_showing(s, children.drop_last(), off, dr) + showing(s, off, dr, seen_blues_of(children.last().relevant_election_result))
    }
}

/// How many of `children` expect the count `v`.
pub open spec fn hits(children: Seq<TreeNode>, v: nat) -> nat
    decreases children.len(),
{
    if children.len() == 0 {
        0
    } else {
        hits(children.drop_last(), v) + (if seen_blues_of(children.last().relevant_election_result) == v { 1nat } else { 0nat })
    }
}

pub open spec fn distinct_claims(children: Seq<TreeNode>) -> bool {
    forall|i: int, j: int| 0 <= i < j < children.len() ==> seen_blues_of((#[trigger] children[i]).relevant_election_result)
        != seen_blues_of((#[trigger] children[j]).relevant_election_result)
}

proof fn lemma_hits_one(children: Seq<TreeNode>, v: nat)
    requires
        distinct_claims(children),
    ensures
        hits(children, v) <= 1,
        (exists|i: int| 0 <= i < children.len() && seen_blues_of((#[trigger] children[i]).relevant_election_result) == v)
            ==> hits(children, v) == 1,
    decreases children.len(),
{
    if children.len() > 0 {
        let rest = children.drop_last();
        assert(distinct_claims(rest)) by {
            assert forall|i: int, j: int| 0 <= i < j < rest.len() implies seen_blues_of((#[trigger] rest[i]).relevant_election_result)
                != seen_blues_of((#[trigger] rest[j]).relevant_election_result) by {
                assert(rest[i] == children[i]);
                assert(rest[j] == children[j]);
            }
        }
        lemma_hits_one(rest, v);
        if seen_blues_of(children.last().relevant_election_result) == v {
            if hits(rest, v) > 0 {
                lemma_hits_witness(rest, v);
                let i = choose|i: int| 0 <= i < rest.len() && seen_blues_of((#[trigger] rest[i]).relevant_election_result) == v;
                assert(rest[i] == children[i]);
                assert(false);
            }
        } else {
            if exists|i: int| 0 <= i < children.len() && seen_blues_of((#[trigger] children[i]).relevant_election_result) == v {
                let i = choose|i: int| 0 <= i < children.len() && seen_blues_of((#[trigger] children[i]).relevant_election_result) == v;
                assert(i < children.len() - 1);
                assert(rest[i] == children[i]);
            }
        }
    }
}

proof fn lemma_hits_witness(children: Seq<TreeNode>, v: nat)
    requires
        hits(children, v) > 0,
    ensures
        exists|i: int| 0 <= i < children.len() && seen_blues_of((#[trigger] children[i]).relevant_election_result) == v,
    decreases children.len(),
{
    if children.len() > 0 {
        let rest = children.drop_last();
        if seen_blues_of(children.last().relevant_election_result) != v {
            lemma_hits_witness(rest, v);
            let i = choose|i: int| 0 <= i < rest.len() && seen_blues_of((#[trigger] rest[i]).relevant_election_result) == v;
            assert(rest[i] == children[i]);
        } else {
            assert(seen_blues_of(children[children.len() - 1].relevant_election_result) == v);
        }
    }
}

proof fn lemma_sum_showing_push(s: Seq<Seq<Policy>>, x: Seq<Policy>, children: Seq<TreeNode>, off: int, dr: int)
    ensures
        sum_showing(s.push(x), children, off, dr) == sum_showing(s, children, off, dr)
            + hits(children, count_window(x, off, dr, Policy::Liberal)),
    decreases children.len(),
{
    reveal(Seq::filter);
    if children.len() > 0 {
        lemma_sum_showing_push(s, x, children.drop_last(), off, dr);
        assert(s.push(x).drop_last() =~= s);
    }
}

/// Some child expects the count `v`.
pub open spec fn claimed_by_some(children: Seq<TreeNode>, v: nat) -> bool {
    exists|i: int| 0 <= i < children.len() && seen_blues_of((#[trigger] children[i]).relevant_election_result) == v
}

/// When every deck shows the count of exactly one child, the children's
/// counts add up to all the decks.
pub proof fn lemma_partition(s: Seq<Seq<Policy>>, children: Seq<TreeNode>, off: int, dr: int)
    requires
        distinct_claims(children),
        forall|t: int| 0 <= t < s.len() ==> claimed_by_some(children, count_window(#[trigger] s[t], off, dr, Policy::Liberal)),
    ensures
        sum_showing(s, children, off, dr) == s.len(),
    decreases s.len(),
{
    if s.len() == 0 {
        lemma_sum_showing_empty(s, children, off, dr);
    } else {
        let rest = s.drop_last();
        assert forall|t: int| 0 <= t < rest.len() implies claimed_by_some(children, count_window(#[trigger] rest[t], off, dr, Policy::Liberal)) by {
            assert(rest[t] == s[t]);
        }
        lemma_partition(rest, children, off, dr);
        lemma_sum_showing_push(rest, s.last(), children, off, dr);
        assert(rest.push(s.last()) =~= s);
        let v = count_window(s.last(), off, dr, Policy::Liberal);
        assert(claimed_by_some(children, count_window(s[s.len() - 1], off, dr, Policy::Liberal)));
        lemma_hits_one(children, v);
    }
}

proof fn lemma_sum_showing_empty(s: Seq<Seq<Policy>>, children: Seq<TreeNode>, off: int, dr: int)
    requires
        s.len() == 0,
    ensures
        sum_showing(s, children, off, dr) == 0,
    decreases children.len(),
{
    reveal(Seq::filter);
    if children.len() > 0 {
        lemma_sum_showing_empty(s, children.drop_last(), off, dr);
    }
}

/// Siblings that share one denominator have it as their largest.
pub proof fn lemma_max_checked_shared(nodes: Seq<TreeNode>, c: nat)
    requires
        nodes.len() > 0,
        forall|i: int| 0 <= i < nodes.len() ==> (#[trigger] nodes[i]).relative_probability.num_checked == c,
    ensures
        max_checked(nodes) == c,
    decreases nodes.len(),
{
    if nodes.len() > 1 {
        let rest = nodes.drop_last();
        assert forall|i: int| 0 <= i < rest.len() implies (#[trigger] rest[i]).relative_probability.num_checked == c by {
            assert(rest[i] == nodes[i]);
        }
        lemma_max_checked_shared(rest, c);
    } else {
        assert(nodes.drop_last().len() == 0);
        assert(max_checked(nodes.drop_last()) == 0);
    }
    assert(nodes.last() == nodes[nodes.len() - 1]);
}

proof fn lemma_claimed_push_keeps(f: Seq<TreeNode>, x: TreeNode, v: nat)
    requires
        claimed_by_some(f, v),
    ensures
        claimed_by_some(f.push(x), v),
{
    let i = choose|i: int| 0 <= i < f.len() && seen_blues_of((#[trigger] f[i]).relevant_election_result) == v;
    assert(f.push(x)[i] == f[i]);
}

proof fn lemma_count_window_bound(d: Seq<Policy>, off: int, dr: int, p: Policy)
    requires
        0 <= off,
        0 <= dr,
    ensures
        count_window(d, off, dr, p) <= dr,
{
    let lo = if off < d.len() { off } else { d.len() as int };
    let hi = if off + dr < d.len() { off + dr } else { d.len() as int };
    crate::deck::lemma_count_le_len(d.subrange(lo, hi), p);
}

proof fn lemma_sum_matching_showing(s: Seq<Seq<Policy>>, children: Seq<TreeNode>, off: int, dr: int)
    requires
        forall|i: int| 0 <= i < children.len() ==> (#[trigger] children[i]).relative_probability.num_matching
            == showing(s, off, dr, seen_blues_of(children[i].relevant_election_result)),
    ensures
        sum_matching(children) == sum_showing(s, children, off, dr),
    decreases children.len(),
{
    if children.len() > 0 {
        let rest = children.drop_last();
        assert forall|i: int| 0 <= i < rest.len() implies (#[trigger] rest[i]).relative_probability.num_matching
            == showing(s, off, dr, seen_blues_of(rest[i].relevant_election_result)) by {
            assert(rest[i] == children[i]);
        }
        lemma_sum_matching_showing(s, rest, off, dr);
        assert(children.last() == children[children.len() - 1]);
    }
}

/// Under an inner node, the children's matching counts add up to the decks
/// that survive the path through the node: each such deck shows, at the
/// children's entry, a count that the allowed set holds, and that is the
/// count of exactly one child.
proof fn lemma_node_conserves(
    sa: &ShuffleAnalysis,
    surv: Seq<Seq<Policy>>,
    fv: Seq<Option<Seq<usize>>>,
    final_children: Seq<TreeNode>,
    all_kept: Seq<TreeNode>,
    kept_sets: Seq<Seq<Option<Seq<usize>>>>,
    off: int,
    dr: int,
    depth: int,
    big_p: Seq<ElectionResult>,
    hard: Seq<PlayerID>,
    pl: Seq<PlayerID>,
)
    requires
        surv == counter_survivors(sa.initial_deck_liberal as nat, sa.initial_deck_fascist as nat,
            sa.election_results@, big_p, fv, hard, pl),
        kept_sets.len() > 0,
        kept_sets.len() == all_kept.len(),
        fold_sets(kept_sets) == Some(fv),
        forall|k: int| 0 <= k < kept_sets.len() ==> (#[trigger] kept_sets[k]).len() > depth + 1
            && kept_sets[k][depth + 1] == Some(seq![seen_blues_of(all_kept[k].relevant_election_result) as usize]),
        forall|k: int| 0 <= k < all_kept.len() ==> claims_in_range(#[trigger] all_kept[k].relevant_election_result),
        -1 <= depth,
        depth + 1 < sa.election_results@.len(),
        off == offset_before(sa.election_results@, depth + 1),
        dr == drawn_count(sa.election_results@[depth + 1]),
        forall|q: int| 0 <= q < all_kept.len() ==>
            claimed_by_some(final_children, seen_blues_of((#[trigger] all_kept[q]).relevant_election_result))
            || showing(surv, off, dr, seen_blues_of(all_kept[q].relevant_election_result)) == 0,
        distinct_claims(final_children),
        forall|i: int| 0 <= i < final_children.len() ==> (#[trigger] final_children[i]).relative_probability.num_matching
            == showing(surv, off, dr, seen_blues_of(final_children[i].relevant_election_result)),
    ensures
        sum_matching(final_children) == surv.len(),
{
    let ers = sa.election_results@;
    let all = all_decks(sa.initial_deck_liberal as nat, sa.initial_deck_fascist as nat);
    let hard_pred = |d: Seq<Policy>| hard_facts_hold(d, ers, hard);
    let path_pred = |d: Seq<Policy>| path_kept(d, ers, big_p, fv, pl);
    let mid = all.filter(hard_pred);
    assert(surv == mid.filter(path_pred));
    lemma_fold_member(kept_sets, depth + 1);
    assert forall|t: int| 0 <= t < surv.len() implies claimed_by_some(final_children,
        count_window(#[trigger] surv[t], off, dr, Policy::Liberal)) by {
        let d = surv[t];
        mid.lemma_filter_pred(path_pred, t);
        assert(path_kept(d, ers, big_p, fv, pl));
        assert(path_fact_holds(d, ers, depth + 1, fv, pl));
        let v = count_window(d, off, dr, Policy::Liberal);
        assert(blue_at(d, ers, depth + 1) == v);
        lemma_count_window_bound(d, off, dr, Policy::Liberal);
        assert(fv[depth + 1]->Some_0.contains(v as usize));
        let k = choose|k: int| 0 <= k < kept_sets.len() && (#[trigger] kept_sets[k])[depth + 1]->Some_0.contains(v as usize);
        let sk = seen_blues_of(all_kept[k].relevant_election_result);
        assert(claims_in_range(all_kept[k].relevant_election_result));
        assert(seq![sk as usize].contains(v as usize));
        assert(sk as usize == v as usize);
        assert(sk <= 4);
        assert(sk == v);
        if !claimed_by_some(final_children, v) {
            assert(showing(surv, off, dr, v) == 0);
            let p = |x: Seq<Policy>| count_window(x, off, dr, Policy::Liberal) == v;
            surv.lemma_filter_contains(p, t);
            assert(surv.filter(p).contains(d));
        }
    }
    lemma_partition(surv, final_children, off, dr);
    lemma_sum_matching_showing(surv, final_children, off, dr);
}

} // verus!
