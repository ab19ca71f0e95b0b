use vstd::prelude::*;
use crate::combinatorics::{binomial, combinations_from, combinations_of_range, increasing_within, lemma_choose_all, lemma_choose_too_many, lemma_combinations_len, lemma_combinations_shape};
use crate::error::Error;
use crate::policy::{Policy, policy_of_byte};
use vstd::string::StringSliceAdditionalSpecFns;

verus! {

/// Every ordering of a deck with `l` liberal and `f` fascist cards: first
/// those that start with a liberal card, then those that start with a
/// fascist one.
pub open spec fn all_decks(l: nat, f: nat) -> Seq<Seq<Policy>>
    decreases l + f,
{
    if l == 0 && f == 0 {
        seq![Seq::empty()]
    } else {
        (if l > 0 {
            all_decks((l - 1) as nat, f).map_values(|d: Seq<Policy>| seq![Policy::Liberal] + d)
        } else {
            Seq::empty()
        }) + (if f > 0 {
            all_decks(l, (f - 1) as nat).map_values(|d: Seq<Policy>| seq![Policy::Fascist] + d)
        } else {
            Seq::empty()
        })
    }
}

/// The cards at positions `lo..n` of the deck whose liberal cards stand at the
/// positions listed in `c`.
pub open spec fn deck_window(c: Seq<usize>, lo: nat, n: nat) -> Seq<Policy> {
    Seq::new(
        (n - lo) as nat,
        |i: int| if c.contains((lo + i) as usize) { Policy::Liberal } else { Policy::Fascist },
    )
}

/// How often `p` occurs in `s`.
pub open spec fn count_in(s: Seq<Policy>, p: Policy) -> nat
    decreases s.len(),
{
    if s.len() == 0 {
        0
    } else {
        count_in(s.drop_last(), p) + (if s.last() == p { 1nat } else { 0nat })
    }
}

/// How often `p` occurs among the cards `offset .. offset + window` of `deck`;
/// a window reaching past the end is cut at the end.
pub open spec fn count_window(deck: Seq<Policy>, offset: int, window: int, p: Policy) -> nat {
    let lo = if offset < deck.len() { offset } else { deck.len() as int };
    let hi = if offset + window < deck.len() { offset + window } else { deck.len() as int };
    count_in(deck.subrange(lo, hi), p)
}

/// The decks of `decks` for which `pred` holds, counted.
pub open spec fn count_decks(decks: Seq<Seq<Policy>>, pred: spec_fn(Seq<Policy>) -> bool) -> nat
    decreases decks.len(),
{
    if decks.len() == 0 {
        0
    } else {
        count_decks(decks.drop_last(), pred) + (if pred(decks.last()) { 1nat } else { 0nat })
    }
}

/// All decks of one composition.
#[derive(Debug, Clone)]
pub struct DeckState {
    pub num_cards: usize,
    pub actual_decks: Vec<Vec<Policy>>,
}

impl DeckState {
    /// Every deck has `num_cards` cards and no deck occurs twice.
    pub open spec fn well_formed(&self) -> bool {
        &&& forall|i: int| 0 <= i < self.actual_decks@.len()
            ==> (#[trigger] self.actual_decks@[i])@.len() == self.num_cards
        &&& self.actual_decks.deep_view().no_duplicates()
    }
}

/// A non-reduced exact fraction `num_matching / num_checked`.
#[derive(Debug, Clone, Copy, PartialEq, Eq, Structural)]
pub struct FilterResult {
    pub num_matching: usize,
    pub num_checked: usize,
}

impl FilterResult {
    /// Nothing matched out of `out_of`.
    pub fn none(out_of: usize) -> (r: Self)
        ensures
            r.num_matching == 0,
            r.num_checked == out_of,
    {
        FilterResult { num_matching: 0, num_checked: out_of }
    }
}

proof fn lemma_all_fascist(f: nat)
    ensures
        all_decks(0, f) == seq![Seq::new(f, |i: int| Policy::Fascist)],
    decreases f,
{
    if f > 0 {
        lemma_all_fascist((f - 1) as nat);
        let prev = Seq::new((f - 1) as nat, |i: int| Policy::Fascist);
        assert(seq![Policy::Fascist] + prev =~= Seq::new(f, |i: int| Policy::Fascist));
        assert(all_decks(0, f) =~= seq![Seq::new(f, |i: int| Policy::Fascist)]);
    } else {
        assert(Seq::<Policy>::empty() =~= Seq::new(0, |i: int| Policy::Fascist));
    }
}

/// Placing liberal cards at each combination of `k` positions of `lo..n`
/// gives exactly the decks of `all_decks`.
proof fn lemma_windows_are_decks(lo: nat, n: nat, k: nat)
    requires
        lo + k <= n,
        n <= usize::MAX,
    ensures
        combinations_from(lo, n, k).map_values(|c: Seq<usize>| deck_window(c, lo, n))
            == all_decks(k, (n - lo - k) as nat),
    decreases n - lo,
{
    let f = (n - lo - k) as nat;
    let lhs = combinations_from(lo, n, k).map_values(|c: Seq<usize>| deck_window(c, lo, n));
    if k == 0 {
        lemma_all_fascist(f);
        assert(deck_window(Seq::empty(), lo, n) =~= Seq::new(f, |i: int| Policy::Fascist));
        assert(lhs =~= all_decks(k, f));
    } else {
        let a = combinations_from(lo + 1, n, (k - 1) as nat);
        let am = a.map_values(|c: Seq<usize>| seq![lo as usize] + c);
        let b = combinations_from(lo + 1, n, k);
        lemma_combinations_shape(lo + 1, n, (k - 1) as nat);
        lemma_combinations_shape(lo + 1, n, k);
        lemma_windows_are_decks(lo + 1, n, (k - 1) as nat);
        let la = all_decks((k - 1) as nat, f).map_values(|d: Seq<Policy>| seq![Policy::Liberal] + d);
        assert forall|i: int| 0 <= i < am.len() implies deck_window(#[trigger] am[i], lo, n)
            == la[i] by {
            let c = a[i];
            assert(a.map_values(|c: Seq<usize>| deck_window(c, lo + 1, n))[i] == deck_window(c, lo + 1, n));
            assert(increasing_within(c, lo + 1, n, (k - 1) as nat));
            assert forall|j: int| 0 <= j < n - lo implies deck_window(am[i], lo, n)[j] == (seq![Policy::Liberal] + deck_window(c, lo + 1, n))[j] by {
                if j == 0 {
                    assert(am[i][0] == lo as usize);
                } else {
                    assert((seq![lo as usize] + c).contains((lo + j) as usize) == c.contains((lo + 1 + (j - 1)) as usize)) by {
                        if c.contains((lo + j) as usize) {
                            let t = choose|t: int| 0 <= t < c.len() && c[t] == (lo + j) as usize;
                            assert((seq![lo as usize] + c)[t + 1] == (lo + j) as usize);
                        }
                        let cc = seq![lo as usize] + c;
                        if cc.contains((lo + j) as usize) {
                            let t = choose|t: int| 0 <= t < cc.len() && cc[t] == (lo + j) as usize;
                            assert(t > 0);
                            assert(c[t - 1] == (lo + j) as usize);
                        }
                    }
                }
            }
            assert(deck_window(am[i], lo, n) =~= seq![Policy::Liberal] + deck_window(c, lo + 1, n));
        }
        let lb = if f > 0 {
            all_decks(k, (f - 1) as nat).map_values(|d: Seq<Policy>| seq![Policy::Fascist] + d)
        } else {
            Seq::empty()
        };
        if f > 0 {
            lemma_windows_are_decks(lo + 1, n, k);
            assert forall|i: int| 0 <= i < b.len() implies deck_window(#[trigger] b[i], lo, n)
                == lb[i] by {
                let c = b[i];
                assert(b.map_values(|c: Seq<usize>| deck_window(c, lo + 1, n))[i] == deck_window(c, lo + 1, n));
                assert(increasing_within(c, lo + 1, n, k));
                assert(!c.contains(lo as usize));
                assert(deck_window(c, lo, n) =~= seq![Policy::Fascist] + deck_window(c, lo + 1, n));
            }
        } else {
            lemma_combinations_len(lo + 1, n, k);
            lemma_choose_too_many((n - lo - 1) as nat, k);
        }
        assert(lhs =~= all_decks(k, f));
    }
}

/// The decks number `binomial(l + f, l)`.
pub proof fn lemma_all_decks_len(l: nat, f: nat)
    ensures
        all_decks(l, f).len() == binomial(l + f, l),
    decreases l + f,
{
    if l > 0 {
        lemma_all_decks_len((l - 1) as nat, f);
    }
    if f > 0 {
        lemma_all_decks_len(l, (f - 1) as nat);
    }
    if f == 0 && l > 0 {
        lemma_choose_all((l - 1) as nat);
        lemma_choose_all(l);
    }
}

/// Every deck has `l` liberal and `f` fascist cards.
pub proof fn lemma_all_decks_shape(l: nat, f: nat)
    ensures
        forall|i: int| 0 <= i < all_decks(l, f).len() ==> {
            &&& (#[trigger] all_decks(l, f)[i]).len() == l + f
            &&& count_in(all_decks(l, f)[i], Policy::Liberal) == l
        },
    decreases l + f,
{
    if l > 0 {
        lemma_all_decks_shape((l - 1) as nat, f);
    }
    if f > 0 {
        lemma_all_decks_shape(l, (f - 1) as nat);
    }
    assert forall|i: int| 0 <= i < all_decks(l, f).len() implies {
        &&& (#[trigger] all_decks(l, f)[i]).len() == l + f
        &&& count_in(all_decks(l, f)[i], Policy::Liberal) == l
    } by {
        if l == 0 && f == 0 {
        } else {
            let la = if l > 0 {
                all_decks((l - 1) as nat, f).map_values(|d: Seq<Policy>| seq![Policy::Liberal] + d)
            } else {
                Seq::empty()
            };
            if i < la.len() {
                let d = all_decks((l - 1) as nat, f)[i];
                lemma_count_prepend(Policy::Liberal, d, Policy::Liberal);
            } else {
                let d = all_decks(l, (f - 1) as nat)[i - la.len()];
                lemma_count_prepend(Policy::Fascist, d, Policy::Liberal);
            }
        }
    }
}

pub proof fn lemma_count_prepend(x: Policy, s: Seq<Policy>, p: Policy)
    ensures
        count_in(seq![x] + s, p) == count_in(s, p) + (if x == p { 1nat } else { 0nat }),
    decreases s.len(),
{
    if s.len() > 0 {
        lemma_count_prepend(x, s.drop_last(), p);
        assert((seq![x] + s).drop_last() =~= seq![x] + s.drop_last());
    } else {
        assert((seq![x] + s).drop_last() =~= s);
    }
}

/// No deck occurs twice.
pub proof fn lemma_all_decks_distinct(l: nat, f: nat)
    ensures
        all_decks(l, f).no_duplicates(),
    decreases l + f,
{
    if l > 0 {
        lemma_all_decks_distinct((l - 1) as nat, f);
    }
    if f > 0 {
        lemma_all_decks_distinct(l, (f - 1) as nat);
    }
    if l == 0 && f == 0 {
    } else {
        let la = if l > 0 {
            all_decks((l - 1) as nat, f).map_values(|d: Seq<Policy>| seq![Policy::Liberal] + d)
        } else {
            Seq::empty()
        };
        let lb = if f > 0 {
            all_decks(l, (f - 1) as nat).map_values(|d: Seq<Policy>| seq![Policy::Fascist] + d)
        } else {
            Seq::empty()
        };
        let all = all_decks(l, f);
        assert(all == la + lb);
        assert forall|i: int, j: int| 0 <= i < all.len() && 0 <= j < all.len() && i != j
            implies all[i] != all[j] by {
            if i < la.len() && j < la.len() {
                let di = all_decks((l - 1) as nat, f)[i];
                let dj = all_decks((l - 1) as nat, f)[j];
                if all[i] == all[j] {
                    assert(di =~= all[i].subrange(1, all[i].len() as int));
                    assert(dj =~= all[j].subrange(1, all[j].len() as int));
                }
            } else if i >= la.len() && j >= la.len() {
                let di = all_decks(l, (f - 1) as nat)[i - la.len()];
                let dj = all_decks(l, (f - 1) as nat)[j - la.len()];
                if all[i] == all[j] {
                    assert(di =~= all[i].subrange(1, all[i].len() as int));
                    assert(dj =~= all[j].subrange(1, all[j].len() as int));
                }
            } else if i < la.len() {
                assert(all[i][0] == Policy::Liberal);
                assert(all[j][0] == Policy::Fascist);
            } else {
                assert(all[j][0] == Policy::Liberal);
                assert(all[i][0] == Policy::Fascist);
            }
        }
    }
}

/// The deck of `n` cards with liberal cards at the positions in `c`.
fn deck_from_combination(c: &Vec<usize>, n: usize) -> (r: Vec<Policy>)
    requires
        forall|j: int| 0 <= j < c@.len() ==> c@[j] < n,
    ensures
        r@ == deck_window(c@, 0, n as nat),
{
    let mut out: Vec<Policy> = Vec::new();
    let mut i: usize = 0;
    while i < n
        invariant
            i <= n,
            out@ == Seq::new(i as nat, |k: int| Policy::Fascist),
        decreases n - i,
    {
        out.push(Policy::Fascist);
        i = i + 1;
        assert(out@ =~= Seq::new(i as nat, |k: int| Policy::Fascist));
    }
    let mut j: usize = 0;
    while j < c.len()
        invariant
            j <= c@.len(),
            forall|t: int| 0 <= t < c@.len() ==> c@[t] < n,
            out@ == deck_window(c@.subrange(0, j as int), 0, n as nat),
        decreases c@.len() - j,
    {
        out.set(c[j], Policy::Liberal);
        j = j + 1;
        assert forall|k: int| 0 <= k < n implies out@[k] == deck_window(c@.subrange(0, j as int), 0, n as nat)[k] by {
            let now = c@.subrange(0, j as int);
            let before = c@.subrange(0, j - 1 as int);
            if now.contains(k as usize) {
                let t = choose|t: int| 0 <= t < now.len() && now[t] == k as usize;
                if t < j - 1 {
                    assert(before[t] == k as usize);
                }
            }
            if before.contains(k as usize) {
                let t = choose|t: int| 0 <= t < before.len() && before[t] == k as usize;
                assert(now[t] == k as usize);
            }
            if k == c@[j - 1] as int {
                assert(now[j - 1] == k as usize);
            }
        }
        assert(out@ =~= deck_window(c@.subrange(0, j as int), 0, n as nat));
    }
    assert(c@.subrange(0, c@.len() as int) == c@);
    out
}

/// All decks with `num_lib` liberal and `num_fasc` fascist cards, each
/// exactly once.
pub fn generate_internal(num_lib: usize, num_fasc: usize) -> (r: DeckState)
    requires
        num_lib + num_fasc <= usize::MAX,
    ensures
        r.num_cards == num_lib + num_fasc,
        r.actual_decks.deep_view() == all_decks(num_lib as nat, num_fasc as nat),
        r.well_formed(),
{
    let n = num_lib + num_fasc;
    let combos = combinations_of_range(n, num_lib);
    proof {
        lemma_combinations_shape(0, n as nat, num_lib as nat);
        lemma_windows_are_decks(0, n as nat, num_lib as nat);
    }
    let ghost cs = combos.deep_view();
    let mut decks: Vec<Vec<Policy>> = Vec::new();
    let mut i: usize = 0;
    while i < combos.len()
        invariant
            i <= combos@.len(),
            cs == combos.deep_view(),
            cs == combinations_from(0, n as nat, num_lib as nat),
            forall|t: int| 0 <= t < cs.len() ==> increasing_within(#[trigger] cs[t], 0, n as nat, num_lib as nat),
            decks.deep_view() == cs.subrange(0, i as int).map_values(|c: Seq<usize>| deck_window(c, 0, n as nat)),
        decreases combos@.len() - i,
    {
        assert(combos@[i as int]@ == cs[i as int]);
        assert(increasing_within(cs[i as int], 0, n as nat, num_lib as nat));
        let d = deck_from_combination(&combos[i], n);
        assert(d.deep_view() =~= d@);
        let ghost old_decks = decks.deep_view();
        decks.push(d);
        assert(decks.deep_view() =~= old_decks.push(d@));
        i = i + 1;
        assert(decks.deep_view() =~= cs.subrange(0, i as int).map_values(|c: Seq<usize>| deck_window(c, 0, n as nat)));
    }
    assert(cs.subrange(0, cs.len() as int) == cs);
    let r = DeckState { num_cards: n, actual_decks: decks };
    proof {
        lemma_all_decks_shape(num_lib as nat, num_fasc as nat);
        lemma_all_decks_distinct(num_lib as nat, num_fasc as nat);
        assert forall|i: int| 0 <= i < r.actual_decks@.len() implies (#[trigger] r.actual_decks@[i])@.len() == r.num_cards by {
            assert(r.actual_decks.deep_view()[i] == r.actual_decks@[i].deep_view());
            assert(r.actual_decks@[i].deep_view().len() == r.actual_decks@[i]@.len());
        }
    }
    r
}

/// The population of all decks of a composition has `binomial(l + f, l)`
/// members, no two alike, each with `l + f` cards of which `l` are liberal.
pub proof fn lemma_deck_population(l: nat, f: nat)
    ensures
        all_decks(l, f).len() == binomial(l + f, l),
        all_decks(l, f).no_duplicates(),
        forall|i: int| 0 <= i < all_decks(l, f).len() ==> (#[trigger] all_decks(l, f)[i]).len() == l + f
            && count_in(all_decks(l, f)[i], Policy::Liberal) == l,
{
    lemma_all_decks_len(l, f);
    lemma_all_decks_distinct(l, f);
    lemma_all_decks_shape(l, f);
}

pub proof fn lemma_count_le_len(s: Seq<Policy>, p: Policy)
    ensures
        count_in(s, p) <= s.len(),
    decreases s.len(),
{
    if s.len() > 0 {
        lemma_count_le_len(s.drop_last(), p);
    }
}

/// Filtering by a weaker predicate keeps at least as many elements.
pub proof fn lemma_filter_weaker<A>(s: Seq<A>, p: spec_fn(A) -> bool, q: spec_fn(A) -> bool)
    requires
        forall|x: A| #[trigger] p(x) ==> q(x),
    ensures
        s.filter(p).len() <= s.filter(q).len(),
    decreases s.len(),
{
    reveal(Seq::filter);
    if s.len() > 0 {
        lemma_filter_weaker(s.drop_last(), p, q);
    }
}

/// Filtering twice is filtering by the conjunction.
pub proof fn lemma_filter_filter<A>(s: Seq<A>, p: spec_fn(A) -> bool, q: spec_fn(A) -> bool)
    ensures
        s.filter(p).filter(q) == s.filter(|x: A| p(x) && q(x)),
    decreases s.len(),
{
    reveal(Seq::filter);
    if s.len() > 0 {
        lemma_filter_filter(s.drop_last(), p, q);
        let pq = |x: A| p(x) && q(x);
        let sub = s.drop_last().filter(p);
        if p(s.last()) {
            assert(sub.push(s.last()).drop_last() =~= sub);
        }
    }
}

/// Counts `policy` among the cards `offset .. offset + window_size` of `deck`.
pub fn count_policies(deck: &Vec<Policy>, offset: usize, window_size: usize, policy: Policy) -> (r: usize)
    ensures
        r == count_window(deck@, offset as int, window_size as int, policy),
{
    let len = deck.len();
    let lo = if offset < len { offset } else { len };
    let hi = if window_size < len - lo { lo + window_size } else { len };
    let mut count: usize = 0;
    let mut i: usize = lo;
    while i < hi
        invariant
            lo <= i <= hi <= len == deck@.len(),
            count == count_in(deck@.subrange(lo as int, i as int), policy),
            count <= i - lo,
        decreases hi - i,
    {
        assert(deck@.subrange(lo as int, i + 1 as int).drop_last() =~= deck@.subrange(lo as int, i as int));
        if deck[i] == policy {
            count = count + 1;
        }
        i = i + 1;
    }
    count
}

/// For each liberal count `k` in `0..=window_size`, how many of `decks` show
/// exactly `k` liberal cards among their first `window_size` cards.
pub fn compute_window_histogram(decks: &Vec<Vec<Policy>>, window_size: usize) -> (r: Vec<usize>)
    requires
        window_size < usize::MAX,
    ensures
        r@.len() == window_size + 1,
        forall|k: int| 0 <= k <= window_size ==> #[trigger] r@[k] == decks.deep_view().filter(
            |d: Seq<Policy>| count_window(d, 0, window_size as int, Policy::Liberal) == k).len(),
{
    let ghost ds = decks.deep_view();
    let mut r: Vec<usize> = Vec::new();
    let mut k: usize = 0;
    while k <= window_size
        invariant
            k <= window_size + 1,
            window_size < usize::MAX,
            r@.len() == k,
            forall|j: int| 0 <= j < k ==> r@[j] == 0,
        decreases window_size + 1 - k,
    {
        r.push(0);
        k = k + 1;
    }
    let mut i: usize = 0;
    while i < decks.len()
        invariant
            i <= decks@.len(),
            ds == decks.deep_view(),
            r@.len() == window_size + 1,
            forall|k: int| 0 <= k <= window_size ==> #[trigger] r@[k] == ds.subrange(0, i as int).filter(
                |d: Seq<Policy>| count_window(d, 0, window_size as int, Policy::Liberal) == k).len(),
            forall|k: int| 0 <= k <= window_size ==> r@[k] <= i,
        decreases decks@.len() - i,
    {
        let c = count_policies(&decks[i], 0, window_size, Policy::Liberal);
        proof {
            assert(decks@[i as int].deep_view() =~= decks@[i as int]@);
            assert(ds[i as int] == decks@[i as int]@);
            let d = decks@[i as int]@;
            let lo: int = 0;
            let hi: int = if window_size < d.len() { window_size as int } else { d.len() as int };
            lemma_count_le_len(d.subrange(lo, hi), Policy::Liberal);
        }
        r.set(c, r[c] + 1);
        i = i + 1;
        proof {
            reveal(Seq::filter);
            assert forall|k: int| 0 <= k <= window_size implies #[trigger] r@[k] == ds.subrange(0, i as int).filter(
                |d: Seq<Policy>| count_window(d, 0, window_size as int, Policy::Liberal) == k).len() by {
                assert(ds.subrange(0, i as int).drop_last() =~= ds.subrange(0, i - 1 as int));
            }
        }
    }
    assert(ds.subrange(0, decks@.len() as int) =~= ds);
    r
}

/// All claim bytes stand for a policy.
pub open spec fn all_policy_bytes(b: Seq<u8>) -> bool {
    forall|i: int| 0 <= i < b.len() ==> (#[trigger] policy_of_byte(b[i])) is Some
}

/// Byte `k` is the first that stands for no policy, and `t` is its text
/// where it is ASCII.
pub open spec fn bad_byte_at(b: Seq<u8>, k: int, t: Seq<char>) -> bool {
    &&& 0 <= k < b.len()
    &&& policy_of_byte(b[k]) is None
    &&& all_policy_bytes(b.subrange(0, k))
    &&& (b[k] < 128 ==> t == seq![b[k] as char])
}

pub open spec fn names_first_bad_byte(b: Seq<u8>, t: Seq<char>) -> bool {
    exists|k: int| #[trigger] bad_byte_at(b, k, t)
}

/// How many claim bytes stand for a liberal policy.
pub open spec fn liberal_bytes(b: Seq<u8>) -> nat
    decreases b.len(),
{
    if b.len() == 0 {
        0
    } else {
        liberal_bytes(b.drop_last()) + (if policy_of_byte(b.last()) == Some(Policy::Liberal) { 1nat } else { 0nat })
    }
}

/// The canonical sorted claim: fascist cards first, then liberal ones.
pub open spec fn sorted_claim(libs: nat, len: nat) -> Seq<Policy> {
    Seq::new(len, |i: int| if i < len - libs { Policy::Fascist } else { Policy::Liberal })
}

/// Relies on `char::to_string`: the text of one ASCII byte.
#[verifier::external_body]
fn byte_text(b: u8) -> (r: String)
    ensures
        b < 128 ==> r@ == seq![b as char],
{
    (b as char).to_string()
}

/// Parses a claim pattern such as "rrb" into the number of liberal cards, its
/// length and the sorted policies, checking the length against
/// `min_pattern_length ..= max_pattern_length`.
pub fn parse_pattern(pattern: &str, max_pattern_length: usize, min_pattern_length: usize) -> (r: Result<(usize, usize, Vec<Policy>), Error>)
    ensures
        ({
            let b = pattern.spec_bytes();
            if !all_policy_bytes(b) {
                r matches Err(Error::ParsePolicyError(t)) && names_first_bad_byte(b, t@)
            } else if b.len() > max_pattern_length {
                r == Err::<(usize, usize, Vec<Policy>), Error>(Error::TooLongPatternError { have: max_pattern_length, requested: b.len() as usize })
            } else if b.len() < min_pattern_length {
                r == Err::<(usize, usize, Vec<Policy>), Error>(Error::TooShortPatternError { have: max_pattern_length, requested: b.len() as usize })
            } else {
                r matches Ok((libs, len, sorted)) && libs == liberal_bytes(b) && len == b.len()
                    && sorted@ == sorted_claim(liberal_bytes(b), b.len())
            }
        }),
        r matches Ok((libs, len, _)) ==> libs <= len,
{
    let bytes = pattern.as_bytes();
    let ghost b = pattern.spec_bytes();
    let mut libs: usize = 0;
    let mut i: usize = 0;
    while i < bytes.len()
        invariant
            bytes@ == b,
            b == pattern.spec_bytes(),
            i <= b.len(),
            forall|j: int| 0 <= j < i ==> (#[trigger] policy_of_byte(b[j])) is Some,
            libs == liberal_bytes(b.subrange(0, i as int)),
            libs <= i,
        decreases b.len() - i,
    {
        assert(b.subrange(0, i + 1 as int).drop_last() =~= b.subrange(0, i as int));
        match Policy::from_byte(bytes[i]) {
            None => {
                let t = byte_text(bytes[i]);
                proof {
                    assert(!all_policy_bytes(b));
                    assert(all_policy_bytes(b.subrange(0, i as int)));
                    assert(policy_of_byte(b[i as int]) is None);
                    assert(b[i as int] < 128 ==> t@ == seq![b[i as int] as char]);
                }
                let r: Result<(usize, usize, Vec<Policy>), Error> = Err(Error::ParsePolicyError(t));
                assert(names_first_bad_byte(b, t@)) by {
                    assert(bad_byte_at(b, i as int, t@));
                }
                return r;
            },
            Some(p) => {
                if p == Policy::Liberal {
                    libs = libs + 1;
                }
            },
        }
        i = i + 1;
    }
    assert(b.subrange(0, b.len() as int) =~= b);
    let len = bytes.len();
    if len > max_pattern_length {
        return Err(Error::TooLongPatternError { have: max_pattern_length, requested: len });
    }
    if len < min_pattern_length {
        return Err(Error::TooShortPatternError { have: max_pattern_length, requested: len });
    }
    let mut sorted: Vec<Policy> = Vec::new();
    let mut j: usize = 0;
    while j < len
        invariant
            j <= len,
            libs <= len,
            sorted@ == sorted_claim(libs as nat, len as nat).subrange(0, j as int),
        decreases len - j,
    {
        if j < len - libs {
            sorted.push(Policy::Fascist);
        } else {
            sorted.push(Policy::Liberal);
        }
        j = j + 1;
        assert(sorted@ =~= sorted_claim(libs as nat, len as nat).subrange(0, j as int));
    }
    assert(sorted@ =~= sorted_claim(libs as nat, len as nat));
    Ok((libs, len, sorted))
}

/// The decks that show at least the guaranteed counts in the first
/// `window_size` cards.
pub open spec fn window_guaranteed(d: Seq<Policy>, window_size: int, guaranteed_blues: int, guaranteed_reds: int) -> bool {
    &&& count_window(d, 0, window_size, Policy::Liberal) >= guaranteed_blues
    &&& count_window(d, 0, window_size, Policy::Fascist) >= guaranteed_reds
}

/// Among the decks of the composition that show at least the guaranteed
/// counts in their first `window_size` cards (`num_checked`), those with
/// exactly `desired_blues_in_window` liberal cards there (`num_matching`).
pub fn next_blues_count(
    num_total_lib: usize,
    num_total_fasc: usize,
    window_size: usize,
    desired_blues_in_window: usize,
    guaranteed_blues_in_window: usize,
    guaranteed_reds_in_window: usize,
) -> (r: FilterResult)
    requires
        num_total_lib + num_total_fasc <= usize::MAX,
    ensures
        r.num_checked == all_decks(num_total_lib as nat, num_total_fasc as nat).filter(
            |d: Seq<Policy>| window_guaranteed(d, window_size as int, guaranteed_blues_in_window as int, guaranteed_reds_in_window as int)).len(),
        r.num_matching == all_decks(num_total_lib as nat, num_total_fasc as nat).filter(
            |d: Seq<Policy>| window_guaranteed(d, window_size as int, guaranteed_blues_in_window as int, guaranteed_reds_in_window as int)
                && count_window(d, 0, window_size as int, Policy::Liberal) == desired_blues_in_window).len(),
{
    let decks = generate_internal(num_total_lib, num_total_fasc);
    let ghost ds = decks.actual_decks.deep_view();
    let ghost pc = |d: Seq<Policy>| window_guaranteed(d, window_size as int, guaranteed_blues_in_window as int, guaranteed_reds_in_window as int);
    let ghost pm = |d: Seq<Policy>| window_guaranteed(d, window_size as int, guaranteed_blues_in_window as int, guaranteed_reds_in_window as int)
        && count_window(d, 0, window_size as int, Policy::Liberal) == desired_blues_in_window;
    assert(forall|d: Seq<Policy>| #[trigger] pc(d) == window_guaranteed(d, window_size as int, guaranteed_blues_in_window as int, guaranteed_reds_in_window as int));
    assert(forall|d: Seq<Policy>| #[trigger] pm(d) == (window_guaranteed(d, window_size as int, guaranteed_blues_in_window as int, guaranteed_reds_in_window as int)
        && count_window(d, 0, window_size as int, Policy::Liberal) == desired_blues_in_window));
    let mut checked: usize = 0;
    let mut matching: usize = 0;
    let mut i: usize = 0;
    while i < decks.actual_decks.len()
        invariant
            i <= ds.len(),
            ds == decks.actual_decks.deep_view(),
            forall|d: Seq<Policy>| #[trigger] pc(d) == window_guaranteed(d, window_size as int, guaranteed_blues_in_window as int, guaranteed_reds_in_window as int),
            forall|d: Seq<Policy>| #[trigger] pm(d) == (window_guaranteed(d, window_size as int, guaranteed_blues_in_window as int, guaranteed_reds_in_window as int)
                && count_window(d, 0, window_size as int, Policy::Liberal) == desired_blues_in_window),
            checked == ds.subrange(0, i as int).filter(pc).len(),
            matching == ds.subrange(0, i as int).filter(pm).len(),
            checked <= i,
            matching <= i,
        decreases ds.len() - i,
    {
        let d = &decks.actual_decks[i];
        proof {
            assert(d.deep_view() =~= d@);
            assert(ds[i as int] == d@);
        }
        let blues = count_policies(d, 0, window_size, Policy::Liberal);
        let reds = count_policies(d, 0, window_size, Policy::Fascist);
        if blues >= guaranteed_blues_in_window && reds >= guaranteed_reds_in_window {
            checked = checked + 1;
            if blues == desired_blues_in_window {
                matching = matching + 1;
            }
        }
        i = i + 1;
        proof {
            reveal(Seq::filter);
            assert(ds.subrange(0, i as int).drop_last() =~= ds.subrange(0, i - 1 as int));
            assert(ds.subrange(0, i as int).last() == d@);
            assert(window_guaranteed(d@, window_size as int, guaranteed_blues_in_window as int, guaranteed_reds_in_window as int) == (blues >= guaranteed_blues_in_window && reds >= guaranteed_reds_in_window));
            assert(pc(d@) == (blues >= guaranteed_blues_in_window && reds >= guaranteed_reds_in_window));
            assert(pm(d@) == (blues >= guaranteed_blues_in_window && reds >= guaranteed_reds_in_window && blues == desired_blues_in_window));
        }
    }
    assert(ds.subrange(0, ds.len() as int) =~= ds);
    FilterResult { num_matching: matching, num_checked: checked }
}

/// Over the liberal counts `0..n`, the decks of `s` that meet the guarantees
/// and show that count in the window.
pub open spec fn desired_sum(s: Seq<Seq<Policy>>, window: int, gb: int, gr: int, n: nat) -> nat
    decreases n,
{
    if n == 0 {
        0
    } else {
        desired_sum(s, window, gb, gr, (n - 1) as nat) + s.filter(|d: Seq<Policy>| window_guaranteed(d, window, gb, gr)
            && count_window(d, 0, window, Policy::Liberal) == n - 1).len()
    }
}

proof fn lemma_desired_sum_push(s: Seq<Seq<Policy>>, x: Seq<Policy>, window: int, gb: int, gr: int, n: nat)
    ensures
        desired_sum(s.push(x), window, gb, gr, n) == desired_sum(s, window, gb, gr, n)
            + (if window_guaranteed(x, window, gb, gr) && count_window(x, 0, window, Policy::Liberal) < n { 1nat } else { 0nat }),
    decreases n,
{
    reveal(Seq::filter);
    if n > 0 {
        lemma_desired_sum_push(s, x, window, gb, gr, (n - 1) as nat);
        assert(s.push(x).drop_last() =~= s);
    }
}

proof fn lemma_desired_sum_all(s: Seq<Seq<Policy>>, window: int, gb: int, gr: int)
    requires
        0 <= window,
    ensures
        desired_sum(s, window, gb, gr, (window + 1) as nat)
            == s.filter(|d: Seq<Policy>| window_guaranteed(d, window, gb, gr)).len(),
    decreases s.len(),
{
    reveal(Seq::filter);
    if s.len() > 0 {
        let d = s.drop_last();
        lemma_desired_sum_all(d, window, gb, gr);
        lemma_desired_sum_push(d, s.last(), window, gb, gr, (window + 1) as nat);
        assert(d.push(s.last()) =~= s);
        let x = s.last();
        let lo = if 0 < x.len() { 0 } else { x.len() as int };
        let hi = if window < x.len() { window } else { x.len() as int };
        lemma_count_le_len(x.subrange(lo, hi), Policy::Liberal);
    } else {
        lemma_desired_sum_empty(s, window, gb, gr, (window + 1) as nat);
    }
}

proof fn lemma_desired_sum_empty(s: Seq<Seq<Policy>>, window: int, gb: int, gr: int, n: nat)
    requires
        s.len() == 0,
    ensures
        desired_sum(s, window, gb, gr, n) == 0,
    decreases n,
{
    reveal(Seq::filter);
    if n > 0 {
        lemma_desired_sum_empty(s, window, gb, gr, (n - 1) as nat);
    }
}

/// The `num_matching` of `next_blues_count` over every liberal count from 0
/// to the window size add up to its `num_checked`.
pub proof fn lemma_next_blues_sum(l: nat, f: nat, window: nat, gb: nat, gr: nat)
    ensures
        desired_sum(all_decks(l, f), window as int, gb as int, gr as int, window + 1)
            == all_decks(l, f).filter(|d: Seq<Policy>| window_guaranteed(d, window as int, gb as int, gr as int)).len(),
{
    lemma_desired_sum_all(all_decks(l, f), window as int, gb as int, gr as int);
}

} // verus!
