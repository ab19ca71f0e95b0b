use vstd::prelude::*;
use itertools::Itertools;

verus! {

/// Binomial coefficient by Pascal's rule.
pub open spec fn binomial(n: nat, k: nat) -> nat
    decreases n,
{
    if k == 0 {
        1
    } else if n == 0 {
        0
    } else {
        binomial((n - 1) as nat, (k - 1) as nat) + binomial((n - 1) as nat, k)
    }
}

/// The `k`-element subsets of `lo..n`, each as an increasing sequence, in
/// lexicographic order.
pub open spec fn combinations_from(lo: nat, n: nat, k: nat) -> Seq<Seq<usize>>
    decreases n - lo,
{
    if k == 0 {
        seq![Seq::empty()]
    } else if lo >= n {
        Seq::empty()
    } else {
        combinations_from(lo + 1, n, (k - 1) as nat).map_values(|c: Seq<usize>| seq![lo as usize] + c)
            + combinations_from(lo + 1, n, k)
    }
}

/// `c` lists `k` values of `lo..n` in strictly increasing order.
pub open spec fn increasing_within(c: Seq<usize>, lo: nat, n: nat, k: nat) -> bool {
    &&& c.len() == k
    &&& forall|j: int| 0 <= j < c.len() ==> lo <= #[trigger] c[j] < n
    &&& forall|j1: int, j2: int| 0 <= j1 < j2 < c.len() ==> #[trigger] c[j1] < #[trigger] c[j2]
}

/// Relies on itertools' `Itertools::combinations` over the range `0..n`: it
/// yields every `k`-element combination of the range, in lexicographic order.
#[verifier::external_body]
pub(crate) fn combinations_of_range(n: usize, k: usize) -> (r: Vec<Vec<usize>>)
    ensures
        r.deep_view() == combinations_from(0, n as nat, k as nat),
{
    (0..n).combinations(k).collect()
}

pub proof fn lemma_choose_too_many(n: nat, k: nat)
    requires
        k > n,
    ensures
        binomial(n, k) == 0,
    decreases n,
{
    if n > 0 {
        lemma_choose_too_many((n - 1) as nat, (k - 1) as nat);
        lemma_choose_too_many((n - 1) as nat, k);
    }
}

pub proof fn lemma_choose_all(n: nat)
    ensures
        binomial(n, n) == 1,
    decreases n,
{
    if n > 0 {
        lemma_choose_all((n - 1) as nat);
        lemma_choose_too_many((n - 1) as nat, n);
    }
}

/// Each combination has `k` elements, all in `lo..n`, strictly increasing.
pub proof fn lemma_combinations_shape(lo: nat, n: nat, k: nat)
    requires
        n <= usize::MAX + 1,
    ensures
        forall|i: int| 0 <= i < combinations_from(lo, n, k).len() ==> increasing_within(
            #[trigger] combinations_from(lo, n, k)[i], lo, n, k),
    decreases n - lo,
{
    if k > 0 && lo < n {
        lemma_combinations_shape(lo + 1, n, (k - 1) as nat);
        lemma_combinations_shape(lo + 1, n, k);
        let a = combinations_from(lo + 1, n, (k - 1) as nat);
        let am = a.map_values(|c: Seq<usize>| seq![lo as usize] + c);
        let b = combinations_from(lo + 1, n, k);
        assert forall|i: int| 0 <= i < combinations_from(lo, n, k).len() implies increasing_within(
            #[trigger] combinations_from(lo, n, k)[i], lo, n, k) by {
            if i < am.len() {
                assert(combinations_from(lo, n, k)[i] == am[i]);
                let c0 = a[i];
                assert(am[i] == seq![lo as usize] + c0);
                assert forall|j1: int, j2: int| 0 <= j1 < j2 < am[i].len() implies am[i][j1] < am[i][j2] by {
                    if j1 > 0 {
                        assert(am[i][j1] == c0[j1 - 1]);
                    }
                    assert(am[i][j2] == c0[j2 - 1]);
                }
            } else {
                assert(combinations_from(lo, n, k)[i] == b[i - am.len()]);
            }
        }
    }
}

/// There are `binomial(n - lo, k)` combinations.
pub proof fn lemma_combinations_len(lo: nat, n: nat, k: nat)
    requires
        lo <= n,
    ensures
        combinations_from(lo, n, k).len() == binomial((n - lo) as nat, k),
    decreases n - lo,
{
    if k > 0 && lo < n {
        lemma_combinations_len(lo + 1, n, (k - 1) as nat);
        lemma_combinations_len(lo + 1, n, k);
    }
}

pub proof fn lemma_choose_positive(n: nat, k: nat)
    requires
        k <= n,
    ensures
        binomial(n, k) > 0,
    decreases n,
{
    if k > 0 && n > 0 {
        lemma_choose_positive((n - 1) as nat, (k - 1) as nat);
    }
}

} // verus!
