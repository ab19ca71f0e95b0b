use vstd::prelude::*;
use crate::combinatorics::{
    binomial, combinations_from, combinations_of_range, increasing_within,
    lemma_combinations_len, lemma_combinations_shape,
};
use crate::secret_role::SecretRole;

verus! {

/// How often `r` occurs in `s`.
pub open spec fn count_role(s: Seq<SecretRole>, r: SecretRole) -> nat
    decreases s.len(),
{
    if s.len() == 0 {
        0
    } else {
        count_role(s.drop_last(), r) + (if s.last() == r { 1nat } else { 0nat })
    }
}

/// A role assignment of `table_size` seats (seat `p` at index `p - 1`) with
/// one Hitler and `num_regular_fascists` regular fascists.
pub open spec fn is_role_assignment(a: Seq<SecretRole>, table_size: nat, num_regular_fascists: nat) -> bool {
    &&& a.len() == table_size
    &&& count_role(a, SecretRole::Hitler) == 1
    &&& count_role(a, SecretRole::RegularFascist) == num_regular_fascists
}

pub proof fn lemma_count_role_update(s: Seq<SecretRole>, i: int, v: SecretRole, r: SecretRole)
    requires
        0 <= i < s.len(),
    ensures
        count_role(s.update(i, v), r) + (if s[i] == r { 1nat } else { 0nat })
            == count_role(s, r) + (if v == r { 1nat } else { 0nat }),
    decreases s.len(),
{
    if i < s.len() - 1 {
        lemma_count_role_update(s.drop_last(), i, v, r);
        assert(s.update(i, v).drop_last() =~= s.drop_last().update(i, v));
    } else {
        assert(s.update(i, v).drop_last() =~= s.drop_last());
    }
}

proof fn lemma_count_role_all_liberal(n: nat)
    ensures
        count_role(Seq::new(n, |k: int| SecretRole::Liberal), SecretRole::Hitler) == 0,
        count_role(Seq::new(n, |k: int| SecretRole::Liberal), SecretRole::RegularFascist) == 0,
    decreases n,
{
    if n > 0 {
        lemma_count_role_all_liberal((n - 1) as nat);
        assert(Seq::new(n, |k: int| SecretRole::Liberal).drop_last() =~= Seq::new((n - 1) as nat, |k: int| SecretRole::Liberal));
    }
}

/// The seat index of the `fp`-th non-Hitler seat when Hitler sits at `hitler_pos`.
pub open spec fn shifted(fp: usize, hitler_pos: usize) -> int {
    if fp >= hitler_pos { fp + 1 } else { fp as int }
}

/// The non-Hitler seat index that seat index `k` stands at.
pub open spec fn unshifted(k: int, hitler_pos: int) -> int {
    if k > hitler_pos { k - 1 } else { k }
}

/// Hitler at index `hitler_pos`, regular fascists at the non-Hitler seats
/// listed in `c`, liberals elsewhere.
pub open spec fn assignment_spec(c: Seq<usize>, hitler_pos: int, table_size: nat) -> Seq<SecretRole> {
    Seq::new(table_size, |k: int| if k == hitler_pos {
        SecretRole::Hitler
    } else if c.contains(unshifted(k, hitler_pos) as usize) {
        SecretRole::RegularFascist
    } else {
        SecretRole::Liberal
    })
}

/// The population of a table: for each choice of regular fascists (in
/// lexicographic order), each Hitler seat in turn.
pub open spec fn role_population(table_size: nat, num_regular_fascists: nat) -> Seq<Seq<SecretRole>> {
    let cs = combinations_from(0, (table_size - 1) as nat, num_regular_fascists);
    Seq::new(cs.len() * table_size, |i: int| assignment_spec(cs[i / table_size as int], i % table_size as int, table_size))
}

/// The assignment with Hitler at index `hitler_pos` and regular fascists at
/// the non-Hitler seats listed in `fascist_positions`.
fn build_assignment(table_size: usize, hitler_pos: usize, fascist_positions: &Vec<usize>) -> (r: Vec<SecretRole>)
    requires
        hitler_pos < table_size,
        increasing_within(fascist_positions@, 0, (table_size - 1) as nat, fascist_positions@.len()),
    ensures
        is_role_assignment(r@, table_size as nat, fascist_positions@.len()),
        r@ == assignment_spec(fascist_positions@, hitler_pos as int, table_size as nat),
        r@[hitler_pos as int] == SecretRole::Hitler,
        forall|j: int| 0 <= j < fascist_positions@.len()
            ==> r@[shifted(#[trigger] fascist_positions@[j], hitler_pos)] == SecretRole::RegularFascist,
{
    let mut out: Vec<SecretRole> = Vec::new();
    let mut i: usize = 0;
    while i < table_size
        invariant
            i <= table_size,
            out@ == Seq::new(i as nat, |k: int| SecretRole::Liberal),
        decreases table_size - i,
    {
        out.push(SecretRole::Liberal);
        i = i + 1;
        assert(out@ =~= Seq::new(i as nat, |k: int| SecretRole::Liberal));
    }
    proof {
        lemma_count_role_all_liberal(table_size as nat);
        lemma_count_role_update(out@, hitler_pos as int, SecretRole::Hitler, SecretRole::Hitler);
        lemma_count_role_update(out@, hitler_pos as int, SecretRole::Hitler, SecretRole::RegularFascist);
    }
    out.set(hitler_pos, SecretRole::Hitler);
    let ghost c = fascist_positions@;
    assert(out@ =~= assignment_spec(c.subrange(0, 0), hitler_pos as int, table_size as nat));
    let mut j: usize = 0;
    while j < fascist_positions.len()
        invariant
            c == fascist_positions@,
            hitler_pos < table_size,
            increasing_within(c, 0, (table_size - 1) as nat, c.len()),
            j <= c.len(),
            out@.len() == table_size,
            out@[hitler_pos as int] == SecretRole::Hitler,
            count_role(out@, SecretRole::Hitler) == 1,
            count_role(out@, SecretRole::RegularFascist) == j,
            forall|k: int| 0 <= k < table_size && k != hitler_pos && out@[k] != SecretRole::Liberal
                ==> out@[k] == SecretRole::RegularFascist && j > 0 && k <= shifted(c[j - 1], hitler_pos),
            forall|t: int| 0 <= t < j ==> out@[shifted(#[trigger] c[t], hitler_pos)] == SecretRole::RegularFascist,
            out@ == assignment_spec(c.subrange(0, j as int), hitler_pos as int, table_size as nat),
        decreases c.len() - j,
    {
        let fp = fascist_positions[j];
        let pos = if fp >= hitler_pos { fp + 1 } else { fp };
        proof {
            if j > 0 {
                assert(c[j - 1] < c[j as int]);
            }
            assert(out@[pos as int] == SecretRole::Liberal);
            lemma_count_role_update(out@, pos as int, SecretRole::RegularFascist, SecretRole::Hitler);
            lemma_count_role_update(out@, pos as int, SecretRole::RegularFascist, SecretRole::RegularFascist);
        }
        let ghost before = c.subrange(0, j as int);
        out.set(pos, SecretRole::RegularFascist);
        j = j + 1;
        proof {
            let now = c.subrange(0, j as int);
            assert forall|k: int| 0 <= k < table_size implies out@[k] == #[trigger] assignment_spec(now, hitler_pos as int, table_size as nat)[k] by {
                let u = unshifted(k, hitler_pos as int);
                if k != hitler_pos {
                    if now.contains(u as usize) {
                        let t = choose|t: int| 0 <= t < now.len() && now[t] == u as usize;
                        if t < j - 1 {
                            assert(before[t] == u as usize);
                        } else {
                            assert(k == pos);
                        }
                    }
                    if before.contains(u as usize) {
                        let t = choose|t: int| 0 <= t < before.len() && before[t] == u as usize;
                        assert(now[t] == u as usize);
                    }
                    if k == pos {
                        assert(now[j - 1] == u as usize);
                    }
                }
            }
            assert(out@ =~= assignment_spec(now, hitler_pos as int, table_size as nat));
            assert forall|t: int| 0 <= t < j implies out@[shifted(#[trigger] c[t], hitler_pos)] == SecretRole::RegularFascist by {
                if t < j - 1 {
                    assert(c[t] < c[j - 1]);
                }
            }
        }
    }
    assert(c.subrange(0, c.len() as int) =~= c);
    out
}

/// Every assignment of one Hitler and `num_regular_fascists` regular
/// fascists to `table_size` seats: for each choice of regular fascists among
/// the other seats (in lexicographic order), each Hitler seat in turn.
pub fn generate_assignments_cached(table_size: usize, num_regular_fascists: usize) -> (r: Vec<Vec<SecretRole>>)
    requires
        table_size >= 1,
    ensures
        r@.len() == binomial((table_size - 1) as nat, num_regular_fascists as nat) * table_size,
        forall|i: int| 0 <= i < r@.len() ==> is_role_assignment(
            #[trigger] r@[i]@, table_size as nat, num_regular_fascists as nat),
        r.deep_view() == role_population(table_size as nat, num_regular_fascists as nat),
{
    let combos = combinations_of_range(table_size - 1, num_regular_fascists);
    let ghost cs = combos.deep_view();
    proof {
        lemma_combinations_shape(0, (table_size - 1) as nat, num_regular_fascists as nat);
        lemma_combinations_len(0, (table_size - 1) as nat, num_regular_fascists as nat);
    }
    let mut out: Vec<Vec<SecretRole>> = Vec::new();
    let mut ci: usize = 0;
    while ci < combos.len()
        invariant
            table_size >= 1,
            cs == combos.deep_view(),
            cs == combinations_from(0, (table_size - 1) as nat, num_regular_fascists as nat),
            forall|t: int| 0 <= t < cs.len() ==> increasing_within(#[trigger] cs[t], 0, (table_size - 1) as nat, num_regular_fascists as nat),
            ci <= cs.len(),
            out@.len() == ci * table_size,
            forall|i: int| 0 <= i < out@.len() ==> is_role_assignment(
                #[trigger] out@[i]@, table_size as nat, num_regular_fascists as nat),
            forall|i: int| 0 <= i < out@.len() ==> (#[trigger] out@[i])@ == assignment_spec(cs[i / table_size as int], i % table_size as int, table_size as nat),
        decreases cs.len() - ci,
    {
        let c = &combos[ci];
        assert(c@ == cs[ci as int]);
        assert(increasing_within(c@, 0, (table_size - 1) as nat, num_regular_fascists as nat));
        let mut h: usize = 0;
        while h < table_size
            invariant
                table_size >= 1,
                h <= table_size,
                increasing_within(c@, 0, (table_size - 1) as nat, num_regular_fascists as nat),
                out@.len() == ci * table_size + h,
                forall|i: int| 0 <= i < out@.len() ==> is_role_assignment(
                    #[trigger] out@[i]@, table_size as nat, num_regular_fascists as nat),
                c@ == cs[ci as int],
                forall|i: int| 0 <= i < out@.len() ==> (#[trigger] out@[i])@ == assignment_spec(cs[i / table_size as int], i % table_size as int, table_size as nat),
            decreases table_size - h,
        {
            let a = build_assignment(table_size, h, c);
            proof {
                vstd::arithmetic::div_mod::lemma_fundamental_div_mod_converse(
                    (ci * table_size + h) as int, table_size as int, ci as int, h as int);
            }
            out.push(a);
            h = h + 1;
        }
        proof {
            assert((ci + 1) * table_size == ci * table_size + table_size) by (nonlinear_arith);
        }
        ci = ci + 1;
    }
    proof {
        let pop = role_population(table_size as nat, num_regular_fascists as nat);
        assert forall|i: int| 0 <= i < out@.len() implies out.deep_view()[i] == pop[i] by {
            assert(out.deep_view()[i] == out@[i].deep_view());
            assert(out@[i].deep_view() =~= out@[i]@);
        }
        assert(out.deep_view() =~= pop);
    }
    out
}

} // verus!
