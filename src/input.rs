use vstd::prelude::*;
use crate::error::{Error, PlayerID};
use crate::game_configuration::PlayerInfo;
use crate::election::{CardContext, PresidentialAction};
use crate::policy::Policy;
use vstd::string::StringSliceAdditionalSpecFns;
use vstd::utf8::encode_utf8;

verus! {

/// What `str::to_lowercase` returns for the characters `s`.
pub uninterp spec fn lower_of(s: Seq<char>) -> Seq<char>;

/// What `strsim::damerau_levenshtein` returns for the characters `a` and `b`.
pub uninterp spec fn edit_distance(a: Seq<char>, b: Seq<char>) -> nat;

/// The value of a string of ASCII decimal digits.
pub open spec fn decimal_value(ds: Seq<u8>) -> nat
    decreases ds.len(),
{
    if ds.len() == 0 { 0 } else { (decimal_value(ds.drop_last()) * 10 + (ds.last() as int - 0x30)) as nat }
}

pub open spec fn all_digits(ds: Seq<u8>) -> bool {
    forall|i: int| 0 <= i < ds.len() ==> 0x30 <= #[trigger] ds[i] <= 0x39
}

/// A decimal number as `str::parse::<usize>` reads the bytes of a string: an
/// optional `+`, then one or more ASCII digits, with a value that fits.
pub open spec fn usize_of(s: Seq<u8>) -> Option<usize> {
    let ds = if s.len() > 0 && s[0] == 0x2b { s.drop_first() } else { s };
    if ds.len() > 0 && all_digits(ds) && decimal_value(ds) <= usize::MAX {
        Some(decimal_value(ds) as usize)
    } else {
        None
    }
}

proof fn lemma_decimal_prefix(ds: Seq<u8>, k: int)
    requires
        all_digits(ds),
        0 <= k <= ds.len(),
    ensures
        decimal_value(ds.subrange(0, k)) <= decimal_value(ds),
    decreases ds.len() - k,
{
    if k < ds.len() {
        lemma_decimal_prefix(ds, k + 1);
        assert(ds.subrange(0, k + 1).drop_last() =~= ds.subrange(0, k));
        assert(0x30 <= ds[k] <= 0x39);
    } else {
        assert(ds.subrange(0, k) =~= ds);
    }
}

/// Relies on `str::to_lowercase`: the result depends on the characters alone.
#[verifier::external_body]
fn lowercase(s: &str) -> (r: String)
    ensures
        r@ == lower_of(s@),
{
    s.to_lowercase()
}

/// Relies on `strsim::damerau_levenshtein`: the edit distance of the two
/// strings, a function of their characters alone.
#[verifier::external_body]
fn damerau_levenshtein(a: &str, b: &str) -> (r: usize)
    ensures
        r as nat == edit_distance(a@, b@),
{
    strsim::damerau_levenshtein(a, b)
}

/// Reads a decimal number as `str::parse::<usize>` does.
fn parse_usize(s: &str) -> (r: Option<usize>)
    ensures
        r == usize_of(s.spec_bytes()),
{
    let b = s.as_bytes();
    let ghost bs = s.spec_bytes();
    let start: usize = if b.len() > 0 && b[0] == 0x2b { 1 } else { 0 };
    let ghost ds = if bs.len() > 0 && bs[0] == 0x2b { bs.drop_first() } else { bs };
    assert(ds =~= bs.subrange(start as int, bs.len() as int));
    if start == b.len() {
        return None;
    }
    let mut v: usize = 0;
    let mut i: usize = start;
    while i < b.len()
        invariant
            b@ == bs,
            bs == s.spec_bytes(),
            ds == (if bs.len() > 0 && bs[0] == 0x2b { bs.drop_first() } else { bs }),
            ds == bs.subrange(start as int, bs.len() as int),
            start <= i <= bs.len(),
            forall|t: int| start <= t < i ==> 0x30 <= #[trigger] bs[t] <= 0x39,
            v as nat == decimal_value(bs.subrange(start as int, i as int)),
        decreases bs.len() - i,
    {
        let c = b[i];
        if c < 0x30 || c > 0x39 {
            assert(ds[i - start] == c);
            assert(!all_digits(ds));
            return None;
        }
        assert(bs.subrange(start as int, i + 1 as int).drop_last() =~= bs.subrange(start as int, i as int));
        let m = match v.checked_mul(10) {
            None => {
                proof {
                    if all_digits(ds) {
                        lemma_decimal_prefix(ds, (i + 1 - start) as int);
                        assert(ds.subrange(0, (i + 1 - start) as int) =~= bs.subrange(start as int, i + 1 as int));
                    }
                }
                return None;
            },
            Some(m) => m,
        };
        v = match m.checked_add((c - 0x30) as usize) {
            None => {
                proof {
                    if all_digits(ds) {
                        lemma_decimal_prefix(ds, (i + 1 - start) as int);
                        assert(ds.subrange(0, (i + 1 - start) as int) =~= bs.subrange(start as int, i + 1 as int));
                    }
                }
                return None;
            },
            Some(x) => x,
        };
        i = i + 1;
    }
    assert(bs.subrange(start as int, i as int) =~= ds);
    Some(v)
}

/// Entry `i` has the least score of `scores`, skipping entry `skip`, and no
/// earlier entry has as little.
pub open spec fn first_least(scores: Seq<(PlayerID, usize)>, i: int, skip: int) -> bool {
    &&& 0 <= i < scores.len()
    &&& i != skip
    &&& forall|j: int| 0 <= j < scores.len() && j != skip ==> scores[i].1 <= #[trigger] scores[j].1
    &&& forall|j: int| 0 <= j < i && j != skip ==> scores[i].1 < #[trigger] scores[j].1
}

/// Entries `b` and `s` are the closest and the runner-up.
pub open spec fn least_pair(scores: Seq<(PlayerID, usize)>, b: int, s: int) -> bool {
    first_least(scores, b, -1) && first_least(scores, s, b)
}

/// The pick among `(seat, distance)` scores: the closest name, unless it is
/// far (four or more edits, with no rival) or a rival comes within two edits
/// of it without it matching exactly.
pub open spec fn picked(scores: Seq<(PlayerID, usize)>, best: int, second: int) -> Option<PlayerID> {
    if scores.len() == 0 {
        None
    } else if scores.len() == 1 {
        if scores[0].1 >= 4 { None } else { Some(scores[0].0) }
    } else {
        let b = scores[best].1;
        let s = scores[second].1;
        if (if s >= 2 { s - 2 } else { 0 }) < b && b != 0 { None } else { Some(scores[best].0) }
    }
}

fn least_index(scores: &Vec<(PlayerID, usize)>, skip: usize) -> (r: usize)
    requires
        scores@.len() >= 2,
        skip <= scores@.len(),
    ensures
        first_least(scores@, r as int, skip as int),
{
    let mut best: usize = if skip == 0 { 1 } else { 0 };
    let mut i: usize = best + 1;
    while i < scores.len()
        invariant
            best < scores@.len(),
            best != skip,
            best < i <= scores@.len(),
            skip <= scores@.len(),
            forall|j: int| 0 <= j < i && j != skip ==> scores@[best as int].1 <= #[trigger] scores@[j].1,
            forall|j: int| 0 <= j < best && j != skip ==> scores@[best as int].1 < #[trigger] scores@[j].1,
        decreases scores@.len() - i,
    {
        if i != skip && scores[i].1 < scores[best].1 {
            best = i;
        }
        i = i + 1;
    }
    best
}

/// Picks the player whose name is closest among `(seat, distance)` scores:
/// `None` when there is none, when the only one is four or more edits away,
/// or when the runner-up comes within two edits of a closest one that does
/// not match exactly.
pub fn pick_player(scores: &Vec<(PlayerID, usize)>) -> (r: Option<PlayerID>)
    ensures
        scores@.len() < 2 ==> r == picked(scores@, 0, 0),
        scores@.len() >= 2 ==> forall|b: int, s: int| first_least(scores@, b, -1) && first_least(scores@, s, b)
            ==> r == #[trigger] picked(scores@, b, s),
        scores@.len() >= 2 ==> exists|b: int, s: int| #[trigger] least_pair(scores@, b, s),
{
    let n = scores.len();
    if n == 0 {
        return None;
    }
    if n == 1 {
        return if scores[0].1 >= 4 { None } else { Some(scores[0].0) };
    }
    let best = least_index(scores, n);
    assert(first_least(scores@, best as int, -1));
    let second = least_index(scores, best);
    let b = scores[best].1;
    let s = scores[second].1;
    assert(least_pair(scores@, best as int, second as int));
    proof {
        assert forall|b2: int, s2: int| first_least(scores@, b2, -1) && first_least(scores@, s2, b2)
            implies picked(scores@, b2, s2) == picked(scores@, best as int, second as int) by {
            assert(b2 == best);
            assert(s2 == second);
        }
    }
    if s.saturating_sub(2) < b && b != 0 {
        None
    } else {
        Some(scores[best].0)
    }
}

/// The `(seat, distance)` scores of the named players against `lowered`.
pub open spec fn name_scores(players: Seq<PlayerInfo>, lowered: Seq<char>) -> Seq<(PlayerID, usize)>
    decreases players.len(),
{
    if players.len() == 0 {
        seq![]
    } else {
        let p = players.last();
        name_scores(players.drop_last(), lowered) + (if lower_of(p.name@).len() > 0 {
            seq![(p.seat, edit_distance(lowered, lower_of(p.name@)) as usize)]
        } else {
            seq![]
        })
    }
}

/// Resolves a player: a seat number as it stands, otherwise the player whose
/// name (compared in lower case) is closest, when that is clear enough.
pub fn parse_player_name(input: &str, registered_names: &Vec<PlayerInfo>) -> (r: Result<PlayerID, Error>)
    ensures
        usize_of(input.spec_bytes()) matches Some(n) ==> r == Ok::<PlayerID, Error>(n),
        usize_of(input.spec_bytes()) is None ==> {
            let scores = name_scores(registered_names@, lower_of(input@));
            &&& (scores.len() < 2 ==> (picked(scores, 0, 0) matches Some(p) ==> r == Ok::<PlayerID, Error>(p)))
            &&& (scores.len() < 2 ==> (picked(scores, 0, 0) is None ==> r is Err))
            &&& (scores.len() >= 2 ==> forall|b: int, s: int| first_least(scores, b, -1) && first_least(scores, s, b)
                ==> (#[trigger] picked(scores, b, s) matches Some(p) ==> r == Ok::<PlayerID, Error>(p)))
            &&& (scores.len() >= 2 ==> forall|b: int, s: int| first_least(scores, b, -1) && first_least(scores, s, b)
                ==> (#[trigger] picked(scores, b, s) is None ==> r is Err))
            &&& (r is Err ==> (r matches Err(Error::ParseNameError(t)) && t@ == lower_of(input@)))
            &&& (r matches Ok(p) ==> scores.len() < 2 ==> picked(scores, 0, 0) == Some(p))
        },
{
    if let Some(n) = parse_usize(input) {
        return Ok(n);
    }
    let lowered = lowercase(input);
    let mut scores: Vec<(PlayerID, usize)> = Vec::new();
    let mut i: usize = 0;
    while i < registered_names.len()
        invariant
            i <= registered_names@.len(),
            lowered@ == lower_of(input@),
            scores@ == name_scores(registered_names@.subrange(0, i as int), lowered@),
        decreases registered_names@.len() - i,
    {
        assert(registered_names@.subrange(0, i + 1 as int).drop_last() =~= registered_names@.subrange(0, i as int));
        let pi = &registered_names[i];
        let name = lowercase(pi.name.as_str());
        if !name.as_str().is_empty() {
            let d = damerau_levenshtein(lowered.as_str(), name.as_str());
            scores.push((pi.seat, d));
        }
        proof {
            let p = registered_names@.subrange(0, i + 1 as int).last();
            assert(p == registered_names@[i as int]);
        }
        assert(scores@ =~= name_scores(registered_names@.subrange(0, i + 1 as int), lowered@));
        i = i + 1;
    }
    assert(registered_names@.subrange(0, i as int) =~= registered_names@);
    match pick_player(&scores) {
        Some(p) => Ok(p),
        None => Err(Error::ParseNameError(lowered)),
    }
}

/// How the graph renderer is invoked.
#[derive(Debug, Clone, Copy, PartialEq, Eq, Structural)]
pub enum InvocationStrategy {
    Bash,
    Directly,
    Manual,
}

fn slice_equal(a: &[u8], b: &[u8]) -> (r: bool)
    ensures
        r == (a@ == b@),
{
    if a.len() != b.len() {
        return false;
    }
    let mut i: usize = 0;
    while i < a.len()
        invariant
            a@.len() == b@.len(),
            i <= a@.len(),
            forall|j: int| 0 <= j < i ==> a@[j] == b@[j],
        decreases a@.len() - i,
    {
        if a[i] != b[i] {
            return false;
        }
        i = i + 1;
    }
    assert(a@ =~= b@);
    true
}

/// The strategy that a renderer name (in lower case) stands for.
pub open spec fn strategy_of(lowered: Seq<u8>) -> Option<InvocationStrategy> {
    if lowered == seq![0x62u8, 0x61, 0x73, 0x68] {
        Some(InvocationStrategy::Bash)
    } else if lowered == seq![0x64u8, 0x6f, 0x74] {
        Some(InvocationStrategy::Directly)
    } else if lowered.len() == 0 {
        Some(InvocationStrategy::Manual)
    } else {
        None
    }
}

/// Reads the renderer to invoke: "bash", "dot" or nothing, in any case.
pub fn executable_parser(executable: &str) -> (r: Result<(String, InvocationStrategy), Error>)
    ensures
        strategy_of(encode_utf8(lower_of(executable@))) matches Some(st)
            ==> (r matches Ok((l, s)) && s == st && l@ == lower_of(executable@)),
        strategy_of(encode_utf8(lower_of(executable@))) is None
            ==> (r matches Err(Error::BadExecutable(t)) && t@ == executable@),
{
    let lowered = lowercase(executable);
    let bytes = lowered.as_str().as_bytes();
    let bash = [0x62u8, 0x61, 0x73, 0x68];
    let dot = [0x64u8, 0x6f, 0x74];
    assert(bash@ =~= seq![0x62u8, 0x61, 0x73, 0x68]);
    assert(dot@ =~= seq![0x64u8, 0x6f, 0x74]);
    let strategy = if slice_equal(bytes, &bash) {
        InvocationStrategy::Bash
    } else if slice_equal(bytes, &dot) {
        InvocationStrategy::Directly
    } else if bytes.len() == 0 {
        InvocationStrategy::Manual
    } else {
        return Err(Error::BadExecutable(executable.to_owned()));
    };
    Ok((lowered, strategy))
}

/// How an answer to a numeric question reads.
#[derive(Debug, Clone, Copy, PartialEq, Eq, Structural)]
pub enum ValueAnswer {
    Accepted(usize),
    NotANumber,
    TooSmall,
    TooLarge,
}

/// Reads an answer to a question with a value in `lo..=hi`; an empty answer
/// takes `default`, where there is one.
pub fn check_value_answer(input: &str, default: Option<usize>, lo: usize, hi: usize) -> (r: ValueAnswer)
    ensures
        ({
            let v = if input@.len() == 0 && default is Some { default } else { usize_of(input.spec_bytes()) };
            match v {
                None => r == ValueAnswer::NotANumber,
                Some(x) => if x < lo {
                    r == ValueAnswer::TooSmall
                } else if x > hi {
                    r == ValueAnswer::TooLarge
                } else {
                    r == ValueAnswer::Accepted(x)
                },
            }
        }),
{
    let v = if input.is_empty() && default.is_some() { default } else { parse_usize(input) };
    match v {
        None => ValueAnswer::NotANumber,
        Some(x) => if x < lo {
            ValueAnswer::TooSmall
        } else if x > hi {
            ValueAnswer::TooLarge
        } else {
            ValueAnswer::Accepted(x)
        },
    }
}

/// The board action that menu entry `choice` (1 to 7) stands for.
pub fn action_for_choice(choice: usize) -> (r: Option<PresidentialAction>)
    ensures
        (1 <= choice <= 7) == r is Some,
        choice == 1 ==> r == Some(PresidentialAction::NoAction),
        choice == 2 ==> r == Some(PresidentialAction::Kill(0)),
        choice == 3 ==> r == Some(PresidentialAction::Investigation(0, Policy::Liberal)),
        choice == 4 ==> r == Some(PresidentialAction::RevealParty(0, Policy::Liberal)),
        choice == 5 ==> r == Some(PresidentialAction::TopDeckPeek([Policy::Liberal, Policy::Liberal, Policy::Liberal])),
        choice == 6 ==> r == Some(PresidentialAction::SpecialElection(0)),
        choice == 7 ==> r == Some(PresidentialAction::PeekAndBurn(Policy::Liberal, false,
            CardContext { cards_left: 0, cards_discarded: 0, shuffle_index: 0 })),
{
    match choice {
        1 => Some(PresidentialAction::NoAction),
        2 => Some(PresidentialAction::Kill(0)),
        3 => Some(PresidentialAction::Investigation(0, Policy::Liberal)),
        4 => Some(PresidentialAction::RevealParty(0, Policy::Liberal)),
        5 => Some(PresidentialAction::TopDeckPeek([Policy::Liberal, Policy::Liberal, Policy::Liberal])),
        6 => Some(PresidentialAction::SpecialElection(0)),
        7 => Some(PresidentialAction::PeekAndBurn(Policy::Liberal, false,
            CardContext { cards_left: 0, cards_discarded: 0, shuffle_index: 0 })),
        _ => None,
    }
}

} // verus!
