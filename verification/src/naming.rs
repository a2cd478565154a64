//! Collision-free trash file names.
//!
//! A trashed file keeps its base name when no other trashed file, in
//! any registered trash, already uses it.  On a collision an increasing
//! numeric suffix is inserted before the extension — `name.txt`,
//! `name1.txt`, `name2.txt` — until a name is found that no existing
//! entry uses.  The suffix keeps the original extension so a manually
//! recovered file still opens with the right tool.

use crate::decimal::{dec_spec, lemma_dec_digits, lemma_dec_injective, to_decimal};
use crate::paths;
use crate::paths::{split_name_spec, DOT};
use vstd::prelude::*;
use vstd::set_lib::lemma_len_subset;

verus! {

/// The candidate name for attempt `i`: the base name's stem, the
/// decimal suffix, and the base name's extension where it has one.
pub open spec fn candidate_spec(base: Seq<u8>, i: nat) -> Seq<u8> {
    let stem = split_name_spec(base).0;
    match split_name_spec(base).1 {
        Some(e) => stem + dec_spec(i) + seq![DOT] + e,
        None => stem + dec_spec(i),
    }
}

/// The first candidate, from attempt `i` on, that no existing entry
/// uses.  `fuel` bounds the search; with fuel for one more candidate
/// than there are taken names, the search always succeeds.
pub open spec fn first_free_spec(base: Seq<u8>, taken: Seq<Seq<u8>>, i: nat, fuel: nat) -> Seq<u8>
    decreases fuel,
{
    if fuel == 0 || !taken.contains(candidate_spec(base, i)) {
        candidate_spec(base, i)
    } else {
        first_free_spec(base, taken, i + 1, (fuel - 1) as nat)
    }
}

/// The name a new entry receives: the base name itself when free, else
/// the first free suffixed candidate.
pub open spec fn unique_name_spec(base: Seq<u8>, taken: Seq<Seq<u8>>) -> Seq<u8> {
    if !taken.contains(base) {
        base
    } else {
        first_free_spec(base, taken, 1, taken.len() + 1)
    }
}

/// Distinct attempts give distinct candidate names.
proof fn lemma_candidate_injective(base: Seq<u8>, i: nat, j: nat)
    requires
        i != j,
    ensures
        candidate_spec(base, i) != candidate_spec(base, j),
{
    lemma_dec_injective(i, j);
    let stem = split_name_spec(base).0;
    let ci = candidate_spec(base, i);
    let cj = candidate_spec(base, j);
    if ci == cj {
        match split_name_spec(base).1 {
            Some(e) => {
                assert(ci == stem + dec_spec(i) + seq![DOT] + e);
                assert(cj == stem + dec_spec(j) + seq![DOT] + e);
            },
            None => {
                assert(ci == stem + dec_spec(i));
                assert(cj == stem + dec_spec(j));
            },
        }
        assert(dec_spec(i).len() == dec_spec(j).len());
        assert(dec_spec(i) =~= dec_spec(j)) by {
            assert forall|k: int| 0 <= k < dec_spec(i).len() implies dec_spec(i)[k] == dec_spec(
                j,
            )[k] by {
                assert(ci[stem.len() + k] == dec_spec(i)[k]);
                assert(cj[stem.len() + k] == dec_spec(j)[k]);
            }
        }
        assert(false);
    }
}

/// Among the candidates `1` through `taken.len() + 1` — one more than
/// there are taken names, and pairwise distinct — some candidate is
/// free.
proof fn lemma_candidates_pigeonhole(base: Seq<u8>, taken: Seq<Seq<u8>>)
    ensures
        exists|j: nat|
            1 <= j <= taken.len() + 1 && !taken.contains(#[trigger] candidate_spec(base, j)),
{
    if exists|j: nat|
        1 <= j <= taken.len() + 1 && !taken.contains(#[trigger] candidate_spec(base, j)) {
        return ;
    }
    assert(forall|j: nat|
        1 <= j <= taken.len() + 1 ==> taken.contains(#[trigger] candidate_spec(base, j)));
    let n = taken.len() + 1;
    let cands = Seq::new(n, |k: int| candidate_spec(base, (k + 1) as nat));
    assert(cands.no_duplicates()) by {
        assert forall|p: int, q: int|
            0 <= p < cands.len() && 0 <= q < cands.len() && p != q implies cands[p] != cands[q] by {
            lemma_candidate_injective(base, (p + 1) as nat, (q + 1) as nat);
        }
    }
    cands.unique_seq_to_set();
    taken.lemma_cardinality_of_set();
    assert(cands.to_set().subset_of(taken.to_set())) by {
        assert forall|x: Seq<u8>| cands.to_set().contains(x) implies taken.to_set().contains(x) by {
            let k = choose|k: int| 0 <= k < cands.len() && cands[k] == x;
            assert(taken.contains(candidate_spec(base, (k + 1) as nat)));
            let m = choose|m: int| 0 <= m < taken.len() && taken[m] == x;
            assert(taken.to_set().contains(taken[m]));
        }
    }
    assert(taken.to_set().finite()) by {
        broadcast use vstd::seq_lib::seq_to_set_is_finite;

    }
    lemma_len_subset(cands.to_set(), taken.to_set());
    assert(false);
}

/// The suffix search, started with enough fuel, returns a free name.
proof fn lemma_first_free_not_taken(base: Seq<u8>, taken: Seq<Seq<u8>>, i: nat, fuel: nat)
    requires
        1 <= i,
        i + fuel >= taken.len() + 2,
        forall|j: nat| 1 <= j < i ==> taken.contains(#[trigger] candidate_spec(base, j)),
    ensures
        !taken.contains(first_free_spec(base, taken, i, fuel)),
    decreases fuel,
{
    if taken.contains(candidate_spec(base, i)) {
        if fuel == 0 {
            assert(forall|j: nat|
                1 <= j <= taken.len() + 1 ==> taken.contains(#[trigger] candidate_spec(base, j)));
            lemma_candidates_pigeonhole(base, taken);
            let j = choose|j: nat|
                1 <= j <= taken.len() + 1 && !taken.contains(#[trigger] candidate_spec(base, j));
            assert(taken.contains(candidate_spec(base, j)));
        } else {
            lemma_first_free_not_taken(base, taken, i + 1, (fuel - 1) as nat);
        }
    }
}

/// The chosen name never collides with an existing entry.
pub proof fn lemma_unique_name_not_taken(base: Seq<u8>, taken: Seq<Seq<u8>>)
    ensures
        !taken.contains(unique_name_spec(base, taken)),
{
    if taken.contains(base) {
        lemma_first_free_not_taken(base, taken, 1, taken.len() + 1);
    }
}

/// Whether some taken name equals `x`.
pub fn contains_name(taken: &Vec<Vec<u8>>, x: &Vec<u8>) -> (r: bool)
    ensures
        r == taken.deep_view().contains(x@),
{
    let n = taken.len();
    for i in 0..n
        invariant
            n == taken.deep_view().len(),
            forall|k: int| 0 <= k < i ==> #[trigger] taken.deep_view()[k] != x@,
    {
        proof {
            assert(taken[i as int]@ =~= taken.deep_view()[i as int]);
        }
        if paths::bytes_eq(taken[i].as_slice(), x.as_slice()) {
            proof {
                assert(taken.deep_view()[i as int] == x@);
            }
            return true;
        }
    }
    proof {
        if taken.deep_view().contains(x@) {
            let k = choose|k: int|
                0 <= k < taken.deep_view().len() && taken.deep_view()[k] == x@;
            assert(taken.deep_view()[k] != x@);
        }
    }
    false
}

/// Builds the candidate name for attempt `i`.
fn candidate(base: &Vec<u8>, i: u128) -> (r: Vec<u8>)
    ensures
        r@ == candidate_spec(base@, i as nat),
{
    let se = paths::split_name(base);
    let mut r = se.0;
    let ghost stem = r@;
    let digits = to_decimal(i);
    let n = digits.len();
    let ghost dv = digits@;
    for k in 0..n
        invariant
            n == dv.len(),
            digits@ == dv,
            r@ == stem + dv.subrange(0, k as int),
    {
        r.push(digits[k]);
        assert(r@ =~= stem + dv.subrange(0, k + 1));
    }
    proof {
        assert(dv.subrange(0, dv.len() as int) =~= dv);
    }
    match se.1 {
        None => {
            proof {
                assert(r@ =~= candidate_spec(base@, i as nat));
            }
            r
        },
        Some(ext) => {
            r.push(DOT);
            let ghost head = r@;
            let m = ext.len();
            for k in 0..m
                invariant
                    m == ext@.len(),
                    r@ == head + ext@.subrange(0, k as int),
            {
                r.push(ext[k]);
                assert(r@ =~= head + ext@.subrange(0, k + 1));
            }
            proof {
                assert(ext@.subrange(0, ext@.len() as int) =~= ext@);
                assert(se.1.deep_view() == split_name_spec(base@).1);
                assert(ext@ == split_name_spec(base@).1.unwrap());
                assert(r@ =~= candidate_spec(base@, i as nat));
            }
            r
        },
    }
}

/// Picks the name a new entry receives, as `unique_name_spec` states
/// it: the base name when free, else the first free suffixed
/// candidate.  The result never collides with a taken name.
pub fn unique_name(base: &Vec<u8>, taken: &Vec<Vec<u8>>) -> (r: Vec<u8>)
    ensures
        r@ == unique_name_spec(base@, taken.deep_view()),
        !taken.deep_view().contains(r@),
{
    proof {
        lemma_unique_name_not_taken(base@, taken.deep_view());
    }
    if !contains_name(taken, base) {
        return base.clone();
    }
    let ghost tk = taken.deep_view();
    let tlen = taken.len();
    let mut i: u128 = 1;
    loop
        invariant
            1 <= i,
            i as nat <= tk.len() + 1,
            tk.len() == tlen as nat,
            tk == taken.deep_view(),
            tk.contains(base@),
            forall|j: nat| 1 <= j < i as nat ==> tk.contains(#[trigger] candidate_spec(base@, j)),
            first_free_spec(base@, tk, i as nat, (tk.len() + 2 - i) as nat) == unique_name_spec(
                base@,
                tk,
            ),
        decreases tk.len() + 2 - i,
    {
        let c = candidate(base, i);
        if !contains_name(taken, &c) {
            proof {
                assert(first_free_spec(base@, tk, i as nat, (tk.len() + 2 - i) as nat)
                    == candidate_spec(base@, i as nat));
                lemma_unique_name_not_taken(base@, tk);
            }
            return c;
        }
        proof {
            if i as nat >= tk.len() + 1 {
                assert(forall|j: nat|
                    1 <= j <= tk.len() + 1 ==> tk.contains(#[trigger] candidate_spec(base@, j)));
                lemma_candidates_pigeonhole(base@, tk);
                let j = choose|j: nat|
                    1 <= j <= tk.len() + 1 && !tk.contains(#[trigger] candidate_spec(base@, j));
                assert(tk.contains(candidate_spec(base@, j)));
            }
            assert((tk.len() + 2 - i) as nat != 0);
            assert(first_free_spec(base@, tk, i as nat, (tk.len() + 2 - i) as nat)
                == first_free_spec(base@, tk, i as nat + 1, (tk.len() + 2 - (i + 1)) as nat));
        }
        i = i + 1;
    }
}

/// The extension survives the suffix: digits hold no dot, so the last
/// dot of a suffixed candidate is the one written before the original
/// extension, and a base name without an extension gains none.
pub proof fn lemma_unique_name_extension(base: Seq<u8>, taken: Seq<Seq<u8>>)
    ensures
        split_name_spec(unique_name_spec(base, taken)).1 == split_name_spec(base).1,
{
    let r = unique_name_spec(base, taken);
    if taken.contains(base) {
        lemma_first_free_is_candidate(base, taken, 1, taken.len() + 1);
        let i = choose|i: nat| r == candidate_spec(base, i);
        lemma_candidate_extension(base, i);
    }
}

/// Whatever the search returns is some candidate.
proof fn lemma_first_free_is_candidate(base: Seq<u8>, taken: Seq<Seq<u8>>, i: nat, fuel: nat)
    ensures
        exists|j: nat| first_free_spec(base, taken, i, fuel) == candidate_spec(base, j),
    decreases fuel,
{
    if fuel == 0 || !taken.contains(candidate_spec(base, i)) {
        assert(first_free_spec(base, taken, i, fuel) == candidate_spec(base, i));
    } else {
        lemma_first_free_is_candidate(base, taken, i + 1, (fuel - 1) as nat);
    }
}

/// A candidate keeps the base name's extension.
proof fn lemma_candidate_extension(base: Seq<u8>, i: nat)
    ensures
        split_name_spec(candidate_spec(base, i)).1 == split_name_spec(base).1,
{
    let stem = split_name_spec(base).0;
    let c = candidate_spec(base, i);
    lemma_dec_digits(i);
    paths::lemma_last_index_of_byte(base, DOT);
    let li = paths::last_index_of_byte(base, DOT);
    paths::lemma_last_index_of_byte(c, DOT);
    let lc = paths::last_index_of_byte(c, DOT);
    match split_name_spec(base).1 {
        Some(e) => {
            // base splits at its last dot: everything after is the
            // extension, which therefore holds no dot
            assert(li > 0);
            assert(e =~= base.subrange(li + 1, base.len() as int));
            assert(forall|k: int| 0 <= k < e.len() ==> #[trigger] e[k] != DOT);
            let dotpos = stem.len() + dec_spec(i).len();
            assert(c[dotpos as int] == DOT);
            assert(forall|k: int| dotpos < k < c.len() ==> #[trigger] c[k] == e[k - dotpos - 1]);
            assert(forall|k: int| dotpos < k < c.len() ==> #[trigger] c[k] != DOT);
            if lc < dotpos {
                assert(c[dotpos as int] != DOT);
            }
            if lc > dotpos {
                assert(c[lc] != DOT);
            }
            assert(lc == dotpos);
            assert(lc > 0);
            assert(split_name_spec(c).1 == Some(c.subrange(lc + 1, c.len() as int)));
            assert(c.subrange(lc + 1, c.len() as int) =~= e);
        },
        None => {
            // the base name has no dot past its first byte, and digits
            // hold none either
            assert(li <= 0);
            assert(stem == base);
            assert(c =~= base + dec_spec(i));
            assert(forall|k: int|
                base.len() <= k < c.len() ==> #[trigger] c[k] == dec_spec(i)[k - base.len()]);
            assert(forall|k: int| base.len() <= k < c.len() ==> #[trigger] c[k] != DOT);
            assert forall|k: int| 0 < k < base.len() implies #[trigger] c[k] != DOT by {
                assert(c[k] == base[k]);
                if base[k] == DOT {
                    assert(li >= k);
                }
            }
            if lc > 0 {
                assert(c[lc] != DOT);
            }
            assert(lc <= 0);
            assert(split_name_spec(c).1 is None);
        },
    }
}

/// Uniqueness across repeated puts: when a second file is trashed after
/// the first, with the first's chosen name among the taken names, the
/// two chosen names differ, neither collides with an older entry, and
/// each keeps its own base name's extension.
pub proof fn lemma_sequential_puts_distinct(base1: Seq<u8>, base2: Seq<u8>, taken: Seq<Seq<u8>>)
    ensures
        ({
            let r1 = unique_name_spec(base1, taken);
            let r2 = unique_name_spec(base2, taken.push(r1));
            &&& r1 != r2
            &&& !taken.contains(r1)
            &&& !taken.contains(r2)
            &&& split_name_spec(r1).1 == split_name_spec(base1).1
            &&& split_name_spec(r2).1 == split_name_spec(base2).1
        }),
{
    let r1 = unique_name_spec(base1, taken);
    let r2 = unique_name_spec(base2, taken.push(r1));
    lemma_unique_name_not_taken(base1, taken);
    lemma_unique_name_not_taken(base2, taken.push(r1));
    assert(taken.push(r1)[taken.len() as int] == r1);
    assert(taken.push(r1).contains(r1));
    assert(!taken.contains(r2)) by {
        if taken.contains(r2) {
            let k = choose|k: int| 0 <= k < taken.len() && taken[k] == r2;
            assert(taken.push(r1)[k] == r2);
        }
    }
    lemma_unique_name_extension(base1, taken);
    lemma_unique_name_extension(base2, taken.push(r1));
}

} // verus!
