use rand::rngs::ThreadRng;
use vstd::prelude::*;

use crate::rng::{random_coin, random_index};

verus! {

/// A coefficient of a ternary polynomial: `0`, `1` or `-1`.
#[derive(Clone, Copy, PartialEq, Eq, Structural, Debug)]
pub enum Ternary {
    Zero,
    PlusOne,
    MinusOne,
}

/// The number of nonzero entries of `v`.
pub open spec fn nonzero_count(v: Seq<Ternary>) -> nat
    decreases v.len(),
{
    if v.len() == 0 {
        0
    } else {
        nonzero_count(v.drop_last()) + (if v.last() == Ternary::Zero { 0nat } else { 1nat })
    }
}

/// Setting a zero entry to a nonzero value raises the count by one.
proof fn lemma_count_update(v: Seq<Ternary>, i: int, t: Ternary)
    requires
        0 <= i < v.len(),
        v[i] == Ternary::Zero,
        t != Ternary::Zero,
    ensures
        nonzero_count(v.update(i, t)) == nonzero_count(v) + 1,
    decreases v.len(),
{
    let w = v.update(i, t);
    if i == v.len() - 1 {
        assert(w.drop_last() =~= v.drop_last());
    } else {
        lemma_count_update(v.drop_last(), i, t);
        assert(w.drop_last() =~= v.drop_last().update(i, t));
    }
}

/// An all-zero sequence has no nonzero entry.
proof fn lemma_count_zeros(v: Seq<Ternary>)
    requires
        forall|i: int| 0 <= i < v.len() ==> v[i] == Ternary::Zero,
    ensures
        nonzero_count(v) == 0,
    decreases v.len(),
{
    if v.len() > 0 {
        lemma_count_zeros(v.drop_last());
    }
}

/// A sequence with no zero entry has only nonzero entries.
proof fn lemma_count_full(v: Seq<Ternary>)
    requires
        forall|i: int| 0 <= i < v.len() ==> v[i] != Ternary::Zero,
    ensures
        nonzero_count(v) == v.len(),
    decreases v.len(),
{
    if v.len() > 0 {
        lemma_count_full(v.drop_last());
    }
}

/// The nonzero coefficient a coin gives: `+1` for heads, `-1` for tails.
pub open spec fn coin_sign(plus: bool) -> Ternary {
    if plus { Ternary::PlusOne } else { Ternary::MinusOne }
}

/// One draw `(idx, plus)` applied to `c`: a free position `idx` gets `coin_sign(plus)`, a set
/// one is left as it is.
pub open spec fn draw_step(c: Seq<Ternary>, idx: int, plus: bool) -> Seq<Ternary> {
    if c[idx] == Ternary::Zero { c.update(idx, coin_sign(plus)) } else { c }
}

/// The draws applied to `c` in order.
pub open spec fn apply_draws(c: Seq<Ternary>, draws: Seq<(int, bool)>) -> Seq<Ternary>
    decreases draws.len(),
{
    if draws.len() == 0 {
        c
    } else {
        draw_step(apply_draws(c, draws.drop_last()), draws.last().0, draws.last().1)
    }
}

/// The all-zero ternary vector of length `n`.
pub open spec fn ternary_zeros(n: nat) -> Seq<Ternary> {
    Seq::new(n, |i: int| Ternary::Zero)
}

/// `s` has length `n`, exactly `h` nonzero entries, and comes from the all-zero vector by `h`
/// draws of positions in `0..n` and coins.
pub open spec fn drawn_ternary(s: Seq<Ternary>, n: nat, h: nat) -> bool {
    &&& s.len() == n
    &&& nonzero_count(s) == h
    &&& exists|draws: Seq<(int, bool)>|
        draws.len() == h && (forall|k: int| 0 <= k < h ==> 0 <= (#[trigger] draws[k]).0 < n) && s
            == #[trigger] apply_draws(ternary_zeros(n), draws)
}

/// Places the draw `(idx, plus)` at the free position `idx`.
pub fn place_draw(coefs: &mut Vec<Ternary>, idx: usize, plus: bool)
    requires
        idx < old(coefs)@.len(),
        old(coefs)@[idx as int] == Ternary::Zero,
    ensures
        final(coefs)@ == draw_step(old(coefs)@, idx as int, plus),
        final(coefs)@ == old(coefs)@.update(idx as int, coin_sign(plus)),
{
    let t = if plus { Ternary::PlusOne } else { Ternary::MinusOne };
    coefs.set(idx, t);
}

/// A uniformly random ternary vector of length `n` with exactly `h` nonzero entries,
/// each `+1` or `-1` by a fair coin; positions are drawn from `0..n` until `h` distinct ones
/// are set. Should 2^64 - 1 position draws not suffice, the remaining entries go to the
/// first free positions, still with a coin each; so a vector is always returned.
pub fn sample_ternary(n: usize, rng: &mut ThreadRng, h: usize) -> (res: Option<Vec<Ternary>>)
    requires
        h <= n,
    ensures
        res is Some,
        res matches Some(v) ==> drawn_ternary(v@, n as nat, h as nat),
        h == 0 ==> (res matches Some(v) && v@ == Seq::new(n as nat, |i: int| Ternary::Zero)),
{
    let mut coefs: Vec<Ternary> = Vec::new();
    let mut k: usize = 0;
    while k < n
        invariant
            k <= n,
            coefs@.len() == k,
            forall|i: int| 0 <= i < k ==> coefs@[i] == Ternary::Zero,
        decreases n - k,
    {
        coefs.push(Ternary::Zero);
        k = k + 1;
    }
    proof {
        lemma_count_zeros(coefs@);
        assert(coefs@ =~= ternary_zeros(n as nat));
    }
    let ghost mut draws: Seq<(int, bool)> = Seq::empty();
    let mut n_set: usize = 0;
    let mut attempts: u64 = 0;
    while n_set < h
        invariant
            h <= n,
            coefs@.len() == n,
            n_set <= h,
            nonzero_count(coefs@) == n_set,
            h == 0 ==> forall|i: int| 0 <= i < n ==> coefs@[i] == Ternary::Zero,
            draws.len() == n_set,
            forall|k: int| 0 <= k < n_set ==> 0 <= (#[trigger] draws[k]).0 < n,
            coefs@ == apply_draws(ternary_zeros(n as nat), draws),
        decreases 0xffff_ffff_ffff_ffffu64 - attempts,
    {
        if attempts == 0xffff_ffff_ffff_ffffu64 {
            break;
        }
        attempts = attempts + 1;
        let idx = random_index(rng, n);
        if coefs[idx] != Ternary::Zero {
            continue;
        }
        let plus = random_coin(rng);
        proof {
            lemma_count_update(coefs@, idx as int, coin_sign(plus));
        }
        let ghost before = coefs@;
        place_draw(&mut coefs, idx, plus);
        proof {
            let d2 = draws.push((idx as int, plus));
            assert(d2.drop_last() =~= draws);
            assert(apply_draws(ternary_zeros(n as nat), d2) == draw_step(before, idx as int, plus));
            draws = d2;
        }
        n_set = n_set + 1;
    }
    // the draw budget is spent: the first free positions take the entries still owed
    let mut i: usize = 0;
    while i < n
        invariant
            h <= n,
            i <= n,
            coefs@.len() == n,
            n_set <= h,
            nonzero_count(coefs@) == n_set,
            h == 0 ==> forall|j: int| 0 <= j < n ==> coefs@[j] == Ternary::Zero,
            draws.len() == n_set,
            forall|k: int| 0 <= k < n_set ==> 0 <= (#[trigger] draws[k]).0 < n,
            coefs@ == apply_draws(ternary_zeros(n as nat), draws),
            n_set < h ==> forall|j: int| 0 <= j < i ==> coefs@[j] != Ternary::Zero,
        decreases n - i,
    {
        if n_set < h && coefs[i] == Ternary::Zero {
            let plus = random_coin(rng);
            proof {
                lemma_count_update(coefs@, i as int, coin_sign(plus));
            }
            let ghost before = coefs@;
            place_draw(&mut coefs, i, plus);
            proof {
                let d2 = draws.push((i as int, plus));
                assert(d2.drop_last() =~= draws);
                assert(apply_draws(ternary_zeros(n as nat), d2) == draw_step(before, i as int, plus));
                draws = d2;
            }
            n_set = n_set + 1;
        }
        i = i + 1;
    }
    proof {
        if n_set < h {
            lemma_count_full(coefs@);
        }
        if h == 0 {
            assert(coefs@ =~= Seq::new(n as nat, |i: int| Ternary::Zero));
        }
    }
    Some(coefs)
}

} // verus!
