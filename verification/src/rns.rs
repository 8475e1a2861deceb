use std::marker::PhantomData;

use rand::rngs::ThreadRng;
use vstd::arithmetic::div_mod::*;
use vstd::arithmetic::mul::*;
use vstd::arithmetic::power::*;
use vstd::arithmetic::power2::*;
use vstd::prelude::*;

use crate::arith::{
    accepted_root, add_mod, add_mod_seq, all_below, first_accepted_root, lemma_add_sub_roundtrip, mul_mod_seq,
    neg_mod, no_root_below, root_candidate, sub_mod, sub_mod_seq, ArithError, ModArith, VecOp, MODULUS_LIMIT,
};
use crate::crt::{distinct_primes, hat_inverse, lemma_convert_sum_is_crt_sum, lemma_crt_sum_overflow, lemma_crt_term};
use crate::euler::lemma_root_exists;
use crate::negacyclic::{negacyclic_partial, negacyclic_product};
use crate::primes::spec_prime;
use crate::ring::{forward_ntt_spec, inverse_ntt_spec, Ring, RingError};
use crate::rng::random_below;
use crate::sampling::{drawn_ternary, Ternary};

verus! {

/// Marker: the limbs hold coefficients.
#[derive(Debug)]
pub struct CoeffForm;

/// Marker: the limbs hold NTT evaluations.
#[derive(Debug)]
pub struct NttForm;

/// A polynomial in RNS form: limb `i` holds the residues modulo the `i`-th modulus.
#[derive(Debug)]
pub struct Poly<F> {
    pub limbs: Vec<Vec<u64>>,
    /// Which form the limbs are in.
    pub _form: PhantomData<F>,
}

impl<F> View for Poly<F> {
    type V = Seq<Seq<u64>>;

    open spec fn view(&self) -> Seq<Seq<u64>> {
        self.limbs@.map_values(|l: Vec<u64>| l@)
    }
}

impl<F> Poly<F> {
    pub fn new(limbs: Vec<Vec<u64>>) -> (p: Self)
        ensures
            p.limbs == limbs,
            p@ == limbs@.map_values(|l: Vec<u64>| l@),
    {
        Poly { limbs, _form: PhantomData }
    }
}

/// Error returned when an RNS ring cannot be built.
#[derive(Debug, PartialEq, Eq, Clone, Copy)]
pub enum RnsRingError {
    Arith(ArithError),
    Ring(RingError),
}

/// A modulus `q` can carry a ring of dimension `n`: it is below 2^61 and has a
/// primitive `2n`-th root of unity that the search finds.
pub open spec fn modulus_accepted(q: u64, n: usize) -> bool {
    q < MODULUS_LIMIT && !no_root_below(q as int, q as int, 2 * n as int)
}

/// The error that building a ring over a refused modulus reports.
pub open spec fn modulus_error(q: u64, n: usize) -> RnsRingError {
    if q >= MODULUS_LIMIT {
        RnsRingError::Arith(ArithError::InvalidModulusSize(q, 61))
    } else {
        RnsRingError::Ring(RingError::NoPrimitiveRoot(q, (2 * n) as u64))
    }
}

/// `e` is what building rings over `moduli` reports: the error of the first refused modulus.
pub open spec fn first_modulus_error(moduli: Seq<u64>, n: usize, e: RnsRingError) -> bool {
    exists|i: int|
        0 <= i < moduli.len() && (forall|j: int| 0 <= j < i ==> #[trigger] modulus_accepted(moduli[j], n))
            && !modulus_accepted(moduli[i], n) && e == #[trigger] modulus_error(moduli[i], n)
}

/// A prime below 2^61 with `2n | q - 1` is accepted: its root search succeeds.
pub proof fn lemma_prime_modulus_accepted(q: u64, n: usize)
    requires
        spec_prime(q as int),
        q < MODULUS_LIMIT,
        n >= 1,
        (q - 1) % (2 * n as int) == 0,
    ensures
        modulus_accepted(q, n),
{
    let g = lemma_root_exists(q as int, 2 * n as int);
    assert(accepted_root(root_candidate(g, q as int, 2 * n as int), q as int, 2 * n as int));
}

/// Over prime moduli with `2n | q - 1`, the only error that building the rings reports is the
/// size error of the first modulus that is not below 2^61.
pub proof fn lemma_prime_moduli_error(moduli: Seq<u64>, n: usize, e: RnsRingError)
    requires
        n >= 1,
        forall|i: int| 0 <= i < moduli.len() ==> #[trigger] spec_prime(moduli[i] as int),
        forall|i: int| 0 <= i < moduli.len() ==> (#[trigger] moduli[i] - 1) % (2 * n as int) == 0,
        first_modulus_error(moduli, n, e),
    ensures
        exists|i: int|
            0 <= i < moduli.len() && #[trigger] moduli[i] >= MODULUS_LIMIT && (forall|j: int|
                0 <= j < i ==> #[trigger] moduli[j] < MODULUS_LIMIT) && e == RnsRingError::Arith(
                ArithError::InvalidModulusSize(moduli[i], 61),
            ),
{
    let i = choose|i: int|
        0 <= i < moduli.len() && (forall|j: int| 0 <= j < i ==> #[trigger] modulus_accepted(moduli[j], n))
            && !modulus_accepted(moduli[i], n) && e == #[trigger] modulus_error(moduli[i], n);
    if moduli[i] < MODULUS_LIMIT {
        assert(spec_prime(moduli[i] as int));
        lemma_prime_modulus_accepted(moduli[i], n);
    }
    assert forall|j: int| 0 <= j < i implies #[trigger] moduli[j] < MODULUS_LIMIT by {
        assert(modulus_accepted(moduli[j], n));
    }
    assert(moduli[i] >= MODULUS_LIMIT);
}

/// `Π_{j < k, j != i} m[j]`.
pub open spec fn prod_except(m: Seq<u64>, i: int, k: int) -> int
    decreases k,
{
    if k <= 0 {
        1
    } else {
        prod_except(m, i, k - 1) * (if k - 1 == i { 1 } else { m[k - 1] as int })
    }
}

/// `Σ_{i < k} crt[i][j] · table[i][t]  (mod p)`, for output limb `t` and coefficient `j`.
pub open spec fn convert_sum(crt: Seq<Seq<u64>>, table: Seq<Seq<u64>>, t: int, j: int, k: int, p: int) -> int
    decreases k,
{
    if k <= 0 {
        0
    } else {
        (convert_sum(crt, table, t, j, k - 1, p) + (crt[k - 1][j] * table[k - 1][t]) % p) % p
    }
}

/// `table[i][k] = (Π_{j != i} src[j]) mod tgt[k]`.
pub open spec fn hat_table(src: Seq<u64>, tgt: Seq<u64>) -> Seq<Seq<u64>> {
    Seq::new(
        src.len(),
        |i: int| Seq::new(tgt.len(), |k: int| (prod_except(src, i, src.len() as int) % (tgt[k] as int)) as u64),
    )
}

/// The residue of a ternary coefficient modulo `q`.
pub open spec fn ternary_residue(t: Ternary, q: int) -> u64 {
    match t {
        Ternary::PlusOne => 1,
        Ternary::MinusOne => (q - 1) as u64,
        Ternary::Zero => 0,
    }
}

/// `(Π_j src[j]) mod tgt[k]` for every target modulus.
pub open spec fn product_mod_table(src: Seq<u64>, tgt: Seq<u64>) -> Seq<u64> {
    Seq::new(tgt.len(), |k: int| (prod_except(src, -1, src.len() as int) % (tgt[k] as int)) as u64)
}

/// One constant per modulus of `ring`, each reduced modulo its modulus.
pub open spec fn all_below_moduli(c: Seq<u64>, ring: &RnsRing) -> bool {
    c.len() == ring.num() && forall|i: int| 0 <= i < c.len() ==> #[trigger] c[i] < ring.q_at(i)
}

/// A product of residues reduced step by step equals the reduced product.
proof fn lemma_prod_except_step(m: Seq<u64>, i: int, k: int, p: int, acc: int)
    requires
        p > 0,
        k >= 0,
        acc == prod_except(m, i, k) % p,
    ensures
        (acc * (if k == i { 1 } else { (m[k] as int) % p })) % p == prod_except(m, i, k + 1) % p,
{
    let f = if k == i { 1 } else { m[k] as int };
    assert(prod_except(m, i, k + 1) == prod_except(m, i, k) * f);
    if k == i {
        lemma_mul_basics(acc);
        lemma_mod_twice(prod_except(m, i, k), p);
    } else {
        lemma_mul_mod_noop(prod_except(m, i, k), f, p);
    }
}

/// Precomputed cross-basis constants for converting between two RNS bases.
#[derive(Debug)]
pub struct CrossRingPrecomp {
    /// `(Q/q_i) mod p_k`: for conversion from the `q` basis to the `p` basis.
    pub q_hat_mod_p: Vec<Vec<u64>>,
    /// `(P/p_k) mod q_i`: for conversion from the `p` basis to the `q` basis.
    pub p_hat_mod_q: Vec<Vec<u64>>,
    /// `P mod q_i`: the special modulus reduced into each `q` modulus.
    pub p_mod_q: Vec<u64>,
}

impl CrossRingPrecomp {
    /// The tables of both conversion directions between `ring_q` and `ring_p`.
    pub fn new(ring_q: &RnsRing, ring_p: &RnsRing) -> (r: Self)
        requires
            ring_q.wf(),
            ring_p.wf(),
        ensures
            r.q_hat_mod_p@.map_values(|l: Vec<u64>| l@) == hat_table(ring_q.moduli(), ring_p.moduli()),
            r.p_hat_mod_q@.map_values(|l: Vec<u64>| l@) == hat_table(ring_p.moduli(), ring_q.moduli()),
            r.p_mod_q@ == product_mod_table(ring_p.moduli(), ring_q.moduli()),
            all_below_moduli(r.p_mod_q@, ring_q),
    {
        let q_hat_mod_p = Self::compute_hat_mod_target(ring_q, ring_p);
        let p_hat_mod_q = Self::compute_hat_mod_target(ring_p, ring_q);
        let p_mod_q = Self::compute_product_mod_target(ring_p, ring_q);
        CrossRingPrecomp { q_hat_mod_p, p_hat_mod_q, p_mod_q }
    }

    /// The product of all source moduli modulo each target modulus.
    fn compute_product_mod_target(source: &RnsRing, target: &RnsRing) -> (r: Vec<u64>)
        requires
            source.wf(),
            target.wf(),
        ensures
            r@ == product_mod_table(source.moduli(), target.moduli()),
            all_below_moduli(r@, target),
    {
        let src_count = source.num_moduli();
        let tgt_count = target.num_moduli();
        let ghost src = source.moduli();
        let ghost tgt = target.moduli();
        let mut row: Vec<u64> = Vec::new();
        let mut k: usize = 0;
        while k < tgt_count
            invariant
                source.wf(),
                target.wf(),
                src == source.moduli(),
                tgt == target.moduli(),
                src_count == src.len(),
                tgt_count == tgt.len(),
                k <= tgt_count,
                row@.len() == k,
                forall|t: int| 0 <= t < k ==> #[trigger] row@[t] == product_mod_table(src, tgt)[t],
                forall|t: int| 0 <= t < k ==> #[trigger] row@[t] < target.q_at(t),
            decreases tgt_count - k,
        {
            let ak = target.subrings[k].arith();
            let pk = ak.modulus();
            let ghost pp = pk as int;
            proof {
                target.subrings@[k as int].lemma_wf_bounds();
                assert(tgt[k as int] == pk);
                lemma_small_mod(1, pp as nat);
            }
            let mut product: u64 = 1;
            let mut j: usize = 0;
            while j < src_count
                invariant
                    source.wf(),
                    src == source.moduli(),
                    src_count == src.len(),
                    pp == ak.q(),
                    pk == pp,
                    pp >= 3,
                    j <= src_count,
                    product < pp,
                    product == prod_except(src, -1, j as int) % pp,
                decreases src_count - j,
            {
                let qj = source.modulus(j);
                proof {
                    lemma_prod_except_step(src, -1, j as int, pp, product as int);
                    lemma_mod_bound(qj as int, pp);
                }
                product = ak.mul(product, qj % pk);
                j = j + 1;
            }
            row.push(product);
            k = k + 1;
        }
        proof {
            assert(row@ =~= product_mod_table(src, tgt));
        }
        row
    }

    /// For each source modulus `i`, the product of all other source moduli modulo each target modulus.
    fn compute_hat_mod_target(source: &RnsRing, target: &RnsRing) -> (table: Vec<Vec<u64>>)
        requires
            source.wf(),
            target.wf(),
        ensures
            table@.map_values(|l: Vec<u64>| l@) == hat_table(source.moduli(), target.moduli()),
    {
        let src_count = source.num_moduli();
        let tgt_count = target.num_moduli();
        let ghost src = source.moduli();
        let ghost tgt = target.moduli();
        let ghost want = hat_table(src, tgt);
        let mut table: Vec<Vec<u64>> = Vec::new();
        let mut i: usize = 0;
        while i < src_count
            invariant
                source.wf(),
                target.wf(),
                src == source.moduli(),
                tgt == target.moduli(),
                want == hat_table(src, tgt),
                src_count == src.len(),
                tgt_count == tgt.len(),
                i <= src_count,
                table@.len() == i,
                forall|t: int| 0 <= t < i ==> #[trigger] table@[t]@ == want[t],
            decreases src_count - i,
        {
            let mut row: Vec<u64> = Vec::new();
            let mut k: usize = 0;
            while k < tgt_count
                invariant
                    source.wf(),
                    target.wf(),
                    src == source.moduli(),
                    tgt == target.moduli(),
                    want == hat_table(src, tgt),
                    src_count == src.len(),
                    tgt_count == tgt.len(),
                    i < src_count,
                    k <= tgt_count,
                    row@.len() == k,
                    forall|t: int| 0 <= t < k ==> #[trigger] row@[t] == want[i as int][t],
                decreases tgt_count - k,
            {
                let ak = target.subrings[k].arith();
                let pk = ak.modulus();
                let ghost pp = pk as int;
                proof {
                    target.subrings@[k as int].lemma_wf_bounds();
                    assert(target.subrings@[k as int].wf());
                    assert(tgt[k as int] == pk);
                    lemma_small_mod(1, pp as nat);
                }
                let mut product: u64 = 1;
                let mut j: usize = 0;
                while j < src_count
                    invariant
                        source.wf(),
                        src == source.moduli(),
                        src_count == src.len(),
                        pp == ak.q(),
                        pk == pp,
                        pp >= 3,
                        i < src_count,
                        j <= src_count,
                        product < pp,
                        product == prod_except(src, i as int, j as int) % pp,
                    decreases src_count - j,
                {
                    let qj = source.modulus(j);
                    proof {
                        lemma_prod_except_step(src, i as int, j as int, pp, product as int);
                        lemma_small_mod(product as nat, pp as nat);
                    }
                    if i != j {
                        proof { lemma_mod_bound(qj as int, pp); }
                        product = ak.mul(product, qj % pk);
                    } else {
                        proof { lemma_mul_basics(product as int); }
                    }
                    j = j + 1;
                }
                row.push(product);
                k = k + 1;
            }
            proof {
                assert(row@ =~= want[i as int]);
            }
            table.push(row);
            i = i + 1;
        }
        proof {
            assert(table@.map_values(|l: Vec<u64>| l@) =~= want);
        }
        table
    }
}

/// A ring `Z_Q[X]/(X^n + 1)` with `Q` a product of NTT-friendly moduli, in RNS form.
#[derive(Debug)]
pub struct RnsRing {
    subrings: Vec<Ring>,
    hat_inv: Vec<u64>,
}

impl RnsRing {
    /// The number of moduli.
    pub closed spec fn num(&self) -> nat {
        self.subrings@.len()
    }

    /// The ring of the `i`-th modulus.
    pub closed spec fn ring_at(&self, i: int) -> Ring {
        self.subrings@[i]
    }

    /// The `i`-th modulus.
    pub open spec fn q_at(&self, i: int) -> nat {
        self.ring_at(i).q()
    }

    /// The moduli, in order.
    pub open spec fn moduli(&self) -> Seq<u64> {
        Seq::new(self.num(), |i: int| self.q_at(i) as u64)
    }

    /// The dimension shared by all limbs.
    pub closed spec fn dim(&self) -> nat {
        if self.subrings@.len() > 0 { self.subrings@[0].dim() } else { 0 }
    }

    /// `hat_inv[i] = ((Q/q_i) mod q_i)^(q_i - 2) mod q_i`, the CRT reconstruction factor.
    pub closed spec fn hat_inv_at(&self, i: int) -> nat {
        self.hat_inv@[i] as nat
    }

    /// All subrings are well formed, share one dimension and one hat-inverse per modulus.
    pub closed spec fn wf(&self) -> bool {
        &&& forall|i: int| 0 <= i < self.subrings@.len() ==> (#[trigger] self.subrings@[i]).wf()
        &&& forall|i: int| 0 <= i < self.subrings@.len() ==> (#[trigger] self.subrings@[i]).dim() == self.dim()
        &&& self.hat_inv@.len() == self.subrings@.len()
        &&& forall|i: int| 0 <= i < self.subrings@.len() ==> #[trigger] self.hat_inv@[i] == pow(
            prod_except(self.moduli(), i, self.num() as int) % (self.q_at(i) as int),
            (self.q_at(i) - 2) as nat,
        ) % (self.q_at(i) as int)
    }


    /// The forward transform of each limb `i < num` in its own ring; further limbs unchanged.
    pub open spec fn ntt_limbs(&self, p: Seq<Seq<u64>>) -> Seq<Seq<u64>> {
        Seq::new(
            p.len(),
            |i: int|
                if i < self.num() {
                    forward_ntt_spec(p[i], self.ring_at(i).zeta_table(), self.q_at(i) as int)
                } else {
                    p[i]
                },
        )
    }

    /// The inverse transform of each limb `i < num` in its own ring; further limbs unchanged.
    pub open spec fn intt_limbs(&self, p: Seq<Seq<u64>>) -> Seq<Seq<u64>> {
        Seq::new(
            p.len(),
            |i: int|
                if i < self.num() {
                    inverse_ntt_spec(
                        p[i],
                        self.ring_at(i).inv_zeta_table(),
                        self.ring_at(i).n_inv_value() as int,
                        self.q_at(i) as int,
                    )
                } else {
                    p[i]
                },
        )
    }

    /// Limb-wise `a op b` for the limbs `i` below the lengths of both and `num`;
    /// the other limbs of `a` unchanged.
    pub open spec fn combine_limbs(&self, a: Seq<Seq<u64>>, b: Seq<Seq<u64>>, op: VecOp) -> Seq<Seq<u64>> {
        Seq::new(
            a.len(),
            |i: int|
                if i < b.len() && i < self.num() {
                    match op {
                        VecOp::Add => add_mod_seq(a[i], b[i], self.q_at(i) as int),
                        VecOp::Sub => sub_mod_seq(a[i], b[i], self.q_at(i) as int),
                        VecOp::Mul => mul_mod_seq(a[i], b[i], self.q_at(i) as int),
                    }
                } else {
                    a[i]
                },
        )
    }

    /// Limb-wise negation of the limbs `i < min(len, num)`; the result has that many limbs.
    pub open spec fn neg_limbs(&self, a: Seq<Seq<u64>>) -> Seq<Seq<u64>> {
        Seq::new(
            if a.len() < self.num() { a.len() } else { self.num() },
            |i: int| Seq::new(a[i].len(), |j: int| neg_mod(a[i][j] as int, self.q_at(i) as int) as u64),
        )
    }


    /// The RNS limbs of a ternary coefficient vector: one limb per modulus.
    pub open spec fn ternary_limbs(&self, s: Seq<Ternary>) -> Seq<Seq<u64>> {
        Seq::new(self.num(), |i: int| Seq::new(s.len(), |j: int| ternary_residue(s[j], self.q_at(i) as int)))
    }

    /// The RNS limbs of a signed coefficient vector: `e[j] mod q_i` in `0..q_i`.
    pub open spec fn signed_limbs(&self, e: Seq<i64>) -> Seq<Seq<u64>> {
        Seq::new(self.num(), |i: int| Seq::new(e.len(), |j: int| ((e[j] as int) % (self.q_at(i) as int)) as u64))
    }

    /// The RNS limbs of a wide signed coefficient vector: `c[j] mod q_i` in `0..q_i`.
    pub open spec fn wide_limbs(&self, c: Seq<i128>) -> Seq<Seq<u64>> {
        Seq::new(self.num(), |i: int| Seq::new(c.len(), |j: int| ((c[j] as int) % (self.q_at(i) as int)) as u64))
    }

    /// The limbs `i < min(len, num)` have reduced entries.
    pub open spec fn limbs_reduced(&self, p: Seq<Seq<u64>>) -> bool {
        forall|i: int| 0 <= i < p.len() && i < self.num() ==> all_below(#[trigger] p[i], self.q_at(i) as int)
    }

    /// The limbs `i` below both lengths and `num` have equal lengths and reduced entries.
    pub open spec fn pair_ok(&self, a: Seq<Seq<u64>>, b: Seq<Seq<u64>>) -> bool {
        forall|i: int| 0 <= i < a.len() && i < b.len() && i < self.num() ==> {
            &&& (#[trigger] a[i]).len() == b[i].len()
            &&& all_below(a[i], self.q_at(i) as int)
            &&& all_below(b[i], self.q_at(i) as int)
        }
    }

    /// The limbs `0..min(len, num)` that the limb-wise operations touch have length `n`
    /// and reduced entries.
    pub open spec fn limbs_ok(&self, p: Seq<Seq<u64>>) -> bool {
        forall|i: int| 0 <= i < p.len() && i < self.num() ==> {
            &&& (#[trigger] p[i]).len() == self.dim()
            &&& all_below(p[i], self.q_at(i) as int)
        }
    }

    /// `((Π_{j != i} q_j) mod q_i)^(q_i - 2) mod q_i` for every `i`.
    fn compute_hat_inv(subrings: &Vec<Ring>, moduli: &[u64]) -> (hat_inv: Vec<u64>)
        requires
            subrings@.len() == moduli@.len(),
            forall|i: int| 0 <= i < subrings@.len() ==> (#[trigger] subrings@[i]).wf(),
            forall|i: int| 0 <= i < subrings@.len() ==> (#[trigger] subrings@[i]).q() == moduli@[i],
        ensures
            hat_inv@.len() == moduli@.len(),
            forall|i: int| 0 <= i < moduli@.len() ==> #[trigger] hat_inv@[i] == pow(
                prod_except(moduli@, i, moduli@.len() as int) % (moduli@[i] as int),
                (moduli@[i] - 2) as nat,
            ) % (moduli@[i] as int),
    {
        let k = moduli.len();
        let mut hat_inv: Vec<u64> = Vec::new();
        let mut i: usize = 0;
        while i < k
            invariant
                k == moduli@.len(),
                subrings@.len() == k,
                forall|t: int| 0 <= t < k ==> (#[trigger] subrings@[t]).wf(),
                forall|t: int| 0 <= t < k ==> (#[trigger] subrings@[t]).q() == moduli@[t],
                i <= k,
                hat_inv@.len() == i,
                forall|t: int| 0 <= t < i ==> #[trigger] hat_inv@[t] == pow(
                    prod_except(moduli@, t, k as int) % (moduli@[t] as int),
                    (moduli@[t] - 2) as nat,
                ) % (moduli@[t] as int),
            decreases k - i,
        {
            let ai = subrings[i].arith();
            let qi = ai.modulus();
            let ghost qq = qi as int;
            proof {
                assert(subrings@[i as int].wf());
                subrings@[i as int].lemma_wf_bounds();
                lemma_small_mod(1, qq as nat);
            }
            let mut product: u64 = 1;
            let mut j: usize = 0;
            while j < k
                invariant
                    k == moduli@.len(),
                    qq == ai.q(),
                    qi == qq,
                    qq == moduli@[i as int],
                    qq >= 3,
                    i < k,
                    j <= k,
                    product < qq,
                    product == prod_except(moduli@, i as int, j as int) % qq,
                decreases k - j,
            {
                let qj = moduli[j];
                proof {
                    lemma_prod_except_step(moduli@, i as int, j as int, qq, product as int);
                    lemma_small_mod(product as nat, qq as nat);
                }
                if i != j {
                    proof { lemma_mod_bound(qj as int, qq); }
                    product = ai.mul(product, qj % qi);
                } else {
                    proof { lemma_mul_basics(product as int); }
                }
                j = j + 1;
            }
            hat_inv.push(ai.inv(product));
            i = i + 1;
        }
        hat_inv
    }

    /// Builds one ring per modulus (in order, stopping at the first refused modulus),
    /// together with the CRT reconstruction factors.
    pub fn new(moduli: &[u64], n: usize) -> (res: Result<Self, RnsRingError>)
        requires
            n >= 2,
            n < 0x4000_0000_0000_0000,
            is_pow2(n as int),
            forall|i: int| 0 <= i < moduli@.len() ==> #[trigger] moduli@[i] >= 1 && (moduli@[i] - 1) % (2 * n as int) == 0,
        ensures
            match res {
                Ok(r) => {
                    &&& r.wf()
                    &&& r.moduli() == moduli@
                    &&& r.num() == moduli@.len()
                    &&& r.num() > 0 ==> r.dim() == n
                    &&& forall|i: int| 0 <= i < moduli@.len() ==> #[trigger] modulus_accepted(moduli@[i], n)
                },
                Err(e) => first_modulus_error(moduli@, n, e),
            },
            (forall|i: int| 0 <= i < moduli@.len() ==> #[trigger] spec_prime(moduli@[i] as int)) ==> (res is Ok
                <==> forall|i: int| 0 <= i < moduli@.len() ==> #[trigger] moduli@[i] < MODULUS_LIMIT),
    {
        let mut subrings: Vec<Ring> = Vec::new();
        let mut i: usize = 0;
        while i < moduli.len()
            invariant
                n >= 2,
                n < 0x4000_0000_0000_0000,
                is_pow2(n as int),
                forall|t: int| 0 <= t < moduli@.len() ==> #[trigger] moduli@[t] >= 1 && (moduli@[t] - 1) % (2 * n as int) == 0,
                i <= moduli@.len(),
                subrings@.len() == i,
                forall|t: int| 0 <= t < i ==> (#[trigger] subrings@[t]).wf(),
                forall|t: int| 0 <= t < i ==> (#[trigger] subrings@[t]).q() == moduli@[t],
                forall|t: int| 0 <= t < i ==> (#[trigger] subrings@[t]).dim() == n,
                forall|t: int| 0 <= t < i ==> #[trigger] modulus_accepted(moduli@[t], n),
                forall|t: int| 0 <= t < i ==> #[trigger] moduli@[t] < MODULUS_LIMIT,
            decreases moduli@.len() - i,
        {
            let q = moduli[i];
            let arith = match ModArith::new(q) {
                Ok(a) => a,
                Err(e) => {
                    proof {
                        assert(!modulus_accepted(moduli@[i as int], n));
                        assert(RnsRingError::Arith(e) == modulus_error(moduli@[i as int], n));
                        assert(!(moduli@[i as int] < MODULUS_LIMIT));
                    }
                    return Err(RnsRingError::Arith(e));
                },
            };
            let ring = match Ring::new(arith, n) {
                Ok(r) => r,
                Err(e) => {
                    proof {
                        assert(!modulus_accepted(moduli@[i as int], n));
                        assert(RnsRingError::Ring(e) == modulus_error(moduli@[i as int], n));
                        assert(!spec_prime(moduli@[i as int] as int));
                    }
                    return Err(RnsRingError::Ring(e));
                },
            };
            proof {
                assert(modulus_accepted(moduli@[i as int], n)) by {
                    let psi = choose|psi: int|
                        first_accepted_root(psi, q as int, 2 * n as int) && #[trigger] ring.tables_from(psi);
                    let g = choose|g: int|
                        2 <= g < q && psi == #[trigger] root_candidate(g, q as int, 2 * n as int)
                            && accepted_root(psi, q as int, 2 * n as int) && no_root_below(g, q as int, 2 * n as int);
                    assert(!no_root_below(q as int, q as int, 2 * n as int)) by {
                        assert(accepted_root(root_candidate(g, q as int, 2 * n as int), q as int, 2 * n as int));
                    }
                    assert(ring.q() < MODULUS_LIMIT) by { ring.lemma_wf_bounds(); }
                }
            }
            subrings.push(ring);
            i = i + 1;
        }
        let hat_inv = Self::compute_hat_inv(&subrings, moduli);
        let r = RnsRing { subrings, hat_inv };
        proof {
            assert(r.moduli() =~= moduli@);
        }
        Ok(r)
    }

    pub fn n(&self) -> (r: usize)
        requires
            self.num() > 0,
        ensures
            r == self.dim(),
    {
        self.subrings[0].n()
    }

    pub fn num_moduli(&self) -> (r: usize)
        ensures
            r == self.num(),
    {
        self.subrings.len()
    }

    pub fn modulus(&self, i: usize) -> (r: u64)
        requires
            i < self.num(),
        ensures
            r == self.q_at(i as int),
    {
        self.subrings[i].modulus()
    }

    /// Forward NTT of every limb in its ring.
    pub fn ntt(&self, p: Poly<CoeffForm>) -> (r: Poly<NttForm>)
        requires
            self.wf(),
            self.limbs_ok(p@),
        ensures
            r@ == self.ntt_limbs(p@),
            self.limbs_ok(r@),
    {
        let ghost p0 = p@;
        let mut limbs = p.limbs;
        let k = if limbs.len() < self.subrings.len() { limbs.len() } else { self.subrings.len() };
        let mut i: usize = 0;
        while i < k
            invariant
                self.wf(),
                self.limbs_ok(p0),
                k <= limbs@.len(),
                k <= self.num(),
                k == limbs@.len() || k == self.num(),
                limbs@.len() == p0.len(),
                i <= k,
                forall|t: int| 0 <= t < i ==> #[trigger] limbs@[t]@ == self.ntt_limbs(p0)[t],
                forall|t: int| i <= t < limbs@.len() ==> #[trigger] limbs@[t]@ == p0[t],
            decreases k - i,
        {
            let ring = &self.subrings[i];
            proof {
                assert(self.subrings@[i as int].wf());
                assert(p0[i as int].len() == self.dim());
            }
            ring.forward_ntt_ct(limbs[i].as_mut_slice());
            i = i + 1;
        }
        let r = Poly::new(limbs);
        proof {
            assert(r@ =~= self.ntt_limbs(p0));
            self.lemma_ntt_limbs_ok(p0);
        }
        r
    }

    /// The transformed limbs stay reduced and keep their length.
    pub proof fn lemma_ntt_limbs_ok(&self, p: Seq<Seq<u64>>)
        requires
            self.wf(),
            self.limbs_ok(p),
        ensures
            self.limbs_ok(self.ntt_limbs(p)),
            self.limbs_ok(self.intt_limbs(p)),
    {
        assert forall|i: int| 0 <= i < p.len() && i < self.num() implies {
            &&& (#[trigger] self.ntt_limbs(p)[i]).len() == self.dim()
            &&& all_below(self.ntt_limbs(p)[i], self.q_at(i) as int)
        } by {
            let ring = self.ring_at(i);
            assert(self.subrings@[i].wf());
            ring.lemma_transforms_reduced(p[i]);
        }
        assert forall|i: int| 0 <= i < p.len() && i < self.num() implies {
            &&& (#[trigger] self.intt_limbs(p)[i]).len() == self.dim()
            &&& all_below(self.intt_limbs(p)[i], self.q_at(i) as int)
        } by {
            let ring = self.ring_at(i);
            assert(self.subrings@[i].wf());
            ring.lemma_transforms_reduced(p[i]);
        }
    }

    /// Inverse NTT of every limb in its ring.
    pub fn intt(&self, p: Poly<NttForm>) -> (r: Poly<CoeffForm>)
        requires
            self.wf(),
            self.limbs_ok(p@),
        ensures
            r@ == self.intt_limbs(p@),
            self.limbs_ok(r@),
    {
        let ghost p0 = p@;
        let mut limbs = p.limbs;
        let k = if limbs.len() < self.subrings.len() { limbs.len() } else { self.subrings.len() };
        let mut i: usize = 0;
        while i < k
            invariant
                self.wf(),
                self.limbs_ok(p0),
                k <= limbs@.len(),
                k <= self.num(),
                k == limbs@.len() || k == self.num(),
                limbs@.len() == p0.len(),
                i <= k,
                forall|t: int| 0 <= t < i ==> #[trigger] limbs@[t]@ == self.intt_limbs(p0)[t],
                forall|t: int| i <= t < limbs@.len() ==> #[trigger] limbs@[t]@ == p0[t],
            decreases k - i,
        {
            let ring = &self.subrings[i];
            proof {
                assert(self.subrings@[i as int].wf());
                assert(p0[i as int].len() == self.dim());
            }
            ring.inverse_ntt_gs(limbs[i].as_mut_slice());
            i = i + 1;
        }
        let r = Poly::new(limbs);
        proof {
            assert(r@ =~= self.intt_limbs(p0));
            self.lemma_ntt_limbs_ok(p0);
        }
        r
    }

    /// In place `a[i] = a[i] op b[i]` for the limbs `i` below both lengths and `num`.
    fn combine_inplace<F>(&self, a: &mut Poly<F>, b: &Poly<F>, op: VecOp)
        requires
            self.wf(),
            self.pair_ok(old(a)@, b@),
        ensures
            final(a)@ == self.combine_limbs(old(a)@, b@, op),
    {
        let ghost a0 = a@;
        let mut k = a.limbs.len();
        if b.limbs.len() < k {
            k = b.limbs.len();
        }
        if self.subrings.len() < k {
            k = self.subrings.len();
        }
        let mut i: usize = 0;
        while i < k
            invariant
                self.wf(),
                self.pair_ok(a0, b@),
                k <= a0.len(),
                k <= b@.len(),
                k <= self.num(),
                k == a0.len() || k == b@.len() || k == self.num(),
                a.limbs@.len() == a0.len(),
                i <= k,
                forall|t: int| 0 <= t < i ==> #[trigger] a.limbs@[t]@ == self.combine_limbs(a0, b@, op)[t],
                forall|t: int| i <= t < a.limbs@.len() ==> #[trigger] a.limbs@[t]@ == a0[t],
            decreases k - i,
        {
            let arith = self.subrings[i].arith();
            proof {
                assert(a0[i as int].len() == b@[i as int].len());
                assert(a.limbs@[i as int]@ == a0[i as int]);
                assert(b@[i as int] == b.limbs@[i as int]@);
            }
            match op {
                VecOp::Add => arith.add_vec(a.limbs[i].as_mut_slice(), b.limbs[i].as_slice()),
                VecOp::Sub => arith.sub_vec(a.limbs[i].as_mut_slice(), b.limbs[i].as_slice()),
                VecOp::Mul => arith.mul_vec(a.limbs[i].as_mut_slice(), b.limbs[i].as_slice()),
            }
            i = i + 1;
        }
        proof {
            assert(a@ =~= self.combine_limbs(a0, b@, op));
        }
    }

    /// In place limb-wise sum.
    pub fn add_inplace<F>(&self, a: &mut Poly<F>, b: &Poly<F>)
        requires
            self.wf(),
            self.pair_ok(old(a)@, b@),
        ensures
            final(a)@ == self.combine_limbs(old(a)@, b@, VecOp::Add),
    {
        self.combine_inplace(a, b, VecOp::Add);
    }

    /// In place limb-wise difference.
    pub fn sub_inplace<F>(&self, a: &mut Poly<F>, b: &Poly<F>)
        requires
            self.wf(),
            self.pair_ok(old(a)@, b@),
        ensures
            final(a)@ == self.combine_limbs(old(a)@, b@, VecOp::Sub),
    {
        self.combine_inplace(a, b, VecOp::Sub);
    }

    /// In place limb-wise (pointwise) product of NTT-form polynomials.
    pub fn mul_inplace(&self, a: &mut Poly<NttForm>, b: &Poly<NttForm>)
        requires
            self.wf(),
            self.pair_ok(old(a)@, b@),
        ensures
            final(a)@ == self.combine_limbs(old(a)@, b@, VecOp::Mul),
    {
        self.combine_inplace(a, b, VecOp::Mul);
    }

    /// A copy of the limbs.
    pub(crate) fn copy_limbs(limbs: &Vec<Vec<u64>>) -> (r: Vec<Vec<u64>>)
        ensures
            r@.map_values(|l: Vec<u64>| l@) == limbs@.map_values(|l: Vec<u64>| l@),
    {
        let mut out: Vec<Vec<u64>> = Vec::new();
        let mut i: usize = 0;
        while i < limbs.len()
            invariant
                i <= limbs@.len(),
                out@.len() == i,
                forall|t: int| 0 <= t < i ==> #[trigger] out@[t]@ == limbs@[t]@,
            decreases limbs@.len() - i,
        {
            let src = &limbs[i];
            let mut limb: Vec<u64> = Vec::new();
            let mut j: usize = 0;
            while j < src.len()
                invariant
                    j <= src@.len(),
                    limb@ == src@.subrange(0, j as int),
                decreases src@.len() - j,
            {
                limb.push(src[j]);
                j = j + 1;
                proof {
                    assert(limb@ =~= src@.subrange(0, j as int));
                }
            }
            proof {
                assert(limb@ =~= src@);
            }
            out.push(limb);
            i = i + 1;
        }
        proof {
            assert(out@.map_values(|l: Vec<u64>| l@) =~= limbs@.map_values(|l: Vec<u64>| l@));
        }
        out
    }

    /// Limb-wise sum into a new polynomial.
    pub fn add<F>(&self, a: &Poly<F>, b: &Poly<F>) -> (r: Poly<F>)
        requires
            self.wf(),
            self.pair_ok(a@, b@),
        ensures
            r@ == self.combine_limbs(a@, b@, VecOp::Add),
    {
        let mut out = Poly::new(Self::copy_limbs(&a.limbs));
        self.add_inplace(&mut out, b);
        out
    }

    /// Limb-wise difference into a new polynomial.
    pub fn sub<F>(&self, a: &Poly<F>, b: &Poly<F>) -> (r: Poly<F>)
        requires
            self.wf(),
            self.pair_ok(a@, b@),
        ensures
            r@ == self.combine_limbs(a@, b@, VecOp::Sub),
    {
        let mut out = Poly::new(Self::copy_limbs(&a.limbs));
        self.sub_inplace(&mut out, b);
        out
    }

    /// Limb-wise product of NTT-form polynomials into a new polynomial.
    pub fn mul(&self, a: &Poly<NttForm>, b: &Poly<NttForm>) -> (r: Poly<NttForm>)
        requires
            self.wf(),
            self.pair_ok(a@, b@),
        ensures
            r@ == self.combine_limbs(a@, b@, VecOp::Mul),
    {
        let mut out = Poly::new(Self::copy_limbs(&a.limbs));
        self.mul_inplace(&mut out, b);
        out
    }

    /// Limb-wise negation; the result has one limb per limb of `a` that has a modulus.
    pub fn neg<F>(&self, a: &Poly<F>) -> (r: Poly<F>)
        requires
            self.wf(),
            self.limbs_reduced(a@),
        ensures
            r@ == self.neg_limbs(a@),
    {
        let mut k = a.limbs.len();
        if self.subrings.len() < k {
            k = self.subrings.len();
        }
        let mut limbs: Vec<Vec<u64>> = Vec::new();
        let mut i: usize = 0;
        while i < k
            invariant
                self.wf(),
                self.limbs_reduced(a@),
                k <= a@.len(),
                k <= self.num(),
                k == a@.len() || k == self.num(),
                i <= k,
                limbs@.len() == i,
                forall|t: int| 0 <= t < i ==> #[trigger] limbs@[t]@ == self.neg_limbs(a@)[t],
            decreases k - i,
        {
            let arith = self.subrings[i].arith();
            let la = &a.limbs[i];
            proof {
                assert(la@ == a@[i as int]);
                assert(all_below(a@[i as int], self.q_at(i as int) as int));
            }
            let mut out: Vec<u64> = Vec::new();
            let mut j: usize = 0;
            while j < la.len()
                invariant
                    la@ == a@[i as int],
                    arith.q() == self.q_at(i as int),
                    all_below(la@, arith.q() as int),
                    j <= la@.len(),
                    out@.len() == j,
                    forall|t: int| 0 <= t < j ==> #[trigger] out@[t] == neg_mod(la@[t] as int, arith.q() as int),
                decreases la@.len() - j,
            {
                let x = la[j];
                proof { assert(x < arith.q()) by { assert(la@[j as int] < arith.q()); } }
                out.push(arith.neg(x));
                j = j + 1;
            }
            proof {
                assert(out@ =~= self.neg_limbs(a@)[i as int]);
            }
            limbs.push(out);
            i = i + 1;
        }
        let r = Poly::new(limbs);
        proof {
            assert(r@ =~= self.neg_limbs(a@));
        }
        r
    }

    /// Each coefficient of limb `i` times `hat_inv[i]`, modulo `q_i`.
    pub open spec fn crt_limbs(&self, p: Seq<Seq<u64>>) -> Seq<Seq<u64>> {
        Seq::new(
            p.len(),
            |i: int|
                Seq::new(
                    p[i].len(),
                    |j: int| ((p[i][j] * self.hat_inv_at(i)) % (self.q_at(i) as int)) as u64,
                ),
        )
    }

    /// The CRT coefficients `[x_i · (Q/q_i)^(-1)]_{q_i}` of every limb.
    pub fn crt_coefficients(&self, poly: &Poly<CoeffForm>) -> (r: Vec<Vec<u64>>)
        requires
            self.wf(),
            poly@.len() <= self.num(),
            self.limbs_reduced(poly@),
        ensures
            r@.map_values(|l: Vec<u64>| l@) == self.crt_limbs(poly@),
            distinct_primes(self.moduli()) ==> forall|i: int, j: int|
                0 <= i < poly@.len() && 0 <= j < poly@[i].len() ==> (#[trigger] r@[i]@[j] * prod_except(
                    self.moduli(),
                    i,
                    self.num() as int,
                )) % (self.q_at(i) as int) == poly@[i][j],
    {
        let mut out: Vec<Vec<u64>> = Vec::new();
        let mut i: usize = 0;
        while i < poly.limbs.len()
            invariant
                self.wf(),
                poly@.len() <= self.num(),
                self.limbs_reduced(poly@),
                i <= poly@.len(),
                out@.len() == i,
                forall|t: int| 0 <= t < i ==> #[trigger] out@[t]@ == self.crt_limbs(poly@)[t],
            decreases poly@.len() - i,
        {
            let ai = self.subrings[i].arith();
            let h = self.hat_inv[i];
            let limb = &poly.limbs[i];
            proof {
                assert(limb@ == poly@[i as int]);
                assert(all_below(poly@[i as int], self.q_at(i as int) as int));
                self.subrings@[i as int].lemma_wf_bounds();
                self.lemma_hat_inv_bound(i as int);
            }
            let mut row: Vec<u64> = Vec::new();
            let mut j: usize = 0;
            while j < limb.len()
                invariant
                    i < poly@.len(),
                    limb@ == poly@[i as int],
                    ai.q() == self.q_at(i as int),
                    h == self.hat_inv_at(i as int),
                    h < ai.q(),
                    all_below(limb@, ai.q() as int),
                    j <= limb@.len(),
                    row@.len() == j,
                    forall|t: int| 0 <= t < j ==> #[trigger] row@[t] == self.crt_limbs(poly@)[i as int][t],
                decreases limb@.len() - j,
            {
                let c = limb[j];
                proof { assert(c < ai.q()) by { assert(limb@[j as int] < ai.q()); } }
                row.push(ai.mul(c, h));
                j = j + 1;
            }
            proof {
                assert(row@ =~= self.crt_limbs(poly@)[i as int]);
            }
            out.push(row);
            i = i + 1;
        }
        proof {
            assert(out@.map_values(|l: Vec<u64>| l@) =~= self.crt_limbs(poly@));
            if distinct_primes(self.moduli()) {
                assert forall|i: int, j: int|
                    0 <= i < poly@.len() && 0 <= j < poly@[i].len() implies (#[trigger] out@[i]@[j] * prod_except(
                    self.moduli(),
                    i,
                    self.num() as int,
                )) % (self.q_at(i) as int) == poly@[i][j] by {
                    let q = self.q_at(i) as int;
                    let x = poly@[i][j] as int;
                    self.lemma_hat_inv(i);
                    self.lemma_modulus_bounds(i);
                    assert(out@[i]@ == self.crt_limbs(poly@)[i]);
                    assert(x < q);
                    lemma_small_mod(x as nat, q as nat);
                    lemma_crt_term(self.moduli(), i, x);
                }
            }
        }
        out
    }

    /// The stored CRT factor of modulus `i` is `(Π_{j != i} q_j)^(q_i - 2) mod q_i`, the
    /// inverse of the cofactor modulo `q_i` when the moduli are distinct primes.
    pub proof fn lemma_hat_inv(&self, i: int)
        requires
            self.wf(),
            0 <= i < self.num(),
        ensures
            self.hat_inv_at(i) == hat_inverse(self.moduli(), i),
            distinct_primes(self.moduli()) ==> (self.hat_inv_at(i) * prod_except(self.moduli(), i, self.num() as int))
                % (self.q_at(i) as int) == 1,
    {
        self.lemma_modulus_bounds(i);
        if distinct_primes(self.moduli()) {
            lemma_crt_term(self.moduli(), i, 1);
            lemma_small_mod(1, self.q_at(i));
            self.lemma_hat_inv_bound(i);
            lemma_small_mod(self.hat_inv_at(i), self.q_at(i));
        }
    }

    /// The stored CRT factor is reduced.
    proof fn lemma_hat_inv_bound(&self, i: int)
        requires
            self.wf(),
            0 <= i < self.num(),
        ensures
            self.hat_inv_at(i) < self.q_at(i),
    {
        self.subrings@[i].lemma_wf_bounds();
        assert(self.subrings@[i].wf());
        lemma_mod_bound(
            pow(prod_except(self.moduli(), i, self.num() as int) % (self.q_at(i) as int), (self.q_at(i) - 2) as nat),
            self.q_at(i) as int,
        );
    }

    /// Approximate base conversion: output limb `k`, coefficient `j`, is
    /// `Σ_i crt[i][j] · table[i][k]  mod q_k`.
    pub fn base_convert(&self, crt_coeffs: &[Vec<u64>], cross_table: &[Vec<u64>]) -> (r: Poly<CoeffForm>)
        requires
            self.wf(),
            crt_coeffs@.len() > 0,
            cross_table@.len() >= crt_coeffs@.len(),
            forall|i: int| 0 <= i < crt_coeffs@.len() ==> (#[trigger] crt_coeffs@[i])@.len() >= crt_coeffs@[0]@.len(),
            forall|i: int| 0 <= i < crt_coeffs@.len() ==> (#[trigger] cross_table@[i])@.len() >= self.num(),
            forall|i: int, k: int| 0 <= i < crt_coeffs@.len() && 0 <= k < self.num() ==> (#[trigger] cross_table@[i]@[k]) < self.q_at(k),
        ensures
            r@.len() == self.num(),
            forall|k: int| 0 <= k < self.num() ==> (#[trigger] r@[k]).len() == crt_coeffs@[0]@.len(),
            forall|k: int, j: int| 0 <= k < self.num() && 0 <= j < crt_coeffs@[0]@.len() ==> #[trigger] r@[k][j]
                == convert_sum(
                    crt_coeffs@.map_values(|l: Vec<u64>| l@),
                    cross_table@.map_values(|l: Vec<u64>| l@),
                    k,
                    j,
                    crt_coeffs@.len() as int,
                    self.q_at(k) as int,
                ),
    {
        let ghost crt = crt_coeffs@.map_values(|l: Vec<u64>| l@);
        let ghost tab = cross_table@.map_values(|l: Vec<u64>| l@);
        let n = crt_coeffs[0].len();
        let m = crt_coeffs.len();
        let mut limbs: Vec<Vec<u64>> = Vec::new();
        let mut k: usize = 0;
        while k < self.subrings.len()
            invariant
                self.wf(),
                crt == crt_coeffs@.map_values(|l: Vec<u64>| l@),
                tab == cross_table@.map_values(|l: Vec<u64>| l@),
                n == crt_coeffs@[0]@.len(),
                m == crt_coeffs@.len(),
                m > 0,
                cross_table@.len() >= m,
                forall|i: int| 0 <= i < m ==> (#[trigger] crt_coeffs@[i])@.len() >= n,
                forall|i: int| 0 <= i < m ==> (#[trigger] cross_table@[i])@.len() >= self.num(),
                forall|i: int, t: int| 0 <= i < m && 0 <= t < self.num() ==> (#[trigger] cross_table@[i]@[t]) < self.q_at(t),
                k <= self.num(),
                limbs@.len() == k,
                forall|t: int| 0 <= t < k ==> (#[trigger] limbs@[t])@.len() == n,
                forall|t: int, j: int| 0 <= t < k && 0 <= j < n ==> #[trigger] limbs@[t]@[j]
                    == convert_sum(crt, tab, t, j, m as int, self.q_at(t) as int),
            decreases self.num() - k,
        {
            let ak = self.subrings[k].arith();
            let ghost qk = ak.q() as int;
            proof {
                self.subrings@[k as int].lemma_wf_bounds();
                assert(self.subrings@[k as int].wf());
            }
            let mut row: Vec<u64> = Vec::new();
            let mut j: usize = 0;
            while j < n
                invariant
                    self.wf(),
                    crt == crt_coeffs@.map_values(|l: Vec<u64>| l@),
                    tab == cross_table@.map_values(|l: Vec<u64>| l@),
                    n == crt_coeffs@[0]@.len(),
                    m == crt_coeffs@.len(),
                    cross_table@.len() >= m,
                    forall|i: int| 0 <= i < m ==> (#[trigger] crt_coeffs@[i])@.len() >= n,
                    forall|i: int| 0 <= i < m ==> (#[trigger] cross_table@[i])@.len() >= self.num(),
                    forall|i: int, t: int| 0 <= i < m && 0 <= t < self.num() ==> (#[trigger] cross_table@[i]@[t]) < self.q_at(t),
                    k < self.num(),
                    qk == self.q_at(k as int),
                    qk == ak.q(),
                    qk >= 3,
                    j <= n,
                    row@.len() == j,
                    forall|jj: int| 0 <= jj < j ==> #[trigger] row@[jj] == convert_sum(crt, tab, k as int, jj, m as int, qk),
                decreases n - j,
            {
                let mut sum: u64 = 0;
                let mut i: usize = 0;
                proof { lemma_small_mod(0, qk as nat); }
                while i < m
                    invariant
                        crt == crt_coeffs@.map_values(|l: Vec<u64>| l@),
                        tab == cross_table@.map_values(|l: Vec<u64>| l@),
                        m == crt_coeffs@.len(),
                        n == crt_coeffs@[0]@.len(),
                        cross_table@.len() >= m,
                        forall|ii: int| 0 <= ii < m ==> (#[trigger] crt_coeffs@[ii])@.len() >= n,
                        forall|ii: int| 0 <= ii < m ==> (#[trigger] cross_table@[ii])@.len() >= self.num(),
                        forall|ii: int, t: int| 0 <= ii < m && 0 <= t < self.num() ==> (#[trigger] cross_table@[ii]@[t]) < self.q_at(t),
                        k < self.num(),
                        j < n,
                        qk == self.q_at(k as int),
                        qk == ak.q(),
                        qk >= 3,
                        i <= m,
                        sum < qk,
                        sum == convert_sum(crt, tab, k as int, j as int, i as int, qk),
                    decreases m - i,
                {
                    let c = crt_coeffs[i][j];
                    let x = c % ak.modulus();
                    let y = cross_table[i][k];
                    proof {
                        assert(y < qk);
                        assert(crt[i as int][j as int] == c);
                        assert(tab[i as int][k as int] == y);
                        lemma_mul_mod_noop_left(c as int, y as int, qk);
                    }
                    let t = ak.mul(x, y);
                    sum = ak.add(sum, t);
                    i = i + 1;
                }
                row.push(sum);
                j = j + 1;
            }
            limbs.push(row);
            k = k + 1;
        }
        let r = Poly::new(limbs);
        r
    }

    /// Every limb of a polynomial built from one coefficient vector per modulus is well formed.
    proof fn lemma_full_limbs_ok(&self, p: Seq<Seq<u64>>)
        requires
            self.wf(),
            p.len() == self.num(),
            forall|i: int| 0 <= i < self.num() ==> (#[trigger] p[i]).len() == self.dim() && all_below(p[i], self.q_at(i) as int),
        ensures
            self.limbs_ok(p),
    {
    }

    /// The NTT-form polynomial of a ternary coefficient vector of length `n`.
    pub fn poly_from_ternary(&self, s: &[Ternary]) -> (r: Poly<NttForm>)
        requires
            self.wf(),
            self.num() > 0 ==> s@.len() == self.dim(),
        ensures
            r@ == self.ntt_limbs(self.ternary_limbs(s@)),
            self.limbs_ok(r@),
    {
        let mut limbs: Vec<Vec<u64>> = Vec::new();
        let mut i: usize = 0;
        while i < self.subrings.len()
            invariant
                self.wf(),
                self.num() > 0 ==> s@.len() == self.dim(),
                i <= self.num(),
                limbs@.len() == i,
                forall|t: int| 0 <= t < i ==> #[trigger] limbs@[t]@ == self.ternary_limbs(s@)[t],
                forall|t: int| 0 <= t < i ==> all_below(#[trigger] limbs@[t]@, self.q_at(t) as int),
            decreases self.num() - i,
        {
            let modulus = self.subrings[i].modulus();
            proof {
                self.subrings@[i as int].lemma_wf_bounds();
                assert(self.subrings@[i as int].wf());
            }
            let mut limb: Vec<u64> = Vec::new();
            let mut j: usize = 0;
            while j < s.len()
                invariant
                    i < self.num(),
                    modulus == self.q_at(i as int),
                    modulus >= 3,
                    j <= s@.len(),
                    limb@.len() == j,
                    forall|t: int| 0 <= t < j ==> #[trigger] limb@[t] == ternary_residue(s@[t], modulus as int),
                    all_below(limb@, modulus as int),
                decreases s@.len() - j,
            {
                let v = match s[j] {
                    Ternary::PlusOne => 1,
                    Ternary::MinusOne => modulus - 1,
                    Ternary::Zero => 0,
                };
                limb.push(v);
                j = j + 1;
            }
            proof {
                assert(limb@ =~= self.ternary_limbs(s@)[i as int]);
            }
            limbs.push(limb);
            i = i + 1;
        }
        let p = Poly::<CoeffForm>::new(limbs);
        proof {
            assert(p@ =~= self.ternary_limbs(s@));
            self.lemma_full_limbs_ok(p@);
        }
        self.ntt(p)
    }

    /// `e mod q` in `0..q` for a signed `e`.
    fn signed_residue(e: i64, q: u64) -> (r: u64)
        requires
            q > 0,
        ensures
            r == (e as int) % (q as int),
            r < q,
    {
        if e >= 0 {
            proof { lemma_mod_bound(e as int, q as int); }
            (e as u64) % q
        } else {
            let mag: u64 = (0 - (e as i128)) as u64;
            let r = mag % q;
            proof {
                lemma_mod_bound(mag as int, q as int);
                lemma_sub_mod_noop(0, mag as int, q as int);
                lemma_small_mod(0, q as nat);
                assert(e as int == 0 - mag);
            }
            if r == 0 {
                0
            } else {
                proof {
                    lemma_fundamental_div_mod_converse_mod(0 - r, q as int, -1, q - r);
                    assert((0 - r) % (q as int) == q - r);
                }
                q - r
            }
        }
    }

    /// The NTT-form polynomial of a signed coefficient vector of length `n`.
    pub fn poly_from_i64(&self, e: &[i64]) -> (r: Poly<NttForm>)
        requires
            self.wf(),
            self.num() > 0 ==> e@.len() == self.dim(),
        ensures
            r@ == self.ntt_limbs(self.signed_limbs(e@)),
            self.limbs_ok(r@),
    {
        let mut limbs: Vec<Vec<u64>> = Vec::new();
        let mut i: usize = 0;
        while i < self.subrings.len()
            invariant
                self.wf(),
                self.num() > 0 ==> e@.len() == self.dim(),
                i <= self.num(),
                limbs@.len() == i,
                forall|t: int| 0 <= t < i ==> #[trigger] limbs@[t]@ == self.signed_limbs(e@)[t],
                forall|t: int| 0 <= t < i ==> all_below(#[trigger] limbs@[t]@, self.q_at(t) as int),
            decreases self.num() - i,
        {
            let q = self.subrings[i].modulus();
            proof {
                self.subrings@[i as int].lemma_wf_bounds();
            }
            let mut limb: Vec<u64> = Vec::new();
            let mut j: usize = 0;
            while j < e.len()
                invariant
                    i < self.num(),
                    q == self.q_at(i as int),
                    q >= 3,
                    j <= e@.len(),
                    limb@.len() == j,
                    forall|t: int| 0 <= t < j ==> #[trigger] limb@[t] == ((e@[t] as int) % (q as int)) as u64,
                    all_below(limb@, q as int),
                decreases e@.len() - j,
            {
                limb.push(Self::signed_residue(e[j], q));
                j = j + 1;
            }
            proof {
                assert(limb@ =~= self.signed_limbs(e@)[i as int]);
            }
            limbs.push(limb);
            i = i + 1;
        }
        let p = Poly::<CoeffForm>::new(limbs);
        proof {
            assert(p@ =~= self.signed_limbs(e@));
            self.lemma_full_limbs_ok(p@);
        }
        self.ntt(p)
    }

    /// `c mod q` in `0..q` for a 128-bit signed `c`.
    fn wide_residue(c: i128, q: u64) -> (r: u64)
        requires
            q > 0,
        ensures
            r == (c as int) % (q as int),
            r < q,
    {
        if c >= 0 {
            proof { lemma_mod_bound(c as int, q as int); }
            ((c as u128) % (q as u128)) as u64
        } else {
            let mag: u128 = ((-(c + 1)) as u128) + 1;
            let r = (mag % (q as u128)) as u64;
            proof {
                lemma_mod_bound(mag as int, q as int);
                lemma_sub_mod_noop(0, mag as int, q as int);
                lemma_small_mod(0, q as nat);
                assert(c as int == 0 - mag);
            }
            if r == 0 {
                0
            } else {
                proof {
                    lemma_fundamental_div_mod_converse_mod(0 - r, q as int, -1, q - r);
                    assert((0 - r) % (q as int) == q - r);
                }
                q - r
            }
        }
    }

    /// The NTT-form polynomial of a wide signed coefficient vector of length `n`.
    pub fn poly_from_i128(&self, c: &[i128]) -> (r: Poly<NttForm>)
        requires
            self.wf(),
            self.num() > 0 ==> c@.len() == self.dim(),
        ensures
            r@ == self.ntt_limbs(self.wide_limbs(c@)),
            self.limbs_ok(r@),
    {
        let mut limbs: Vec<Vec<u64>> = Vec::new();
        let mut i: usize = 0;
        while i < self.subrings.len()
            invariant
                self.wf(),
                self.num() > 0 ==> c@.len() == self.dim(),
                i <= self.num(),
                limbs@.len() == i,
                forall|t: int| 0 <= t < i ==> #[trigger] limbs@[t]@ == self.wide_limbs(c@)[t],
                forall|t: int| 0 <= t < i ==> all_below(#[trigger] limbs@[t]@, self.q_at(t) as int),
            decreases self.num() - i,
        {
            let q = self.subrings[i].modulus();
            proof {
                self.subrings@[i as int].lemma_wf_bounds();
            }
            let mut limb: Vec<u64> = Vec::new();
            let mut j: usize = 0;
            while j < c.len()
                invariant
                    i < self.num(),
                    q == self.q_at(i as int),
                    q >= 3,
                    j <= c@.len(),
                    limb@.len() == j,
                    forall|t: int| 0 <= t < j ==> #[trigger] limb@[t] == ((c@[t] as int) % (q as int)) as u64,
                    all_below(limb@, q as int),
                decreases c@.len() - j,
            {
                limb.push(Self::wide_residue(c[j], q));
                j = j + 1;
            }
            proof {
                assert(limb@ =~= self.wide_limbs(c@)[i as int]);
            }
            limbs.push(limb);
            i = i + 1;
        }
        let p = Poly::<CoeffForm>::new(limbs);
        proof {
            assert(p@ =~= self.wide_limbs(c@));
            self.lemma_full_limbs_ok(p@);
        }
        self.ntt(p)
    }

    /// A secret polynomial with exactly `h` coefficients `±1` (the rest `0`), in NTT form.
    /// A polynomial is always returned.
    pub fn sample_ternary(&self, rng: &mut ThreadRng, h: usize) -> (res: Option<Poly<NttForm>>)
        requires
            self.wf(),
            self.num() > 0,
            h <= self.dim(),
        ensures
            res is Some,
            res matches Some(p) ==> exists|s: Seq<Ternary>|
                drawn_ternary(s, self.dim(), h as nat) && p@ == #[trigger] self.ntt_limbs(self.ternary_limbs(s)),
            h == 0 ==> (res matches Some(p) && p@ == self.ntt_limbs(
                self.ternary_limbs(Seq::new(self.dim(), |i: int| Ternary::Zero)),
            )),
    {
        let n = self.n();
        match crate::sampling::sample_ternary(n, rng, h) {
            Some(coefs) => {
                let p = self.poly_from_ternary(coefs.as_slice());
                Some(p)
            },
            None => None,
        }
    }

    /// A polynomial whose coefficients are drawn uniformly from `0..q_i` in each limb.
    pub fn sample_uniform(&self, rng: &mut ThreadRng) -> (r: Poly<NttForm>)
        requires
            self.wf(),
        ensures
            r@.len() == self.num(),
            self.limbs_ok(r@),
    {
        let mut limbs: Vec<Vec<u64>> = Vec::new();
        let mut i: usize = 0;
        while i < self.subrings.len()
            invariant
                self.wf(),
                i <= self.num(),
                limbs@.len() == i,
                forall|t: int| 0 <= t < i ==> (#[trigger] limbs@[t]@).len() == self.dim(),
                forall|t: int| 0 <= t < i ==> all_below(#[trigger] limbs@[t]@, self.q_at(t) as int),
            decreases self.num() - i,
        {
            let qi = self.subrings[i].modulus();
            let n = self.subrings[i].n();
            proof {
                self.subrings@[i as int].lemma_wf_bounds();
            }
            let mut limb: Vec<u64> = Vec::new();
            let mut j: usize = 0;
            while j < n
                invariant
                    qi >= 3,
                    j <= n,
                    limb@.len() == j,
                    all_below(limb@, qi as int),
                decreases n - j,
            {
                limb.push(random_below(rng, qi));
                j = j + 1;
            }
            limbs.push(limb);
            i = i + 1;
        }
        let p = Poly::<NttForm>::new(limbs);
        proof {
            assert forall|t: int| 0 <= t < self.num() implies (#[trigger] p@[t]).len() == self.dim() && all_below(p@[t], self.q_at(t) as int) by {
                assert(p@[t] == limbs@[t]@);
            }
            self.lemma_full_limbs_ok(p@);
        }
        p
    }

    /// Every modulus of a well-formed ring lies in `3..2^61`.
    pub proof fn lemma_modulus_bounds(&self, i: int)
        requires
            self.wf(),
            0 <= i < self.num(),
        ensures
            3 <= self.q_at(i) < MODULUS_LIMIT,
    {
        assert(self.subrings@[i].wf());
        self.subrings@[i].lemma_wf_bounds();
    }

    /// Limb-wise operations on well-shaped reduced operands give a well-shaped reduced result
    /// with one limb per limb of the first operand.
    pub proof fn lemma_combine_ok(&self, a: Seq<Seq<u64>>, b: Seq<Seq<u64>>, op: VecOp)
        requires
            self.wf(),
            self.limbs_ok(a),
            self.limbs_ok(b),
        ensures
            self.pair_ok(a, b),
            self.combine_limbs(a, b, op).len() == a.len(),
            self.limbs_ok(self.combine_limbs(a, b, op)),
    {
        let r = self.combine_limbs(a, b, op);
        assert forall|i: int| 0 <= i < a.len() && i < self.num() implies {
            &&& (#[trigger] r[i]).len() == self.dim()
            &&& all_below(r[i], self.q_at(i) as int)
        } by {
            assert(self.subrings@[i].wf());
            self.subrings@[i].lemma_wf_bounds();
            let q = self.q_at(i) as int;
            assert(a[i].len() == self.dim());
            if i < b.len() {
                assert(b[i].len() == self.dim());
                assert forall|j: int| 0 <= j < r[i].len() implies #[trigger] r[i][j] < q by {
                    match op {
                        VecOp::Add => { assert(((a[i][j] + b[i][j]) % q) < q); },
                        VecOp::Sub => { assert(((a[i][j] - b[i][j]) % q) < q); },
                        VecOp::Mul => { assert(((a[i][j] * b[i][j]) % q) < q); },
                    }
                }
            }
        }
    }

    /// Scaling well-shaped reduced limbs keeps them well shaped and reduced.
    pub proof fn lemma_scale_ok(&self, a: Seq<Seq<u64>>, c: Seq<u64>)
        requires
            self.wf(),
            self.limbs_ok(a),
        ensures
            self.scale_limbs(a, c).len() == a.len(),
            self.limbs_ok(self.scale_limbs(a, c)),
    {
        let r = self.scale_limbs(a, c);
        assert forall|i: int| 0 <= i < a.len() && i < self.num() implies {
            &&& (#[trigger] r[i]).len() == self.dim()
            &&& all_below(r[i], self.q_at(i) as int)
        } by {
            assert(self.subrings@[i].wf());
            self.subrings@[i].lemma_wf_bounds();
            let q = self.q_at(i) as int;
            if i < c.len() {
                assert forall|j: int| 0 <= j < r[i].len() implies #[trigger] r[i][j] < q by {
                    assert(((a[i][j] * c[i]) % q) < q);
                }
            }
        }
    }

    /// Limb-wise addition is commutative.
    pub proof fn lemma_add_commutative(&self, a: Seq<Seq<u64>>, b: Seq<Seq<u64>>)
        requires
            self.wf(),
            a.len() == b.len(),
            a.len() <= self.num(),
            self.pair_ok(a, b),
        ensures
            self.combine_limbs(a, b, VecOp::Add) == self.combine_limbs(b, a, VecOp::Add),
    {
        let l = self.combine_limbs(a, b, VecOp::Add);
        let r = self.combine_limbs(b, a, VecOp::Add);
        assert forall|i: int| 0 <= i < a.len() implies #[trigger] l[i] == r[i] by {
            assert(a[i].len() == b[i].len());
            assert(l[i] =~= r[i]);
        }
        assert(l =~= r);
    }

    /// Limb-wise multiplication is commutative.
    pub proof fn lemma_mul_commutative(&self, a: Seq<Seq<u64>>, b: Seq<Seq<u64>>)
        requires
            self.wf(),
            a.len() == b.len(),
            a.len() <= self.num(),
            self.pair_ok(a, b),
        ensures
            self.combine_limbs(a, b, VecOp::Mul) == self.combine_limbs(b, a, VecOp::Mul),
    {
        let l = self.combine_limbs(a, b, VecOp::Mul);
        let r = self.combine_limbs(b, a, VecOp::Mul);
        assert forall|i: int| 0 <= i < a.len() implies #[trigger] l[i] == r[i] by {
            assert(a[i].len() == b[i].len());
            if i < self.num() {
                assert forall|j: int| 0 <= j < l[i].len() implies #[trigger] l[i][j] == r[i][j] by {
                    lemma_mul_is_commutative(a[i][j] as int, b[i][j] as int);
                }
                assert(l[i] =~= r[i]);
            }
        }
        assert(l =~= r);
    }

    /// Subtracting `b` undoes adding `b`, limb by limb.
    pub proof fn lemma_add_sub_roundtrip(&self, a: Seq<Seq<u64>>, b: Seq<Seq<u64>>)
        requires
            self.wf(),
            self.pair_ok(a, b),
        ensures
            self.combine_limbs(self.combine_limbs(a, b, VecOp::Add), b, VecOp::Sub) == a,
    {
        let s = self.combine_limbs(a, b, VecOp::Add);
        let d = self.combine_limbs(s, b, VecOp::Sub);
        assert forall|i: int| 0 <= i < a.len() implies #[trigger] d[i] == a[i] by {
            if i < b.len() && i < self.num() {
                let q = self.q_at(i) as int;
                assert(self.subrings@[i].wf());
                self.subrings@[i].lemma_wf_bounds();
                assert(a[i].len() == b[i].len() && all_below(a[i], q) && all_below(b[i], q));
                assert(s[i].len() == a[i].len());
                assert forall|j: int| 0 <= j < a[i].len() implies #[trigger] d[i][j] == a[i][j] by {
                    assert(a[i][j] < q && b[i][j] < q);
                    lemma_mod_bound(a[i][j] + b[i][j], q);
                    assert(s[i][j] == add_mod(a[i][j] as int, b[i][j] as int, q));
                    lemma_add_sub_roundtrip(a[i][j] as int, b[i][j] as int, q);
                }
                assert(d[i] =~= a[i]);
            }
        }
        assert(d =~= a);
    }

    /// Negating twice gives back a polynomial whose limbs all have a modulus.
    pub proof fn lemma_neg_neg(&self, a: Seq<Seq<u64>>)
        requires
            self.wf(),
            a.len() <= self.num(),
            self.limbs_reduced(a),
        ensures
            self.neg_limbs(self.neg_limbs(a)) == a,
    {
        let m = self.neg_limbs(a);
        let mm = self.neg_limbs(m);
        assert forall|i: int| 0 <= i < a.len() implies #[trigger] mm[i] == a[i] by {
            assert(all_below(a[i], self.q_at(i) as int));
            assert(self.subrings@[i].wf());
            self.subrings@[i].lemma_wf_bounds();
            assert(m[i].len() == a[i].len());
            assert forall|j: int| 0 <= j < a[i].len() implies #[trigger] mm[i][j] == a[i][j] by {
                assert(a[i][j] < self.q_at(i));
                assert(m[i][j] == neg_mod(a[i][j] as int, self.q_at(i) as int));
            }
            assert(mm[i] =~= a[i]);
        }
        assert(mm =~= a);
    }

    /// Adding the negation gives the zero polynomial.
    pub proof fn lemma_add_neg_zero(&self, a: Seq<Seq<u64>>)
        requires
            self.wf(),
            a.len() <= self.num(),
            self.limbs_reduced(a),
        ensures
            forall|i: int, j: int| 0 <= i < a.len() && 0 <= j < a[i].len()
                ==> #[trigger] self.combine_limbs(a, self.neg_limbs(a), VecOp::Add)[i][j] == 0,
    {
        let m = self.neg_limbs(a);
        assert forall|i: int, j: int| 0 <= i < a.len() && 0 <= j < a[i].len()
            implies #[trigger] self.combine_limbs(a, m, VecOp::Add)[i][j] == 0 by {
            let q = self.q_at(i) as int;
            assert(self.subrings@[i].wf());
            self.subrings@[i].lemma_wf_bounds();
            assert(all_below(a[i], q));
            assert(a[i][j] < q);
            assert(m[i].len() == a[i].len());
            assert(m[i][j] == neg_mod(a[i][j] as int, q));
            lemma_mod_self_0(q);
            lemma_small_mod(0, q as nat);
        }
    }

    /// Every modulus is prime.
    pub open spec fn moduli_prime(&self) -> bool {
        forall|i: int| 0 <= i < self.num() ==> spec_prime(#[trigger] self.q_at(i) as int)
    }

    /// Limb `i` is transformed as any well-formed ring of modulus `q_i` and dimension `n`
    /// transforms it, for instance one built by `Ring::new` alone.
    pub proof fn lemma_limb_transforms(&self, r: &Ring, p: Seq<Seq<u64>>, i: int)
        requires
            self.wf(),
            r.wf(),
            0 <= i < p.len(),
            i < self.num(),
            r.q() == self.q_at(i),
            r.dim() == self.dim(),
        ensures
            self.ntt_limbs(p)[i] == forward_ntt_spec(p[i], r.zeta_table(), r.q() as int),
            self.intt_limbs(p)[i] == inverse_ntt_spec(p[i], r.inv_zeta_table(), r.n_inv_value() as int, r.q() as int),
    {
        assert(self.subrings@[i].wf());
        self.ring_at(i).lemma_tables_determined(r);
    }

    /// Every limb's ring has inverse tables: what the round trip of the transforms rests on.
    pub open spec fn tables_invertible(&self) -> bool {
        forall|i: int| 0 <= i < self.num() ==> (#[trigger] self.ring_at(i)).inverse_tables_ok()
    }

    /// With prime moduli the tables are inverses.
    pub proof fn lemma_prime_moduli_tables(&self)
        requires
            self.wf(),
            self.moduli_prime(),
        ensures
            self.tables_invertible(),
    {
        assert forall|i: int| 0 <= i < self.num() implies (#[trigger] self.ring_at(i)).inverse_tables_ok() by {
            assert(self.subrings@[i].wf());
            assert(spec_prime(self.q_at(i) as int));
            self.ring_at(i).lemma_prime_tables_ok();
        }
    }

    /// Whether every limb's ring has inverse tables, checked entry by entry.
    pub fn has_inverse_tables(&self) -> (b: bool)
        requires
            self.wf(),
        ensures
            b == self.tables_invertible(),
    {
        let mut i: usize = 0;
        while i < self.subrings.len()
            invariant
                self.wf(),
                i <= self.num(),
                forall|t: int| 0 <= t < i ==> (#[trigger] self.ring_at(t)).inverse_tables_ok(),
            decreases self.num() - i,
        {
            proof {
                assert(self.subrings@[i as int].wf());
            }
            if !self.subrings[i].has_inverse_tables() {
                proof {
                    assert(!self.ring_at(i as int).inverse_tables_ok());
                }
                return false;
            }
            i = i + 1;
        }
        true
    }

    /// When the tables are inverses (as for prime moduli), the inverse transform undoes the
    /// forward transform, limb by limb.
    pub proof fn lemma_ntt_roundtrip(&self, p: Seq<Seq<u64>>)
        requires
            self.wf(),
            self.tables_invertible(),
            self.limbs_ok(p),
        ensures
            self.intt_limbs(self.ntt_limbs(p)) == p,
    {
        let f = self.ntt_limbs(p);
        let g = self.intt_limbs(f);
        assert forall|i: int| 0 <= i < p.len() implies #[trigger] g[i] == p[i] by {
            if i < self.num() {
                assert(self.subrings@[i].wf());
                self.ring_at(i).lemma_ntt_roundtrip(p[i]);
            }
        }
        assert(g =~= p);
    }

    /// When the tables are inverses, adding two transforms and transforming back gives the limb-wise sum.
    pub proof fn lemma_ntt_add_matches_coeff_add(&self, a: Seq<Seq<u64>>, b: Seq<Seq<u64>>)
        requires
            self.wf(),
            self.tables_invertible(),
            a.len() == b.len(),
            a.len() <= self.num(),
            self.limbs_ok(a),
            self.limbs_ok(b),
        ensures
            self.intt_limbs(self.combine_limbs(self.ntt_limbs(a), self.ntt_limbs(b), VecOp::Add))
                == self.combine_limbs(a, b, VecOp::Add),
    {
        let l = self.intt_limbs(self.combine_limbs(self.ntt_limbs(a), self.ntt_limbs(b), VecOp::Add));
        let r = self.combine_limbs(a, b, VecOp::Add);
        assert forall|i: int| 0 <= i < a.len() implies #[trigger] l[i] == r[i] by {
            assert(self.subrings@[i].wf());
            self.ring_at(i).lemma_ntt_add_matches_coeff_add(a[i], b[i]);
        }
        assert(l =~= r);
    }

    /// The residues of integer coefficients `x` modulo each modulus.
    pub open spec fn residues(&self, x: Seq<int>) -> Seq<Seq<u64>> {
        Seq::new(self.num(), |i: int| Seq::new(x.len(), |j: int| (x[j] % (self.q_at(i) as int)) as u64))
    }

    /// Converting the CRT coefficients of `x[j]` into every modulus `p_k` of `target` gives
    /// `(x[j] + u·Q) mod p_k`.
    pub open spec fn converts_with_overflow(&self, target: &RnsRing, x: Seq<int>, j: int, u: int) -> bool {
        forall|k: int|
            0 <= k < target.num() ==> #[trigger] convert_sum(
                self.crt_limbs(self.residues(x)),
                hat_table(self.moduli(), target.moduli()),
                k,
                j,
                self.num() as int,
                target.q_at(k) as int,
            ) == (x[j] + u * prod_except(self.moduli(), -1, self.num() as int)) % (target.q_at(k) as int)
    }

    /// Fast base conversion is exact up to a small multiple of `Q = Π q_i`: converting the
    /// CRT coefficients of `0 <= x[j] < Q` into a target modulus `p_k` gives
    /// `(x[j] + u·Q) mod p_k`, with one `u` in `0..L` for all target moduli (`L` distinct prime
    /// moduli).
    pub proof fn lemma_base_convert_error(&self, target: &RnsRing, x: Seq<int>, j: int) -> (u: int)
        requires
            self.wf(),
            target.wf(),
            self.num() > 0,
            distinct_primes(self.moduli()),
            0 <= j < x.len(),
            0 <= x[j] < prod_except(self.moduli(), -1, self.num() as int),
        ensures
            0 <= u < self.num(),
            self.converts_with_overflow(target, x, j, u),
    {
        let m = self.moduli();
        let l = self.num();
        let crt = self.crt_limbs(self.residues(x));
        let table = hat_table(m, target.moduli());
        let big_q = prod_except(m, -1, l as int);
        let y = Seq::new(l, |i: int| crt[i][j] as int);
        assert forall|i: int| 0 <= i < l implies #[trigger] y[i] == ((x[j] % (m[i] as int)) * hat_inverse(m, i)) % (
        m[i] as int) by {
            self.lemma_modulus_bounds(i);
            self.lemma_hat_inv_bound(i);
            let q = self.q_at(i) as int;
            assert(m[i] as int == q);
            assert(self.hat_inv_at(i) == hat_inverse(m, i));
            let r = (x[j] % q) as u64;
            assert(self.residues(x)[i][j] == r);
            lemma_mod_bound(x[j], q);
            lemma_mod_bound(r * self.hat_inv_at(i), q);
        }
        let u = lemma_crt_sum_overflow(m, x[j], y);
        assert forall|k: int| 0 <= k < target.num() implies #[trigger] convert_sum(
            crt,
            table,
            k,
            j,
            l as int,
            target.q_at(k) as int,
        ) == (x[j] + u * big_q) % (target.q_at(k) as int) by {
            target.lemma_modulus_bounds(k);
            let pk = target.q_at(k) as int;
            assert forall|i: int| 0 <= i < l implies #[trigger] table[i][k] == prod_except(m, i, l as int) % pk by {
                lemma_mod_bound(prod_except(m, i, l as int), pk);
            }
            lemma_convert_sum_is_crt_sum(crt, table, k, j, l, pk, m, y);
        }
        u
    }

    /// The negacyclic product of each pair of limbs, modulo the limb's modulus.
    pub open spec fn negacyclic_limbs(&self, a: Seq<Seq<u64>>, b: Seq<Seq<u64>>) -> Seq<Seq<u64>> {
        Seq::new(a.len(), |i: int| negacyclic_product(a[i], b[i], self.q_at(i) as int))
    }

    /// Negacyclic products of well-shaped reduced limbs are well shaped and reduced.
    pub proof fn lemma_negacyclic_ok(&self, a: Seq<Seq<u64>>, b: Seq<Seq<u64>>)
        requires
            self.wf(),
            a.len() == b.len(),
            self.limbs_ok(a),
        ensures
            self.negacyclic_limbs(a, b).len() == a.len(),
            self.limbs_ok(self.negacyclic_limbs(a, b)),
    {
        let r = self.negacyclic_limbs(a, b);
        assert forall|i: int| 0 <= i < a.len() && i < self.num() implies {
            &&& (#[trigger] r[i]).len() == self.dim()
            &&& all_below(r[i], self.q_at(i) as int)
        } by {
            self.lemma_modulus_bounds(i);
            let q = self.q_at(i) as int;
            assert forall|j: int| 0 <= j < r[i].len() implies #[trigger] r[i][j] < q by {
                lemma_mod_bound(negacyclic_partial(a[i], b[i], j, a[i].len()), q);
            }
        }
    }

    /// The transform of limb-wise sums is the limb-wise sum of the transforms.
    pub proof fn lemma_ntt_of_sum_limbs(&self, a: Seq<Seq<u64>>, b: Seq<Seq<u64>>)
        requires
            self.wf(),
            a.len() == b.len(),
            a.len() <= self.num(),
            self.limbs_ok(a),
            self.limbs_ok(b),
        ensures
            self.ntt_limbs(self.combine_limbs(a, b, VecOp::Add))
                == self.combine_limbs(self.ntt_limbs(a), self.ntt_limbs(b), VecOp::Add),
    {
        let l = self.ntt_limbs(self.combine_limbs(a, b, VecOp::Add));
        let r = self.combine_limbs(self.ntt_limbs(a), self.ntt_limbs(b), VecOp::Add);
        assert forall|i: int| 0 <= i < a.len() implies #[trigger] l[i] == r[i] by {
            assert(self.subrings@[i].wf());
            self.ring_at(i).lemma_ntt_of_sum(a[i], b[i]);
        }
        assert(l =~= r);
    }

    /// The transform of limb-wise negacyclic products is the limb-wise pointwise product of
    /// the transforms.
    pub proof fn lemma_ntt_of_negacyclic_limbs(&self, a: Seq<Seq<u64>>, b: Seq<Seq<u64>>)
        requires
            self.wf(),
            a.len() == b.len(),
            a.len() <= self.num(),
            self.limbs_ok(a),
            self.limbs_ok(b),
        ensures
            self.ntt_limbs(self.negacyclic_limbs(a, b))
                == self.combine_limbs(self.ntt_limbs(a), self.ntt_limbs(b), VecOp::Mul),
    {
        let l = self.ntt_limbs(self.negacyclic_limbs(a, b));
        let r = self.combine_limbs(self.ntt_limbs(a), self.ntt_limbs(b), VecOp::Mul);
        assert forall|i: int| 0 <= i < a.len() implies #[trigger] l[i] == r[i] by {
            assert(self.subrings@[i].wf());
            self.ring_at(i).lemma_ntt_of_negacyclic(a[i], b[i]);
        }
        assert(l =~= r);
    }

    /// When the tables are inverses (as for prime moduli), multiplying NTT forms limb by limb
    /// is multiplication of the polynomials in `Z_{q_i}[X]/(X^n + 1)`.
    pub proof fn lemma_ntt_mul_negacyclic(&self, a: Seq<Seq<u64>>, b: Seq<Seq<u64>>)
        requires
            self.wf(),
            self.tables_invertible(),
            a.len() == b.len(),
            a.len() <= self.num(),
            self.limbs_ok(a),
            self.limbs_ok(b),
        ensures
            self.intt_limbs(self.combine_limbs(self.ntt_limbs(a), self.ntt_limbs(b), VecOp::Mul))
                == self.negacyclic_limbs(a, b),
    {
        let l = self.intt_limbs(self.combine_limbs(self.ntt_limbs(a), self.ntt_limbs(b), VecOp::Mul));
        let r = self.negacyclic_limbs(a, b);
        assert forall|i: int| 0 <= i < a.len() implies #[trigger] l[i] == r[i] by {
            assert(self.subrings@[i].wf());
            self.ring_at(i).lemma_ntt_mul_negacyclic(a[i], b[i]);
        }
        assert(l =~= r);
    }

    /// Limb `i` times `c[i]` modulo `q_i`, for the limbs `i` below both lengths and `num`.
    pub open spec fn scale_limbs(&self, a: Seq<Seq<u64>>, c: Seq<u64>) -> Seq<Seq<u64>> {
        Seq::new(
            a.len(),
            |i: int|
                if i < c.len() && i < self.num() {
                    Seq::new(a[i].len(), |j: int| ((a[i][j] * c[i]) % (self.q_at(i) as int)) as u64)
                } else {
                    a[i]
                },
        )
    }

    /// In place, limb `i` times the constant `c[i]`.
    pub fn mul_const<F>(&self, a: &mut Poly<F>, c: &[u64])
        requires
            self.wf(),
            self.limbs_reduced(old(a)@),
            forall|i: int| 0 <= i < c@.len() && i < self.num() ==> #[trigger] c@[i] < self.q_at(i),
        ensures
            final(a)@ == self.scale_limbs(old(a)@, c@),
    {
        let ghost a0 = a@;
        let mut k = a.limbs.len();
        if c.len() < k {
            k = c.len();
        }
        if self.subrings.len() < k {
            k = self.subrings.len();
        }
        let mut i: usize = 0;
        while i < k
            invariant
                self.wf(),
                self.limbs_reduced(a0),
                forall|t: int| 0 <= t < c@.len() && t < self.num() ==> #[trigger] c@[t] < self.q_at(t),
                k <= a0.len(),
                k <= c@.len(),
                k <= self.num(),
                k == a0.len() || k == c@.len() || k == self.num(),
                a.limbs@.len() == a0.len(),
                i <= k,
                forall|t: int| 0 <= t < i ==> #[trigger] a.limbs@[t]@ == self.scale_limbs(a0, c@)[t],
                forall|t: int| i <= t < a.limbs@.len() ==> #[trigger] a.limbs@[t]@ == a0[t],
            decreases k - i,
        {
            let arith = self.subrings[i].arith();
            let ci = c[i];
            proof {
                assert(a.limbs@[i as int]@ == a0[i as int]);
                assert(all_below(a0[i as int], self.q_at(i as int) as int));
                assert(ci < self.q_at(i as int));
            }
            arith.mul_vec_const(a.limbs[i].as_mut_slice(), ci);
            proof {
                assert(a.limbs@[i as int]@ =~= self.scale_limbs(a0, c@)[i as int]);
            }
            i = i + 1;
        }
        proof {
            assert(a@ =~= self.scale_limbs(a0, c@));
        }
    }
}

} // verus!
