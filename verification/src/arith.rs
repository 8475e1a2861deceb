use vstd::arithmetic::div_mod::*;
use vstd::arithmetic::mul::*;
use vstd::arithmetic::power::*;
use vstd::prelude::*;

use crate::euler::lemma_root_exists;
use crate::fermat::lemma_invert_by_fermat;
use crate::math::lemma_pow_square_step;
use crate::primes::spec_prime;

verus! {

/// Largest modulus (exclusive) that a `ModArith` accepts: 2^61.
pub const MODULUS_LIMIT: u64 = 0x2000_0000_0000_0000u64;


/// The candidate root that generator `g` yields: `g^((q-1)/order) mod q`.
pub open spec fn root_candidate(g: int, q: int, order: int) -> int {
    pow(g, ((q - 1) / order) as nat) % q
}

/// `r` is accepted as a primitive `order`-th root: `r != 1` and `r^(order/2) ≡ -1 (mod q)`.
pub open spec fn accepted_root(r: int, q: int, order: int) -> bool {
    r != 1 && pow(r, (order / 2) as nat) % q == q - 1
}

/// `(a + b) mod q`.
pub open spec fn add_mod(a: int, b: int, q: int) -> int {
    (a + b) % q
}

/// `(a - b) mod q`, always in `0..q`.
pub open spec fn sub_mod(a: int, b: int, q: int) -> int {
    (a - b) % q
}

/// `(a · b) mod q`.
pub open spec fn mul_mod(a: int, b: int, q: int) -> int {
    (a * b) % q
}

/// `-a mod q` for `0 <= a <= q`.
pub open spec fn neg_mod(a: int, q: int) -> int {
    if a == 0 { 0 } else { q - a }
}

/// No generator `h` in `2..g` yields an accepted root.
pub open spec fn no_root_below(g: int, q: int, order: int) -> bool {
    forall|h: int| 2 <= h < g ==> !#[trigger] accepted_root(root_candidate(h, q, order), q, order)
}

/// `r` is the root yielded by the smallest generator `g` in `2..q` whose candidate is accepted.
pub open spec fn first_accepted_root(r: int, q: int, order: int) -> bool {
    exists|g: int|
        2 <= g < q && r == #[trigger] root_candidate(g, q, order) && accepted_root(r, q, order)
            && no_root_below(g, q, order)
}

/// Element-wise modular sum of two sequences.
pub open spec fn add_mod_seq(a: Seq<u64>, b: Seq<u64>, q: int) -> Seq<u64> {
    Seq::new(a.len(), |i: int| ((a[i] + b[i]) % q) as u64)
}

/// Element-wise modular difference of two sequences.
pub open spec fn sub_mod_seq(a: Seq<u64>, b: Seq<u64>, q: int) -> Seq<u64> {
    Seq::new(a.len(), |i: int| ((a[i] - b[i]) % q) as u64)
}

/// Element-wise modular product of two sequences.
pub open spec fn mul_mod_seq(a: Seq<u64>, b: Seq<u64>, q: int) -> Seq<u64> {
    Seq::new(a.len(), |i: int| ((a[i] * b[i]) % q) as u64)
}

/// Every element of `a` is below `q`.
pub open spec fn all_below(a: Seq<u64>, q: int) -> bool {
    forall|i: int| 0 <= i < a.len() ==> #[trigger] a[i] < q
}

/// Which elementwise operation a vector routine applies.
pub enum VecOp {
    Add,
    Sub,
    Mul,
}

/// Error returned when a modulus is refused.
#[derive(Debug, PartialEq, Eq, Clone, Copy)]
pub enum ArithError {
    /// The modulus does not fit in the given number of bits.
    InvalidModulusSize(u64, u32),
}

/// Arithmetic modulo a fixed modulus below 2^61.
#[derive(Debug)]
pub struct ModArith {
    modulus: u64,
}

impl ModArith {
    #[verifier::type_invariant]
    spec fn modulus_in_range(self) -> bool {
        self.modulus < MODULUS_LIMIT
    }

    /// The modulus, as a mathematical integer.
    pub closed spec fn q(&self) -> nat {
        self.modulus as nat
    }

    /// Accepts `modulus` exactly when it is below 2^61.
    pub fn new(modulus: u64) -> (res: Result<Self, ArithError>)
        ensures
            modulus < MODULUS_LIMIT ==> (res matches Ok(m) && m.q() == modulus),
            modulus >= MODULUS_LIMIT ==> res == Err::<Self, ArithError>(ArithError::InvalidModulusSize(modulus, 61)),
    {
        let top = modulus >> 61u64;
        assert(top == 0 <==> modulus < 0x2000_0000_0000_0000u64) by (bit_vector)
            requires top == modulus >> 61u64;
        if top == 0 {
            Ok(ModArith { modulus })
        } else {
            Err(ArithError::InvalidModulusSize(modulus, 61))
        }
    }

    pub fn modulus(&self) -> (r: u64)
        ensures
            r == self.q(),
            r < MODULUS_LIMIT,
    {
        proof { use_type_invariant(self); }
        self.modulus
    }

    /// `(a + b) mod q` for reduced operands.
    pub fn add(&self, a: u64, b: u64) -> (r: u64)
        requires
            a < self.q(),
            b < self.q(),
        ensures
            r == add_mod(a as int, b as int, self.q() as int),
            r < self.q(),
    {
        proof { use_type_invariant(self); }
        let s = a + b;
        if s >= self.modulus {
            proof {
                lemma_fundamental_div_mod_converse_mod(s as int, self.q() as int, 1, s - self.q());
            }
            s - self.modulus
        } else {
            proof { lemma_small_mod(s as nat, self.q()); }
            s
        }
    }

    /// `(a - b) mod q` for reduced operands.
    pub fn sub(&self, a: u64, b: u64) -> (r: u64)
        requires
            a < self.q(),
            b < self.q(),
        ensures
            r == sub_mod(a as int, b as int, self.q() as int),
            r < self.q(),
    {
        if a >= b {
            proof { lemma_small_mod((a - b) as nat, self.q()); }
            a - b
        } else {
            proof {
                lemma_fundamental_div_mod_converse_mod(a - b, self.q() as int, -1, self.modulus - b + a);
            }
            self.modulus - b + a
        }
    }

    /// `(a · b) mod q` for reduced operands.
    pub fn mul(&self, a: u64, b: u64) -> (r: u64)
        requires
            a < self.q(),
            b < self.q(),
        ensures
            r == mul_mod(a as int, b as int, self.q() as int),
            r < self.q(),
    {
        proof {
            use_type_invariant(self);
            assert((a as u128) * (b as u128) <= 0xffff_ffff_ffff_fffe_0000_0000_0000_0001u128) by (nonlinear_arith)
                requires a <= 0xffff_ffff_ffff_ffffu128, b <= 0xffff_ffff_ffff_ffffu128;
        }
        let prod = (a as u128) * (b as u128);
        let m = self.modulus as u128;
        let r = prod % m;
        proof { lemma_mod_pos_bound(prod as int, m as int); }
        r as u64
    }

    /// `base^exp mod q` by square-and-multiply; `1` when `exp == 0`.
    pub fn pow(&self, base: u64, exp: u64) -> (r: u64)
        requires
            exp == 0 || self.q() >= 2,
        ensures
            r == (if exp == 0 { 1int } else { pow(base as int, exp as nat) % (self.q() as int) }),
            self.q() >= 2 ==> r == pow(base as int, exp as nat) % (self.q() as int),
            self.q() >= 2 ==> r < self.q(),
            self.q() < MODULUS_LIMIT,
    {
        proof { use_type_invariant(self); }
        if exp == 0 {
            proof {
                lemma_pow0(base as int);
                if self.q() >= 2 { lemma_small_mod(1, self.q()); }
            }
            return 1;
        }
        let ghost q = self.q() as int;
        let mut result = 1u64;
        let mut b = base % self.modulus;
        let mut e = exp;
        proof {
            lemma_small_mod(1, self.q());
            lemma_pow_mod_noop(base as int, exp as nat, q);
            lemma_mul_basics(pow(b as int, e as nat));
        }
        while e > 0
            invariant
                q == self.q() as int,
                q >= 2,
                result < q,
                b < q,
                (result * pow(b as int, e as nat)) % q == pow(base as int, exp as nat) % q,
            decreases e,
        {
            let ghost old_res = result;
            let ghost old_b = b;
            let ghost old_e = e;
            proof {
                lemma_pow_square_step(b as int, e as nat, q);
                assert(e & 1 == 1 <==> e % 2 == 1) by (bit_vector);
            }
            if e & 1 == 1 {
                result = self.mul(result, b);
            }
            e = e >> 1;
            b = self.mul(b, b);
            proof {
                assert(e == old_e / 2) by (bit_vector) requires e == old_e >> 1;
                let p1 = pow(old_b as int, (old_e % 2) as nat);
                let p2 = pow(b as int, e as nat);
                // old_res * old_b^old_e ≡ old_res * (p1 * p2)
                lemma_mul_mod_noop_right(old_res as int, pow(old_b as int, old_e as nat), q);
                lemma_mul_mod_noop_right(old_res as int, p1 * p2, q);
                lemma_mul_is_associative(old_res as int, p1, p2);
                if old_e % 2 == 1 {
                    lemma_pow1(old_b as int);
                    lemma_mul_mod_noop_left(old_res * old_b, p2, q);
                } else {
                    lemma_pow0(old_b as int);
                    lemma_mul_basics(old_res as int);
                }
            }
        }
        proof {
            lemma_pow0(b as int);
            lemma_mul_basics(result as int);
            lemma_small_mod(result as nat, q as nat);
        }
        result
    }

    /// `a^(q-2) mod q`, the inverse of `a` when `q` is prime.
    pub fn inv(&self, a: u64) -> (r: u64)
        requires
            self.q() >= 2,
        ensures
            r == pow(a as int, (self.q() - 2) as nat) % (self.q() as int),
            r < self.q(),
            self.q() < MODULUS_LIMIT,
    {
        self.pow(a, self.modulus - 2)
    }

    /// `-a mod q`.
    pub fn neg(&self, a: u64) -> (r: u64)
        requires
            a <= self.q(),
        ensures
            r == neg_mod(a as int, self.q() as int),
    {
        if a == 0 { 0 } else { self.modulus - a }
    }

    /// The primitive `order`-th root of unity `g^((q-1)/order)` for the smallest
    /// `g` in `2..q` whose candidate `r` satisfies `r != 1` and `r^(order/2) ≡ -1`;
    /// `None` when no `g` does.
    pub fn primitive_root_of_unity(&self, order: u64) -> (res: Option<u64>)
        requires
            self.q() >= 1,
            order > 0,
        ensures
            match res {
                Some(r) => first_accepted_root(r as int, self.q() as int, order as int),
                None => no_root_below(self.q() as int, self.q() as int, order as int),
            },
            spec_prime(self.q() as int) && order >= 2 && order % 2 == 0 && (self.q() - 1) % (order as int)
                == 0 ==> res is Some,
    {
        let exp = (self.modulus - 1) / order;
        let ghost q = self.q() as int;
        let mut g: u64 = 2;
        while g < self.modulus
            invariant
                q == self.q() as int,
                exp == (q - 1) / (order as int),
                order > 0,
                2 <= g,
                no_root_below(g as int, q, order as int),
            decreases self.q() - g,
        {
            let root = self.pow(g, exp);
            if root != 1 && self.pow(root, order / 2) == self.modulus - 1 {
                proof {
                    assert(root == root_candidate(g as int, q, order as int));
                    assert(accepted_root(root as int, q, order as int));
                    assert(2 <= g < self.q() && root == root_candidate(g as int, self.q() as int, order as int)
                        && accepted_root(root as int, self.q() as int, order as int)
                        && no_root_below(g as int, q, order as int));
                }
                return Some(root);
            }
            g = g + 1;
        }
        proof {
            if spec_prime(q) && order >= 2 && order % 2 == 0 && (q - 1) % (order as int) == 0 {
                let h = lemma_root_exists(q, order as int);
                assert(!accepted_root(root_candidate(h, q, order as int), q, order as int));
            }
        }
        None
    }

    /// Applies `op` in place: `a[i] = a[i] op b[i] mod q`.
    fn apply_vec(&self, a: &mut [u64], b: &[u64], op: VecOp)
        requires
            old(a)@.len() == b@.len(),
            all_below(old(a)@, self.q() as int),
            all_below(b@, self.q() as int),
        ensures
            final(a)@ == (match op {
                VecOp::Add => add_mod_seq(old(a)@, b@, self.q() as int),
                VecOp::Sub => sub_mod_seq(old(a)@, b@, self.q() as int),
                VecOp::Mul => mul_mod_seq(old(a)@, b@, self.q() as int),
            }),
    {
        let ghost a0 = a@;
        let ghost q = self.q() as int;
        let ghost target = match op {
            VecOp::Add => add_mod_seq(a0, b@, q),
            VecOp::Sub => sub_mod_seq(a0, b@, q),
            VecOp::Mul => mul_mod_seq(a0, b@, q),
        };
        let n = a.len();
        for i in 0..n
            invariant
                n == a@.len(),
                n == b@.len(),
                n == a0.len(),
                q == self.q() as int,
                target.len() == n,
                target == (match op {
                    VecOp::Add => add_mod_seq(a0, b@, q),
                    VecOp::Sub => sub_mod_seq(a0, b@, q),
                    VecOp::Mul => mul_mod_seq(a0, b@, q),
                }),
                all_below(a0, q),
                all_below(b@, q),
                forall|j: int| i <= j < n ==> a@[j] == a0[j],
                forall|j: int| 0 <= j < i ==> a@[j] == target[j],
        {
            let x = a[i];
            let y = b[i];
            assert(x == a@[i as int]);
            assert(a@[i as int] == a0[i as int]);
            assert(a0[i as int] < q);
            assert(y == b@[i as int] && y < q);
            let v = match op {
                VecOp::Add => self.add(x, y),
                VecOp::Sub => self.sub(x, y),
                VecOp::Mul => self.mul(x, y),
            };
            a[i] = v;
        }
        assert(a@ =~= target);
    }

    /// In place `a[i] = (a[i] + b[i]) mod q`.
    pub fn add_vec(&self, a: &mut [u64], b: &[u64])
        requires
            old(a)@.len() == b@.len(),
            all_below(old(a)@, self.q() as int),
            all_below(b@, self.q() as int),
        ensures
            final(a)@ == add_mod_seq(old(a)@, b@, self.q() as int),
    {
        self.apply_vec(a, b, VecOp::Add);
    }

    /// In place `a[i] = (a[i] - b[i]) mod q`.
    pub fn sub_vec(&self, a: &mut [u64], b: &[u64])
        requires
            old(a)@.len() == b@.len(),
            all_below(old(a)@, self.q() as int),
            all_below(b@, self.q() as int),
        ensures
            final(a)@ == sub_mod_seq(old(a)@, b@, self.q() as int),
    {
        self.apply_vec(a, b, VecOp::Sub);
    }

    /// In place `a[i] = (a[i] · b[i]) mod q`.
    pub fn mul_vec(&self, a: &mut [u64], b: &[u64])
        requires
            old(a)@.len() == b@.len(),
            all_below(old(a)@, self.q() as int),
            all_below(b@, self.q() as int),
        ensures
            final(a)@ == mul_mod_seq(old(a)@, b@, self.q() as int),
    {
        self.apply_vec(a, b, VecOp::Mul);
    }

    /// In place `a[i] = (a[i] · c) mod q`.
    pub fn mul_vec_const(&self, a: &mut [u64], c: u64)
        requires
            all_below(old(a)@, self.q() as int),
            c < self.q(),
        ensures
            final(a)@.len() == old(a)@.len(),
            forall|i: int| 0 <= i < old(a)@.len() ==> #[trigger] final(a)@[i] == (old(a)@[i] * c) % (self.q() as int),
    {
        let ghost a0 = a@;
        let n = a.len();
        for i in 0..n
            invariant
                n == a@.len(),
                n == a0.len(),
                c < self.q(),
                all_below(a0, self.q() as int),
                forall|j: int| i <= j < n ==> a@[j] == a0[j],
                forall|j: int| 0 <= j < i ==> #[trigger] a@[j] == (a0[j] * c) % (self.q() as int),
        {
            let x = a[i];
            assert(x == a@[i as int]);
            assert(a@[i as int] == a0[i as int]);
            assert(a0[i as int] < self.q());
            a[i] = self.mul(x, c);
        }
    }
}

/// Modular addition is commutative.
pub proof fn lemma_add_commutative(a: int, b: int, q: int)
    requires
        q > 0,
    ensures
        add_mod(a, b, q) == add_mod(b, a, q),
{
}

/// Zero is the identity of modular addition on reduced values.
pub proof fn lemma_add_identity(a: int, q: int)
    requires
        0 <= a < q,
    ensures
        add_mod(a, 0, q) == a,
{
    lemma_small_mod(a as nat, q as nat);
}

/// Subtracting `b` undoes adding `b`, on reduced values.
pub proof fn lemma_add_sub_roundtrip(a: int, b: int, q: int)
    requires
        0 <= a < q,
        0 <= b < q,
    ensures
        sub_mod(add_mod(a, b, q), b, q) == a,
{
    lemma_sub_mod_noop(a + b, b, q);
    lemma_mod_twice(b, q);
    lemma_small_mod(b as nat, q as nat);
    lemma_small_mod(a as nat, q as nat);
}

/// Modular multiplication is commutative.
pub proof fn lemma_mul_commutative(a: int, b: int, q: int)
    requires
        q > 0,
    ensures
        mul_mod(a, b, q) == mul_mod(b, a, q),
{
    lemma_mul_is_commutative(a, b);
}

/// One is the identity of modular multiplication on reduced values.
pub proof fn lemma_mul_identity(a: int, q: int)
    requires
        0 <= a < q,
    ensures
        mul_mod(a, 1, q) == a,
{
    lemma_small_mod(a as nat, q as nat);
}

/// Multiplying by zero gives zero.
pub proof fn lemma_mul_zero(a: int, q: int)
    requires
        q > 0,
    ensures
        mul_mod(a, 0, q) == 0,
{
    lemma_mul_basics(a);
    lemma_small_mod(0, q as nat);
}

/// Modular multiplication is associative.
pub proof fn lemma_mul_associative(a: int, b: int, c: int, q: int)
    requires
        q > 0,
    ensures
        mul_mod(mul_mod(a, b, q), c, q) == mul_mod(a, mul_mod(b, c, q), q),
{
    lemma_mul_mod_noop_left(a * b, c, q);
    lemma_mul_mod_noop_right(a, b * c, q);
    lemma_mul_is_associative(a, b, c);
}

/// Modular multiplication distributes over modular addition.
pub proof fn lemma_mul_distributive(a: int, b: int, c: int, q: int)
    requires
        q > 0,
    ensures
        mul_mod(a, add_mod(b, c, q), q) == add_mod(mul_mod(a, b, q), mul_mod(a, c, q), q),
{
    lemma_mul_mod_noop_right(a, b + c, q);
    lemma_mul_is_distributive_add(a, b, c);
    lemma_add_mod_noop(a * b, a * c, q);
}

/// Adding the negation of a reduced value gives zero.
pub proof fn lemma_add_neg_zero(a: int, q: int)
    requires
        0 <= a < q,
    ensures
        add_mod(a, neg_mod(a, q), q) == 0,
{
    lemma_small_mod(0, q as nat);
    lemma_mod_self_0(q);
}

/// Negating twice gives back a reduced value.
pub proof fn lemma_neg_neg(a: int, q: int)
    requires
        0 <= a < q,
    ensures
        neg_mod(neg_mod(a, q), q) == a,
{
}

/// Every result of the modular operations lies in `0..q`.
pub proof fn lemma_results_in_range(a: int, b: int, q: int)
    requires
        q > 0,
    ensures
        0 <= add_mod(a, b, q) < q,
        0 <= sub_mod(a, b, q) < q,
        0 <= mul_mod(a, b, q) < q,
{
    lemma_mod_bound(a + b, q);
    lemma_mod_bound(a - b, q);
    lemma_mod_bound(a * b, q);
}

/// For a prime modulus, `inv(a) = a^(q-2) mod q` is the multiplicative inverse of every `a`
/// not divisible by `q`.
pub proof fn lemma_inv_roundtrip(a: int, q: int)
    requires
        spec_prime(q),
        a % q != 0,
    ensures
        mul_mod(a, pow(a, (q - 2) as nat) % q, q) == 1,
{
    lemma_invert_by_fermat(a, q);
}

} // verus!
