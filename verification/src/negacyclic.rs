use vstd::arithmetic::div_mod::*;
use vstd::arithmetic::mul::*;
use vstd::arithmetic::power::*;
use vstd::prelude::*;

use crate::arith::add_mod_seq;
use crate::ntt_eval::{eval, fold};

verus! {

/// `Σ_{t < k} c[t] · r^t`.
pub open spec fn poly_eval(c: Seq<int>, r: int, k: nat) -> int
    decreases k,
{
    if k == 0 {
        0
    } else {
        poly_eval(c, r, (k - 1) as nat) + c[k - 1] * pow(r, (k - 1) as nat)
    }
}

/// The coefficients of `a` as integers.
pub open spec fn as_ints(a: Seq<u64>) -> Seq<int> {
    Seq::new(a.len(), |i: int| a[i] as int)
}

/// `X^i · b` in `Z[X]/(X^n + 1)`: coefficient `k` is `b[k - i]`, or `-b[n + k - i]` where the
/// shift wraps around.
pub open spec fn negacyclic_shift(b: Seq<int>, i: int) -> Seq<int> {
    Seq::new(b.len(), |k: int| if k >= i { b[k - i] } else { -b[b.len() + k - i] })
}

/// `Σ_{i < m} a[i] · (X^i · b)[k]`.
pub open spec fn negacyclic_partial(a: Seq<u64>, b: Seq<u64>, k: int, m: nat) -> int
    decreases m,
{
    if m == 0 {
        0
    } else {
        negacyclic_partial(a, b, k, (m - 1) as nat) + a[m - 1] * negacyclic_shift(as_ints(b), m - 1)[k]
    }
}

/// The product `a · b` in `Z_q[X]/(X^n + 1)`: coefficient `k` is
/// `Σ_{i <= k} a[i]·b[k - i] - Σ_{i > k} a[i]·b[n + k - i]`, reduced modulo `q`.
pub open spec fn negacyclic_product(a: Seq<u64>, b: Seq<u64>, q: int) -> Seq<u64> {
    Seq::new(a.len(), |k: int| (negacyclic_partial(a, b, k, a.len()) % q) as u64)
}

/// The stride-one fold is the evaluation of the integer coefficients.
proof fn lemma_fold_is_poly_eval(a: Seq<u64>, r: int, k: nat)
    requires
        k <= a.len(),
    ensures
        fold(a, 1, r, 0, k) == poly_eval(as_ints(a), r, k),
    decreases k,
{
    if k > 0 {
        lemma_fold_is_poly_eval(a, r, (k - 1) as nat);
        assert(0 + (k - 1) * 1 == k - 1);
    }
}

/// Evaluation is linear: `(x + c·y)(r) = x(r) + c·y(r)`.
proof fn lemma_poly_eval_linear(x: Seq<int>, y: Seq<int>, z: Seq<int>, c: int, r: int, k: nat)
    requires
        k <= x.len(),
        k <= y.len(),
        k <= z.len(),
        forall|t: int| 0 <= t < k ==> #[trigger] z[t] == x[t] + c * y[t],
    ensures
        poly_eval(z, r, k) == poly_eval(x, r, k) + c * poly_eval(y, r, k),
    decreases k,
{
    if k > 0 {
        let k1 = (k - 1) as nat;
        lemma_poly_eval_linear(x, y, z, c, r, k1);
        let p = pow(r, k1);
        assert(z[k - 1] == x[k - 1] + c * y[k - 1]);
        assert((x[k - 1] + c * y[k - 1]) * p == x[k - 1] * p + c * (y[k - 1] * p)) by (nonlinear_arith);
        assert(c * (poly_eval(y, r, k1) + y[k - 1] * p) == c * poly_eval(y, r, k1) + c * (y[k - 1] * p))
            by (nonlinear_arith);
    }
}

/// Congruent coefficients give congruent evaluations.
proof fn lemma_poly_eval_congruent(x: Seq<int>, y: Seq<int>, r: int, k: nat, q: int)
    requires
        q > 0,
        k <= x.len(),
        k <= y.len(),
        forall|t: int| 0 <= t < k ==> #[trigger] x[t] % q == y[t] % q,
    ensures
        poly_eval(x, r, k) % q == poly_eval(y, r, k) % q,
    decreases k,
{
    if k > 0 {
        let k1 = (k - 1) as nat;
        lemma_poly_eval_congruent(x, y, r, k1, q);
        let p = pow(r, k1);
        assert(x[k - 1] % q == y[k - 1] % q);
        lemma_mul_mod_noop_left(x[k - 1], p, q);
        lemma_mul_mod_noop_left(y[k - 1], p, q);
        lemma_add_mod_noop(poly_eval(x, r, k1), x[k - 1] * p, q);
        lemma_add_mod_noop(poly_eval(y, r, k1), y[k - 1] * p, q);
    }
}

/// Shifting a prefix by one position multiplies its evaluation by `r`, the wrapped
/// coefficient entering with a minus sign.
proof fn lemma_poly_eval_rotate_prefix(c: Seq<int>, r: int, k: nat)
    requires
        c.len() >= 1,
        k < c.len(),
    ensures
        poly_eval(negacyclic_shift(c, 1), r, k + 1) == -c[c.len() - 1] + r * poly_eval(c, r, k),
    decreases k,
{
    let s = negacyclic_shift(c, 1);
    if k == 0 {
        lemma_pow0(r);
        assert(s[0] == -c[c.len() - 1]);
        assert(poly_eval(s, r, 1) == poly_eval(s, r, 0) + s[0] * pow(r, 0));
        assert(r * poly_eval(c, r, 0) == 0);
    } else {
        let k1 = (k - 1) as nat;
        lemma_poly_eval_rotate_prefix(c, r, k1);
        assert(s[k as int] == c[k - 1]);
        lemma_pow_adds(r, 1, k1);
        lemma_pow1(r);
        assert(pow(r, k) == r * pow(r, k1)) by {
            assert(1 + k1 == k);
        }
        assert(c[k - 1] * (r * pow(r, k1)) == r * (c[k - 1] * pow(r, k1))) by (nonlinear_arith);
        assert(r * (poly_eval(c, r, k1) + c[k - 1] * pow(r, k1)) == r * poly_eval(c, r, k1) + r * (c[k - 1] * pow(
            r,
            k1,
        ))) by (nonlinear_arith);
        assert(poly_eval(s, r, k + 1) == poly_eval(s, r, k) + s[k as int] * pow(r, k));
        assert(poly_eval(c, r, k) == poly_eval(c, r, k1) + c[k - 1] * pow(r, k1));
    }
}

/// When `r^n ≡ -1 (mod q)`, multiplying by `X` in `Z[X]/(X^n + 1)` multiplies the evaluation
/// at `r` by `r`.
proof fn lemma_poly_eval_rotate(c: Seq<int>, r: int, q: int)
    requires
        q > 0,
        c.len() >= 1,
        pow(r, c.len()) % q == q - 1,
    ensures
        poly_eval(negacyclic_shift(c, 1), r, c.len()) % q == (r * poly_eval(c, r, c.len())) % q,
{
    let n = c.len();
    let n1 = (n - 1) as nat;
    lemma_poly_eval_rotate_prefix(c, r, n1);
    let last = c[n - 1];
    let pe = poly_eval(c, r, n1);
    let pn = pow(r, n);
    assert(pow(r, n) == r * pow(r, n1)) by {
        lemma_pow_adds(r, 1, n1);
        lemma_pow1(r);
        assert(1 + n1 == n);
    }
    assert(r * poly_eval(c, r, n) == r * pe + last * pn) by (nonlinear_arith)
        requires
            poly_eval(c, r, n) == pe + last * pow(r, n1),
            pn == r * pow(r, n1),
    ;
    // last · r^n ≡ -last
    lemma_mul_mod_noop_right(last, pn, q);
    assert(last * (q - 1) == q * last + (-last)) by (nonlinear_arith);
    lemma_mod_multiples_vanish(last, -last, q);
    lemma_add_mod_noop(r * pe, last * pn, q);
    lemma_add_mod_noop(r * pe, -last, q);
}

/// `X^(i+1) · b = X · (X^i · b)`.
proof fn lemma_shift_step(b: Seq<int>, i: int)
    requires
        0 <= i < b.len(),
    ensures
        negacyclic_shift(b, i + 1) == negacyclic_shift(negacyclic_shift(b, i), 1),
{
    let n = b.len() as int;
    let l = negacyclic_shift(b, i + 1);
    let r = negacyclic_shift(negacyclic_shift(b, i), 1);
    assert forall|k: int| 0 <= k < n implies #[trigger] l[k] == r[k] by {
        if k >= 1 {
            assert(r[k] == negacyclic_shift(b, i)[k - 1]);
        } else {
            assert(r[k] == -negacyclic_shift(b, i)[n - 1]);
        }
    }
    assert(l =~= r);
}

/// When `r^n ≡ -1 (mod q)`: `(X^i · b)(r) ≡ r^i · b(r)`.
proof fn lemma_poly_eval_shift(b: Seq<int>, i: nat, r: int, q: int)
    requires
        q > 0,
        b.len() >= 1,
        i < b.len(),
        pow(r, b.len()) % q == q - 1,
    ensures
        poly_eval(negacyclic_shift(b, i as int), r, b.len()) % q == (pow(r, i) * poly_eval(b, r, b.len())) % q,
    decreases i,
{
    let n = b.len();
    if i == 0 {
        lemma_pow0(r);
        assert(negacyclic_shift(b, 0) =~= b);
    } else {
        let i1 = (i - 1) as nat;
        lemma_poly_eval_shift(b, i1, r, q);
        let s1 = negacyclic_shift(b, i1 as int);
        lemma_shift_step(b, i1 as int);
        lemma_poly_eval_rotate(s1, r, q);
        // (X·s1)(r) ≡ r·s1(r) ≡ r·(r^(i-1)·b(r))
        let e1 = poly_eval(s1, r, n);
        let eb = poly_eval(b, r, n);
        lemma_mul_mod_noop_right(r, e1, q);
        lemma_mul_mod_noop_right(r, pow(r, i1) * eb, q);
        lemma_pow_adds(r, 1, i1);
        lemma_pow1(r);
        assert(1 + i1 == i);
        lemma_mul_is_associative(r, pow(r, i1), eb);
    }
}

/// `(Σ_{i < m} a[i]·X^i·b)(r) ≡ a(r)|_{< m} · b(r)` when `r^n ≡ -1 (mod q)`.
proof fn lemma_partial_evaluates(a: Seq<u64>, b: Seq<u64>, m: nat, r: int, q: int)
    requires
        q > 0,
        a.len() == b.len(),
        b.len() >= 1,
        m <= a.len(),
        pow(r, b.len()) % q == q - 1,
    ensures
        poly_eval(Seq::new(a.len(), |k: int| negacyclic_partial(a, b, k, m)), r, a.len()) % q == (poly_eval(
            as_ints(a),
            r,
            m,
        ) * poly_eval(as_ints(b), r, b.len())) % q,
    decreases m,
{
    let n = a.len();
    let bi = as_ints(b);
    let eb = poly_eval(bi, r, n);
    let z = Seq::new(n, |k: int| negacyclic_partial(a, b, k, m));
    if m == 0 {
        let zero = Seq::new(n, |k: int| 0int);
        assert(poly_eval(z, r, n) == poly_eval(zero, r, n) + 0 * poly_eval(zero, r, n)) by {
            lemma_poly_eval_linear(zero, zero, z, 0, r, n);
        }
        assert(poly_eval(zero, r, n) == 0) by {
            lemma_poly_eval_linear(zero, zero, zero, 1, r, n);
        }
    } else {
        let m1 = (m - 1) as nat;
        lemma_partial_evaluates(a, b, m1, r, q);
        let x = Seq::new(n, |k: int| negacyclic_partial(a, b, k, m1));
        let y = negacyclic_shift(bi, m1 as int);
        let c = a[m1 as int] as int;
        lemma_poly_eval_linear(x, y, z, c, r, n);
        lemma_poly_eval_shift(bi, m1, r, q);
        let ex = poly_eval(x, r, n);
        let ey = poly_eval(y, r, n);
        let pa = poly_eval(as_ints(a), r, m1);
        let pm = pow(r, m1);
        // z(r) = x(r) + c·y(r) ≡ pa·b(r) + c·r^(m-1)·b(r)
        lemma_add_mod_noop(ex, c * ey, q);
        lemma_mul_mod_noop_right(c, ey, q);
        lemma_mul_mod_noop_right(c, pm * eb, q);
        lemma_add_mod_noop(pa * eb, c * (pm * eb), q);
        assert(poly_eval(as_ints(a), r, m) == pa + c * pm);
        assert((pa + c * pm) * eb == pa * eb + c * (pm * eb)) by (nonlinear_arith);
    }
}

/// The negacyclic product evaluates to the product of the evaluations, modulo `q`, at every
/// `r` with `r^n ≡ -1 (mod q)`.
pub proof fn lemma_product_evaluates(a: Seq<u64>, b: Seq<u64>, r: int, q: int)
    requires
        0 < q <= 0x1_0000_0000_0000_0000,
        a.len() == b.len(),
        b.len() >= 1,
        pow(r, b.len()) % q == q - 1,
    ensures
        eval(negacyclic_product(a, b, q), r) % q == (eval(a, r) * eval(b, r)) % q,
{
    let n = a.len();
    let p = negacyclic_product(a, b, q);
    let z = Seq::new(n, |k: int| negacyclic_partial(a, b, k, n));
    lemma_partial_evaluates(a, b, n, r, q);
    lemma_fold_is_poly_eval(p, r, n);
    lemma_fold_is_poly_eval(a, r, n);
    lemma_fold_is_poly_eval(b, r, n);
    assert forall|t: int| 0 <= t < n implies #[trigger] as_ints(p)[t] % q == z[t] % q by {
        lemma_mod_bound(z[t], q);
        lemma_mod_twice(z[t], q);
    }
    lemma_poly_eval_congruent(as_ints(p), z, r, n, q);
}

/// Evaluation respects coefficient-wise addition modulo `q`.
pub proof fn lemma_sum_evaluates(a: Seq<u64>, b: Seq<u64>, r: int, q: int)
    requires
        0 < q <= 0x1_0000_0000_0000_0000,
        a.len() == b.len(),
    ensures
        eval(add_mod_seq(a, b, q), r) % q == (eval(a, r) + eval(b, r)) % q,
{
    let n = a.len();
    let c = add_mod_seq(a, b, q);
    let z = Seq::new(n, |t: int| a[t] + b[t]);
    lemma_poly_eval_linear(as_ints(a), as_ints(b), z, 1, r, n);
    lemma_fold_is_poly_eval(c, r, n);
    lemma_fold_is_poly_eval(a, r, n);
    lemma_fold_is_poly_eval(b, r, n);
    assert forall|t: int| 0 <= t < n implies #[trigger] as_ints(c)[t] % q == z[t] % q by {
        lemma_mod_bound(a[t] + b[t], q);
        lemma_mod_twice(a[t] + b[t], q);
    }
    lemma_poly_eval_congruent(as_ints(c), z, r, n, q);
}

} // verus!
