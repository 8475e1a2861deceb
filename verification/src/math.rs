use vstd::arithmetic::div_mod::*;
use vstd::arithmetic::mul::*;
use vstd::arithmetic::power::*;
use vstd::prelude::*;

verus! {

/// One step of square-and-multiply: `b^e ≡ b^(e mod 2) · (b² mod m)^(e div 2)  (mod m)`.
pub proof fn lemma_pow_square_step(b: int, e: nat, m: int)
    requires
        m > 0,
    ensures
        pow(b, e) % m == (pow(b, e % 2) * pow((b * b) % m, e / 2)) % m,
{
    let h = e / 2;
    let r = e % 2;
    assert(e == 2 * h + r);
    lemma_pow_adds(b, r, 2 * h);
    assert(pow(b, e) == pow(b, r) * pow(b, 2 * h)) by {
        assert(r + 2 * h == e);
    }
    lemma_pow_multiplies(b, 2, h);
    assert(pow(b, 2) == b * b) by {
        reveal_with_fuel(pow, 3);
    }
    lemma_pow_mod_noop(b * b, h, m);
    // pow(b, 2h) % m == pow((b*b) % m, h) % m
    lemma_mul_mod_noop_right(pow(b, r), pow(b, 2 * h), m);
    lemma_mul_mod_noop_right(pow(b, r), pow((b * b) % m, h), m);
}

/// A Cooley-Tukey butterfly followed by a Gentleman-Sande butterfly with the inverse twiddle
/// doubles both inputs: `(x, y) -> (x + ζy, x - ζy) -> (2x, 2y)  (mod q)`.
pub proof fn lemma_butterfly_roundtrip(x: int, y: int, z: int, zi: int, q: int)
    requires
        q > 1,
        (z * zi) % q == 1,
    ensures
        ((x + (z * y) % q) % q + (x - (z * y) % q) % q) % q == (2 * x) % q,
        (zi * (((x + (z * y) % q) % q - (x - (z * y) % q) % q) % q)) % q == (2 * y) % q,
{
    let t = (z * y) % q;
    lemma_add_mod_noop(x + t, x - t, q);
    assert((x + t) + (x - t) == 2 * x);
    lemma_sub_mod_noop(x + t, x - t, q);
    assert((x + t) - (x - t) == 2 * t);
    lemma_mul_mod_noop_right(zi, 2 * t, q);
    lemma_mul_mod_noop_right(2 * zi, z * y, q);
    assert(zi * (2 * t) == (2 * zi) * t) by (nonlinear_arith);
    assert((2 * zi) * (z * y) == (z * zi) * (2 * y)) by (nonlinear_arith);
    lemma_mul_mod_noop_left(z * zi, 2 * y, q);
    assert(1 * (2 * y) == 2 * y);
}

/// The sum branch of a Gentleman-Sande butterfly commutes with scaling by `c`.
pub proof fn lemma_scale_sum(x: int, y: int, c: int, q: int)
    requires
        q > 0,
    ensures
        ((x * c) % q + (y * c) % q) % q == (((x + y) % q) * c) % q,
{
    lemma_add_mod_noop(x * c, y * c, q);
    lemma_mul_mod_noop_left(x + y, c, q);
    assert(x * c + y * c == (x + y) * c) by (nonlinear_arith);
}

/// The difference branch of a Gentleman-Sande butterfly commutes with scaling by `c`.
pub proof fn lemma_scale_twist(x: int, y: int, c: int, zi: int, q: int)
    requires
        q > 0,
    ensures
        (zi * (((x * c) % q - (y * c) % q) % q)) % q == (((zi * ((x - y) % q)) % q) * c) % q,
{
    lemma_sub_mod_noop(x * c, y * c, q);
    lemma_mul_mod_noop_right(zi, x * c - y * c, q);
    lemma_mul_mod_noop_left(zi * ((x - y) % q), c, q);
    assert(zi * ((x - y) % q) * c == (zi * c) * ((x - y) % q)) by (nonlinear_arith);
    lemma_mul_mod_noop_right(zi * c, x - y, q);
    assert(zi * (x * c - y * c) == (zi * c) * (x - y)) by (nonlinear_arith);
}

/// Scaling twice by `c1` then `c2` is scaling by `c1 · c2`.
pub proof fn lemma_scale_twice(x: int, c1: int, c2: int, q: int)
    requires
        q > 0,
    ensures
        (((x * c1) % q) * c2) % q == (x * (c1 * c2)) % q,
{
    lemma_mul_mod_noop_left(x * c1, c2, q);
    lemma_mul_is_associative(x, c1, c2);
}

/// A butterfly output `x ± ζy mod q` is additive in `(x, y)`.
pub proof fn lemma_butterfly_additive(x1: int, x2: int, y1: int, y2: int, z: int, sign: int, q: int)
    requires
        q > 0,
        sign == 1 || sign == -1,
    ensures
        ((x1 + x2) % q + sign * ((z * ((y1 + y2) % q)) % q)) % q
            == ((x1 + sign * ((z * y1) % q)) % q + (x2 + sign * ((z * y2) % q)) % q) % q,
{
    lemma_mul_mod_noop_right(z, y1 + y2, q);
    assert(z * (y1 + y2) == z * y1 + z * y2) by (nonlinear_arith);
    lemma_add_mod_noop(z * y1, z * y2, q);
    let t1 = (z * y1) % q;
    let t2 = (z * y2) % q;
    let t = (z * ((y1 + y2) % q)) % q;
    assert(t == (t1 + t2) % q);
    // both sides are congruent to x1 + x2 + sign*(t1 + t2)
    lemma_add_mod_noop(x1 + x2, sign * t, q);
    lemma_mod_twice(x1 + x2, q);
    lemma_mul_mod_noop_right(sign, t1 + t2, q);
    assert(sign * (t1 + t2) == sign * t1 + sign * t2) by (nonlinear_arith);
    lemma_add_mod_noop(x1 + x2, sign * (t1 + t2), q);
    lemma_add_mod_noop(x1 + sign * t1, x2 + sign * t2, q);
    lemma_mod_twice(sign * t, q);
    assert(sign * t % q == (sign * (t1 + t2)) % q);
    assert((x1 + x2) + sign * (t1 + t2) == (x1 + sign * t1) + (x2 + sign * t2));
    lemma_add_mod_noop((x1 + x2) % q, sign * t, q);
    lemma_add_mod_noop_right(x1 + x2, sign * t, q);
}


/// Two reduced values that differ by a multiple of `q` are equal.
pub proof fn lemma_reduced_congruent_equal(d: int, t: int, k: int, q: int)
    requires
        q > 0,
        0 <= d < q,
        0 <= t < q,
        d - t == q * k,
    ensures
        d == t,
{
    if k >= 1 {
        assert(q * k >= q) by (nonlinear_arith)
            requires
                q > 0,
                k >= 1,
        ;
    } else if k <= -1 {
        assert(q * k <= -q) by (nonlinear_arith)
            requires
                q > 0,
                k <= -1,
        ;
    } else {
        assert(k == 0);
        assert(q * k == 0) by (nonlinear_arith)
            requires
                k == 0,
        ;
    }
}

/// Subtracting and then adding back the same reduced value: `((x - y) mod q + y) mod q == x`.
pub proof fn lemma_sub_then_add(x: int, y: int, q: int)
    requires
        q > 0,
        0 <= x < q,
        0 <= y < q,
    ensures
        ((x - y) % q + y) % q == x,
{
    let d = (x - y) % q;
    let r = (d + y) % q;
    lemma_fundamental_div_mod(x - y, q);
    lemma_fundamental_div_mod(d + y, q);
    lemma_mod_bound(x - y, q);
    lemma_mod_bound(d + y, q);
    let k1 = (x - y) / q;
    let k2 = (d + y) / q;
    assert(r - x == q * (-k1 - k2)) by (nonlinear_arith)
        requires
            x - y == q * k1 + d,
            d + y == q * k2 + r,
    ;
    lemma_reduced_congruent_equal(r, x, -k1 - k2, q);
}

/// `((((x - y) mod q) + t) mod q + y) mod q == (x + t) mod q` for reduced `x`, `y`, `t`.
pub proof fn lemma_sub_add_then_add(x: int, y: int, t: int, q: int)
    requires
        q > 0,
        0 <= x < q,
        0 <= y < q,
        0 <= t < q,
    ensures
        (((x - y) % q + t) % q + y) % q == (x + t) % q,
{
    let d = (x - y) % q;
    let u = (d + t) % q;
    let r = (u + y) % q;
    let g = (x + t) % q;
    lemma_fundamental_div_mod(x - y, q);
    lemma_fundamental_div_mod(d + t, q);
    lemma_fundamental_div_mod(u + y, q);
    lemma_fundamental_div_mod(x + t, q);
    lemma_mod_bound(x - y, q);
    lemma_mod_bound(d + t, q);
    lemma_mod_bound(u + y, q);
    lemma_mod_bound(x + t, q);
    let k1 = (x - y) / q;
    let k2 = (d + t) / q;
    let k3 = (u + y) / q;
    let k4 = (x + t) / q;
    assert(r - g == q * (k4 - k1 - k2 - k3)) by (nonlinear_arith)
        requires
            x - y == q * k1 + d,
            d + t == q * k2 + u,
            u + y == q * k3 + r,
            x + t == q * k4 + g,
    ;
    lemma_reduced_congruent_equal(r, g, k4 - k1 - k2 - k3, q);
}

/// Decrypting a fresh encryption at one ring position leaves the message plus the noise
/// `v·e + e0 + e1·s`, where the public key is `(a, b = e - a·s)`, the encryption is
/// `c0 = v·b + m + e0`, `c1 = v·a + e1`, and decryption computes `c1·s + c0`; every step
/// is reduced modulo `q` as the ring operations do.
pub proof fn lemma_decrypt_encrypt_point(a: int, s: int, e: int, v: int, m: int, e0: int, e1: int, q: int)
    requires
        q > 0,
    ensures
        ({
            let b = (e - (a * s) % q) % q;
            let c0 = (((v * b) % q + m) % q + e0) % q;
            let c1 = ((v * a) % q + e1) % q;
            ((c1 * s) % q + c0) % q
        }) == (((m + (v * e) % q) % q + e0) % q + (e1 * s) % q) % q,
{
    let r_as = (a * s) % q;
    let b = (e - r_as) % q;
    let r_vb = (v * b) % q;
    let t1 = (r_vb + m) % q;
    let c0 = (t1 + e0) % q;
    let r_va = (v * a) % q;
    let c1 = (r_va + e1) % q;
    let r_c1s = (c1 * s) % q;
    let d = (r_c1s + c0) % q;
    let r_ve = (v * e) % q;
    let u1 = (m + r_ve) % q;
    let u2 = (u1 + e0) % q;
    let r_e1s = (e1 * s) % q;
    let t = (u2 + r_e1s) % q;
    lemma_fundamental_div_mod(a * s, q);
    lemma_fundamental_div_mod(e - r_as, q);
    lemma_fundamental_div_mod(v * b, q);
    lemma_fundamental_div_mod(r_vb + m, q);
    lemma_fundamental_div_mod(t1 + e0, q);
    lemma_fundamental_div_mod(v * a, q);
    lemma_fundamental_div_mod(r_va + e1, q);
    lemma_fundamental_div_mod(c1 * s, q);
    lemma_fundamental_div_mod(r_c1s + c0, q);
    lemma_fundamental_div_mod(v * e, q);
    lemma_fundamental_div_mod(m + r_ve, q);
    lemma_fundamental_div_mod(u1 + e0, q);
    lemma_fundamental_div_mod(e1 * s, q);
    lemma_fundamental_div_mod(u2 + r_e1s, q);
    lemma_mod_bound(r_c1s + c0, q);
    lemma_mod_bound(u2 + r_e1s, q);
    let k1 = (a * s) / q;
    let k2 = (e - r_as) / q;
    let k3 = (v * b) / q;
    let k4 = (r_vb + m) / q;
    let k5 = (t1 + e0) / q;
    let k6 = (v * a) / q;
    let k7 = (r_va + e1) / q;
    let k8 = (c1 * s) / q;
    let k9 = (r_c1s + c0) / q;
    let j1 = (v * e) / q;
    let j2 = (m + r_ve) / q;
    let j3 = (u1 + e0) / q;
    let j4 = (e1 * s) / q;
    let j5 = (u2 + r_e1s) / q;
    let w1 = v * k1;
    let w2 = v * k2;
    let w3 = k6 * s;
    let w4 = k7 * s;
    let kk = w1 - w2 - k3 - k4 - k5 - w3 - w4 - k8 - k9 + j1 + j2 + j3 + j4 + j5;
    assert(c1 * s == (v * a) * s + e1 * s - q * w3 - q * w4) by (nonlinear_arith)
        requires
            c1 == v * a - q * k6 + e1 - q * k7,
            w3 == k6 * s,
            w4 == k7 * s,
    ;
    assert(v * b == v * e - (v * a) * s + q * w1 - q * w2) by {
        let as_ = a * s;
        let qk1 = q * k1;
        let qk2 = q * k2;
        let x = (e - as_) + qk1;
        assert(b == x - qk2);
        lemma_mul_is_distributive_sub(v, x, qk2);
        lemma_mul_is_distributive_add(v, e - as_, qk1);
        lemma_mul_is_distributive_sub(v, e, as_);
        lemma_mul_is_associative(v, a, s);
        lemma_mul_is_associative(v, q, k1);
        lemma_mul_is_associative(q, v, k1);
        lemma_mul_is_associative(v, q, k2);
        lemma_mul_is_associative(q, v, k2);
        lemma_mul_is_commutative(v, q);
    }
    assert(q * kk == q * w1 - q * w2 - q * k3 - q * k4 - q * k5 - q * w3 - q * w4 - q * k8 - q * k9
        + q * j1 + q * j2 + q * j3 + q * j4 + q * j5) by (nonlinear_arith)
        requires
            kk == w1 - w2 - k3 - k4 - k5 - w3 - w4 - k8 - k9 + j1 + j2 + j3 + j4 + j5,
    ;
    assert(d - t == q * kk);
    lemma_reduced_congruent_equal(d, t, kk, q);
}


/// `((x ± y) mod q) · s ≡ x·s ± y·s (mod q)`, written with an explicit quotient.
proof fn lemma_scaled_combination(x: int, y: int, sg: int, s: int, q: int, k: int, u: int)
    requires
        u == x + sg * y - q * k,
    ensures
        u * s == x * s + sg * (y * s) - q * (k * s),
{
    lemma_mul_is_distributive_sub_other_way(s, x + sg * y, q * k);
    lemma_mul_is_distributive_add_other_way(s, x, sg * y);
    lemma_mul_is_associative(sg, y, s);
    lemma_mul_is_associative(q, k, s);
}

/// Decryption is additive at one ring position: decrypting `(x0 ± y0, x1 ± y1)` under `s`
/// gives the sum (or difference) of the decryptions of `(x0, x1)` and `(y0, y1)`, every step
/// reduced modulo `q`. `plus` chooses the sign.
pub proof fn lemma_decrypt_linear_point(x0: int, x1: int, y0: int, y1: int, s: int, q: int, plus: bool)
    requires
        q > 0,
    ensures
        plus ==> ((((x1 + y1) % q) * s) % q + (x0 + y0) % q) % q
            == (((x1 * s) % q + x0) % q + ((y1 * s) % q + y0) % q) % q,
        !plus ==> ((((x1 - y1) % q) * s) % q + (x0 - y0) % q) % q
            == (((x1 * s) % q + x0) % q - ((y1 * s) % q + y0) % q) % q,
{
    let sg: int = if plus { 1 } else { -1 };
    let u1 = (x1 + sg * y1) % q;
    let p = (u1 * s) % q;
    let u0 = (x0 + sg * y0) % q;
    let l = (p + u0) % q;
    let da = (x1 * s) % q;
    let ca = (da + x0) % q;
    let db = (y1 * s) % q;
    let cb = (db + y0) % q;
    let r = (ca + sg * cb) % q;
    lemma_fundamental_div_mod(x1 + sg * y1, q);
    lemma_fundamental_div_mod(u1 * s, q);
    lemma_fundamental_div_mod(x0 + sg * y0, q);
    lemma_fundamental_div_mod(p + u0, q);
    lemma_fundamental_div_mod(x1 * s, q);
    lemma_fundamental_div_mod(da + x0, q);
    lemma_fundamental_div_mod(y1 * s, q);
    lemma_fundamental_div_mod(db + y0, q);
    lemma_fundamental_div_mod(ca + sg * cb, q);
    lemma_mod_bound(p + u0, q);
    lemma_mod_bound(ca + sg * cb, q);
    let k1 = (x1 + sg * y1) / q;
    let k2 = (u1 * s) / q;
    let k3 = (x0 + sg * y0) / q;
    let k4 = (p + u0) / q;
    let j1 = (x1 * s) / q;
    let j2 = (da + x0) / q;
    let j3 = (y1 * s) / q;
    let j4 = (db + y0) / q;
    let j5 = (ca + sg * cb) / q;
    lemma_scaled_combination(x1, y1, sg, s, q, k1, u1);
    let w = k1 * s;
    let kk = j1 + j2 + sg * j3 + sg * j4 + j5 - w - k2 - k3 - k4;
    assert(sg * (y1 * s) == sg * (q * j3 + db));
    assert(sg * (db + y0) == sg * (q * j4 + cb));
    assert(sg * (q * j3 + db) == q * (sg * j3) + sg * db) by {
        lemma_mul_is_distributive_add(sg, q * j3, db);
        lemma_mul_is_associative(sg, q, j3);
        lemma_mul_is_associative(q, sg, j3);
        lemma_mul_is_commutative(sg, q);
    }
    assert(sg * (q * j4 + cb) == q * (sg * j4) + sg * cb) by {
        lemma_mul_is_distributive_add(sg, q * j4, cb);
        lemma_mul_is_associative(sg, q, j4);
        lemma_mul_is_associative(q, sg, j4);
        lemma_mul_is_commutative(sg, q);
    }
    assert(sg * (db + y0) == sg * db + sg * y0) by {
        lemma_mul_is_distributive_add(sg, db, y0);
    }
    assert(q * kk == q * j1 + q * j2 + q * (sg * j3) + q * (sg * j4) + q * j5 - q * w - q * k2 - q * k3 - q * k4)
        by (nonlinear_arith)
        requires
            kk == j1 + j2 + sg * j3 + sg * j4 + j5 - w - k2 - k3 - k4,
    ;
    assert(l - r == q * kk);
    lemma_reduced_congruent_equal(l, r, kk, q);
    if plus {
        assert(sg * y1 == y1 && sg * y0 == y0 && sg * cb == cb) by (nonlinear_arith)
            requires
                sg == 1,
        ;
    } else {
        assert(sg * y1 == -y1 && sg * y0 == -y0 && sg * cb == -cb) by (nonlinear_arith)
            requires
                sg == -1,
        ;
    }
}


/// An odd power of `-1`: `(q - 1)^(2b + 1) ≡ q - 1 (mod q)`.
pub proof fn lemma_pow_minus_one_odd(q: int, b: nat)
    requires
        q > 1,
    ensures
        pow(q - 1, 2 * b + 1) % q == q - 1,
    decreases b,
{
    if b == 0 {
        lemma_pow1(q - 1);
        lemma_small_mod((q - 1) as nat, q as nat);
    } else {
        let b1 = (b - 1) as nat;
        lemma_pow_minus_one_odd(q, b1);
        let x = pow(q - 1, 2 * b1 + 1);
        lemma_pow_adds(q - 1, 2 * b1 + 1, 2);
        assert(2 * b1 + 1 + 2 == 2 * b + 1);
        assert(pow(q - 1, 2) == (q - 1) * (q - 1)) by {
            lemma_pow_adds(q - 1, 1, 1);
            lemma_pow1(q - 1);
        }
        let y = (q - 1) * (q - 1);
        assert(y == q * (q - 2) + 1) by (nonlinear_arith)
            requires
                y == (q - 1) * (q - 1),
        ;
        lemma_mod_multiples_vanish(q - 2, 1, q);
        lemma_small_mod(1, q as nat);
        lemma_mul_mod_noop(x, y, q);
        lemma_small_mod((q - 1) as nat, q as nat);
    }
}


/// Congruences add and multiply.
proof fn lemma_congruent_ops(x1: int, x2: int, y1: int, y2: int, q: int)
    requires
        q > 0,
        x1 % q == x2 % q,
        y1 % q == y2 % q,
    ensures
        (x1 + y1) % q == (x2 + y2) % q,
        (x1 * y1) % q == (x2 * y2) % q,
{
    lemma_add_mod_noop(x1, y1, q);
    lemma_add_mod_noop(x2, y2, q);
    lemma_mul_mod_noop(x1, y1, q);
    lemma_mul_mod_noop(x2, y2, q);
}

/// Decrypting the tensor of two ciphertexts under `(1, s, s²)` at one ring position gives the
/// product of their decryptions: with `d0 = a0·b0`, `d1 = a0·b1 + a1·b0`, `d2 = a1·b1`,
/// `d1·s + d0 + d2·s² ≡ (a1·s + a0)·(b1·s + b0)`, every step reduced modulo `q`.
pub proof fn lemma_decrypt_tensor_point(a0: int, a1: int, b0: int, b1: int, s: int, q: int)
    requires
        q > 0,
    ensures
        ({
            let d0 = (a0 * b0) % q;
            let d1 = ((a0 * b1) % q + (a1 * b0) % q) % q;
            let d2 = (a1 * b1) % q;
            (((d1 * s) % q + d0) % q + (d2 * ((s * s) % q)) % q) % q
        }) == ((((a1 * s) % q + a0) % q) * (((b1 * s) % q + b0) % q)) % q,
{
    let d0 = (a0 * b0) % q;
    let d1 = ((a0 * b1) % q + (a1 * b0) % q) % q;
    let d2 = (a1 * b1) % q;
    let c = a0 * b1 + a1 * b0;
    let u = ((d1 * s) % q + d0) % q;
    let w = (d2 * ((s * s) % q)) % q;
    let l = (u + w) % q;
    let da = ((a1 * s) % q + a0) % q;
    let db = ((b1 * s) % q + b0) % q;
    let r = (da * db) % q;
    lemma_add_mod_noop(a0 * b1, a1 * b0, q);
    lemma_mod_twice(a0 * b0, q);
    lemma_mod_twice(a1 * b1, q);
    lemma_mod_twice(s * s, q);
    // d1·s + d0 ≡ c·s + a0·b0
    lemma_mod_twice((a0 * b1) % q + (a1 * b0) % q, q);
    lemma_congruent_ops(d1, c, s, s, q);
    lemma_mod_twice(d1 * s, q);
    lemma_congruent_ops((d1 * s) % q, c * s, d0, a0 * b0, q);
    // d2·s² ≡ a1·b1·(s·s)
    lemma_congruent_ops(d2, a1 * b1, (s * s) % q, s * s, q);
    // l ≡ c·s + a0·b0 + a1·b1·(s·s)
    lemma_mod_twice(c * s + a0 * b0, q);
    lemma_mod_twice((a1 * b1) * (s * s), q);
    lemma_congruent_ops(u, c * s + a0 * b0, w, (a1 * b1) * (s * s), q);
    // the decryptions
    lemma_mod_twice(a1 * s, q);
    lemma_mod_twice(a0, q);
    lemma_mod_twice(b1 * s, q);
    lemma_mod_twice(b0, q);
    lemma_congruent_ops((a1 * s) % q, a1 * s, a0, a0, q);
    lemma_congruent_ops((b1 * s) % q, b1 * s, b0, b0, q);
    lemma_mod_twice(a1 * s + a0, q);
    lemma_mod_twice(b1 * s + b0, q);
    lemma_congruent_ops(da, a1 * s + a0, db, b1 * s + b0, q);
    let x = a1 * s;
    let y = b1 * s;
    assert((x + a0) * (y + b0) == x * y + x * b0 + a0 * y + a0 * b0) by (nonlinear_arith);
    assert(x * y == (a1 * b1) * (s * s)) by (nonlinear_arith)
        requires
            x == a1 * s,
            y == b1 * s,
    ;
    assert(x * b0 + a0 * y == c * s) by (nonlinear_arith)
        requires
            x == a1 * s,
            y == b1 * s,
            c == a0 * b1 + a1 * b0,
    ;
    lemma_mod_twice(u + w, q);
    lemma_mod_twice(da * db, q);
}

} // verus!
