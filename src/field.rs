//! Exact scalars: the prime field of residues modulo `MODULUS`.
//!
//! Every nonzero element has an inverse, so elimination divides exactly and the
//! test against zero is an exact one.
use vstd::arithmetic::div_mod::{
    lemma_fundamental_div_mod, lemma_mod_bound, lemma_mod_multiples_vanish,
    lemma_mul_mod_noop_left, lemma_mul_mod_noop_right, lemma_small_mod,
    lemma_sub_mod_noop,
};
use vstd::prelude::*;

verus! {

/// The prime that the arithmetic of `Fp` is taken modulo.
pub const MODULUS: u64 = 1_000_003;

/// The modulus as a mathematical integer.
pub open spec fn modulus() -> int {
    MODULUS as int
}

/// The residue of an integer, in `0..MODULUS`.
pub open spec fn residue(x: int) -> int {
    x % modulus()
}

/// Difference of two residues.
pub open spec fn fsub(a: int, b: int) -> int {
    (a - b) % modulus()
}

/// Product of two residues.
pub open spec fn fmul(a: int, b: int) -> int {
    (a * b) % modulus()
}

/// `x` is the multiplicative inverse of `a`.
pub open spec fn is_inverse(a: int, x: int) -> bool {
    0 <= x < modulus() && (a * x) % modulus() == 1
}

/// The multiplicative inverse of a nonzero residue.
pub open spec fn finv(a: int) -> int {
    choose|x: int| is_inverse(a, x)
}

/// Quotient of two residues, the divisor being nonzero.
pub open spec fn fdiv(a: int, b: int) -> int {
    fmul(a, finv(b))
}

/// An element of the prime field of integers modulo `MODULUS`.
#[derive(Clone, Copy, Debug, PartialEq, Eq, Structural)]
pub struct Fp {
    val: u64,
}

impl View for Fp {
    type V = int;

    /// The residue this element stands for.
    closed spec fn view(&self) -> int {
        self.val as int % modulus()
    }
}

/// `MODULUS` is prime: it is no product of two smaller factors above one.
proof fn lemma_modulus_has_no_factor(g: u64, z: u64)
    requires
        1 < g < MODULUS,
        z < MODULUS,
    ensures
        g * z != MODULUS,
{
    assert(1 < g && g < 1_000_003u64 && z < 1_000_003u64 ==> g * z != 1_000_003u64)
        by (bit_vector);
}

/// Extended Euclid on `(r0, r1)`: returns `(g, s, t, u, v)` with
/// `s * r0 + t * r1 == g`, `r0 == u * g` and `r1 == v * g`.
proof fn lemma_bezout(r0: int, r1: int) -> (res: (int, int, int, int, int))
    requires
        r0 > 0,
        r1 >= 0,
    ensures
        res.0 > 0,
        res.1 * r0 + res.2 * r1 == res.0,
        r0 == res.3 * res.0,
        r1 == res.4 * res.0,
    decreases r1,
{
    if r1 == 0 {
        (r0, 1, 0, 1, 0)
    } else {
        let q = r0 / r1;
        let r2 = r0 % r1;
        lemma_fundamental_div_mod(r0, r1);
        lemma_mod_bound(r0, r1);
        let (g, s, t, u, v) = lemma_bezout(r1, r2);
        assert(t * r0 + (s - t * q) * r1 == g) by (nonlinear_arith)
            requires
                s * r1 + t * r2 == g,
                r0 == r1 * q + r2,
        ;
        assert(r0 == (q * u + v) * g) by (nonlinear_arith)
            requires
                r1 == u * g,
                r2 == v * g,
                r0 == r1 * q + r2,
        ;
        (g, t, s - t * q, q * u + v, u)
    }
}

/// A common divisor of `a` in `1..MODULUS` and of `MODULUS` is one.
proof fn lemma_common_divisor_is_one(a: int, g: int, u: int, v: int)
    requires
        0 < a < modulus(),
        g > 0,
        modulus() == u * g,
        a == v * g,
    ensures
        g == 1,
{
    assert(v >= 1 && g <= a) by (nonlinear_arith)
        requires
            a > 0,
            g > 0,
            a == v * g,
    ;
    if g > 1 {
        assert(0 < u < modulus()) by (nonlinear_arith)
            requires
                g > 1,
                u * g == modulus(),
                modulus() > 1,
        ;
        lemma_modulus_has_no_factor(g as u64, u as u64);
        assert(g * u == u * g) by (nonlinear_arith);
    }
}

/// Every nonzero residue has an inverse.
pub proof fn lemma_inverse_exists(a: int)
    requires
        0 < a < modulus(),
    ensures
        exists|x: int| is_inverse(a, x),
{
    let (g, s, t, u, v) = lemma_bezout(modulus(), a);
    lemma_common_divisor_is_one(a, g, u, v);
    // t * a == 1 - s * MODULUS
    let x = t % modulus();
    lemma_mod_bound(t, modulus());
    lemma_mul_mod_noop_left(t, a, modulus());
    assert(t * a == modulus() * (-s) + 1) by (nonlinear_arith)
        requires
            s * modulus() + t * a == 1,
    ;
    lemma_mod_multiples_vanish(-s, 1, modulus());
    assert((x * a) % modulus() == 1);
    assert(a * x == x * a) by (nonlinear_arith);
    assert(is_inverse(a, x));
}

/// The inverse of a residue is unique.
pub proof fn lemma_inverse_unique(a: int, x: int, y: int)
    requires
        is_inverse(a, x),
        is_inverse(a, y),
    ensures
        x == y,
{
    let m = modulus();
    // x == x * (a * y) == (x * a) * y == y, modulo m
    lemma_mul_mod_noop_right(x, a * y, m);
    lemma_mul_mod_noop_left(x * a, y, m);
    assert(x * (a * y) == (x * a) * y) by (nonlinear_arith);
    assert(x * a == a * x) by (nonlinear_arith);
    lemma_small_mod(x as nat, m as nat);
    lemma_small_mod(y as nat, m as nat);
}

/// `finv(a)` is the inverse of a nonzero residue.
pub proof fn lemma_finv(a: int)
    requires
        0 < a < modulus(),
    ensures
        is_inverse(a, finv(a)),
{
    lemma_inverse_exists(a);
}

/// Dividing by a nonzero residue and multiplying back gives the residue of the dividend.
pub proof fn lemma_div_mul_cancel(a: int, b: int)
    requires
        0 < b < modulus(),
    ensures
        fmul(fdiv(a, b), b) == residue(a),
{
    let m = modulus();
    let i = finv(b);
    lemma_finv(b);
    lemma_mul_mod_noop_left(a * i, b, m);
    assert((a * i) * b == a * (i * b)) by (nonlinear_arith);
    assert(i * b == b * i) by (nonlinear_arith);
    lemma_mul_mod_noop_right(a, i * b, m);
    assert(a * 1 == a);
}

/// Subtracting `(a / b) * b` from a residue `a` leaves zero.
pub proof fn lemma_sub_scaled_pivot(a: int, b: int)
    requires
        0 <= a < modulus(),
        0 < b < modulus(),
    ensures
        fsub(a, fmul(fdiv(a, b), b)) == 0,
{
    lemma_div_mul_cancel(a, b);
    lemma_small_mod(a as nat, modulus() as nat);
}

/// A nonzero residue divided by itself is one.
pub proof fn lemma_div_self(a: int)
    requires
        0 < a < modulus(),
    ensures
        fdiv(a, a) == 1,
{
    lemma_finv(a);
}

impl Fp {
    /// The residue of an element lies in `0..MODULUS`.
    pub proof fn lemma_view_in_range(&self)
        ensures
            0 <= self@ < modulus(),
    {
        lemma_mod_bound(self.val as int, modulus());
    }

    /// The additive identity.
    pub fn zero() -> (r: Fp)
        ensures
            r@ == 0,
    {
        proof {
            lemma_small_mod(0, modulus() as nat);
        }
        Fp { val: 0 }
    }

    /// The multiplicative identity.
    pub fn one() -> (r: Fp)
        ensures
            r@ == 1,
    {
        proof {
            lemma_small_mod(1, modulus() as nat);
        }
        Fp { val: 1 }
    }

    /// The residue of an unsigned integer.
    pub fn from_u64(v: u64) -> (r: Fp)
        ensures
            r@ == residue(v as int),
    {
        let r = Fp { val: v % MODULUS };
        proof {
            lemma_mod_bound(v as int, modulus());
            lemma_small_mod((v % MODULUS) as nat, modulus() as nat);
        }
        r
    }

    /// The residue of a signed integer.
    pub fn from_i64(v: i64) -> (r: Fp)
        ensures
            r@ == residue(v as int),
    {
        if v >= 0 {
            Fp::from_u64(v as u64)
        } else {
            let n: u64 = (-(v as i128)) as u64;
            let k: u64 = n % MODULUS;
            proof {
                let m = modulus();
                lemma_fundamental_div_mod(n as int, m);
                lemma_mod_bound(n as int, m);
                let q = (n as int) / m;
                if k == 0 {
                    assert(v as int == m * (-q) + 0);
                    lemma_mod_multiples_vanish(-q, 0, m);
                } else {
                    assert(v as int == m * (-q - 1) + (m - k)) by (nonlinear_arith)
                        requires
                            v as int == -(n as int),
                            n as int == m * q + k,
                    ;
                    lemma_mod_multiples_vanish(-q - 1, m - k, m);
                    lemma_small_mod((m - k) as nat, m as nat);
                }
            }
            if k == 0 {
                Fp::zero()
            } else {
                Fp::from_u64(MODULUS - k)
            }
        }
    }

    /// The canonical representative, in `0..MODULUS`.
    pub fn value(&self) -> (r: u64)
        ensures
            r == self@,
            r < MODULUS,
    {
        proof {
            lemma_mod_bound(self.val as int, modulus());
        }
        self.val % MODULUS
    }

    /// Exact test against zero.
    pub fn is_zero(&self) -> (b: bool)
        ensures
            b == (self@ == 0),
    {
        self.val % MODULUS == 0
    }

    /// Field subtraction.
    pub fn sub(self, o: Fp) -> (r: Fp)
        ensures
            r@ == fsub(self@, o@),
    {
        let a = self.value();
        let b = o.value();
        proof {
            lemma_sub_mod_noop(a as int, b as int, modulus());
            lemma_mod_multiples_vanish(1, a - b, modulus());
        }
        Fp::from_u64(a + (MODULUS - b))
    }

    /// Field multiplication.
    pub fn mul(self, o: Fp) -> (r: Fp)
        ensures
            r@ == fmul(self@, o@),
    {
        let a = self.value();
        let b = o.value();
        assert(a * b < 1_000_003 * 1_000_003) by (nonlinear_arith)
            requires
                a < 1_000_003,
                b < 1_000_003,
        ;
        Fp::from_u64(a * b)
    }

    /// Field division by a nonzero element. Zero has no inverse in a field, so
    /// a zero divisor is ruled out; the elimination only divides by entries it
    /// has just tested to be nonzero.
    pub fn div(self, o: Fp) -> (r: Fp)
        requires
            o@ != 0,
        ensures
            r@ == fdiv(self@, o@),
    {
        let b = o.value();
        let i = inverse(b);
        proof {
            lemma_finv(b as int);
            lemma_inverse_unique(b as int, i as int, finv(b as int));
            lemma_small_mod(i as nat, modulus() as nat);
        }
        self.mul(Fp { val: i })
    }
}

/// The inverse of a nonzero residue, by the extended Euclidean algorithm.
fn inverse(a: u64) -> (r: u64)
    requires
        0 < a < MODULUS,
    ensures
        is_inverse(a as int, r as int),
{
    let mut r0: u64 = MODULUS;
    let mut r1: u64 = a;
    let mut t0: u64 = 0;
    let mut t1: u64 = 1;
    let ghost m = modulus();
    // r0 == t0 * a + k0 * m and r1 == t1 * a + k1 * m
    let ghost mut k0: int = 1;
    let ghost mut k1: int = 0;
    // a == x * r0 + y * r1 and m == z * r0 + w * r1
    let ghost mut x: int = 0;
    let ghost mut y: int = 1;
    let ghost mut z: int = 1;
    let ghost mut w: int = 0;
    while r1 != 0
        invariant
            m == modulus(),
            0 < a < m,
            0 < r0 <= m,
            r1 < m,
            t0 < m,
            t1 < m,
            r0 == t0 * a + k0 * m,
            r1 == t1 * a + k1 * m,
            a == x * r0 + y * r1,
            m == z * r0 + w * r1,
        decreases r1,
    {
        let q: u64 = r0 / r1;
        let r2: u64 = r0 % r1;
        assert(q * t1 <= 1_000_003 * 1_000_003) by (nonlinear_arith)
            requires
                q <= r0,
                r0 <= 1_000_003,
                t1 < 1_000_003,
        ;
        let u: u64 = (q * t1) % MODULUS;
        let t2: u64 = (t0 + (MODULUS - u)) % MODULUS;
        proof {
            lemma_fundamental_div_mod(r0 as int, r1 as int);
            lemma_fundamental_div_mod((q * t1) as int, m);
            lemma_fundamental_div_mod((t0 + (m - u)) as int, m);
            let c = (q * t1) as int / m;
            let d = (t0 + (m - u)) as int / m;
            let e = d - 1 - c;
            let k2 = e * a + k0 - q * k1;
            assert(r2 == t2 * a + k2 * m) by (nonlinear_arith)
                requires
                    r0 == r1 * q + r2,
                    r0 == t0 * a + k0 * m,
                    r1 == t1 * a + k1 * m,
                    q * t1 == m * c + u,
                    t0 + (m - u) == m * d + t2,
                    e == d - 1 - c,
                    k2 == e * a + k0 - q * k1,
            ;
            assert(a == (x * q + y) * r1 + x * r2 && m == (z * q + w) * r1 + z * r2)
                by (nonlinear_arith)
                requires
                    r0 == r1 * q + r2,
                    a == x * r0 + y * r1,
                    m == z * r0 + w * r1,
            ;
            k0 = k1;
            k1 = k2;
            let nx = x * q + y;
            y = x;
            x = nx;
            let nz = z * q + w;
            w = z;
            z = nz;
        }
        r0 = r1;
        r1 = r2;
        t0 = t1;
        t1 = t2;
    }
    proof {
        lemma_common_divisor_is_one(a as int, r0 as int, z, x);
        assert(t0 * a == m * (-k0) + 1);
        lemma_mod_multiples_vanish(-k0, 1, m);
        assert(a * t0 == t0 * a) by (nonlinear_arith);
    }
    t0
}

} // verus!
