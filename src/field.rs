//! Elements of the prime field with modulus `2^64 - 2^32 + 1`.
use vstd::prelude::*;

verus! {

/// The field modulus.
pub const MODULUS: u64 = 18446744069414584321;

pub open spec fn modulus() -> nat {
    18446744069414584321
}

/// Sum of two field values.
pub open spec fn fadd(a: nat, b: nat) -> nat {
    (a + b) % modulus()
}

/// Product of two field values.
pub open spec fn fmul(a: nat, b: nat) -> nat {
    (a * b) % modulus()
}

/// Multiplying by `q` and then by `d` gives the value back where `q` is an
/// inverse of `d`.
pub proof fn lemma_mul_inverse_cancels(a: nat, q: nat, d: nat)
    requires
        fmul(d, q) == 1,
        a < modulus(),
    ensures
        fmul(fmul(a, q), d) == a,
{
    let m = modulus() as int;
    vstd::arithmetic::div_mod::lemma_mul_mod_noop_left((a * q) as int, d as int, m);
    vstd::arithmetic::mul::lemma_mul_is_associative(a as int, q as int, d as int);
    vstd::arithmetic::mul::lemma_mul_is_commutative(q as int, d as int);
    vstd::arithmetic::div_mod::lemma_mul_mod_noop_right(a as int, (q * d) as int, m);
    assert(((q * d) as int) % m == 1);
    vstd::arithmetic::div_mod::lemma_small_mod(a, modulus());
}

/// `d` has a multiplicative inverse.
pub open spec fn is_invertible(d: nat) -> bool {
    exists|q: nat| fmul(d, q) == 1
}

/// Subtracting a multiple commutes with reduction.
proof fn lemma_mod_step(x: int, y: int, q: int, xm: int, ym: int, m: int)
    requires
        m > 0,
        xm == x % m,
        ym == y % m,
    ensures
        (x - q * y) % m == (xm + m - (q * ym) % m) % m,
{
    vstd::arithmetic::div_mod::lemma_mul_mod_noop_right(q, y, m);
    vstd::arithmetic::div_mod::lemma_sub_mod_noop(x, q * y, m);
    vstd::arithmetic::div_mod::lemma_mod_add_multiples_vanish(xm - (q * ym) % m, m);
}

/// A field element, kept in canonical form by every constructor.
#[derive(Clone, Copy, Debug, PartialEq, Eq, Structural)]
pub struct Scalar {
    v: u64,
}

impl Scalar {
    /// The canonical integer that represents this element.
    pub closed spec fn val(self) -> nat {
        self.v as nat
    }

    /// The element whose canonical integer is `n` reduced by the modulus.
    pub closed spec fn of(n: nat) -> Scalar {
        Scalar { v: (n % modulus()) as u64 }
    }

    pub broadcast proof fn lemma_of_val(n: nat)
        ensures
            #[trigger] Scalar::of(n).val() == n % modulus(),
    {
    }

    /// An element is determined by its canonical integer.
    pub proof fn lemma_val_injective(a: Scalar, b: Scalar)
        requires
            a.val() == b.val(),
        ensures
            a == b,
    {
    }

    pub fn from_u64(x: u64) -> (r: Scalar)
        ensures
            r.val() == x as nat % modulus(),
    {
        Scalar { v: x % MODULUS }
    }

    pub fn zero() -> (r: Scalar)
        ensures
            r.val() == 0,
    {
        Scalar { v: 0 }
    }

    pub fn one() -> (r: Scalar)
        ensures
            r.val() == 1,
    {
        Scalar { v: 1 }
    }

    /// The canonical integer of this element.
    pub fn to_u64(&self) -> (r: u64)
        ensures
            r as nat == self.val(),
    {
        self.v
    }

    pub fn add(&self, o: &Scalar) -> (r: Scalar)
        ensures
            r.val() == fadd(self.val(), o.val()),
    {
        let s: u128 = self.v as u128 + o.v as u128;
        Scalar { v: (s % (MODULUS as u128)) as u64 }
    }

    pub fn mul(&self, o: &Scalar) -> (r: Scalar)
        ensures
            r.val() == fmul(self.val(), o.val()),
    {
        let a: u128 = self.v as u128;
        let b: u128 = o.v as u128;
        proof {
            assert(a * b <= 0xffff_ffff_ffff_ffffu128 * 0xffff_ffff_ffff_ffffu128) by (nonlinear_arith)
                requires a <= 0xffff_ffff_ffff_ffffu128, b <= 0xffff_ffff_ffff_ffffu128;
        }
        let p: u128 = a * b;
        Scalar { v: (p % (MODULUS as u128)) as u64 }
    }

    /// The multiplicative inverse, found by the extended Euclidean algorithm:
    /// `Some` exactly where the element has one.
    pub fn inverse(&self) -> (r: Option<Scalar>)
        ensures
            r matches Some(x) ==> fmul(self.val(), x.val()) == 1,
            r is Some <==> is_invertible(self.val()),
            self.val() % modulus() == 0 ==> r is None,
    {
        let a: u64 = self.v % MODULUS;
        let ghost m: int = modulus() as int;
        let ghost a0: int = self.v as int;
        proof {
            vstd::arithmetic::div_mod::lemma_mul_mod_noop_left(a0, 0, m);
            assert forall|q: nat| #[trigger] fmul(self.val(), q) == ((a as int) * q) % m by {
                vstd::arithmetic::div_mod::lemma_mul_mod_noop_left(a0, q as int, m);
            }
        }
        if a == 0 {
            proof {
                assert forall|q: nat| #[trigger] fmul(self.val(), q) != 1 by {
                    assert((a as int) * q == 0);
                }
            }
            return None;
        }
        let mut r0: u64 = MODULUS;
        let mut r1: u64 = a;
        let mut t0: u64 = 0;
        let mut t1: u64 = 1;
        let ghost mut tt0: int = 0;
        let ghost mut tt1: int = 1;
        let ghost mut k0: int = 1;
        let ghost mut k1: int = 0;
        let ghost mut c0: int = 0;
        let ghost mut c1: int = 1;
        let ghost mut e0: int = 1;
        let ghost mut e1: int = 0;
        while r1 != 0
            invariant
                m == MODULUS as int,
                0 < a < MODULUS,
                r1 < r0,
                r0 == tt0 * a + k0 * m,
                r1 == tt1 * a + k1 * m,
                t0 < MODULUS,
                t1 < MODULUS,
                t0 == tt0 % m,
                t1 == tt1 % m,
                a == c0 * r0 + c1 * r1,
                m == e0 * r0 + e1 * r1,
            decreases r1,
        {
            let q: u64 = r0 / r1;
            let r2: u64 = r0 % r1;
            proof {
                let qq = q as u128;
                let tq = t1 as u128;
                assert(qq * tq <= 0xffff_ffff_ffff_ffffu128 * 0xffff_ffff_ffff_ffffu128) by (nonlinear_arith)
                    requires qq <= 0xffff_ffff_ffff_ffffu128, tq <= 0xffff_ffff_ffff_ffffu128;
            }
            let qt: u128 = (q as u128) * (t1 as u128) % (MODULUS as u128);
            let t2: u64 = ((t0 as u128 + MODULUS as u128 - qt) % (MODULUS as u128)) as u64;
            proof {
                let qi = q as int;
                vstd::arithmetic::div_mod::lemma_fundamental_div_mod(r0 as int, r1 as int);
                assert(r0 == r1 * qi + r2);
                lemma_mod_step(tt0, tt1, qi, t0 as int, t1 as int, m);
                assert(r2 == (tt0 - qi * tt1) * a + (k0 - qi * k1) * m) by (nonlinear_arith)
                    requires
                        r0 == r1 * qi + r2,
                        r0 == tt0 * a + k0 * m,
                        r1 == tt1 * a + k1 * m,
                ;
                assert(a == (c0 * qi + c1) * r1 + c0 * r2) by (nonlinear_arith)
                    requires
                        r0 == r1 * qi + r2,
                        a == c0 * r0 + c1 * r1,
                ;
                assert(m == (e0 * qi + e1) * r1 + e0 * r2) by (nonlinear_arith)
                    requires
                        r0 == r1 * qi + r2,
                        m == e0 * r0 + e1 * r1,
                ;
                let nt = tt0 - qi * tt1;
                let nk = k0 - qi * k1;
                let nc = c0 * qi + c1;
                let ne = e0 * qi + e1;
                tt0 = tt1;
                tt1 = nt;
                k0 = k1;
                k1 = nk;
                c1 = c0;
                c0 = nc;
                e1 = e0;
                e0 = ne;
            }
            r0 = r1;
            r1 = r2;
            t0 = t1;
            t1 = t2;
        }
        if r0 == 1 {
            proof {
                vstd::arithmetic::div_mod::lemma_mod_multiples_vanish(k0, tt0 * a, m);
                vstd::arithmetic::mul::lemma_mul_is_commutative(m, k0);
                vstd::arithmetic::mul::lemma_mul_is_commutative(tt0, a as int);
                vstd::arithmetic::div_mod::lemma_mul_mod_noop_right(a as int, tt0, m);
                assert(fmul(self.val(), t0 as nat) == ((a as int) * t0) % m);
            }
            Some(Scalar { v: t0 })
        } else {
            proof {
                assert forall|q: nat| #[trigger] fmul(self.val(), q) != 1 by {
                    if fmul(self.val(), q) == 1 {
                        let aq = (a as int) * q;
                        vstd::arithmetic::div_mod::lemma_fundamental_div_mod(aq, m);
                        let k = aq / m;
                        assert(aq == m * k + 1);
                        let x = c0 * q - e0 * k;
                        assert(r0 * x == 1) by (nonlinear_arith)
                            requires
                                aq == (a as int) * q,
                                aq == m * k + 1,
                                a == c0 * r0,
                                m == e0 * r0,
                                x == c0 * q - e0 * k,
                        ;
                        if x >= 1 {
                            assert(r0 * x >= r0 * 1) by (nonlinear_arith)
                                requires x >= 1, r0 > 1;
                        } else {
                            assert(r0 * x <= 0) by (nonlinear_arith)
                                requires x <= 0, r0 > 1;
                        }
                    }
                }
            }
            None
        }
    }

    /// Compares two elements by their canonical integers.
    pub fn le(&self, o: &Scalar) -> (r: bool)
        ensures
            r == (self.val() <= o.val()),
    {
        self.v <= o.v
    }

    pub fn equals(&self, o: &Scalar) -> (r: bool)
        ensures
            r == (*self == *o),
    {
        self.v == o.v
    }
}

} // verus!
