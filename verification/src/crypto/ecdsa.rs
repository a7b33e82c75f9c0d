//! Modular ("clock") arithmetic over a 256-bit prime field, and point
//! operations on a short Weierstrass curve, instantiated for secp256k1.
//!
//! Field elements are `Uint256` values below the modulus; operations widen
//! to 512 bits internally so no intermediate result wraps. Contracts are
//! stated against the mathematical field operations `fadd`, `fsub`, `fmul`.

use crate::utils::bignum::{
    lemma_widen_view, uint256_hex, ArithError, Int512, One, Uint256, Uint512, Zero,
};
use crate::utils::limbs::{
    base_pow, lemma_base_pow_adds, lemma_base_pow_pos, lemma_nat_of_cmp_at, lemma_nat_of_zeros,
    nat_of,
};
use vstd::arithmetic::div_mod::{
    lemma_fundamental_div_mod, lemma_fundamental_div_mod_converse, lemma_mod_add_multiples_vanish,
    lemma_mod_bound, lemma_small_mod,
};
use vstd::prelude::*;

verus! {

broadcast use vstd::arithmetic::mul::lemma_mul_nonnegative, vstd::arithmetic::mul::lemma_mul_is_commutative;

/// Field addition: (a + b) mod m.
pub open spec fn fadd(a: nat, b: nat, m: nat) -> nat {
    (a + b) % m
}

/// Field subtraction: (a - b) mod m, kept non-negative.
pub open spec fn fsub(a: nat, b: nat, m: nat) -> nat {
    ((((a % m) + m - (b % m)) as int) % (m as int)) as nat
}

/// Field multiplication: (a * b) mod m.
pub open spec fn fmul(a: nat, b: nat, m: nat) -> nat {
    (a * b) % m
}

/// The greatest common divisor, by Euclid's recurrence.
pub open spec fn gcd(a: nat, b: nat) -> nat
    decreases b,
{
    if b == 0 {
        a
    } else {
        gcd(b, a % b)
    }
}

/// Modular addition of field elements: both operands are already reduced,
/// so one conditional subtraction reduces the sum.
pub fn clock_add(a: &Uint256, b: &Uint256, p: &Uint256) -> (r: Uint256)
    requires
        a@ < p@,
        b@ < p@,
    ensures
        r@ == fadd(a@, b@, p@),
        r@ < p@,
{
    let wa = Uint512::from(*a);
    let wb = Uint512::from(*b);
    let wp = Uint512::from(*p);
    proof {
        lemma_widen_view(*a, wa);
        lemma_widen_view(*b, wb);
        lemma_widen_view(*p, wp);
        lemma_wide_headroom();
        crate::utils::bignum::lemma_uint256_view_bound(*a);
        crate::utils::bignum::lemma_uint256_view_bound(*b);
        crate::utils::bignum::lemma_uint256_view_bound(*p);
        lemma_small_mod((a@ + b@) as nat, base_pow(8));
    }
    let mut res = wa.add(wb);
    if res >= wp {
        proof {
            lemma_fundamental_div_mod_converse(
                (a@ + b@) as int,
                p@ as int,
                1,
                a@ + b@ - p@,
            );
            lemma_small_mod((a@ + b@ - p@) as nat, base_pow(8));
        }
        res = res.sub(wp);
    } else {
        proof {
            lemma_small_mod((a@ + b@) as nat, p@);
        }
    }
    proof {
        assert(res@ < p@ && p@ < base_pow(4));
    }
    match Uint256::from_uint512(res) {
        Ok(v) => v,
        Err(_) => {
            proof {
                assert(false);
            }
            Uint256::min()
        },
    }
}

/// Modular subtraction of field elements: when a < b the difference is
/// taken from the modulus, so no negative value is ever represented.
pub fn clock_sub(a: &Uint256, b: &Uint256, p: &Uint256) -> (r: Uint256)
    requires
        a@ < p@,
        b@ < p@,
    ensures
        r@ == fsub(a@, b@, p@),
        r@ < p@,
{
    proof {
        lemma_small_mod(a@, p@);
        lemma_small_mod(b@, p@);
        crate::utils::limbs::lemma_nat_of_bound(p.limbs());
    }
    if a < b {
        proof {
            lemma_small_mod((b@ - a@) as nat, base_pow(4));
            lemma_small_mod((p@ - (b@ - a@)) as nat, base_pow(4));
            lemma_small_mod((a@ + p@ - b@) as nat, p@);
        }
        p.sub(b.sub(*a))
    } else {
        proof {
            lemma_small_mod((a@ - b@) as nat, base_pow(4));
            lemma_mod_add_multiples_vanish((a@ - b@) as int, p@ as int);
            lemma_small_mod((a@ - b@) as nat, p@);
        }
        a.sub(*b)
    }
}

/// Modular multiplication of field elements: the product is taken in 512
/// bits, then reduced by one division against the modulus.
pub fn clock_mul(a: &Uint256, b: &Uint256, p: &Uint256) -> (r: Uint256)
    requires
        a@ < p@,
        b@ < p@,
    ensures
        r@ == fmul(a@, b@, p@),
        r@ < p@,
{
    let wa = Uint512::from(*a);
    let wb = Uint512::from(*b);
    let wp = Uint512::from(*p);
    proof {
        lemma_widen_view(*a, wa);
        lemma_widen_view(*b, wb);
        lemma_widen_view(*p, wp);
        lemma_wide_headroom();
        crate::utils::bignum::lemma_uint256_view_bound(*a);
        crate::utils::bignum::lemma_uint256_view_bound(*b);
        crate::utils::bignum::lemma_uint256_view_bound(*p);
        assert(a@ * b@ < base_pow(4) * base_pow(4)) by (nonlinear_arith)
            requires
                a@ < base_pow(4),
                b@ < base_pow(4),
        ;
        lemma_small_mod((a@ * b@) as nat, base_pow(8));
    }
    let mut res = wa.mul(wb);
    if res >= wp {
        let dv = match res.div(wp) {
            Ok(v) => v,
            Err(_) => {
                proof {
                    assert(false);
                }
                Uint512::min()
            },
        };
        proof {
            lemma_fundamental_div_mod((a@ * b@) as int, p@ as int);
            assert((a@ * b@) / p@ * p@ <= a@ * b@) by {
                lemma_mod_bound((a@ * b@) as int, p@ as int);
            }
            lemma_small_mod(((a@ * b@) / p@ * p@) as nat, base_pow(8));
            lemma_mod_bound((a@ * b@) as int, p@ as int);
            lemma_small_mod(((a@ * b@) % p@) as nat, base_pow(8));
        }
        let back = dv.mul(wp);
        res = res.sub(back);
    } else {
        proof {
            lemma_small_mod((a@ * b@) as nat, p@);
        }
    }
    proof {
        lemma_mod_bound((a@ * b@) as int, p@ as int);
        assert(res@ < p@ && p@ < base_pow(4));
    }
    match Uint256::from_uint512(res) {
        Ok(v) => v,
        Err(_) => {
            proof {
                assert(false);
            }
            Uint256::min()
        },
    }
}

/// Modular squaring.
pub fn clock_square(a: &Uint256, p: &Uint256) -> (r: Uint256)
    requires
        a@ < p@,
    ensures
        r@ == fmul(a@, a@, p@),
        r@ < p@,
{
    clock_mul(a, a, p)
}

/// Law: additive identity. `clock_add(a, 0, p)` returns `fadd(a@, 0, p@)`,
/// which is a again for any reduced field element.
pub proof fn lemma_clock_add_identity(a: nat, p: nat)
    requires
        a < p,
    ensures
        fadd(a, 0, p) == a,
{
    lemma_small_mod(a, p);
}

/// Law: additive inverse. `clock_sub(a, a, p)` returns `fsub(a@, a@, p@)`,
/// which is zero for any reduced field element.
pub proof fn lemma_clock_sub_self(a: nat, p: nat)
    requires
        a < p,
    ensures
        fsub(a, a, p) == 0,
{
    lemma_small_mod(a, p);
    vstd::arithmetic::div_mod::lemma_mod_self_0(p as int);
}

/// Law: field division round trip. `clock_div(a, b, p)` returns, for b
/// coprime to p, the unique d with `fmul(d, b, p) == a`; `clock_mul` then
/// takes d and b straight back to a.
pub proof fn lemma_clock_div_round_trip(a: nat, b: nat, p: nat, d: nat)
    requires
        a < p,
        d < p,
        fmul(d, b, p) == a % p,
    ensures
        fmul(d, b, p) == a,
{
    lemma_small_mod(a, p);
}

/// One cancellation step: multiplying by an inverse of b undoes a
/// multiplication by b, modulo p.
proof fn lemma_field_cancel_step(x: int, b: int, t: int, p: int)
    requires
        p >= 1,
        x >= 0,
        b >= 0,
        t >= 0,
        (t * b) % p == 1,
    ensures
        (((x * b) % p) * t) % p == x % p,
{
    vstd::arithmetic::div_mod::lemma_mul_mod_noop_left(x * b, t, p);
    assert((x * b) * t == x * (t * b)) by (nonlinear_arith);
    vstd::arithmetic::div_mod::lemma_mul_mod_noop_right(x, t * b, p);
    assert(x * 1 == x) by (nonlinear_arith);
}

/// Law: with an invertible divisor the field quotient is unique: two
/// reduced elements whose products with b agree mod p are equal. Together
/// with the contracts of `clock_div` (which returns some d with
/// `fmul(d, b, p) == a`) and `clock_mul`, this makes the division round
/// trip exact and its result the only element that achieves it.
pub proof fn lemma_field_div_unique(b: nat, p: nat, t: nat, d1: nat, d2: nat)
    requires
        p >= 1,
        fmul(t, b, p) == 1,
        d1 < p,
        d2 < p,
        fmul(d1, b, p) == fmul(d2, b, p),
    ensures
        d1 == d2,
{
    lemma_small_mod(d1, p);
    lemma_small_mod(d2, p);
    lemma_field_cancel_step(d1 as int, b as int, t as int, p as int);
    lemma_field_cancel_step(d2 as int, b as int, t as int, p as int);
}

/// Modular division a / b (mod p): computes the multiplicative inverse of b
/// by the extended Euclidean algorithm in signed 512-bit arithmetic, then
/// multiplies it by a. Fails on a zero divisor, and when b has no inverse
/// because it shares a factor with the modulus.
pub fn clock_div(a: &Uint256, b: &Uint256, p: &Uint256) -> (r: Result<Uint256, ArithError>)
    requires
        a@ < p@,
        b@ < p@,
        p@ >= 2,
    ensures
        b@ == 0 ==> r === Err(ArithError::DivideByZero),
        b@ != 0 && gcd(p@, b@) != 1 ==> r === Err(ArithError::NoModularInverse),
        gcd(p@, b@) == 1 ==> (r matches Ok(q) && q@ < p@ && fmul(q@, b@, p@) == a@),
{
    let ghost pp = p@ as int;
    let ghost bb = b@ as int;
    if b.is_zero() {
        proof {
            assert(gcd(p@, 0) == p@);
        }
        return Err(ArithError::DivideByZero);
    }
    proof {
        crate::utils::bignum::lemma_uint256_view_bound(*p);
        lemma_wide_headroom();
    }
    // Cast `p`
    let wp = Uint512::from(*p);
    let p_i = Int512::from(wp);
    proof {
        lemma_widen_view(*p, wp);
    }

    // Compute the multiplicative inverse of b via the remainder sequence
    // (r, nr) and the Bezout coefficient sequence (t, nt)
    let wb = Uint512::from(*b);
    let mut t = Int512::zero();
    let mut nt = Int512::from_raw(Uint512::one(), true);
    let mut r = p_i;
    let mut nr = Int512::from(wb);
    proof {
        lemma_widen_view(*b, wb);
        assert((0 as int) * bb == 0 && 1 * bb == bb && vstd::math::abs(1) * pp == pp
            && vstd::math::abs(0) * bb == 0) by (nonlinear_arith);
        vstd::arithmetic::div_mod::lemma_mod_self_0(pp);
        lemma_small_mod(b@, p@);
    }
    while !nr.is_zero()
        invariant
            pp == p@ as int,
            bb == b@ as int,
            pp >= 2,
            pp < base_pow(4),
            base_pow(8) == base_pow(4) * base_pow(4),
            base_pow(8) >= 2 * base_pow(4),
            p_i@ == pp,
            1 <= r@ <= pp,
            0 <= nr@ < r@,
            t@ * nt@ <= 0,
            vstd::math::abs(nt@) * r@ + vstd::math::abs(t@) * nr@ == pp,
            vstd::math::abs(t@) <= pp,
            vstd::math::abs(nt@) <= pp,
            (t@ * bb) % pp == r@ % pp,
            (nt@ * bb) % pp == nr@,
            gcd(r@ as nat, nr@ as nat) == gcd(p@, b@),
        decreases nr@,
    {
        let ghost rv = r@;
        let ghost nrv = nr@;
        let ghost tv = t@;
        let ghost ntv = nt@;
        let q = match r.div(nr) {
            Ok(v) => v,
            Err(_) => {
                proof {
                    assert(false);
                }
                Int512::zero()
            },
        };
        proof {
            // q = r / nr, and the products q*nt and q*nr stay within p
            assert(q@ == rv / nrv);
            lemma_fundamental_div_mod(rv, nrv);
            vstd::arithmetic::div_mod::lemma_mod_bound(rv, nrv);
            let qv = q@;
            let ant = vstd::math::abs(ntv);
            assert(qv * nrv <= rv);
            assert(ant * rv <= pp) by (nonlinear_arith)
                requires
                    ant * rv + vstd::math::abs(tv) * nrv == pp,
                    vstd::math::abs(tv) >= 0,
                    nrv >= 0,
            ;
            assert(qv >= 0);
            assert((qv * ant) * nrv == (qv * nrv) * ant) by (nonlinear_arith);
            assert((qv * nrv) * ant <= rv * ant) by (nonlinear_arith)
                requires
                    qv * nrv <= rv,
                    ant >= 0,
            ;
            assert(qv * ant <= (qv * ant) * nrv) by (nonlinear_arith)
                requires
                    nrv >= 1,
                    qv * ant >= 0,
            ;
            assert(qv * ant <= pp);
            if ntv >= 0 {
                assert(vstd::math::abs(qv * ntv) == qv * ant);
            } else {
                assert(qv * ntv <= 0 && -(qv * ntv) == qv * (-ntv)) by (nonlinear_arith)
                    requires
                        qv >= 0,
                        ntv < 0,
                ;
                assert(vstd::math::abs(qv * ntv) == qv * ant);
            }
            assert(qv * nrv >= 0);
            assert(vstd::math::abs(qv * nrv) == qv * nrv);
        }
        let qnt = q.mul(nt);
        let new_nt = t.sub(qnt);
        let qnr = q.mul(nr);
        let new_nr = r.sub(qnr);
        proof {
            let qv = q@;
            // the new remainder is r mod nr
            assert(new_nr@ == rv % nrv);
            // Euclid's recurrence keeps the gcd
            assert(gcd(rv as nat, nrv as nat) == gcd(nrv as nat, (rv % nrv) as nat));
            // the congruence t*b == r (mod p) is preserved
            vstd::arithmetic::div_mod::lemma_mul_mod_noop_right(qv, ntv * bb, pp);
            vstd::arithmetic::div_mod::lemma_sub_mod_noop(tv * bb, qv * (ntv * bb), pp);
            assert((tv - qv * ntv) * bb == tv * bb - qv * (ntv * bb)) by (nonlinear_arith);
            vstd::arithmetic::div_mod::lemma_mul_mod_noop_right(qv, nrv, pp);
            vstd::arithmetic::div_mod::lemma_sub_mod_noop(rv, qv * nrv, pp);
            lemma_small_mod(nrv as nat, pp as nat);
            lemma_small_mod((rv % nrv) as nat, pp as nat);
            assert((new_nt@ * bb) % pp == (rv - qv * nrv) % pp);
            // signs keep alternating and the size identity is preserved
            let ant = vstd::math::abs(ntv);
            let at = vstd::math::abs(tv);
            assert(vstd::math::abs(new_nt@) == at + qv * ant) by (nonlinear_arith)
                requires
                    new_nt@ == tv - qv * ntv,
                    tv * ntv <= 0,
                    qv >= 0,
                    at == vstd::math::abs(tv),
                    ant == vstd::math::abs(ntv),
            ;
            assert(ntv * new_nt@ <= 0) by (nonlinear_arith)
                requires
                    new_nt@ == tv - qv * ntv,
                    tv * ntv <= 0,
                    qv >= 0,
            ;
            assert((at + qv * ant) * nrv + ant * (rv - qv * nrv) == at * nrv + ant * rv)
                by (nonlinear_arith);
            // the new coefficient stays within p
            assert(vstd::math::abs(new_nt@) <= vstd::math::abs(new_nt@) * nrv) by (nonlinear_arith)
                requires
                    nrv >= 1,
                    vstd::math::abs(new_nt@) >= 0,
            ;
            assert(vstd::math::abs(new_nt@) * nrv <= pp) by (nonlinear_arith)
                requires
                    vstd::math::abs(new_nt@) * nrv + ant * (rv % nrv) == pp,
                    ant >= 0,
                    rv % nrv >= 0,
            ;
        }
        t = nt;
        nt = new_nt;
        r = nr;
        nr = new_nr;
    }
    // nr = 0: r is the gcd of p and b; an inverse exists only when it is 1
    let one_i = Int512::from_raw(Uint512::one(), true);
    if r > one_i {
        proof {
            assert(gcd(r@ as nat, 0) == r@ as nat);
        }
        return Err(ArithError::NoModularInverse);
    }
    proof {
        assert(r@ == 1);
        assert(gcd(r@ as nat, 0) == 1);
        lemma_small_mod(1, pp as nat);
        assert((t@ * bb) % pp == 1);
        // t cannot be a multiple of p: that would make t*b == 0 (mod p)
        if vstd::math::abs(t@) == pp {
            assert(t@ == pp || t@ == -pp);
            vstd::arithmetic::div_mod::lemma_mod_multiples_basic(bb, pp);
            if t@ == pp {
                assert(t@ * bb == bb * pp) by (nonlinear_arith)
                    requires
                        t@ == pp,
                ;
            } else {
                assert((t@ * bb) % pp == ((-bb) * pp) % pp) by (nonlinear_arith)
                    requires
                        t@ == -pp,
                ;
                vstd::arithmetic::div_mod::lemma_mod_multiples_basic(-bb, pp);
            }
            assert(false);
        }
        assert(-pp < t@ < pp);
    }
    let mut t = t;
    if t < Int512::zero() {
        let ghost tv = t@;
        t = t.add(p_i);
        proof {
            // shifting by p keeps the congruence
            assert((tv + pp) * bb == pp * bb + tv * bb) by (nonlinear_arith);
            vstd::arithmetic::div_mod::lemma_mod_multiples_vanish(bb, tv * bb, pp);
        }
    }
    proof {
        assert(0 <= t@ < pp);
        assert((t@ * bb) % pp == 1);
    }
    let tu = t.magnitude();
    let ts = match Uint256::from_uint512(tu) {
        Ok(v) => v,
        Err(_) => {
            proof {
                assert(false);
            }
            Uint256::min()
        },
    };

    // Multiply: a * b^(-1) (mod p)
    let res = clock_mul(a, &ts, p);
    proof {
        let tv = ts@ as int;
        let av = a@ as int;
        // res * b == a * (t * b) == a (mod p)
        vstd::arithmetic::div_mod::lemma_mul_mod_noop_left(av * tv, bb, pp);
        assert((av * tv) * bb == av * (tv * bb)) by (nonlinear_arith);
        vstd::arithmetic::div_mod::lemma_mul_mod_noop_right(av, tv * bb, pp);
        assert((av * 1) == av) by (nonlinear_arith);
        lemma_small_mod(a@, p@);
    }
    Ok(res)
}

/// Whether (x, y) satisfies the curve equation y^2 = x^3 + a*x + b (mod m).
pub open spec fn on_curve(x: nat, y: nat, a: nat, b: nat, m: nat) -> bool {
    fmul(y, y, m) == fadd(fadd(fmul(fmul(x, x, m), x, m), fmul(a, x, m), m), b, m)
}

/// Whether lam is the tangent slope at (x, y): lam * 2y = 3x^2 + a (mod m).
pub open spec fn is_double_slope(lam: nat, x: nat, y: nat, a: nat, m: nat) -> bool {
    lam < m && fmul(lam, fmul(y, 2, m), m) == fadd(fmul(fmul(x, x, m), 3, m), a, m)
}

/// The result of doubling (x, y): for some tangent slope lam,
/// rx = lam^2 - 2x and ry = lam*(x - rx) - y (mod m).
pub open spec fn ec_double_rel(x: nat, y: nat, a: nat, m: nat, rx: nat, ry: nat) -> bool {
    exists|lam: nat|
        #[trigger] is_double_slope(lam, x, y, a, m) && rx == fsub(
            fmul(lam, lam, m),
            fmul(x, 2, m),
            m,
        ) && ry == fsub(fmul(lam, fsub(x, rx, m), m), y, m)
}

/// Whether lam is the chord slope through (x1, y1) and (x2, y2):
/// lam * (x2 - x1) = y2 - y1 (mod m).
pub open spec fn is_chord_slope(lam: nat, x1: nat, y1: nat, x2: nat, y2: nat, m: nat) -> bool {
    lam < m && fmul(lam, fsub(x2, x1, m), m) == fsub(y2, y1, m)
}

/// The result of adding distinct points: for some chord slope lam,
/// rx = lam^2 - x1 - x2 and ry = lam*(x1 - rx) - y1 (mod m).
pub open spec fn ec_add_rel(x1: nat, y1: nat, x2: nat, y2: nat, m: nat, rx: nat, ry: nat) -> bool {
    exists|lam: nat|
        #[trigger] is_chord_slope(lam, x1, y1, x2, y2, m) && rx == fsub(
            fsub(fmul(lam, lam, m), x1, m),
            x2,
            m,
        ) && ry == fsub(fmul(lam, fsub(x1, rx, m), m), y1, m)
}

/// The result of the double-and-add recursion for k * (x, y): k = 1 gives
/// the point itself, an even k doubles the result for k/2, and an odd k
/// adds the point to the result for k - 1.
pub open spec fn ec_mul_rel(k: nat, x: nat, y: nat, a: nat, m: nat, rx: nat, ry: nat) -> bool
    decreases k,
{
    if k == 0 {
        false
    } else if k == 1 {
        rx == x && ry == y
    } else if k == 2 {
        ec_double_rel(x, y, a, m, rx, ry)
    } else if k % 2 == 1 {
        exists|hx: nat, hy: nat|
            ec_mul_rel((k - 1) as nat, x, y, a, m, hx, hy) && #[trigger] ec_add_rel(
                hx,
                hy,
                x,
                y,
                m,
                rx,
                ry,
            )
    } else {
        exists|hx: nat, hy: nat|
            ec_mul_rel(k / 2, x, y, a, m, hx, hy) && #[trigger] ec_double_rel(hx, hy, a, m, rx, ry)
    }
}


/// Whether the point (hx, hy) can be added to a point with x-coordinate x:
/// the x-coordinates differ and their field difference is invertible.
pub open spec fn ec_step_add_ok(hx: nat, hy: nat, x: nat, m: nat) -> bool {
    hx != x && gcd(m, fsub(x, hx, m)) == 1
}

/// Whether the point (hx, hy) can be doubled: its doubled y-coordinate is
/// invertible, so the tangent slope exists.
pub open spec fn ec_step_double_ok(hx: nat, hy: nat, m: nat) -> bool {
    gcd(m, fmul(hy, 2, m)) == 1
}

/// When the double-and-add recursion for k * (x, y) is bound to succeed:
/// k is positive and no step of the recursion is degenerate — for k = 2
/// the point's tangent exists, for odd k every (k-1)-fold point can be
/// added to the point, and for even k every k/2-fold point can be doubled.
pub open spec fn ec_mul_ok(k: nat, x: nat, y: nat, a: nat, m: nat) -> bool
    decreases k,
{
    if k == 0 {
        false
    } else if k == 1 {
        true
    } else if k == 2 {
        gcd(m, fmul(y, 2, m)) == 1
    } else if k % 2 == 1 {
        ec_mul_ok((k - 1) as nat, x, y, a, m) && (forall|hx: nat, hy: nat|
            ec_mul_rel((k - 1) as nat, x, y, a, m, hx, hy) ==> #[trigger] ec_step_add_ok(
                hx,
                hy,
                x,
                m,
            ))
    } else {
        ec_mul_ok(k / 2, x, y, a, m) && (forall|hx: nat, hy: nat|
            ec_mul_rel(k / 2, x, y, a, m, hx, hy) ==> #[trigger] ec_step_double_ok(hx, hy, m))
    }
}

/// Folds one odd step of the double-and-add recursion.
proof fn lemma_ec_mul_rel_odd(k: nat, x: nat, y: nat, a: nat, m: nat, hx: nat, hy: nat, rx: nat, ry: nat)
    requires
        2 < k,
        k % 2 == 1,
        ec_mul_rel((k - 1) as nat, x, y, a, m, hx, hy),
        ec_add_rel(hx, hy, x, y, m, rx, ry),
    ensures
        ec_mul_rel(k, x, y, a, m, rx, ry),
{
    assert(exists|px: nat, py: nat|
        ec_mul_rel((k - 1) as nat, x, y, a, m, px, py) && #[trigger] ec_add_rel(
            px,
            py,
            x,
            y,
            m,
            rx,
            ry,
        ));
}

/// Folds one even step of the double-and-add recursion.
proof fn lemma_ec_mul_rel_even(k: nat, x: nat, y: nat, a: nat, m: nat, hx: nat, hy: nat, rx: nat, ry: nat)
    requires
        2 < k,
        k % 2 == 0,
        ec_mul_rel(k / 2, x, y, a, m, hx, hy),
        ec_double_rel(hx, hy, a, m, rx, ry),
    ensures
        ec_mul_rel(k, x, y, a, m, rx, ry),
{
    assert(exists|px: nat, py: nat|
        ec_mul_rel(k / 2, x, y, a, m, px, py) && #[trigger] ec_double_rel(px, py, a, m, rx, ry));
}

/// Elliptic curve over a finite field, in short Weierstrass form
/// y^2 = x^3 + a*x + b (mod modulo), with a distinguished generator point.
#[derive(Clone, Copy, Debug, PartialEq, Eq, Structural)]
pub struct EllipticCurve {
    /// The modulo that defines the finite field.
    pub modulo: Uint256,
    /// The `a` curve parameter.
    pub a: Uint256,
    /// The `b` curve parameter.
    pub b: Uint256,
    /// The x coordinate of the generation point.
    pub gen_x: Uint256,
    /// The y coordinate of the generation point.
    pub gen_y: Uint256,
}

impl EllipticCurve {
    /// A well-formed curve: the coefficients and the generator coordinates
    /// are reduced field elements, and the field is large enough for the
    /// short Weierstrass form (characteristic beyond 3).
    pub open spec fn wf(self) -> bool {
        &&& self.modulo@ > 3
        &&& self.a@ < self.modulo@
        &&& self.b@ < self.modulo@
        &&& self.gen_x@ < self.modulo@
        &&& self.gen_y@ < self.modulo@
    }

    pub fn modulo(&self) -> (r: &Uint256)
        ensures
            *r == self.modulo,
    {
        &self.modulo
    }

    pub fn a(&self) -> (r: &Uint256)
        ensures
            *r == self.a,
    {
        &self.a
    }

    pub fn b(&self) -> (r: &Uint256)
        ensures
            *r == self.b,
    {
        &self.b
    }

    /// The generation point, carrying this curve.
    pub fn gen_point(&self) -> (r: ECPoint)
        ensures
            r == (ECPoint { x: self.gen_x, y: self.gen_y, curve: *self }),
            self.wf() ==> r.wf(),
    {
        ECPoint { x: self.gen_x, y: self.gen_y, curve: *self }
    }

    /// Creates a point on this curve, with no check of the curve equation.
    pub fn create_point(&self, x: Uint256, y: Uint256) -> (r: ECPoint)
        ensures
            r == (ECPoint { x, y, curve: *self }),
    {
        ECPoint { x, y, curve: *self }
    }

    /// Creates a point on this curve only if the coordinates are reduced
    /// field elements that satisfy the curve equation.
    pub fn try_create_point(&self, x: Uint256, y: Uint256) -> (r: Option<ECPoint>)
        requires
            self.wf(),
        ensures
            (x@ < self.modulo@ && y@ < self.modulo@ && on_curve(x@, y@, self.a@, self.b@, self.modulo@))
                <==> (r matches Some(q) && q == (ECPoint { x, y, curve: *self })),
            r matches Some(q) ==> q.wf(),
    {
        if !(x < self.modulo) || !(y < self.modulo) {
            return None;
        }
        let y2 = clock_square(&y, &self.modulo);
        let x2 = clock_square(&x, &self.modulo);
        let x3 = clock_mul(&x2, &x, &self.modulo);
        let ax = clock_mul(&self.a, &x, &self.modulo);
        let x3ax = clock_add(&x3, &ax, &self.modulo);
        let rhs = clock_add(&x3ax, &self.b, &self.modulo);
        if y2 == rhs {
            Some(ECPoint { x, y, curve: *self })
        } else {
            proof {
                if y2@ == rhs@ {
                    crate::utils::bignum::lemma_uint256_view_injective(y2, rhs);
                }
            }
            None
        }
    }
}

/// Point on the elliptic curve.
#[derive(Clone, Copy, Debug, PartialEq, Eq, Structural)]
pub struct ECPoint {
    /// The `x` coordinate of the point.
    pub x: Uint256,
    /// The `y` coordinate of the point.
    pub y: Uint256,
    /// The curve that is associated to the point.
    pub curve: EllipticCurve,
}

impl ECPoint {
    /// A well-formed point: its curve is well formed and its coordinates
    /// are reduced field elements.
    pub open spec fn wf(self) -> bool {
        &&& self.curve.wf()
        &&& self.x@ < self.curve.modulo@
        &&& self.y@ < self.curve.modulo@
    }

    pub fn new(x: Uint256, y: Uint256, curve: &EllipticCurve) -> (r: Self)
        ensures
            r == (ECPoint { x, y, curve: *curve }),
    {
        ECPoint { x, y, curve: *curve }
    }

    /// Returns `x` component of the elliptic curve point.
    pub fn x(&self) -> (r: &Uint256)
        ensures
            *r == self.x,
    {
        &self.x
    }

    /// Returns `y` component of the elliptic curve point.
    pub fn y(&self) -> (r: &Uint256)
        ensures
            *r == self.y,
    {
        &self.y
    }

    /// Returns the associated elliptic `curve`.
    pub fn curve(&self) -> (r: &EllipticCurve)
        ensures
            *r == self.curve,
    {
        &self.curve
    }

    /// Doubles the point by the tangent construction. Fails, propagating
    /// the field division failure, when 2y has no inverse modulo p; for a
    /// prime p that is exactly the case y = 0, the vertical tangent.
    pub fn double(&self) -> (r: Result<Self, ArithError>)
        requires
            self.wf(),
        ensures
            fmul(self.y@, 2, self.curve.modulo@) == 0 ==> r === Err(ArithError::DivideByZero),
            fmul(self.y@, 2, self.curve.modulo@) != 0 && gcd(
                self.curve.modulo@,
                fmul(self.y@, 2, self.curve.modulo@),
            ) != 1 ==> r === Err(ArithError::NoModularInverse),
            gcd(self.curve.modulo@, fmul(self.y@, 2, self.curve.modulo@)) == 1 ==> (r matches Ok(q)
                && q.curve == self.curve && q.wf() && ec_double_rel(
                self.x@,
                self.y@,
                self.curve.a@,
                self.curve.modulo@,
                q.x@,
                q.y@,
            )),
    {
        let pm = self.curve.modulo;
        let two = Uint256::from_u64(2);
        let three = Uint256::from_u64(3);
        let x = self.x;
        let y = self.y;

        // Calc `X`
        let xp2 = clock_square(&x, &pm);  // x^2
        let xp2m3 = clock_mul(&xp2, &three, &pm);  // 3x^2
        let xaa = clock_add(&xp2m3, &self.curve.a, &pm);  // 3x^2 + a
        let ym2 = clock_mul(&y, &two, &pm);  // 2y
        let div = match clock_div(&xaa, &ym2, &pm) {
            Ok(v) => v,  // (3x^2 + a) / 2y
            Err(e) => {
                return Err(e);
            },
        };
        let divp2 = clock_square(&div, &pm);  // ((3x^2 + a) / 2y)^2
        let xm2 = clock_mul(&x, &two, &pm);  // 2x
        let rx = clock_sub(&divp2, &xm2, &pm);  // ((3x^2 + a) / 2y)^2 - 2x

        // Calc `Y`
        let x1sx3 = clock_sub(&x, &rx, &pm);  // x_1 - x_3
        let dmx1s3 = clock_mul(&div, &x1sx3, &pm);  // ((3x^2 + a) / 2y) * (x_1 - x_3)
        let ry = clock_sub(&dmx1s3, &y, &pm);  // ((3x^2 + a) / 2y) * (x_1 - x_3) - y

        proof {
            assert(is_double_slope(div@, self.x@, self.y@, self.curve.a@, self.curve.modulo@));
        }
        Ok(ECPoint { x: rx, y: ry, curve: self.curve })
    }

    /// Adds two distinct points by the chord construction; the other
    /// point's coordinates are taken in this point's field. Fails when the
    /// points share an x-coordinate: the chord is vertical, which covers
    /// doubling and the point at infinity, which this representation
    /// cannot express.
    pub fn add(self, other: Self) -> (r: Result<Self, ArithError>)
        requires
            self.wf(),
            other.x@ < self.curve.modulo@,
            other.y@ < self.curve.modulo@,
        ensures
            self.x@ == other.x@ ==> r === Err(ArithError::DegenerateGeometry),
            self.x@ != other.x@ && gcd(
                self.curve.modulo@,
                fsub(other.x@, self.x@, self.curve.modulo@),
            ) != 1 ==> r === Err(ArithError::NoModularInverse),
            self.x@ != other.x@ && gcd(
                self.curve.modulo@,
                fsub(other.x@, self.x@, self.curve.modulo@),
            ) == 1 ==> (r matches Ok(q) && q.curve == self.curve && q.wf() && ec_add_rel(
                self.x@,
                self.y@,
                other.x@,
                other.y@,
                self.curve.modulo@,
                q.x@,
                q.y@,
            )),
    {
        let pm = self.curve.modulo;
        if self.x == other.x {
            return Err(ArithError::DegenerateGeometry);
        }
        proof {
            if self.x@ == other.x@ {
                crate::utils::bignum::lemma_uint256_view_injective(self.x, other.x);
            }
        }
        let (x1, y1) = (self.x, self.y);
        let (x2, y2) = (other.x, other.y);

        // Calc `X`
        let y2sy1 = clock_sub(&y2, &y1, &pm);  // y_2 - y_1
        let x2sx1 = clock_sub(&x2, &x1, &pm);  // x_2 - x_1
        proof {
            lemma_fsub_nonzero(x1@, x2@, pm@);
        }
        let div = match clock_div(&y2sy1, &x2sx1, &pm) {
            Ok(v) => v,  // (y_2 - y_1) / (x_2 - x_1)
            Err(e) => {
                return Err(e);
            },
        };
        let dp2 = clock_square(&div, &pm);  // ((y_2 - y_1) / (x_2 - x_1))^2
        let dp2sx1 = clock_sub(&dp2, &x1, &pm);  // ((y_2 - y_1) / (x_2 - x_1))^2 - x_1
        let rx = clock_sub(&dp2sx1, &x2, &pm);  // ((y_2 - y_1) / (x_2 - x_1))^2 - x_1 - x_2

        // Calc `Y`
        let x1sx3 = clock_sub(&x1, &rx, &pm);  // x_1 - x_3
        let dmx1sx3 = clock_mul(&div, &x1sx3, &pm);  // (y_2 - y_1) / (x_2 - x_1) * (x_1 - x_3)
        let ry = clock_sub(&dmx1sx3, &y1, &pm);  // (y_2 - y_1) / (x_2 - x_1) * (x_1 - x_3) - y_1

        proof {
            assert(is_chord_slope(div@, self.x@, self.y@, other.x@, other.y@, pm@));
        }
        Ok(ECPoint { x: rx, y: ry, curve: self.curve })
    }

    /// Scalar multiplication by recursive double-and-add: k = 1 yields the
    /// point, an even k doubles the half product, an odd k adds the point
    /// to the product for k - 1. A zero scalar has no representable result.
    pub fn mul(self, other: Uint256) -> (r: Result<Self, ArithError>)
        requires
            self.wf(),
        ensures
            other@ == 0 ==> r === Err(ArithError::DegenerateGeometry),
            other@ == 1 ==> r === Ok(self),
            r matches Ok(q) ==> q.curve == self.curve && q.wf() && ec_mul_rel(
                other@,
                self.x@,
                self.y@,
                self.curve.a@,
                self.curve.modulo@,
                q.x@,
                q.y@,
            ),
            r matches Err(e) ==> (e == ArithError::DegenerateGeometry || e
                == ArithError::DivideByZero || e == ArithError::NoModularInverse),
            ec_mul_ok(other@, self.x@, self.y@, self.curve.a@, self.curve.modulo@) ==> r is Ok,
        decreases other@,
    {
        let two = Uint256::from_u64(2);
        if other.is_zero() {
            Err(ArithError::DegenerateGeometry)
        } else if other.is_one() {
            Ok(self)
        } else if other == two {
            proof {
                assert(other@ == 2);
            }
            match self.double() {
                Ok(q) => {
                    proof {
                        assert(other@ == 2);
                        assert(ec_double_rel(
                            self.x@,
                            self.y@,
                            self.curve.a@,
                            self.curve.modulo@,
                            q.x@,
                            q.y@,
                        ));
                        assert(ec_mul_rel(
                            other@,
                            self.x@,
                            self.y@,
                            self.curve.a@,
                            self.curve.modulo@,
                            q.x@,
                            q.y@,
                        ));
                    }
                    Ok(q)
                },
                Err(e) => {
                    proof {
                        // the tangent failed, so the success condition fails
                        assert(!ec_mul_ok(
                            other@,
                            self.x@,
                            self.y@,
                            self.curve.a@,
                            self.curve.modulo@,
                        ));
                    }
                    Err(e)
                },
            }
        } else if other.is_odd() {
            let km1 = other.sub(Uint256::from_u64(1));
            proof {
                crate::utils::bignum::lemma_uint256_view_bound(other);
                lemma_small_mod((other@ - 1) as nat, base_pow(4));
            }
            match self.mul(km1) {
                Ok(h) => match h.add(self) {
                    Ok(q) => {
                        proof {
                            lemma_ec_mul_rel_odd(
                                other@,
                                self.x@,
                                self.y@,
                                self.curve.a@,
                                self.curve.modulo@,
                                h.x@,
                                h.y@,
                                q.x@,
                                q.y@,
                            );
                        }
                        Ok(q)
                    },
                    Err(e) => {
                        proof {
                            let mm = self.curve.modulo@;
                            if ec_mul_ok(other@, self.x@, self.y@, self.curve.a@, mm) {
                                // the sub-result satisfies the recursion
                                // relation, so a met step condition would
                                // have made the addition succeed
                                assert(ec_step_add_ok(h.x@, h.y@, self.x@, mm));
                                assert(false);
                            }
                        }
                        Err(e)
                    },
                },
                Err(e) => {
                    proof {
                        if ec_mul_ok(other@, self.x@, self.y@, self.curve.a@, self.curve.modulo@) {
                            assert(false);
                        }
                    }
                    Err(e)
                },
            }
        } else {
            // even
            proof {
                if other@ == 2 {
                    crate::utils::bignum::lemma_uint256_view_injective(other, two);
                }
            }
            let half = match other.div(two) {
                Ok(v) => v,
                Err(_) => {
                    proof {
                        assert(false);
                    }
                    return Err(ArithError::DivideByZero);
                },
            };
            proof {
                vstd::arithmetic::div_mod::lemma_div_decreases(other@ as int, 2);
                vstd::arithmetic::div_mod::lemma_div_non_zero(other@ as int, 2);
            }
            match self.mul(half) {
                Ok(h) => match h.double() {
                    Ok(q) => {
                        proof {
                            lemma_ec_mul_rel_even(
                                other@,
                                self.x@,
                                self.y@,
                                self.curve.a@,
                                self.curve.modulo@,
                                h.x@,
                                h.y@,
                                q.x@,
                                q.y@,
                            );
                        }
                        Ok(q)
                    },
                    Err(e) => {
                        proof {
                            let mm = self.curve.modulo@;
                            if ec_mul_ok(other@, self.x@, self.y@, self.curve.a@, mm) {
                                // the sub-result satisfies the recursion
                                // relation, so a met step condition would
                                // have made the doubling succeed
                                assert(ec_step_double_ok(h.x@, h.y@, mm));
                                assert(false);
                            }
                        }
                        Err(e)
                    },
                },
                Err(e) => {
                    proof {
                        if ec_mul_ok(other@, self.x@, self.y@, self.curve.a@, self.curve.modulo@) {
                            assert(false);
                        }
                    }
                    Err(e)
                },
            }
        }
    }
}

/// The rendering of a point: the pair of its coordinates, each in
/// padded hexadecimal.
pub open spec fn ecpoint_hex(q: ECPoint) -> Seq<char> {
    seq!['('] + uint256_hex(q.x) + seq![','] + seq![' '] + uint256_hex(q.y) + seq![')']
}

impl ECPoint {
    /// The rendering of the point for debugging and traces: the pair of
    /// its coordinates, each in padded hexadecimal.
    pub fn to_hex(&self) -> (s: String)
        ensures
            s@ == ecpoint_hex(*self),
    {
        let mut s = String::new();
        s.push('(');
        self.x.push_hex(&mut s);
        s.push(',');
        s.push(' ');
        self.y.push_hex(&mut s);
        s.push(')');
        proof {
            assert(s@ =~= ecpoint_hex(*self));
        }
        s
    }
}

/// Two distinct reduced field elements have a non-zero field difference.
proof fn lemma_fsub_nonzero(x1: nat, x2: nat, m: nat)
    requires
        x1 < m,
        x2 < m,
        x1 != x2,
    ensures
        fsub(x2, x1, m) != 0,
{
    lemma_small_mod(x1, m);
    lemma_small_mod(x2, m);
    if x2 > x1 {
        lemma_small_mod((x2 - x1) as nat, m);
        lemma_mod_add_multiples_vanish((x2 - x1) as int, m as int);
    } else {
        lemma_small_mod((x2 + m - x1) as nat, m);
    }
}

/// Secp256k1: the curve y^2 = x^3 + 7 over the field of the prime
/// 2^256 - 2^32 - 977, with the standard generator.
pub fn secp256k1() -> (c: EllipticCurve)
    ensures
        c == (EllipticCurve {
            modulo: (Uint256 {
                d0: 0xfffffffefffffc2f,
                d1: 0xffffffffffffffff,
                d2: 0xffffffffffffffff,
                d3: 0xffffffffffffffff,
            }),
            a: (Uint256 { d0: 0, d1: 0, d2: 0, d3: 0 }),
            b: (Uint256 { d0: 7, d1: 0, d2: 0, d3: 0 }),
            gen_x: (Uint256 {
                d0: 0x59f2815b16f81798,
                d1: 0x029bfcdb2dce28d9,
                d2: 0x55a06295ce870b07,
                d3: 0x79be667ef9dcbbac,
            }),
            gen_y: (Uint256 {
                d0: 0x9c47d08ffb10d4b8,
                d1: 0xfd17b448a6855419,
                d2: 0x5da4fbfc0e1108a8,
                d3: 0x483ada7726a3c465,
            }),
        }),
        c.wf(),
{
    let c = EllipticCurve {
        modulo: Uint256 {
            d0: 0xfffffffefffffc2f,
            d1: 0xffffffffffffffff,
            d2: 0xffffffffffffffff,
            d3: 0xffffffffffffffff,
        },
        a: Uint256 { d0: 0, d1: 0, d2: 0, d3: 0 },
        b: Uint256 { d0: 7, d1: 0, d2: 0, d3: 0 },
        gen_x: Uint256 {
            d0: 0x59f2815b16f81798,
            d1: 0x029bfcdb2dce28d9,
            d2: 0x55a06295ce870b07,
            d3: 0x79be667ef9dcbbac,
        },
        gen_y: Uint256 {
            d0: 0x9c47d08ffb10d4b8,
            d1: 0xfd17b448a6855419,
            d2: 0x5da4fbfc0e1108a8,
            d3: 0x483ada7726a3c465,
        },
    };
    proof {
        assert(c.modulo@ >= c.modulo.d0) by {
            assert(c.modulo@ == (c.modulo.d0 as nat) + 0x10000000000000000 * nat_of(
                c.modulo.limbs().drop_first(),
            ));
        }
        lemma_nat_of_zeros(c.a.limbs());
        crate::utils::bignum::lemma_uint_value_single(c.b.limbs());
        assert(c.gen_x.limbs().skip(4) =~= c.modulo.limbs().skip(4));
        assert(c.gen_y.limbs().skip(4) =~= c.modulo.limbs().skip(4));
        lemma_nat_of_cmp_at(c.gen_x.limbs(), c.modulo.limbs(), 3);
        lemma_nat_of_cmp_at(c.gen_y.limbs(), c.modulo.limbs(), 3);
    }
    c
}

/// 512 bits hold any sum or product of two 256-bit values.
proof fn lemma_wide_headroom()
    ensures
        base_pow(8) == base_pow(4) * base_pow(4),
        base_pow(4) >= 2,
        base_pow(8) >= 2 * base_pow(4),
{
    lemma_base_pow_adds(4, 4);
    lemma_base_pow_pos(3);
    assert(base_pow(4) == 0x10000000000000000 * base_pow(3));
    assert(0x10000000000000000 * base_pow(3) >= 0x10000000000000000 * 1) by (nonlinear_arith)
        requires
            base_pow(3) >= 1,
    ;
    assert(base_pow(4) * base_pow(4) >= 2 * base_pow(4)) by (nonlinear_arith)
        requires
            base_pow(4) >= 2,
    ;
}

} // verus!
