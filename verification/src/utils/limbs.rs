//! Limb-level arithmetic shared by the fixed-width integer types.
//!
//! A big number is a little-endian sequence of 64-bit limbs; `nat_of` gives
//! the mathematical value of such a sequence and every contract in this
//! module is stated against it.

use vstd::arithmetic::div_mod::{lemma_fundamental_div_mod, lemma_fundamental_div_mod_converse};
use vstd::arithmetic::mul::{lemma_mul_inequality, lemma_mul_strictly_positive};
use vstd::prelude::*;

verus! {

broadcast use vstd::arithmetic::mul::lemma_mul_nonnegative, vstd::arithmetic::mul::lemma_mul_is_commutative;

/// 2^(64*n): the weight of the limb at index n.
pub open spec fn base_pow(n: nat) -> nat
    decreases n,
{
    if n == 0 {
        1
    } else {
        0x10000000000000000 * base_pow((n - 1) as nat)
    }
}

/// The value of a little-endian limb sequence.
pub open spec fn nat_of(s: Seq<u64>) -> nat
    decreases s.len(),
{
    if s.len() == 0 {
        0
    } else {
        (s[0] as nat) + 0x10000000000000000 * nat_of(s.drop_first())
    }
}

/// The limb at index i, taking absent positions as zero.
pub open spec fn limb_at(s: Seq<u64>, i: int) -> u64 {
    if 0 <= i < s.len() {
        s[i]
    } else {
        0
    }
}

pub proof fn lemma_base_pow_pos(n: nat)
    ensures
        base_pow(n) >= 1,
    decreases n,
{
    if n > 0 {
        lemma_base_pow_pos((n - 1) as nat);
        lemma_mul_strictly_positive(0x10000000000000000, base_pow((n - 1) as nat) as int);
    }
}

pub proof fn lemma_base_pow_adds(m: nat, n: nat)
    ensures
        base_pow(m + n) == base_pow(m) * base_pow(n),
    decreases m,
{
    if m == 0 {
        assert(base_pow(m + n) == base_pow(n));
        assert(base_pow(m) == 1);
        assert(base_pow(m + n) == base_pow(m) * base_pow(n));
    } else {
        let mp = (m - 1) as nat;
        lemma_base_pow_adds(mp, n);
        assert((m + n - 1) as nat == mp + n);
        assert(base_pow(m + n) == 0x10000000000000000 * base_pow(mp + n));
        assert(0x10000000000000000 * (base_pow(mp) * base_pow(n)) == (0x10000000000000000
            * base_pow(mp)) * base_pow(n)) by (nonlinear_arith);
        assert(base_pow(m) == 0x10000000000000000 * base_pow(mp));
    }
}

pub proof fn lemma_nat_of_bound(s: Seq<u64>)
    ensures
        nat_of(s) < base_pow(s.len()),
    decreases s.len(),
{
    if s.len() == 0 {
    } else {
        let tail = s.drop_first();
        lemma_nat_of_bound(tail);
        assert((s[0] as nat) + 0x10000000000000000 * nat_of(tail) < 0x10000000000000000 * (nat_of(
            tail,
        ) + 1)) by (nonlinear_arith)
            requires
                (s[0] as nat) < 0x10000000000000000,
        ;
        lemma_mul_inequality(
            nat_of(tail) as int + 1,
            base_pow(tail.len()) as int,
            0x10000000000000000,
        );
    }
}

pub proof fn lemma_nat_of_push(s: Seq<u64>, x: u64)
    ensures
        nat_of(s.push(x)) == nat_of(s) + (x as nat) * base_pow(s.len()),
    decreases s.len(),
{
    if s.len() == 0 {
        assert(s.push(x).drop_first() =~= Seq::<u64>::empty());
        assert(nat_of(Seq::<u64>::empty()) == 0);
        assert(nat_of(s.push(x)) == x as nat);
        assert(base_pow(s.len()) == 1);
        assert(nat_of(s) == 0);
        assert((x as nat) * 1 == x as nat) by (nonlinear_arith);
    } else {
        assert(s.push(x).drop_first() =~= s.drop_first().push(x));
        lemma_nat_of_push(s.drop_first(), x);
        let t = nat_of(s.drop_first());
        let w = base_pow((s.len() - 1) as nat);
        assert(s.drop_first().len() == (s.len() - 1) as nat);
        assert(nat_of(s.push(x)) == (s[0] as nat) + 0x10000000000000000 * (t + (x as nat) * w));
        assert(0x10000000000000000 * (t + (x as nat) * w) == 0x10000000000000000 * t + (x as nat) * (
        0x10000000000000000 * w)) by (nonlinear_arith);
        assert(base_pow(s.len()) == 0x10000000000000000 * w);
        assert(nat_of(s) == (s[0] as nat) + 0x10000000000000000 * t);
    }
}

pub proof fn lemma_nat_of_split(s: Seq<u64>, i: int)
    requires
        0 <= i <= s.len(),
    ensures
        nat_of(s) == nat_of(s.take(i)) + base_pow(i as nat) * nat_of(s.skip(i)),
    decreases i,
{
    if i == 0 {
        assert(s.take(0) =~= Seq::<u64>::empty());
        assert(s.skip(0) =~= s);
        assert(nat_of(Seq::<u64>::empty()) == 0);
        assert(base_pow(0) == 1);
        assert(1 * nat_of(s) == nat_of(s)) by (nonlinear_arith);
    } else {
        let t = s.drop_first();
        lemma_nat_of_split(t, i - 1);
        assert(s.take(i).drop_first() =~= t.take(i - 1));
        assert(s.skip(i) =~= t.skip(i - 1));
        assert(s.take(i).len() == i);
        assert(nat_of(s.take(i)) == (s[0] as nat) + 0x10000000000000000 * nat_of(t.take(i - 1)));
        let lo = nat_of(t.take(i - 1));
        let hi = nat_of(t.skip(i - 1));
        let w = base_pow((i - 1) as nat);
        assert(0x10000000000000000 * (lo + w * hi) == 0x10000000000000000 * lo + (
        0x10000000000000000 * w) * hi) by (nonlinear_arith);
    }
}

pub proof fn lemma_nat_of_take_succ(s: Seq<u64>, i: int)
    requires
        0 <= i < s.len(),
    ensures
        nat_of(s.take(i + 1)) == nat_of(s.take(i)) + (s[i] as nat) * base_pow(i as nat),
{
    assert(s.take(i + 1) =~= s.take(i).push(s[i]));
    lemma_nat_of_push(s.take(i), s[i]);
}

/// The first limb and the rest of the value, recovered from the value.
pub proof fn lemma_nat_of_first(s: Seq<u64>)
    requires
        s.len() > 0,
    ensures
        (s[0] as nat) == nat_of(s) % 0x10000000000000000,
        nat_of(s.drop_first()) == nat_of(s) / 0x10000000000000000,
{
    lemma_fundamental_div_mod_converse(
        nat_of(s) as int,
        0x10000000000000000,
        nat_of(s.drop_first()) as int,
        s[0] as int,
    );
}

/// Equal values in equally many limbs have equal limbs.
pub proof fn lemma_nat_of_injective(a: Seq<u64>, b: Seq<u64>)
    requires
        a.len() == b.len(),
        nat_of(a) == nat_of(b),
    ensures
        a =~= b,
    decreases a.len(),
{
    if a.len() > 0 {
        lemma_nat_of_first(a);
        lemma_nat_of_first(b);
        lemma_nat_of_injective(a.drop_first(), b.drop_first());
        assert forall|i: int| 0 <= i < a.len() implies a[i] == b[i] by {
            if i > 0 {
                assert(a.drop_first()[i - 1] == b.drop_first()[i - 1]);
            }
        }
    }
}

/// Appending zero limbs does not change the value.
pub proof fn lemma_nat_of_extend_zero(s: Seq<u64>, n: int)
    requires
        s.len() <= n,
    ensures
        nat_of(Seq::new(n as nat, |i: int| limb_at(s, i))) == nat_of(s),
    decreases n - s.len(),
{
    let padded = Seq::new(n as nat, |i: int| limb_at(s, i));
    if s.len() == n {
        assert(padded =~= s);
    } else {
        let shorter = Seq::new((n - 1) as nat, |i: int| limb_at(s, i));
        lemma_nat_of_extend_zero(s, n - 1);
        assert(padded =~= shorter.push(0));
        lemma_nat_of_push(shorter, 0);
    }
}

/// If two equally long sequences agree above index i and differ at i,
/// the one with the smaller limb at i has the smaller value.
pub proof fn lemma_nat_of_cmp_at(a: Seq<u64>, b: Seq<u64>, i: int)
    requires
        a.len() == b.len(),
        0 <= i < a.len(),
        a.skip(i + 1) =~= b.skip(i + 1),
        a[i] < b[i],
    ensures
        nat_of(a) < nat_of(b),
{
    lemma_nat_of_split(a, i);
    lemma_nat_of_split(b, i);
    let w = base_pow(i as nat);
    let rest = nat_of(a.skip(i + 1));
    assert(a.skip(i).drop_first() =~= a.skip(i + 1));
    assert(b.skip(i).drop_first() =~= b.skip(i + 1));
    assert(nat_of(a.skip(i)) == (a[i] as nat) + 0x10000000000000000 * rest);
    assert(nat_of(b.skip(i)) == (b[i] as nat) + 0x10000000000000000 * rest);
    assert(nat_of(a.skip(i)) < nat_of(b.skip(i)));
    lemma_nat_of_bound(a.take(i));
    assert(a.take(i).len() == i);
    assert(w * nat_of(a.skip(i)) + w <= w * nat_of(b.skip(i))) by (nonlinear_arith)
        requires
            nat_of(a.skip(i)) < nat_of(b.skip(i)),
            w >= 1,
    ;
}

/// Low 32 bits of a 64-bit limb.
pub fn lo(x: u64) -> (r: u32)
    ensures
        (r as u64) == x % 0x100000000,
{
    proof {
        assert((x & 0xFFFFFFFF) == x % 0x100000000) by (bit_vector);
    }
    (x & 0xFFFFFFFF) as u32
}

/// High 32 bits of a 64-bit limb.
pub fn hi(x: u64) -> (r: u32)
    ensures
        (r as u64) == x / 0x100000000,
{
    proof {
        assert((x >> 32) == x / 0x100000000) by (bit_vector);
    }
    (x >> 32) as u32
}

/// The limb at index i, taking absent positions as zero.
pub fn item_or_zero(slice: &[u64], i: usize) -> (r: u64)
    ensures
        r == limb_at(slice@, i as int),
{
    if i < slice.len() {
        slice[i]
    } else {
        0
    }
}

/// Full 64x64 -> 128 bit multiplication by 32-bit halves: returns the low
/// limb of the product and the carry limb above it.
pub fn mul_u64_carry(a: u64, b: u64) -> (r: (u64, u64))
    ensures
        (r.0 as nat) + 0x10000000000000000 * (r.1 as nat) == (a as nat) * (b as nat),
{
    let al = lo(a) as u64;
    let ah = hi(a) as u64;
    let bl = lo(b) as u64;
    let bh = hi(b) as u64;
    proof {
        lemma_fundamental_div_mod(a as int, 0x100000000);
        lemma_fundamental_div_mod(b as int, 0x100000000);
        assert(al * bl <= 0xFFFFFFFE00000001 && ah * bl <= 0xFFFFFFFE00000001 && al * bh
            <= 0xFFFFFFFE00000001 && ah * bh <= 0xFFFFFFFE00000001) by (nonlinear_arith)
            requires
                al < 0x100000000 && ah < 0x100000000 && bl < 0x100000000 && bh < 0x100000000,
        ;
    }
    // Every `s` below holds one 32-bit piece of the 128-bit product.
    let x1 = al * bl;
    let s0 = lo(x1) as u64;
    let c1 = hi(x1) as u64;

    let x2 = ah * bl + c1;
    let s1a = lo(x2) as u64;
    let s2a = hi(x2) as u64;

    let x3 = al * bh + s1a;
    let s1 = lo(x3) as u64;
    let c3 = hi(x3) as u64;

    let x4 = ah * bh + s2a + c3;
    let s2 = lo(x4) as u64;
    let s3 = hi(x4) as u64;

    proof {
        lemma_fundamental_div_mod(x1 as int, 0x100000000);
        lemma_fundamental_div_mod(x2 as int, 0x100000000);
        lemma_fundamental_div_mod(x3 as int, 0x100000000);
        lemma_fundamental_div_mod(x4 as int, 0x100000000);
        assert((s0 as nat) + 0x100000000 * (s1 as nat) + 0x10000000000000000 * (s2 as nat)
            + 0x1000000000000000000000000 * (s3 as nat) == (a as nat) * (b as nat))
            by (nonlinear_arith)
            requires
                a == 0x100000000 * ah + al,
                b == 0x100000000 * bh + bl,
                x1 == al * bl,
                x1 == 0x100000000 * c1 + s0,
                x2 == ah * bl + c1,
                x2 == 0x100000000 * s2a + s1a,
                x3 == al * bh + s1a,
                x3 == 0x100000000 * c3 + s1,
                x4 == ah * bh + s2a + c3,
                x4 == 0x100000000 * s3 + s2,
        ;
    }
    // result -> merge `s0` and `s1`; carry -> merge `s2` and `s3`
    let result = (s1 << 32) | s0;
    let carry = (s3 << 32) | s2;
    proof {
        assert(s0 < 0x100000000 && s1 < 0x100000000 && s2 < 0x100000000 && s3 < 0x100000000
            ==> ((s1 << 32) | s0) == s1 * 0x100000000 + s0 && ((s3 << 32) | s2) == s3
            * 0x100000000 + s2) by (bit_vector);
        assert(0x10000000000000000 * ((s3 as nat) * 0x100000000 + s2) == 0x1000000000000000000000000
            * (s3 as nat) + 0x10000000000000000 * (s2 as nat)) by (nonlinear_arith);
    }
    (result, carry)
}

/// Compares two big unsigned integers given as little-endian limb slices,
/// the shorter one taken as padded with zero limbs.
pub fn bn_raw_cmp(a: &[u64], b: &[u64]) -> (r: core::cmp::Ordering)
    ensures
        r == core::cmp::Ordering::Equal <==> nat_of(a@) == nat_of(b@),
        r == core::cmp::Ordering::Less <==> nat_of(a@) < nat_of(b@),
        r == core::cmp::Ordering::Greater <==> nat_of(a@) > nat_of(b@),
{
    let n = if a.len() > b.len() {
        a.len()
    } else {
        b.len()
    };
    let ghost pa = Seq::new(n as nat, |k: int| limb_at(a@, k));
    let ghost pb = Seq::new(n as nat, |k: int| limb_at(b@, k));
    proof {
        lemma_nat_of_extend_zero(a@, n as int);
        lemma_nat_of_extend_zero(b@, n as int);
    }
    let mut i: usize = n;
    while i > 0
        invariant
            i <= n,
            n == if a@.len() > b@.len() {
                a@.len()
            } else {
                b@.len()
            },
            pa == Seq::new(n as nat, |k: int| limb_at(a@, k)),
            pb == Seq::new(n as nat, |k: int| limb_at(b@, k)),
            nat_of(pa) == nat_of(a@),
            nat_of(pb) == nat_of(b@),
            forall|j: int| i <= j < n ==> pa[j] == pb[j],
        decreases i,
    {
        i = i - 1;
        let ai = item_or_zero(a, i);
        let bi = item_or_zero(b, i);
        if ai < bi {
            proof {
                assert(pa.skip(i + 1) =~= pb.skip(i + 1));
                lemma_nat_of_cmp_at(pa, pb, i as int);
            }
            return core::cmp::Ordering::Less;
        }
        if ai > bi {
            proof {
                assert(pb.skip(i + 1) =~= pa.skip(i + 1));
                lemma_nat_of_cmp_at(pb, pa, i as int);
            }
            return core::cmp::Ordering::Greater;
        }
    }
    proof {
        assert(pa =~= pb);
    }
    core::cmp::Ordering::Equal
}

/// Limb-wise addition with carry propagation; the result wraps at the width
/// of the inputs and the final carry is returned beside it.
pub fn bn_add(a: &[u64], b: &[u64]) -> (r: (Vec<u64>, bool))
    requires
        a@.len() == b@.len(),
    ensures
        r.0@.len() == a@.len(),
        nat_of(r.0@) + (if r.1 {
            base_pow(a@.len())
        } else {
            0
        }) == nat_of(a@) + nat_of(b@),
{
    let n = a.len();
    let mut out: Vec<u64> = Vec::new();
    let mut carry: u64 = 0;
    let mut i: usize = 0;
    proof {
        assert(a@.take(0) =~= Seq::<u64>::empty());
        assert(b@.take(0) =~= Seq::<u64>::empty());
    }
    while i < n
        invariant
            i <= n,
            n == a@.len(),
            a@.len() == b@.len(),
            out@.len() == i,
            carry <= 1,
            nat_of(out@) + base_pow(i as nat) * (carry as nat) == nat_of(a@.take(i as int)) + nat_of(
                b@.take(i as int),
            ),
        decreases n - i,
    {
        let t: u128 = a[i] as u128 + b[i] as u128 + carry as u128;
        let limb = (t % 0x10000000000000000) as u64;
        let new_carry = (t / 0x10000000000000000) as u64;
        proof {
            let w = base_pow(i as nat);
            lemma_nat_of_take_succ(a@, i as int);
            lemma_nat_of_take_succ(b@, i as int);
            lemma_nat_of_push(out@, limb);
            assert(t == 0x10000000000000000 * (new_carry as nat) + (limb as nat));
            assert(w * ((carry as nat) + (a@[i as int] as nat) + (b@[i as int] as nat)) == w * (
            carry as nat) + (a@[i as int] as nat) * w + (b@[i as int] as nat) * w)
                by (nonlinear_arith);
            assert(w * (0x10000000000000000 * (new_carry as nat) + (limb as nat)) == (
            0x10000000000000000 * w) * (new_carry as nat) + (limb as nat) * w) by (nonlinear_arith);
        }
        out.push(limb);
        carry = new_carry;
        i = i + 1;
    }
    proof {
        assert(a@.take(n as int) =~= a@);
        assert(b@.take(n as int) =~= b@);
    }
    (out, carry == 1)
}

/// Limb-wise subtraction with borrow propagation; the result wraps at the
/// width of the inputs and the final borrow is returned beside it.
pub fn bn_sub(a: &[u64], b: &[u64]) -> (r: (Vec<u64>, bool))
    requires
        a@.len() == b@.len(),
    ensures
        r.0@.len() == a@.len(),
        (r.1 <==> nat_of(a@) < nat_of(b@)),
        nat_of(r.0@) == nat_of(a@) + (if r.1 {
            base_pow(a@.len())
        } else {
            0
        }) - nat_of(b@),
{
    let n = a.len();
    let mut out: Vec<u64> = Vec::new();
    let mut borrow: u64 = 0;
    let mut i: usize = 0;
    proof {
        assert(a@.take(0) =~= Seq::<u64>::empty());
        assert(b@.take(0) =~= Seq::<u64>::empty());
    }
    while i < n
        invariant
            i <= n,
            n == a@.len(),
            a@.len() == b@.len(),
            out@.len() == i,
            borrow <= 1,
            nat_of(out@) == nat_of(a@.take(i as int)) + base_pow(i as nat) * (borrow as nat)
                - nat_of(b@.take(i as int)),
        decreases n - i,
    {
        let t: u128 = 0x10000000000000000 + a[i] as u128 - b[i] as u128 - borrow as u128;
        let limb = (t % 0x10000000000000000) as u64;
        let q = (t / 0x10000000000000000) as u64;
        let new_borrow = 1 - q;
        proof {
            let w = base_pow(i as nat);
            lemma_nat_of_take_succ(a@, i as int);
            lemma_nat_of_take_succ(b@, i as int);
            lemma_nat_of_push(out@, limb);
            assert(t == 0x10000000000000000 * (q as nat) + (limb as nat));
            assert(q <= 1);
            // limb + borrow - a_i + b_i == base * new_borrow, scaled by the weight w
            assert(w * ((limb as int) + (borrow as int) - (a@[i as int] as int) + (b@[i as int] as int))
                == w * (limb as int) + w * (borrow as int) - (a@[i as int] as int) * w + (b@[i as int] as int)
                * w) by (nonlinear_arith);
            assert(w * (0x10000000000000000 * (new_borrow as int)) == (0x10000000000000000 * w) * (
            new_borrow as int)) by (nonlinear_arith);
            assert((limb as int) + (borrow as int) - (a@[i as int] as int) + (b@[i as int] as int)
                == 0x10000000000000000 * (new_borrow as int));
            assert((limb as int) * w == w * (limb as int)) by (nonlinear_arith);
        }
        out.push(limb);
        borrow = new_borrow;
        i = i + 1;
    }
    proof {
        assert(a@.take(n as int) =~= a@);
        assert(b@.take(n as int) =~= b@);
        lemma_nat_of_bound(out@);
        lemma_nat_of_bound(b@);
        if borrow == 1 {
            lemma_base_pow_pos(n as nat);
        }
    }
    (out, borrow == 1)
}

/// A sequence of zero limbs has value zero.
pub proof fn lemma_nat_of_zeros(s: Seq<u64>)
    requires
        forall|i: int| 0 <= i < s.len() ==> s[i] == 0,
    ensures
        nat_of(s) == 0,
    decreases s.len(),
{
    if s.len() > 0 {
        lemma_nat_of_zeros(s.drop_first());
    }
}

/// Truncating a limb sequence reduces its value modulo the truncated width.
pub proof fn lemma_nat_of_take_mod(s: Seq<u64>, i: int)
    requires
        0 <= i <= s.len(),
    ensures
        nat_of(s.take(i)) == nat_of(s) % base_pow(i as nat),
{
    lemma_nat_of_split(s, i);
    lemma_nat_of_bound(s.take(i));
    assert(s.take(i).len() == i);
    lemma_base_pow_pos(i as nat);
    lemma_fundamental_div_mod_converse(
        nat_of(s) as int,
        base_pow(i as nat) as int,
        nat_of(s.skip(i)) as int,
        nat_of(s.take(i)) as int,
    );
}

/// Unfolds the value of a suffix by one limb.
pub proof fn lemma_nat_of_skip_succ(s: Seq<u64>, i: int)
    requires
        0 <= i < s.len(),
    ensures
        nat_of(s.skip(i)) == (s[i] as nat) + 0x10000000000000000 * nat_of(s.skip(i + 1)),
{
    assert(s.skip(i).drop_first() =~= s.skip(i + 1));
    assert(s.skip(i)[0] == s[i]);
}

/// A vector of n zero limbs.
fn zero_vec(n: usize) -> (v: Vec<u64>)
    ensures
        v@.len() == n,
        forall|i: int| 0 <= i < n ==> v@[i] == 0,
        nat_of(v@) == 0,
{
    let mut v: Vec<u64> = Vec::new();
    let mut i: usize = 0;
    while i < n
        invariant
            i <= n,
            v@.len() == i,
            forall|k: int| 0 <= k < i ==> v@[k] == 0,
        decreases n - i,
    {
        v.push(0);
        i = i + 1;
    }
    proof {
        lemma_nat_of_zeros(v@);
    }
    v
}

/// Multiplies a limb sequence by a single limb; the result is one limb
/// longer than the input and exact.
pub fn bn_mul_limb(a: &[u64], x: u64) -> (r: Vec<u64>)
    ensures
        r@.len() == a@.len() + 1,
        nat_of(r@) == nat_of(a@) * (x as nat),
{
    let n = a.len();
    let mut out: Vec<u64> = Vec::new();
    let mut carry: u64 = 0;
    let mut i: usize = 0;
    proof {
        assert(a@.take(0) =~= Seq::<u64>::empty());
        assert(nat_of(Seq::<u64>::empty()) == 0);
        assert(nat_of(a@.take(0)) * (x as nat) == 0) by (nonlinear_arith);
    }
    while i < n
        invariant
            i <= n,
            n == a@.len(),
            out@.len() == i,
            nat_of(out@) + base_pow(i as nat) * (carry as nat) == nat_of(a@.take(i as int)) * (
            x as nat),
        decreases n - i,
    {
        let (p_lo, p_hi) = mul_u64_carry(a[i], x);
        proof {
            assert((p_hi as nat) <= 0xFFFFFFFFFFFFFFFE) by (nonlinear_arith)
                requires
                    (p_lo as nat) + 0x10000000000000000 * (p_hi as nat) == (a@[i as int] as nat) * (
                    x as nat),
                    (a@[i as int] as nat) < 0x10000000000000000,
                    (x as nat) < 0x10000000000000000,
                    (p_lo as nat) < 0x10000000000000000,
            ;
        }
        let t: u128 = p_lo as u128 + carry as u128;
        let limb = (t % 0x10000000000000000) as u64;
        let extra = (t / 0x10000000000000000) as u64;
        let new_carry = p_hi + extra;
        proof {
            let w = base_pow(i as nat);
            lemma_nat_of_take_succ(a@, i as int);
            lemma_nat_of_push(out@, limb);
            assert(t == 0x10000000000000000 * (extra as nat) + (limb as nat));
            // limb + base * new_carry == carry + a[i] * x, scaled by the weight w
            assert((nat_of(a@.take(i as int)) + (a@[i as int] as nat) * w) * (x as nat) == nat_of(
                a@.take(i as int),
            ) * (x as nat) + ((a@[i as int] as nat) * (x as nat)) * w) by (nonlinear_arith);
            assert(w * ((carry as nat) + (a@[i as int] as nat) * (x as nat)) == w * (carry as nat) + (
            (a@[i as int] as nat) * (x as nat)) * w) by (nonlinear_arith);
            assert(w * ((limb as nat) + 0x10000000000000000 * (new_carry as nat)) == (limb as nat)
                * w + (0x10000000000000000 * w) * (new_carry as nat)) by (nonlinear_arith);
            assert((limb as nat) + 0x10000000000000000 * (new_carry as nat) == (carry as nat) + (
            a@[i as int] as nat) * (x as nat));
        }
        out.push(limb);
        carry = new_carry;
        i = i + 1;
    }
    proof {
        assert(a@.take(n as int) =~= a@);
        lemma_nat_of_push(out@, carry);
    }
    out.push(carry);
    out
}

/// Schoolbook long multiplication: the low res_size limbs of the product.
pub fn bn_mul(a: &[u64], b: &[u64], res_size: usize) -> (r: Vec<u64>)
    requires
        b@.len() <= res_size,
    ensures
        r@.len() == res_size,
        nat_of(r@) == (nat_of(a@) * nat_of(b@)) % base_pow(res_size as nat),
{
    let n = res_size;
    let mut acc: Vec<u64> = zero_vec(n);
    let mut j: usize = 0;
    proof {
        assert(b@.take(0) =~= Seq::<u64>::empty());
        assert(nat_of(Seq::<u64>::empty()) == 0);
        lemma_base_pow_pos(n as nat);
        assert(nat_of(a@) * 0 == 0) by (nonlinear_arith);
        vstd::arithmetic::div_mod::lemma_small_mod(0, base_pow(n as nat));
    }
    while j < b.len()
        invariant
            j <= b@.len(),
            b@.len() <= n,
            acc@.len() == n,
            nat_of(acc@) == (nat_of(a@) * nat_of(b@.take(j as int))) % base_pow(n as nat),
        decreases b@.len() - j,
    {
        let prod = bn_mul_limb(a, b[j]);
        // row = j zero limbs, then the product truncated to the width left
        let mut row: Vec<u64> = zero_vec(n);
        let mut k: usize = 0;
        while k < n - j && k < prod.len()
            invariant
                row@.len() == n,
                k <= prod@.len(),
                j + k <= n,
                forall|t: int| 0 <= t < j ==> row@[t] == 0,
                forall|t: int| 0 <= t < k ==> row@[j + t] == prod@[t],
                forall|t: int| j + k <= t < n ==> row@[t] == 0,
            decreases n - j - k,
        {
            row[j + k] = prod[k];
            k = k + 1;
        }
        let ghost m = k as int;
        proof {
            let w = base_pow(n as nat);
            let wj = base_pow(j as nat);
            let wr = base_pow((n - j) as nat);
            let av = nat_of(a@);
            let bj = b@[j as int] as nat;
            lemma_base_pow_pos(j as nat);
            lemma_base_pow_pos((n - j) as nat);
            // the value of the row: the product shifted left by j limbs,
            // truncated to n limbs
            lemma_nat_of_split(row@, j as int);
            assert(row@.take(j as int).len() == j);
            lemma_nat_of_zeros(row@.take(j as int));
            assert(row@.skip(j as int) =~= Seq::new(
                (n - j) as nat,
                |t: int| limb_at(prod@.take(m), t),
            ));
            lemma_nat_of_extend_zero(prod@.take(m), n - j);
            if m < prod.len() {
                // truncated: the row holds the product modulo the width left
                lemma_nat_of_take_mod(prod@, m);
                assert(m == n - j);
            } else {
                assert(prod@.take(m) =~= prod@);
                lemma_nat_of_bound(prod@);
                assert(prod@.len() <= (n - j) as nat);
                lemma_base_pow_pos(((n - j) - prod@.len() as int) as nat);
                lemma_base_pow_adds(prod@.len(), ((n - j) - prod@.len() as int) as nat);
                assert(base_pow(prod@.len()) * base_pow((((n - j) - prod@.len() as int)) as nat)
                    >= base_pow(prod@.len()) * 1 == base_pow(prod@.len())) by (nonlinear_arith)
                    requires
                        base_pow((((n - j) - prod@.len() as int)) as nat) >= 1,
                ;
                vstd::arithmetic::div_mod::lemma_small_mod(nat_of(prod@), wr);
            }
            assert(nat_of(row@) == wj * ((av * bj) % wr));
            // shift the truncation out: wj * (p % wr) == (wj * p) % (wj * wr)
            vstd::arithmetic::div_mod::lemma_truncate_middle(
                (av * bj) as int,
                wj as int,
                wr as int,
            );
            lemma_base_pow_adds(j as nat, (n - j) as nat);
            assert(nat_of(row@) == (wj * (av * bj)) % w);
        }
        let (acc2, acc_overflow) = bn_add(acc.as_slice(), row.as_slice());
        proof {
            let w = base_pow(n as nat);
            let wj = base_pow(j as nat);
            let av = nat_of(a@);
            let bj = b@[j as int] as nat;
            let x = av * nat_of(b@.take(j as int));
            let y = wj * (av * bj);
            // the dropped carry is exactly one multiple of the width
            lemma_nat_of_bound(acc2@);
            vstd::arithmetic::div_mod::lemma_fundamental_div_mod_converse(
                (nat_of(acc@) + nat_of(row@)) as int,
                w as int,
                if acc_overflow {
                    1
                } else {
                    0
                },
                nat_of(acc2@) as int,
            );
            vstd::arithmetic::div_mod::lemma_add_mod_noop(x as int, y as int, w as int);
            lemma_nat_of_take_succ(b@, j as int);
            assert(x + y == av * nat_of(b@.take(j as int + 1))) by (nonlinear_arith)
                requires
                    nat_of(b@.take(j as int + 1)) == nat_of(b@.take(j as int)) + bj * wj,
                    x == av * nat_of(b@.take(j as int)),
                    y == wj * (av * bj),
            ;
        }
        acc = acc2;
        j = j + 1;
    }
    proof {
        assert(b@.take(b@.len() as int) =~= b@);
    }
    acc
}

/// Short division: divides by a single limb, most significant limb first,
/// and returns quotient and remainder.
pub fn bn_short_div(a: &[u64], b: u64) -> (r: (Vec<u64>, u64))
    requires
        b > 0,
    ensures
        r.0@.len() == a@.len(),
        nat_of(r.0@) == nat_of(a@) / (b as nat),
        (r.1 as nat) == nat_of(a@) % (b as nat),
{
    let n = a.len();
    let mut q: Vec<u64> = zero_vec(n);
    let mut rem: u64 = 0;
    let mut i: usize = n;
    proof {
        assert(a@.skip(n as int) =~= Seq::<u64>::empty());
        assert(q@.skip(n as int) =~= Seq::<u64>::empty());
        assert(nat_of(Seq::<u64>::empty()) == 0);
        assert(0 * (b as nat) == 0) by (nonlinear_arith);
    }
    while i > 0
        invariant
            i <= n,
            n == a@.len(),
            q@.len() == n,
            (rem as nat) < (b as nat),
            nat_of(a@.skip(i as int)) == nat_of(q@.skip(i as int)) * (b as nat) + (rem as nat),
        decreases i,
    {
        i = i - 1;
        let t: u128 = (rem as u128) * 0x10000000000000000 + a[i] as u128;
        proof {
            assert(t < (b as u128) * 0x10000000000000000) by (nonlinear_arith)
                requires
                    t == (rem as u128) * 0x10000000000000000 + (a@[i as int] as u128),
                    (rem as u128) < (b as u128),
                    (a@[i as int] as u128) < 0x10000000000000000,
            ;
            vstd::arithmetic::div_mod::lemma_multiply_divide_lt(
                t as int,
                b as int,
                0x10000000000000000,
            );
        }
        let qd = (t / (b as u128)) as u64;
        let new_rem = (t % (b as u128)) as u64;
        proof {
            let ghost qold = q@;
            lemma_fundamental_div_mod(t as int, b as int);
            lemma_nat_of_skip_succ(a@, i as int);
            lemma_nat_of_skip_succ(qold.update(i as int, qd), i as int);
            assert(qold.update(i as int, qd).skip(i as int + 1) =~= qold.skip(i as int + 1));
            // a.skip(i) == (qd + base * Q) * b + new_rem
            assert(0x10000000000000000 * (nat_of(qold.skip(i as int + 1)) * (b as nat)) == (
            0x10000000000000000 * nat_of(qold.skip(i as int + 1))) * (b as nat))
                by (nonlinear_arith);
            assert(0x10000000000000000 * ((rem as nat)) + (a@[i as int] as nat) == (qd as nat) * (
            b as nat) + (new_rem as nat));
            assert(((qd as nat) + 0x10000000000000000 * nat_of(qold.skip(i as int + 1))) * (b as nat)
                == (qd as nat) * (b as nat) + (0x10000000000000000 * nat_of(
                qold.skip(i as int + 1),
            )) * (b as nat)) by (nonlinear_arith);
            assert(0x10000000000000000 * (rem as nat) == (rem as nat) * 0x10000000000000000);
        }
        q[i] = qd;
        rem = new_rem;
        proof {
            assert(0x10000000000000000 * (nat_of(q@.skip(i as int + 1)) * (b as nat) + (rem as nat))
                == 0x10000000000000000 * (nat_of(q@.skip(i as int + 1)) * (b as nat)) + (rem as nat)
                * 0x10000000000000000) by (nonlinear_arith);
        }
    }
    proof {
        assert(a@.skip(0) =~= a@);
        assert(q@.skip(0) =~= q@);
        lemma_fundamental_div_mod_converse(
            nat_of(a@) as int,
            b as int,
            nat_of(q@) as int,
            rem as int,
        );
    }
    (q, rem)
}

/// A sequence with value zero has only zero limbs.
pub proof fn lemma_nat_of_zero_limbs(s: Seq<u64>)
    requires
        nat_of(s) == 0,
    ensures
        forall|i: int| 0 <= i < s.len() ==> s[i] == 0,
    decreases s.len(),
{
    if s.len() > 0 {
        lemma_nat_of_zero_limbs(s.drop_first());
        assert forall|i: int| 0 <= i < s.len() implies s[i] == 0 by {
            if i > 0 {
                assert(s.drop_first()[i - 1] == 0);
            }
        }
    }
}

/// A value below base_pow(k) has zero limbs at index k and above.
pub proof fn lemma_nat_of_high_zero(s: Seq<u64>, k: int)
    requires
        0 <= k <= s.len(),
        nat_of(s) < base_pow(k as nat),
    ensures
        forall|j: int| k <= j < s.len() ==> s[j] == 0,
{
    lemma_nat_of_split(s, k);
    let w = base_pow(k as nat);
    let high = nat_of(s.skip(k));
    assert(high == 0) by {
        if high >= 1 {
            assert(w * high >= w * 1 == w) by (nonlinear_arith)
                requires
                    high >= 1,
                    w >= 0,
            ;
        }
    }
    lemma_nat_of_zero_limbs(s.skip(k));
    assert forall|j: int| k <= j < s.len() implies s[j] == 0 by {
        assert(s.skip(k)[j - k] == 0);
    }
}

/// Counts the significant limbs: the index of the highest non-zero limb
/// plus one, and at least one.
pub fn bn_digits(v: &[u64]) -> (d: usize)
    requires
        v@.len() >= 1,
    ensures
        1 <= d <= v@.len(),
        nat_of(v@.take(d as int)) == nat_of(v@),
        nat_of(v@) > 0 ==> v@[d - 1] != 0,
        nat_of(v@) == 0 ==> d == 1,
        nat_of(v@) < base_pow(d as nat),
{
    let n = v.len();
    let mut i: usize = n;
    while i > 0
        invariant
            i <= n,
            n == v@.len(),
            forall|j: int| i <= j < n ==> v@[j] == 0,
        decreases i,
    {
        i = i - 1;
        if v[i] > 0 {
            proof {
                if nat_of(v@) == 0 {
                    lemma_nat_of_zero_limbs(v@);
                }
                lemma_nat_of_split(v@, i + 1);
                lemma_nat_of_zeros(v@.skip(i + 1));
                lemma_nat_of_bound(v@.take(i + 1));
                assert(v@.take(i + 1).len() == i + 1);
                assert(base_pow((i + 1) as nat) * 0 == 0) by (nonlinear_arith);
            }
            return i + 1;
        }
    }
    proof {
        lemma_nat_of_zeros(v@);
        lemma_base_pow_pos(1);
        assert(v@.take(1).len() == 1);
        assert(v@.take(1)[0] == v@[0]);
        assert(nat_of(v@.take(1).drop_first()) == 0) by {
            assert(v@.take(1).drop_first() =~= Seq::<u64>::empty());
        }
        assert(nat_of(v@.take(1)) == 0);
    }
    1
}

/// Shifts the limbs of r up by one place and inserts x at the bottom:
/// r becomes r * 2^64 + x. The top limb must be zero so nothing is lost.
fn bn_shift_insert(r: &mut Vec<u64>, x: u64)
    requires
        old(r)@.len() >= 1,
        old(r)@[old(r)@.len() - 1] == 0,
    ensures
        final(r)@.len() == old(r)@.len(),
        nat_of(final(r)@) == 0x10000000000000000 * nat_of(old(r)@) + (x as nat),
{
    let n = r.len();
    let mut j: usize = n - 1;
    while j > 0
        invariant
            0 <= j <= n - 1,
            r@.len() == n,
            forall|t: int| 0 <= t <= j ==> r@[t] == old(r)@[t],
            forall|t: int| j < t < n ==> r@[t] == old(r)@[t - 1],
        decreases j,
    {
        let val = r[j - 1];
        r[j] = val;
        j = j - 1;
    }
    r[0] = x;
    proof {
        let prev = old(r)@;
        assert(r@.drop_first() =~= prev.take(n - 1));
        assert(nat_of(r@) == (x as nat) + 0x10000000000000000 * nat_of(prev.take(n - 1)));
        assert(prev =~= prev.take(n - 1).push(prev[n - 1]));
        lemma_nat_of_push(prev.take(n - 1), prev[n - 1]);
        assert((0 as nat) * base_pow((n - 1) as nat) == 0) by (nonlinear_arith);
    }
}

/// Knuth-style estimate of the next quotient digit from the top limbs of
/// the remainder and the divisor. Any value would be corrected afterwards;
/// only the correction loops rely on it being close.
fn bn_div_estimate(r: &[u64], v: &[u64], nd: usize) -> u64
    requires
        1 <= nd <= v@.len(),
        r@.len() > nd,
        v@[nd - 1] > 0,
{
    let t: u128 = (r[nd] as u128) * 0x10000000000000000 + r[nd - 1] as u128;
    let q = t / (v[nd - 1] as u128);
    if q > 0xFFFFFFFFFFFFFFFF {
        0xFFFFFFFFFFFFFFFF
    } else {
        q as u64
    }
}

/// Long division by repeated quotient-digit selection: returns quotient and
/// remainder, both exact.
pub fn bn_div_core(u: &[u64], v: &[u64]) -> (qr: (Vec<u64>, Vec<u64>))
    requires
        v@.len() >= 1,
        v@.len() <= 0xFFFF,
        nat_of(v@) >= 1,
    ensures
        qr.0@.len() == u@.len(),
        nat_of(qr.0@) * nat_of(v@) + nat_of(qr.1@) == nat_of(u@),
        nat_of(qr.1@) < nat_of(v@),
{
    let n = v.len();
    let nd = bn_digits(v);
    let mut rem: Vec<u64> = zero_vec(n + 1);
    let mut q: Vec<u64> = zero_vec(u.len());
    let mut i: usize = u.len();
    proof {
        assert(u@.skip(i as int) =~= Seq::<u64>::empty());
        assert(q@.skip(i as int) =~= Seq::<u64>::empty());
        assert(nat_of(Seq::<u64>::empty()) == 0);
        assert((0 as nat) * nat_of(v@) == 0) by (nonlinear_arith);
    }
    while i > 0
        invariant
            i <= u@.len(),
            n == v@.len(),
            1 <= nd <= n,
            nat_of(v@) >= 1,
            nat_of(v@) > 0 ==> v@[nd - 1] != 0,
            q@.len() == u@.len(),
            rem@.len() == n + 1,
            nat_of(rem@) < nat_of(v@),
            nat_of(u@.skip(i as int)) == nat_of(q@.skip(i as int)) * nat_of(v@) + nat_of(rem@),
        decreases i,
    {
        i = i - 1;
        let ghost rem_prev = nat_of(rem@);
        proof {
            lemma_nat_of_bound(v@);
            lemma_nat_of_high_zero(rem@, n as int);
        }
        bn_shift_insert(&mut rem, u[i]);
        proof {
            // rem < base * v, so the digit below fits in one limb
            assert(0x10000000000000000 * rem_prev + (u@[i as int] as nat) < 0x10000000000000000
                * nat_of(v@)) by (nonlinear_arith)
                requires
                    rem_prev < nat_of(v@),
                    (u@[i as int] as nat) < 0x10000000000000000,
            ;
        }
        // estimate the digit, then correct it against the full product
        let qhat = bn_div_estimate(rem.as_slice(), v, nd);
        let mut qd = qhat;
        let mut prod = bn_mul_limb(v, qd);
        let mut too_big = matches!(
            bn_raw_cmp(prod.as_slice(), rem.as_slice()),
            core::cmp::Ordering::Greater
        );
        while too_big
            invariant
                prod@.len() == v@.len() + 1,
                nat_of(prod@) == nat_of(v@) * (qd as nat),
                too_big <==> nat_of(prod@) > nat_of(rem@),
            decreases qd,
        {
            proof {
                assert(qd > 0) by {
                    if qd == 0 {
                        assert(nat_of(v@) * 0 == 0) by (nonlinear_arith);
                    }
                }
            }
            qd = qd - 1;
            prod = bn_mul_limb(v, qd);
            too_big = matches!(
                bn_raw_cmp(prod.as_slice(), rem.as_slice()),
                core::cmp::Ordering::Greater
            );
        }
        let mut done = false;
        while !done && qd < 0xFFFFFFFFFFFFFFFF
            invariant
                prod@.len() == v@.len() + 1,
                nat_of(prod@) == nat_of(v@) * (qd as nat),
                nat_of(prod@) <= nat_of(rem@),
                done ==> nat_of(v@) * ((qd as nat) + 1) > nat_of(rem@),
            decreases (if done {
                0int
            } else {
                1int
            }), 0xFFFFFFFFFFFFFFFF - qd,
        {
            let prod2 = bn_mul_limb(v, qd + 1);
            if matches!(bn_raw_cmp(prod2.as_slice(), rem.as_slice()), core::cmp::Ordering::Greater) {
                done = true;
            } else {
                qd = qd + 1;
                prod = prod2;
            }
        }
        proof {
            // qd is exactly the quotient digit: v * qd <= rem < v * (qd + 1)
            if !done {
                assert(qd == 0xFFFFFFFFFFFFFFFF);
                assert((qd as nat) + 1 == 0x10000000000000000);
                assert(nat_of(v@) * ((qd as nat) + 1) == 0x10000000000000000 * nat_of(v@));
            }
            assert(nat_of(rem@) < nat_of(v@) * ((qd as nat) + 1));
        }
        let (rem2, rem_borrow) = bn_sub(rem.as_slice(), prod.as_slice());
        proof {
            let vv = nat_of(v@) as int;
            let qdn = qd as int;
            let old_win = nat_of(rem@) as int;
            assert(!rem_borrow);
            assert(nat_of(rem2@) == old_win - vv * qdn);
            assert(0 <= old_win - vv * qdn < vv) by (nonlinear_arith)
                requires
                    vv * qdn <= old_win,
                    old_win < vv * (qdn + 1),
            ;
        }
        let ghost q_before = q@;
        q[i] = qd;
        rem = rem2;
        proof {
            // H(i) == (qd + base * Q(i+1)) * v + rem
            let vv = nat_of(v@);
            let qtail = nat_of(q_before.skip(i as int + 1));
            lemma_nat_of_skip_succ(u@, i as int);
            lemma_nat_of_skip_succ(q@, i as int);
            assert(q@.skip(i as int + 1) =~= q_before.skip(i as int + 1));
            assert(nat_of(u@.skip(i as int)) == (u@[i as int] as nat) + 0x10000000000000000 * (qtail
                * vv + rem_prev));
            assert(0x10000000000000000 * (qtail * vv + rem_prev) == (0x10000000000000000 * qtail)
                * vv + 0x10000000000000000 * rem_prev) by (nonlinear_arith);
            assert(((qd as nat) + 0x10000000000000000 * qtail) * vv == (qd as nat) * vv + (
            0x10000000000000000 * qtail) * vv) by (nonlinear_arith);
            assert(nat_of(rem@) == 0x10000000000000000 * rem_prev + (u@[i as int] as nat) - vv * (
            qd as nat));
        }
    }
    proof {
        assert(u@.skip(0) =~= u@);
        assert(q@.skip(0) =~= q@);
    }
    (q, rem)
}

/// Full multi-limb division: the quotient of u by v, with v non-zero.
///
/// A one-limb divisor goes through short division; otherwise both operands
/// are scaled so the divisor's top limb is large (Knuth's normalization,
/// which keeps the digit estimates close) and the quotient is taken
/// digit by digit.
pub fn bn_div(u: &[u64], v: &[u64]) -> (q: Vec<u64>)
    requires
        v@.len() >= 1,
        v@.len() <= 0xFFF0,
        nat_of(v@) > 0,
    ensures
        q@.len() == u@.len(),
        nat_of(q@) == nat_of(u@) / nat_of(v@),
{
    let d = bn_digits(v);
    if d == 1 {
        proof {
            assert(nat_of(v@.take(1).drop_first()) == 0) by {
                assert(v@.take(1).drop_first() =~= Seq::<u64>::empty());
            }
            assert(v@.take(1)[0] == v@[0]);
            assert((v@[0] as nat) == nat_of(v@));
        }
        let (q, _rem) = bn_short_div(u, v[0]);
        q
    } else {
        let vtop = v[d - 1];
        // d1 = floor((b-1) / vtop) or floor((b/2) / vtop): a scale that makes
        // the divisor's top limb at least b/2
        let halfb: u64 = 0x8000000000000000;
        let scale = if vtop > halfb {
            0xFFFFFFFFFFFFFFFFu64 / vtop
        } else {
            halfb / vtop
        };
        proof {
            if vtop > halfb {
                vstd::arithmetic::div_mod::lemma_div_non_zero(0xFFFFFFFFFFFFFFFF, vtop as int);
            } else {
                vstd::arithmetic::div_mod::lemma_div_non_zero(0x8000000000000000, vtop as int);
            }
        }
        let un = bn_mul_limb(u, scale);
        let vn = bn_mul_limb(v, scale);
        proof {
            assert(nat_of(vn@) >= 1 && nat_of(un@) == (scale as nat) * nat_of(u@) && nat_of(vn@)
                == (scale as nat) * nat_of(v@)) by (nonlinear_arith)
                requires
                    nat_of(un@) == nat_of(u@) * (scale as nat),
                    nat_of(vn@) == nat_of(v@) * (scale as nat),
                    nat_of(v@) >= 1,
                    scale >= 1,
            ;
        }
        let (q1, _rem) = bn_div_core(un.as_slice(), vn.as_slice());
        proof {
            // scaling both operands leaves the quotient unchanged
            vstd::arithmetic::div_mod::lemma_fundamental_div_mod_converse(
                nat_of(un@) as int,
                nat_of(vn@) as int,
                nat_of(q1@) as int,
                (nat_of(un@) - nat_of(q1@) * nat_of(vn@)) as int,
            );
            vstd::arithmetic::div_mod::lemma_div_multiples_vanish_quotient(
                scale as int,
                nat_of(u@) as int,
                nat_of(v@) as int,
            );
            // the quotient fits in the width of u: its top limb is zero
            broadcast use vstd::arithmetic::div_mod::lemma_div_nonincreasing;

            assert(nat_of(q1@) == nat_of(u@) / nat_of(v@));
            lemma_nat_of_bound(u@);
            lemma_nat_of_high_zero(q1@, u@.len() as int);
            assert(q1@ =~= q1@.take(u@.len() as int).push(q1@[u@.len() as int]));
            lemma_nat_of_push(q1@.take(u@.len() as int), q1@[u@.len() as int]);
            assert((0 as nat) * base_pow(u@.len()) == 0) by (nonlinear_arith);
        }
        let mut q1 = q1;
        let _top = q1.pop();
        q1
    }
}

} // verus!
