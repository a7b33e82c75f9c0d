//! Fixed-width unsigned integers (256 and 512 bits) and a signed wrapper.
//!
//! Values are little-endian sequences of 64-bit limbs; arithmetic wraps at
//! the declared width. Contracts are stated against the mathematical value
//! of a number, written `n@`.

use crate::utils::limbs::{
    base_pow, bn_add, bn_digits, bn_div, bn_mul, bn_raw_cmp, bn_short_div, bn_sub, lemma_base_pow_pos,
    lemma_nat_of_bound, lemma_nat_of_injective, lemma_nat_of_split, lemma_nat_of_zero_limbs,
    lemma_nat_of_zeros, limb_at, nat_of,
};
use vstd::arithmetic::div_mod::{lemma_fundamental_div_mod_converse, lemma_small_mod};
use vstd::arithmetic::power2::pow2;
use vstd::prelude::*;

verus! {

broadcast use vstd::arithmetic::mul::lemma_mul_nonnegative, vstd::arithmetic::mul::lemma_mul_is_commutative;

/// The failures of the arithmetic layer. Every operation that can fail
/// reports one of these instead of aborting.
#[derive(Clone, Copy, Debug, PartialEq, Eq, Structural)]
pub enum ArithError {
    /// An unsigned, signed or field division had a zero divisor.
    DivideByZero,
    /// A field element has no modular inverse: it shares a factor with the
    /// modulus.
    NoModularInverse,
    /// A curve operation reached a configuration the point representation
    /// cannot express.
    DegenerateGeometry,
    /// The operation is deliberately not implemented.
    UnsupportedOperation,
    /// A narrowing conversion was given a value too wide for the target.
    WidthOverflow,
}

/// Zero.
pub trait Zero: Sized {
    /// Whether the value is zero.
    spec fn is_zero_spec(&self) -> bool;

    /// Returns zero.
    fn zero() -> (r: Self)
        ensures
            r.is_zero_spec(),
    ;

    /// Returns `true` if value is equal to zero.
    fn is_zero(&self) -> (r: bool)
        ensures
            r == self.is_zero_spec(),
    ;
}

/// One.
pub trait One: Sized {
    /// Whether the value is one.
    spec fn is_one_spec(&self) -> bool;

    /// Returns one.
    fn one() -> (r: Self)
        ensures
            r.is_one_spec(),
    ;

    /// Returns `true` if value is equal to one.
    fn is_one(&self) -> (r: bool)
        ensures
            r == self.is_one_spec(),
    ;
}

/// A 256-bit unsigned integer: four 64-bit limbs, least significant first.
#[derive(Clone, Copy, Debug, PartialEq, Eq, Structural)]
pub struct Uint256 {
    pub d0: u64,
    pub d1: u64,
    pub d2: u64,
    pub d3: u64,
}

impl Uint256 {
    /// The limbs as a sequence, least significant first.
    pub open spec fn limbs(self) -> Seq<u64> {
        seq![self.d0, self.d1, self.d2, self.d3]
    }
}

impl View for Uint256 {
    type V = nat;

    open spec fn view(&self) -> nat {
        nat_of(self.limbs())
    }
}

/// Equal values have equal limbs: the representation is canonical.
pub proof fn lemma_uint256_view_injective(a: Uint256, b: Uint256)
    requires
        a@ == b@,
    ensures
        a == b,
{
    lemma_nat_of_injective(a.limbs(), b.limbs());
    assert(a.limbs()[0] == b.limbs()[0] && a.limbs()[1] == b.limbs()[1] && a.limbs()[2]
        == b.limbs()[2] && a.limbs()[3] == b.limbs()[3]);
}

/// The value of a 256-bit integer is below 2^256.
pub proof fn lemma_uint256_view_bound(a: Uint256)
    ensures
        a@ < base_pow(4),
{
    lemma_nat_of_bound(a.limbs());
}

impl Uint256 {
    /// Builds the value of a single limb.
    pub fn from_u64(num: u64) -> (r: Self)
        ensures
            r == (Uint256 { d0: num, d1: 0, d2: 0, d3: 0 }),
            r@ == num as nat,
    {
        let r = Uint256 { d0: num, d1: 0, d2: 0, d3: 0 };
        proof {
            lemma_uint_value_single(r.limbs());
        }
        r
    }

    /// Builds the absolute value of a signed limb.
    pub fn from_i64(num: i64) -> (r: Self)
        ensures
            r == (Uint256 { d0: abs_i64(num), d1: 0, d2: 0, d3: 0 }),
            r@ == if num < 0 {
                -(num as int)
            } else {
                num as int
            },
    {
        if num >= 0 {
            Self::from_u64(num as u64)
        } else {
            Self::from_u64((-(num as i128)) as u64)
        }
    }

    /// Builds a value from its raw limbs, least significant first.
    pub fn from_raw(arr: [u64; 4]) -> (r: Self)
        ensures
            r.limbs() == arr@,
            r@ == nat_of(arr@),
    {
        let r = Uint256 { d0: arr[0], d1: arr[1], d2: arr[2], d3: arr[3] };
        proof {
            assert(r.limbs() =~= arr@);
        }
        r
    }

    /// Returns the raw limbs, least significant first.
    pub fn raw(&self) -> (r: [u64; 4])
        ensures
            r@ == self.limbs(),
    {
        let r = [self.d0, self.d1, self.d2, self.d3];
        proof {
            assert(r@ =~= self.limbs());
        }
        r
    }

    /// Returns maximal value.
    pub fn max() -> (r: Self)
        ensures
            r@ == base_pow(4) - 1,
    {
        let r = Uint256 {
            d0: 0xFFFFFFFFFFFFFFFF,
            d1: 0xFFFFFFFFFFFFFFFF,
            d2: 0xFFFFFFFFFFFFFFFF,
            d3: 0xFFFFFFFFFFFFFFFF,
        };
        proof {
            lemma_uint_value_all_max(r.limbs());
        }
        r
    }

    /// Returns minimal value.
    pub fn min() -> (r: Self)
        ensures
            r@ == 0,
    {
        let r = Uint256 { d0: 0, d1: 0, d2: 0, d3: 0 };
        proof {
            lemma_nat_of_zeros(r.limbs());
        }
        r
    }

    /// The limbs as a vector, least significant first.
    fn to_limb_vec(&self) -> (v: Vec<u64>)
        ensures
            v@ == self.limbs(),
    {
        let mut v: Vec<u64> = Vec::new();
        v.push(self.d0);
        v.push(self.d1);
        v.push(self.d2);
        v.push(self.d3);
        proof {
            assert(v@ =~= self.limbs());
        }
        v
    }

    /// Rebuilds a value from a vector of exactly four limbs.
    fn from_limb_vec(v: &Vec<u64>) -> (r: Self)
        requires
            v@.len() == 4,
        ensures
            r.limbs() == v@,
            r@ == nat_of(v@),
    {
        let r = Uint256 { d0: v[0], d1: v[1], d2: v[2], d3: v[3] };
        proof {
            assert(r.limbs() =~= v@);
        }
        r
    }

    /// Wrapping addition modulo 2^256.
    pub fn add(self, other: Self) -> (r: Self)
        ensures
            r@ == (self@ + other@) % base_pow(4),
    {
        let va = self.to_limb_vec();
        let vb = other.to_limb_vec();
        let (sum, carry) = bn_add(va.as_slice(), vb.as_slice());
        let r = Self::from_limb_vec(&sum);
        proof {
            lemma_nat_of_bound(sum@);
            lemma_fundamental_div_mod_converse(
                (self@ + other@) as int,
                base_pow(4) as int,
                if carry {
                    1
                } else {
                    0
                },
                nat_of(sum@) as int,
            );
        }
        r
    }

    /// Wrapping subtraction modulo 2^256.
    pub fn sub(self, other: Self) -> (r: Self)
        ensures
            r@ == (self@ - other@) % (base_pow(4) as int),
    {
        let va = self.to_limb_vec();
        let vb = other.to_limb_vec();
        let (diff, borrow) = bn_sub(va.as_slice(), vb.as_slice());
        let r = Self::from_limb_vec(&diff);
        proof {
            lemma_nat_of_bound(diff@);
            lemma_fundamental_div_mod_converse(
                self@ - other@,
                base_pow(4) as int,
                if borrow {
                    -1
                } else {
                    0
                },
                nat_of(diff@) as int,
            );
        }
        r
    }

    /// Wrapping multiplication modulo 2^256: limbs of the product beyond
    /// the width are discarded.
    pub fn mul(self, other: Self) -> (r: Self)
        ensures
            r@ == (self@ * other@) % base_pow(4),
    {
        let va = self.to_limb_vec();
        let vb = other.to_limb_vec();
        let prod = bn_mul(va.as_slice(), vb.as_slice(), 4);
        Self::from_limb_vec(&prod)
    }

    /// Exact division, failing on a zero divisor.
    pub fn div(self, other: Self) -> (r: Result<Self, ArithError>)
        ensures
            other@ == 0 ==> r === Err(ArithError::DivideByZero),
            other@ != 0 ==> (r matches Ok(q) && q@ == self@ / other@),
    {
        if other.is_zero() {
            return Err(ArithError::DivideByZero);
        }
        let va = self.to_limb_vec();
        let vb = other.to_limb_vec();
        let q = bn_div(va.as_slice(), vb.as_slice());
        Ok(Self::from_limb_vec(&q))
    }

    /// Exact division by a single limb, failing on a zero divisor.
    pub fn div_u64(self, other: u64) -> (r: Result<Self, ArithError>)
        ensures
            other == 0 ==> r === Err(ArithError::DivideByZero),
            other != 0 ==> (r matches Ok(q) && q@ == self@ / (other as nat)),
    {
        if other == 0 {
            return Err(ArithError::DivideByZero);
        }
        let va = self.to_limb_vec();
        let (q, _rem) = bn_short_div(va.as_slice(), other);
        Ok(Self::from_limb_vec(&q))
    }

    /// Counts limbs up to the most significant non-zero one; a zero value
    /// counts one limb.
    pub fn count_digits(&self) -> (d: usize)
        ensures
            1 <= d <= 4,
            forall|j: int| d <= j < 4 ==> self.limbs()[j] == 0,
            d > 1 ==> self.limbs()[d - 1] != 0,
    {
        let v = self.to_limb_vec();
        let d = bn_digits(v.as_slice());
        proof {
            lemma_digits_shape(v@, d as int);
        }
        d
    }

    /// Returns `true` if the number is odd.
    pub fn is_odd(&self) -> (r: bool)
        ensures
            r == (self@ % 2 == 1),
    {
        proof {
            lemma_uint_parity(self.limbs());
        }
        self.d0 % 2 == 1
    }

    /// Returns `true` if the number is even.
    pub fn is_even(&self) -> (r: bool)
        ensures
            r == (self@ % 2 == 0),
    {
        proof {
            lemma_uint_parity(self.limbs());
        }
        self.d0 % 2 == 0
    }

    /// String parsing is deliberately unsupported.
    pub fn from_str(_s: &str) -> (r: Result<Self, ArithError>)
        ensures
            r === Err(ArithError::UnsupportedOperation),
    {
        Err(ArithError::UnsupportedOperation)
    }
}

impl Zero for Uint256 {
    open spec fn is_zero_spec(&self) -> bool {
        self@ == 0
    }

    fn zero() -> (r: Self)
        ensures
            r.is_zero_spec(),
    {
        Self::min()
    }

    fn is_zero(&self) -> (r: bool)
        ensures
            r == self.is_zero_spec(),
    {
        proof {
            if self@ == 0 {
                lemma_nat_of_zero_limbs(self.limbs());
            }
            if self.d0 == 0 && self.d1 == 0 && self.d2 == 0 && self.d3 == 0 {
                lemma_nat_of_zeros(self.limbs());
            }
        }
        self.d0 == 0 && self.d1 == 0 && self.d2 == 0 && self.d3 == 0
    }
}

impl One for Uint256 {
    open spec fn is_one_spec(&self) -> bool {
        self@ == 1
    }

    fn one() -> (r: Self)
        ensures
            r.is_one_spec(),
    {
        Self::from_u64(1)
    }

    fn is_one(&self) -> (r: bool)
        ensures
            r == self.is_one_spec(),
    {
        proof {
            if self@ == 1 {
                let one_limbs = seq![1u64, 0u64, 0u64, 0u64];
                lemma_uint_value_single(one_limbs);
                lemma_nat_of_injective(self.limbs(), one_limbs);
            }
            if self.d0 == 1 && self.d1 == 0 && self.d2 == 0 && self.d3 == 0 {
                lemma_uint_value_single(self.limbs());
            }
        }
        self.d0 == 1 && self.d1 == 0 && self.d2 == 0 && self.d3 == 0
    }
}

impl core::default::Default for Uint256 {
    /// The default value is zero.
    fn default() -> (r: Self)
        ensures
            r@ == 0,
    {
        Self::min()
    }
}

impl core::cmp::PartialOrd for Uint256 {
    fn partial_cmp(&self, other: &Self) -> (r: Option<core::cmp::Ordering>) {
        let va = self.to_limb_vec();
        let vb = other.to_limb_vec();
        Some(bn_raw_cmp(va.as_slice(), vb.as_slice()))
    }
}

impl vstd::std_specs::cmp::PartialOrdSpecImpl for Uint256 {
    open spec fn obeys_partial_cmp_spec() -> bool {
        true
    }

    open spec fn partial_cmp_spec(&self, other: &Self) -> Option<core::cmp::Ordering> {
        if self@ < other@ {
            Some(core::cmp::Ordering::Less)
        } else if self@ == other@ {
            Some(core::cmp::Ordering::Equal)
        } else {
            Some(core::cmp::Ordering::Greater)
        }
    }
}

/// A 512-bit unsigned integer: eight 64-bit limbs, least significant first.
#[derive(Clone, Copy, Debug, PartialEq, Eq, Structural)]
pub struct Uint512 {
    pub d0: u64,
    pub d1: u64,
    pub d2: u64,
    pub d3: u64,
    pub d4: u64,
    pub d5: u64,
    pub d6: u64,
    pub d7: u64,
}

impl Uint512 {
    /// The limbs as a sequence, least significant first.
    pub open spec fn limbs(self) -> Seq<u64> {
        seq![self.d0, self.d1, self.d2, self.d3, self.d4, self.d5, self.d6, self.d7]
    }
}

impl View for Uint512 {
    type V = nat;

    open spec fn view(&self) -> nat {
        nat_of(self.limbs())
    }
}

/// Equal values have equal limbs: the representation is canonical.
pub proof fn lemma_uint512_view_injective(a: Uint512, b: Uint512)
    requires
        a@ == b@,
    ensures
        a == b,
{
    lemma_nat_of_injective(a.limbs(), b.limbs());
    assert(a.limbs()[0] == b.limbs()[0] && a.limbs()[1] == b.limbs()[1] && a.limbs()[2]
        == b.limbs()[2] && a.limbs()[3] == b.limbs()[3] && a.limbs()[4] == b.limbs()[4]
        && a.limbs()[5] == b.limbs()[5] && a.limbs()[6] == b.limbs()[6] && a.limbs()[7]
        == b.limbs()[7]);
}

/// The value of a 512-bit integer is below 2^512.
pub proof fn lemma_uint512_view_bound(a: Uint512)
    ensures
        a@ < base_pow(8),
{
    lemma_nat_of_bound(a.limbs());
}

impl Uint512 {
    /// Builds the value of a single limb.
    pub fn from_u64(num: u64) -> (r: Self)
        ensures
            r == (Uint512 { d0: num, d1: 0, d2: 0, d3: 0, d4: 0, d5: 0, d6: 0, d7: 0 }),
            r@ == num as nat,
    {
        let r = Uint512 { d0: num, d1: 0, d2: 0, d3: 0, d4: 0, d5: 0, d6: 0, d7: 0 };
        proof {
            lemma_uint_value_single(r.limbs());
        }
        r
    }

    /// Builds the absolute value of a signed limb.
    pub fn from_i64(num: i64) -> (r: Self)
        ensures
            r == (Uint512 { d0: abs_i64(num), d1: 0, d2: 0, d3: 0, d4: 0, d5: 0, d6: 0, d7: 0 }),
            r@ == if num < 0 {
                -(num as int)
            } else {
                num as int
            },
    {
        if num >= 0 {
            Self::from_u64(num as u64)
        } else {
            Self::from_u64((-(num as i128)) as u64)
        }
    }

    /// Builds a value from its raw limbs, least significant first.
    pub fn from_raw(arr: [u64; 8]) -> (r: Self)
        ensures
            r.limbs() == arr@,
            r@ == nat_of(arr@),
    {
        let r = Uint512 {
            d0: arr[0],
            d1: arr[1],
            d2: arr[2],
            d3: arr[3],
            d4: arr[4],
            d5: arr[5],
            d6: arr[6],
            d7: arr[7],
        };
        proof {
            assert(r.limbs() =~= arr@);
        }
        r
    }

    /// Returns the raw limbs, least significant first.
    pub fn raw(&self) -> (r: [u64; 8])
        ensures
            r@ == self.limbs(),
    {
        let r = [self.d0, self.d1, self.d2, self.d3, self.d4, self.d5, self.d6, self.d7];
        proof {
            assert(r@ =~= self.limbs());
        }
        r
    }

    /// Returns maximal value.
    pub fn max() -> (r: Self)
        ensures
            r@ == base_pow(8) - 1,
    {
        let r = Uint512 {
            d0: 0xFFFFFFFFFFFFFFFF,
            d1: 0xFFFFFFFFFFFFFFFF,
            d2: 0xFFFFFFFFFFFFFFFF,
            d3: 0xFFFFFFFFFFFFFFFF,
            d4: 0xFFFFFFFFFFFFFFFF,
            d5: 0xFFFFFFFFFFFFFFFF,
            d6: 0xFFFFFFFFFFFFFFFF,
            d7: 0xFFFFFFFFFFFFFFFF,
        };
        proof {
            lemma_uint_value_all_max(r.limbs());
        }
        r
    }

    /// Returns minimal value.
    pub fn min() -> (r: Self)
        ensures
            r@ == 0,
    {
        let r = Uint512 { d0: 0, d1: 0, d2: 0, d3: 0, d4: 0, d5: 0, d6: 0, d7: 0 };
        proof {
            lemma_nat_of_zeros(r.limbs());
        }
        r
    }

    /// The limbs as a vector, least significant first.
    fn to_limb_vec(&self) -> (v: Vec<u64>)
        ensures
            v@ == self.limbs(),
    {
        let mut v: Vec<u64> = Vec::new();
        v.push(self.d0);
        v.push(self.d1);
        v.push(self.d2);
        v.push(self.d3);
        v.push(self.d4);
        v.push(self.d5);
        v.push(self.d6);
        v.push(self.d7);
        proof {
            assert(v@ =~= self.limbs());
        }
        v
    }

    /// Rebuilds a value from a vector of exactly eight limbs.
    fn from_limb_vec(v: &Vec<u64>) -> (r: Self)
        requires
            v@.len() == 8,
        ensures
            r.limbs() == v@,
            r@ == nat_of(v@),
    {
        let r = Uint512 {
            d0: v[0],
            d1: v[1],
            d2: v[2],
            d3: v[3],
            d4: v[4],
            d5: v[5],
            d6: v[6],
            d7: v[7],
        };
        proof {
            assert(r.limbs() =~= v@);
        }
        r
    }

    /// Wrapping addition modulo 2^512.
    pub fn add(self, other: Self) -> (r: Self)
        ensures
            r@ == (self@ + other@) % base_pow(8),
    {
        let va = self.to_limb_vec();
        let vb = other.to_limb_vec();
        let (sum, carry) = bn_add(va.as_slice(), vb.as_slice());
        let r = Self::from_limb_vec(&sum);
        proof {
            lemma_nat_of_bound(sum@);
            lemma_fundamental_div_mod_converse(
                (self@ + other@) as int,
                base_pow(8) as int,
                if carry {
                    1
                } else {
                    0
                },
                nat_of(sum@) as int,
            );
        }
        r
    }

    /// Wrapping subtraction modulo 2^512.
    pub fn sub(self, other: Self) -> (r: Self)
        ensures
            r@ == (self@ - other@) % (base_pow(8) as int),
    {
        let va = self.to_limb_vec();
        let vb = other.to_limb_vec();
        let (diff, borrow) = bn_sub(va.as_slice(), vb.as_slice());
        let r = Self::from_limb_vec(&diff);
        proof {
            lemma_nat_of_bound(diff@);
            lemma_fundamental_div_mod_converse(
                self@ - other@,
                base_pow(8) as int,
                if borrow {
                    -1
                } else {
                    0
                },
                nat_of(diff@) as int,
            );
        }
        r
    }

    /// Wrapping multiplication modulo 2^512: limbs of the product beyond
    /// the width are discarded.
    pub fn mul(self, other: Self) -> (r: Self)
        ensures
            r@ == (self@ * other@) % base_pow(8),
    {
        let va = self.to_limb_vec();
        let vb = other.to_limb_vec();
        let prod = bn_mul(va.as_slice(), vb.as_slice(), 8);
        Self::from_limb_vec(&prod)
    }

    /// Exact division, failing on a zero divisor.
    pub fn div(self, other: Self) -> (r: Result<Self, ArithError>)
        ensures
            other@ == 0 ==> r === Err(ArithError::DivideByZero),
            other@ != 0 ==> (r matches Ok(q) && q@ == self@ / other@),
    {
        if other.is_zero() {
            return Err(ArithError::DivideByZero);
        }
        let va = self.to_limb_vec();
        let vb = other.to_limb_vec();
        let q = bn_div(va.as_slice(), vb.as_slice());
        Ok(Self::from_limb_vec(&q))
    }

    /// Exact division by a single limb, failing on a zero divisor.
    pub fn div_u64(self, other: u64) -> (r: Result<Self, ArithError>)
        ensures
            other == 0 ==> r === Err(ArithError::DivideByZero),
            other != 0 ==> (r matches Ok(q) && q@ == self@ / (other as nat)),
    {
        if other == 0 {
            return Err(ArithError::DivideByZero);
        }
        let va = self.to_limb_vec();
        let (q, _rem) = bn_short_div(va.as_slice(), other);
        Ok(Self::from_limb_vec(&q))
    }

    /// Counts limbs up to the most significant non-zero one; a zero value
    /// counts one limb.
    pub fn count_digits(&self) -> (d: usize)
        ensures
            1 <= d <= 8,
            forall|j: int| d <= j < 8 ==> self.limbs()[j] == 0,
            d > 1 ==> self.limbs()[d - 1] != 0,
    {
        let v = self.to_limb_vec();
        let d = bn_digits(v.as_slice());
        proof {
            lemma_digits_shape(v@, d as int);
        }
        d
    }

    /// Returns `true` if the number is odd.
    pub fn is_odd(&self) -> (r: bool)
        ensures
            r == (self@ % 2 == 1),
    {
        proof {
            lemma_uint_parity(self.limbs());
        }
        self.d0 % 2 == 1
    }

    /// Returns `true` if the number is even.
    pub fn is_even(&self) -> (r: bool)
        ensures
            r == (self@ % 2 == 0),
    {
        proof {
            lemma_uint_parity(self.limbs());
        }
        self.d0 % 2 == 0
    }

    /// String parsing is deliberately unsupported.
    pub fn from_str(_s: &str) -> (r: Result<Self, ArithError>)
        ensures
            r === Err(ArithError::UnsupportedOperation),
    {
        Err(ArithError::UnsupportedOperation)
    }
}

impl Zero for Uint512 {
    open spec fn is_zero_spec(&self) -> bool {
        self@ == 0
    }

    fn zero() -> (r: Self)
        ensures
            r.is_zero_spec(),
    {
        Self::min()
    }

    fn is_zero(&self) -> (r: bool)
        ensures
            r == self.is_zero_spec(),
    {
        proof {
            if self@ == 0 {
                lemma_nat_of_zero_limbs(self.limbs());
            }
            if self.d0 == 0 && self.d1 == 0 && self.d2 == 0 && self.d3 == 0 && self.d4 == 0
                && self.d5 == 0 && self.d6 == 0 && self.d7 == 0 {
                lemma_nat_of_zeros(self.limbs());
            }
        }
        self.d0 == 0 && self.d1 == 0 && self.d2 == 0 && self.d3 == 0 && self.d4 == 0 && self.d5
            == 0 && self.d6 == 0 && self.d7 == 0
    }
}

impl One for Uint512 {
    open spec fn is_one_spec(&self) -> bool {
        self@ == 1
    }

    fn one() -> (r: Self)
        ensures
            r.is_one_spec(),
    {
        Self::from_u64(1)
    }

    fn is_one(&self) -> (r: bool)
        ensures
            r == self.is_one_spec(),
    {
        proof {
            if self@ == 1 {
                let one_limbs = seq![1u64, 0u64, 0u64, 0u64, 0u64, 0u64, 0u64, 0u64];
                lemma_uint_value_single(one_limbs);
                lemma_nat_of_injective(self.limbs(), one_limbs);
            }
            if self.d0 == 1 && self.d1 == 0 && self.d2 == 0 && self.d3 == 0 && self.d4 == 0
                && self.d5 == 0 && self.d6 == 0 && self.d7 == 0 {
                lemma_uint_value_single(self.limbs());
            }
        }
        self.d0 == 1 && self.d1 == 0 && self.d2 == 0 && self.d3 == 0 && self.d4 == 0 && self.d5
            == 0 && self.d6 == 0 && self.d7 == 0
    }
}

impl core::default::Default for Uint512 {
    /// The default value is zero.
    fn default() -> (r: Self)
        ensures
            r@ == 0,
    {
        Self::min()
    }
}

impl core::cmp::PartialOrd for Uint512 {
    fn partial_cmp(&self, other: &Self) -> (r: Option<core::cmp::Ordering>) {
        let va = self.to_limb_vec();
        let vb = other.to_limb_vec();
        Some(bn_raw_cmp(va.as_slice(), vb.as_slice()))
    }
}

impl vstd::std_specs::cmp::PartialOrdSpecImpl for Uint512 {
    open spec fn obeys_partial_cmp_spec() -> bool {
        true
    }

    open spec fn partial_cmp_spec(&self, other: &Self) -> Option<core::cmp::Ordering> {
        if self@ < other@ {
            Some(core::cmp::Ordering::Less)
        } else if self@ == other@ {
            Some(core::cmp::Ordering::Equal)
        } else {
            Some(core::cmp::Ordering::Greater)
        }
    }
}

impl core::convert::From<u64> for Uint512 {
    fn from(num: u64) -> (r: Self) {
        Uint512::from_u64(num)
    }
}

impl vstd::std_specs::convert::FromSpecImpl<u64> for Uint512 {
    open spec fn obeys_from_spec() -> bool {
        true
    }

    open spec fn from_spec(v: u64) -> Uint512 {
        Uint512 { d0: v, d1: 0, d2: 0, d3: 0, d4: 0, d5: 0, d6: 0, d7: 0 }
    }
}

impl core::convert::From<i64> for Uint512 {
    fn from(num: i64) -> (r: Self) {
        Uint512::from_i64(num)
    }
}

impl vstd::std_specs::convert::FromSpecImpl<i64> for Uint512 {
    open spec fn obeys_from_spec() -> bool {
        true
    }

    open spec fn from_spec(v: i64) -> Uint512 {
        Uint512 { d0: abs_i64(v), d1: 0, d2: 0, d3: 0, d4: 0, d5: 0, d6: 0, d7: 0 }
    }
}

impl core::convert::From<u32> for Uint512 {
    fn from(num: u32) -> (r: Self) {
        Uint512::from_u64(num as u64)
    }
}

impl vstd::std_specs::convert::FromSpecImpl<u32> for Uint512 {
    open spec fn obeys_from_spec() -> bool {
        true
    }

    open spec fn from_spec(v: u32) -> Uint512 {
        Uint512 { d0: v as u64, d1: 0, d2: 0, d3: 0, d4: 0, d5: 0, d6: 0, d7: 0 }
    }
}

impl core::convert::From<i32> for Uint512 {
    fn from(num: i32) -> (r: Self) {
        Uint512::from_i64(num as i64)
    }
}

impl vstd::std_specs::convert::FromSpecImpl<i32> for Uint512 {
    open spec fn obeys_from_spec() -> bool {
        true
    }

    open spec fn from_spec(v: i32) -> Uint512 {
        Uint512 { d0: abs_i64(v as i64), d1: 0, d2: 0, d3: 0, d4: 0, d5: 0, d6: 0, d7: 0 }
    }
}

/// Widening a 256-bit value to 512 bits: zero-extension.
impl core::convert::From<Uint256> for Uint512 {
    fn from(n: Uint256) -> (r: Self) {
        Uint512 { d0: n.d0, d1: n.d1, d2: n.d2, d3: n.d3, d4: 0, d5: 0, d6: 0, d7: 0 }
    }
}

impl vstd::std_specs::convert::FromSpecImpl<Uint256> for Uint512 {
    open spec fn obeys_from_spec() -> bool {
        true
    }

    open spec fn from_spec(v: Uint256) -> Uint512 {
        Uint512 { d0: v.d0, d1: v.d1, d2: v.d2, d3: v.d3, d4: 0, d5: 0, d6: 0, d7: 0 }
    }
}

/// Zero-extension does not change the value.
pub proof fn lemma_widen_view(a: Uint256, w: Uint512)
    requires
        w == (Uint512 { d0: a.d0, d1: a.d1, d2: a.d2, d3: a.d3, d4: 0, d5: 0, d6: 0, d7: 0 }),
    ensures
        w@ == a@,
{
    assert(w.limbs() =~= Seq::new(8, |i: int| limb_at(a.limbs(), i)));
    crate::utils::limbs::lemma_nat_of_extend_zero(a.limbs(), 8);
}

impl Uint256 {
    /// Narrows a 512-bit value, failing when it does not fit in 256 bits.
    pub fn from_uint512(n: Uint512) -> (r: Result<Uint256, ArithError>)
        ensures
            n@ < base_pow(4) ==> (r matches Ok(q) && q@ == n@),
            n@ >= base_pow(4) ==> r === Err(ArithError::WidthOverflow),
    {
        let digits = n.count_digits();
        if digits > 4 {
            proof {
                // a non-zero limb at index 4 or above puts the value at or
                // beyond 2^256
                lemma_nat_of_split(n.limbs(), 4);
                let high = nat_of(n.limbs().skip(4));
                assert(n.limbs().skip(4)[digits - 1 - 4] != 0);
                if high == 0 {
                    lemma_nat_of_zero_limbs(n.limbs().skip(4));
                }
                assert(base_pow(4) * high >= base_pow(4) * 1 == base_pow(4)) by (nonlinear_arith)
                    requires
                        high >= 1,
                        base_pow(4) >= 0,
                ;
            }
            Err(ArithError::WidthOverflow)
        } else {
            let r = Uint256 { d0: n.d0, d1: n.d1, d2: n.d2, d3: n.d3 };
            proof {
                assert(n.limbs()[4] == 0 && n.limbs()[5] == 0 && n.limbs()[6] == 0 && n.limbs()[7]
                    == 0);
                lemma_widen_view(r, n);
                lemma_nat_of_bound(r.limbs());
            }
            Ok(r)
        }
    }
}

/// The absolute value of a signed limb, as an unsigned limb.
pub open spec fn abs_i64(v: i64) -> u64 {
    if v < 0 {
        (-(v as int)) as u64
    } else {
        v as u64
    }
}

impl core::convert::From<u64> for Uint256 {
    fn from(num: u64) -> (r: Self) {
        Uint256::from_u64(num)
    }
}

impl vstd::std_specs::convert::FromSpecImpl<u64> for Uint256 {
    open spec fn obeys_from_spec() -> bool {
        true
    }

    open spec fn from_spec(v: u64) -> Uint256 {
        Uint256 { d0: v, d1: 0, d2: 0, d3: 0 }
    }
}

impl core::convert::From<i64> for Uint256 {
    fn from(num: i64) -> (r: Self) {
        Uint256::from_i64(num)
    }
}

impl vstd::std_specs::convert::FromSpecImpl<i64> for Uint256 {
    open spec fn obeys_from_spec() -> bool {
        true
    }

    open spec fn from_spec(v: i64) -> Uint256 {
        Uint256 { d0: abs_i64(v), d1: 0, d2: 0, d3: 0 }
    }
}

impl core::convert::From<u32> for Uint256 {
    fn from(num: u32) -> (r: Self) {
        Uint256::from_u64(num as u64)
    }
}

impl vstd::std_specs::convert::FromSpecImpl<u32> for Uint256 {
    open spec fn obeys_from_spec() -> bool {
        true
    }

    open spec fn from_spec(v: u32) -> Uint256 {
        Uint256 { d0: v as u64, d1: 0, d2: 0, d3: 0 }
    }
}

impl core::convert::From<i32> for Uint256 {
    fn from(num: i32) -> (r: Self) {
        Uint256::from_i64(num as i64)
    }
}

impl vstd::std_specs::convert::FromSpecImpl<i32> for Uint256 {
    open spec fn obeys_from_spec() -> bool {
        true
    }

    open spec fn from_spec(v: i32) -> Uint256 {
        Uint256 { d0: abs_i64(v as i64), d1: 0, d2: 0, d3: 0 }
    }
}

/// A signed integer: a 512-bit magnitude and a sign. Zero compares equal
/// whatever its stored sign.
#[derive(Eq, Clone, Copy, Debug)]
pub struct Int512 {
    pub num: Uint512,
    pub positive: bool,
}

impl View for Int512 {
    type V = int;

    open spec fn view(&self) -> int {
        if self.positive {
            self.num@ as int
        } else {
            -(self.num@ as int)
        }
    }
}

impl Int512 {
    /// Whether the stored sign is non-negative.
    pub fn positive(&self) -> (r: bool)
        ensures
            r == self.positive,
            r ==> self@ >= 0,
    {
        self.positive
    }

    /// Whether the stored sign is negative.
    pub fn negative(&self) -> (r: bool)
        ensures
            r == !self.positive,
            r ==> self@ <= 0,
    {
        !self.positive
    }

    /// Builds a value from a magnitude and a sign.
    pub fn from_raw(num: Uint512, positive: bool) -> (r: Self)
        ensures
            r == (Int512 { num, positive }),
            positive ==> r@ == num@,
            !positive ==> r@ == -(num@ as int),
    {
        Int512 { num, positive }
    }

    /// The magnitude, the absolute value.
    pub fn magnitude(&self) -> (r: Uint512)
        ensures
            r == self.num,
            self@ >= 0 ==> r@ == self@,
            self@ <= 0 ==> r@ == -self@,
    {
        self.num
    }

    /// Negation: flips the sign, magnitude unchanged.
    pub fn neg(self) -> (r: Self)
        ensures
            r@ == -self@,
    {
        Self::from_raw(self.num, !self.positive)
    }

    /// Three-way comparison by mathematical value: zero is equal to zero
    /// whatever the stored signs.
    pub fn cmp(&self, other: &Self) -> (r: core::cmp::Ordering)
        ensures
            r == core::cmp::Ordering::Equal <==> self@ == other@,
            r == core::cmp::Ordering::Less <==> self@ < other@,
            r == core::cmp::Ordering::Greater <==> self@ > other@,
    {
        let a_is_zero = self.num.is_zero();

        // a != 0 and sign(a) != sign(b): only the signs decide
        if !a_is_zero && self.positive != other.positive {
            return if self.positive {
                core::cmp::Ordering::Greater
            } else {
                core::cmp::Ordering::Less
            };
        }
        let va = self.num.to_limb_vec();
        let vb = other.num.to_limb_vec();
        let num_ord = bn_raw_cmp(va.as_slice(), vb.as_slice());

        // a = 0
        if a_is_zero {
            return match num_ord {
                core::cmp::Ordering::Equal => core::cmp::Ordering::Equal,
                _ => if other.positive {
                    core::cmp::Ordering::Less
                } else {
                    core::cmp::Ordering::Greater
                },
            };
        }
        // sign(a) == sign(b): by magnitude, reversed when both negative
        match num_ord {
            core::cmp::Ordering::Equal => core::cmp::Ordering::Equal,
            core::cmp::Ordering::Less => if self.positive {
                core::cmp::Ordering::Less
            } else {
                core::cmp::Ordering::Greater
            },
            core::cmp::Ordering::Greater => if self.positive {
                core::cmp::Ordering::Greater
            } else {
                core::cmp::Ordering::Less
            },
        }
    }

    /// Signed addition; the sum must fit in the 512-bit magnitude.
    pub fn add(self, other: Self) -> (r: Self)
        requires
            -(base_pow(8) as int) < self@ + other@ < base_pow(8) as int,
        ensures
            r@ == self@ + other@,
    {
        proof {
            lemma_uint512_view_bound(self.num);
            lemma_uint512_view_bound(other.num);
            lemma_base_pow_pos(8);
        }
        // a = 0
        if self.num.is_zero() {
            if other.num.is_zero() {
                Self::zero()
            } else {
                other
            }
        } else if self.positive == other.positive {
            // sign(a) = sign(b): add magnitudes, keep the sign
            let sum = self.num.add(other.num);
            proof {
                lemma_small_mod((self.num@ + other.num@) as nat, base_pow(8));
            }
            Self::from_raw(sum, self.positive)
        } else {
            // sign(a) != sign(b): subtract the smaller magnitude from the
            // larger and take the sign of the larger
            if self.num < other.num {
                let diff = other.num.sub(self.num);
                proof {
                    lemma_small_mod((other.num@ - self.num@) as nat, base_pow(8));
                }
                Self::from_raw(diff, other.positive)
            } else {
                let diff = self.num.sub(other.num);
                proof {
                    lemma_small_mod((self.num@ - other.num@) as nat, base_pow(8));
                }
                Self::from_raw(diff, self.positive)
            }
        }
    }

    /// Signed subtraction: a - b is a + (-b).
    pub fn sub(self, other: Self) -> (r: Self)
        requires
            -(base_pow(8) as int) < self@ - other@ < base_pow(8) as int,
        ensures
            r@ == self@ - other@,
    {
        self.add(other.neg())
    }

    /// Signed multiplication; the product must fit in the 512-bit
    /// magnitude. The sign follows the rule of signs.
    pub fn mul(self, other: Self) -> (r: Self)
        requires
            -(base_pow(8) as int) < self@ * other@ < base_pow(8) as int,
        ensures
            r@ == self@ * other@,
    {
        proof {
            lemma_int512_abs_mul(self, other);
            lemma_small_mod((self.num@ * other.num@) as nat, base_pow(8));
        }
        let prod = self.num.mul(other.num);
        Self::from_raw(prod, self.positive == other.positive)
    }

    /// Signed division, truncating toward zero; the sign follows the rule
    /// of signs. Fails on a zero divisor.
    pub fn div(self, other: Self) -> (r: Result<Self, ArithError>)
        ensures
            other@ == 0 ==> r === Err(ArithError::DivideByZero),
            other@ != 0 ==> (r matches Ok(q) && q@ == (if (self@ < 0) <==> (other@ < 0) {
                (vstd::math::abs(self@) as int) / (vstd::math::abs(other@) as int)
            } else {
                -((vstd::math::abs(self@) as int) / (vstd::math::abs(other@) as int))
            })),
    {
        match self.num.div(other.num) {
            Ok(q) => Ok(Self::from_raw(q, self.positive == other.positive)),
            Err(e) => Err(e),
        }
    }
}

/// The magnitude of a product is the product of the magnitudes.
proof fn lemma_int512_abs_mul(a: Int512, b: Int512)
    ensures
        a@ * b@ == if (a.positive == b.positive) {
            (a.num@ * b.num@) as int
        } else {
            -((a.num@ * b.num@) as int)
        },
        a.num@ * b.num@ == vstd::math::abs(a@ * b@),
{
    let na = a.num@ as int;
    let nb = b.num@ as int;
    assert((-na) * nb == -(na * nb) && na * (-nb) == -(na * nb) && (-na) * (-nb) == na * nb)
        by (nonlinear_arith);
    if a.num@ * b.num@ == 0 {
        assert(na * nb == 0);
    }
}

impl PartialEq for Int512 {
    fn eq(&self, other: &Self) -> (r: bool) {
        proof {
            if self@ == other@ && !(self.num@ == 0 && other.num@ == 0) && self.positive
                == other.positive {
                lemma_uint512_view_injective(self.num, other.num);
            }
        }
        self.num.is_zero() && other.num.is_zero() || self.positive == other.positive && self.num
            == other.num
    }
}

impl vstd::std_specs::cmp::PartialEqSpecImpl for Int512 {
    open spec fn obeys_eq_spec() -> bool {
        true
    }

    open spec fn eq_spec(&self, other: &Self) -> bool {
        self@ == other@
    }
}

impl core::cmp::PartialOrd for Int512 {
    fn partial_cmp(&self, other: &Self) -> (r: Option<core::cmp::Ordering>) {
        Some(self.cmp(other))
    }
}

impl vstd::std_specs::cmp::PartialOrdSpecImpl for Int512 {
    open spec fn obeys_partial_cmp_spec() -> bool {
        true
    }

    open spec fn partial_cmp_spec(&self, other: &Self) -> Option<core::cmp::Ordering> {
        if self@ < other@ {
            Some(core::cmp::Ordering::Less)
        } else if self@ == other@ {
            Some(core::cmp::Ordering::Equal)
        } else {
            Some(core::cmp::Ordering::Greater)
        }
    }
}

impl Zero for Int512 {
    open spec fn is_zero_spec(&self) -> bool {
        self@ == 0
    }

    fn zero() -> (r: Self)
        ensures
            r.is_zero_spec(),
    {
        Self::from_raw(Uint512::zero(), true)
    }

    fn is_zero(&self) -> (r: bool)
        ensures
            r == self.is_zero_spec(),
    {
        self.num.is_zero()
    }
}

impl core::convert::From<Uint512> for Int512 {
    fn from(n: Uint512) -> (r: Self) {
        Int512::from_raw(n, true)
    }
}

impl vstd::std_specs::convert::FromSpecImpl<Uint512> for Int512 {
    open spec fn obeys_from_spec() -> bool {
        true
    }

    open spec fn from_spec(v: Uint512) -> Int512 {
        Int512 { num: v, positive: true }
    }
}

impl core::convert::From<u64> for Int512 {
    fn from(num: u64) -> (r: Self) {
        Int512::from_raw(Uint512::from_u64(num), true)
    }
}

impl vstd::std_specs::convert::FromSpecImpl<u64> for Int512 {
    open spec fn obeys_from_spec() -> bool {
        true
    }

    open spec fn from_spec(v: u64) -> Int512 {
        Int512 {
            num: Uint512 { d0: v, d1: 0, d2: 0, d3: 0, d4: 0, d5: 0, d6: 0, d7: 0 },
            positive: true,
        }
    }
}

impl core::convert::From<i64> for Int512 {
    fn from(num: i64) -> (r: Self) {
        Int512::from_raw(Uint512::from_i64(num), num >= 0)
    }
}

impl vstd::std_specs::convert::FromSpecImpl<i64> for Int512 {
    open spec fn obeys_from_spec() -> bool {
        true
    }

    open spec fn from_spec(v: i64) -> Int512 {
        Int512 {
            num: Uint512 { d0: abs_i64(v), d1: 0, d2: 0, d3: 0, d4: 0, d5: 0, d6: 0, d7: 0 },
            positive: v >= 0,
        }
    }
}

impl core::convert::From<u32> for Int512 {
    fn from(num: u32) -> (r: Self) {
        Int512::from_raw(Uint512::from_u64(num as u64), true)
    }
}

impl vstd::std_specs::convert::FromSpecImpl<u32> for Int512 {
    open spec fn obeys_from_spec() -> bool {
        true
    }

    open spec fn from_spec(v: u32) -> Int512 {
        Int512 {
            num: Uint512 { d0: v as u64, d1: 0, d2: 0, d3: 0, d4: 0, d5: 0, d6: 0, d7: 0 },
            positive: true,
        }
    }
}

impl core::convert::From<i32> for Int512 {
    fn from(num: i32) -> (r: Self) {
        Int512::from_raw(Uint512::from_i64(num as i64), num >= 0)
    }
}

impl vstd::std_specs::convert::FromSpecImpl<i32> for Int512 {
    open spec fn obeys_from_spec() -> bool {
        true
    }

    open spec fn from_spec(v: i32) -> Int512 {
        Int512 {
            num: Uint512 { d0: abs_i64(v as i64), d1: 0, d2: 0, d3: 0, d4: 0, d5: 0, d6: 0, d7: 0 },
            positive: v >= 0,
        }
    }
}

/// The value of limbs (x, 0, ..., 0) is x.
pub proof fn lemma_uint_value_single(s: Seq<u64>)
    requires
        s.len() >= 1,
        forall|j: int| 1 <= j < s.len() ==> s[j] == 0,
    ensures
        nat_of(s) == s[0],
{
    lemma_nat_of_zeros(s.drop_first());
}

/// The value of all-ones limbs is one less than the width's power.
proof fn lemma_uint_value_all_max(s: Seq<u64>)
    requires
        forall|j: int| 0 <= j < s.len() ==> s[j] == 0xFFFFFFFFFFFFFFFF,
    ensures
        nat_of(s) == base_pow(s.len()) - 1,
    decreases s.len(),
{
    if s.len() > 0 {
        lemma_uint_value_all_max(s.drop_first());
        lemma_base_pow_pos((s.len() - 1) as nat);
        assert(0x10000000000000000 * (base_pow((s.len() - 1) as nat) - 1) == 0x10000000000000000
            * base_pow((s.len() - 1) as nat) - 0x10000000000000000) by (nonlinear_arith);
    }
}

/// What bn_digits reports translates into limb facts.
proof fn lemma_digits_shape(s: Seq<u64>, d: int)
    requires
        1 <= d <= s.len(),
        nat_of(s.take(d)) == nat_of(s),
        nat_of(s) > 0 ==> s[d - 1] != 0,
        nat_of(s) == 0 ==> d == 1,
    ensures
        forall|j: int| d <= j < s.len() ==> s[j] == 0,
        d > 1 ==> s[d - 1] != 0,
{
    lemma_nat_of_split(s, d);
    let w = base_pow(d as nat);
    let high = nat_of(s.skip(d));
    lemma_base_pow_pos(d as nat);
    assert(high == 0) by {
        if high >= 1 {
            assert(w * high >= w * 1 == w) by (nonlinear_arith)
                requires
                    high >= 1,
                    w >= 0,
            ;
        }
    }
    lemma_nat_of_zero_limbs(s.skip(d));
    assert forall|j: int| d <= j < s.len() implies s[j] == 0 by {
        assert(s.skip(d)[j - d] == 0);
    }
    if d > 1 && nat_of(s) == 0 {
        assert(false);
    }
}

/// Law: unsigned addition is commutative. `Uint256::add` and `Uint512::add`
/// return exactly `(a@ + b@) % base_pow(w)`, so swapping the operands gives
/// the same value.
pub proof fn lemma_uint_add_commutative(a: nat, b: nat, w: nat)
    ensures
        (a + b) % base_pow(w) == (b + a) % base_pow(w),
{
}

/// Law: unsigned multiplication is commutative. `Uint256::mul` and
/// `Uint512::mul` return exactly `(a@ * b@) % base_pow(w)`, so swapping the
/// operands gives the same value.
pub proof fn lemma_uint_mul_commutative(a: nat, b: nat, w: nat)
    ensures
        (a * b) % base_pow(w) == (b * a) % base_pow(w),
{
}

/// Law: signed addition is commutative. `Int512::add` returns exactly
/// `a@ + b@`, so swapping the operands gives the same value.
pub proof fn lemma_int512_add_commutative(a: Int512, b: Int512)
    ensures
        a@ + b@ == b@ + a@,
{
}

/// Law: signed multiplication is commutative. `Int512::mul` returns exactly
/// `a@ * b@`, so swapping the operands gives the same value.
pub proof fn lemma_int512_mul_commutative(a: Int512, b: Int512)
    ensures
        a@ * b@ == b@ * a@,
{
}

/// Law: division round trip. When b divides a exactly, multiplying the
/// quotient `Uint256::div`/`Uint512::div` return by b gives a back, with no
/// interference from the wrap of `mul`.
pub proof fn lemma_uint_div_round_trip(a: nat, b: nat, w: nat)
    requires
        b > 0,
        a % b == 0,
        a < base_pow(w),
    ensures
        ((a / b) * b) % base_pow(w) == a,
{
    vstd::arithmetic::div_mod::lemma_fundamental_div_mod(a as int, b as int);
    lemma_small_mod(a, base_pow(w));
}

/// Law: width round trip. Widening a 256-bit value (which keeps the value,
/// per `From<Uint256> for Uint512`) and narrowing it back (which keeps the
/// value, per `Uint256::from_uint512`) yields the starting value, because
/// the representation is canonical.
pub proof fn lemma_width_round_trip(a: Uint256, w: Uint512, r: Uint256)
    requires
        w@ == a@,
        r@ == w@,
    ensures
        r == a,
{
    lemma_uint256_view_injective(r, a);
}

/// Relies on String::push: appends exactly the given character at the end.
pub assume_specification[ String::push ](s: &mut String, c: char)
    ensures
        final(s)@ == old(s)@.push(c),
;

/// The character for one hexadecimal digit.
pub open spec fn hex_char(n: nat) -> char {
    if n == 0 {
        '0'
    } else if n == 1 {
        '1'
    } else if n == 2 {
        '2'
    } else if n == 3 {
        '3'
    } else if n == 4 {
        '4'
    } else if n == 5 {
        '5'
    } else if n == 6 {
        '6'
    } else if n == 7 {
        '7'
    } else if n == 8 {
        '8'
    } else if n == 9 {
        '9'
    } else if n == 10 {
        'a'
    } else if n == 11 {
        'b'
    } else if n == 12 {
        'c'
    } else if n == 13 {
        'd'
    } else if n == 14 {
        'e'
    } else {
        'f'
    }
}

/// The sixteen hex digits of one limb, most significant first.
pub open spec fn limb_hex(l: u64) -> Seq<char> {
    Seq::new(16, |j: int| hex_char(((l as nat) / pow2((4 * (15 - j)) as nat)) % 16))
}

/// The hex rendering of a 256-bit value: "0x", then each limb from most
/// significant to least significant, sixteen digits per limb.
pub open spec fn uint256_hex(a: Uint256) -> Seq<char> {
    seq!['0', 'x'] + limb_hex(a.d3) + limb_hex(a.d2) + limb_hex(a.d1) + limb_hex(a.d0)
}

/// The hex rendering of a 512-bit value: "0x", then each limb from most
/// significant to least significant, sixteen digits per limb.
pub open spec fn uint512_hex(a: Uint512) -> Seq<char> {
    seq!['0', 'x'] + limb_hex(a.d7) + limb_hex(a.d6) + limb_hex(a.d5) + limb_hex(a.d4) + limb_hex(
        a.d3,
    ) + limb_hex(a.d2) + limb_hex(a.d1) + limb_hex(a.d0)
}

/// One hexadecimal digit as a character.
fn hex_char_of(n: u64) -> (c: char)
    requires
        n < 16,
    ensures
        c == hex_char(n as nat),
{
    if n == 0 {
        '0'
    } else if n == 1 {
        '1'
    } else if n == 2 {
        '2'
    } else if n == 3 {
        '3'
    } else if n == 4 {
        '4'
    } else if n == 5 {
        '5'
    } else if n == 6 {
        '6'
    } else if n == 7 {
        '7'
    } else if n == 8 {
        '8'
    } else if n == 9 {
        '9'
    } else if n == 10 {
        'a'
    } else if n == 11 {
        'b'
    } else if n == 12 {
        'c'
    } else if n == 13 {
        'd'
    } else if n == 14 {
        'e'
    } else {
        'f'
    }
}

/// Appends the sixteen hex digits of one limb, most significant first.
fn push_limb_hex(s: &mut String, l: u64)
    ensures
        final(s)@ == old(s)@ + limb_hex(l),
{
    let mut j: usize = 0;
    proof {
        assert(s@ =~= old(s)@ + limb_hex(l).take(0));
    }
    while j < 16
        invariant
            j <= 16,
            s@ == old(s)@ + limb_hex(l).take(j as int),
        decreases 16 - j,
    {
        let shift: u64 = 60 - 4 * (j as u64);
        let nib = (l >> shift) & 0xF;
        proof {
            vstd::bits::lemma_u64_shr_is_div(l, shift);
            let shifted = l >> shift;
            assert((shifted & 0xF) == shifted % 16) by (bit_vector);
            assert(shift as nat == (4 * (15 - j as int)) as nat);
            assert(limb_hex(l)[j as int] == hex_char((nib as nat)));
        }
        let c = hex_char_of(nib);
        s.push(c);
        proof {
            assert(limb_hex(l).take(j as int + 1) =~= limb_hex(l).take(j as int).push(
                limb_hex(l)[j as int],
            ));
            assert(s@ =~= old(s)@ + limb_hex(l).take(j as int + 1));
        }
        j = j + 1;
    }
    proof {
        assert(limb_hex(l).take(16) =~= limb_hex(l));
    }
}

impl Uint256 {
    /// Appends the hex rendering to an existing string.
    pub(crate) fn push_hex(&self, s: &mut String)
        ensures
            final(s)@ == old(s)@ + uint256_hex(*self),
    {
        s.push('0');
        s.push('x');
        push_limb_hex(s, self.d3);
        push_limb_hex(s, self.d2);
        push_limb_hex(s, self.d1);
        push_limb_hex(s, self.d0);
        proof {
            assert(s@ =~= old(s)@ + uint256_hex(*self));
        }
    }

    /// The hexadecimal rendering of the number, for debugging and traces:
    /// "0x", then the limbs from most significant to least significant,
    /// each padded to sixteen digits.
    pub fn to_hex(&self) -> (s: String)
        ensures
            s@ == uint256_hex(*self),
    {
        let mut s = String::new();
        self.push_hex(&mut s);
        proof {
            assert(s@ =~= uint256_hex(*self));
        }
        s
    }
}

impl Uint512 {
    /// The hexadecimal rendering of the number, for debugging and traces:
    /// "0x", then the limbs from most significant to least significant,
    /// each padded to sixteen digits.
    pub fn to_hex(&self) -> (s: String)
        ensures
            s@ == uint512_hex(*self),
    {
        let mut s = String::new();
        s.push('0');
        s.push('x');
        let ghost prefix = s@;
        proof {
            assert(prefix =~= seq!['0', 'x']);
        }
        push_limb_hex(&mut s, self.d7);
        push_limb_hex(&mut s, self.d6);
        push_limb_hex(&mut s, self.d5);
        push_limb_hex(&mut s, self.d4);
        push_limb_hex(&mut s, self.d3);
        push_limb_hex(&mut s, self.d2);
        push_limb_hex(&mut s, self.d1);
        push_limb_hex(&mut s, self.d0);
        proof {
            assert(s@ =~= uint512_hex(*self));
        }
        s
    }
}

/// The parity of a number is the parity of its lowest limb.
proof fn lemma_uint_parity(s: Seq<u64>)
    requires
        s.len() >= 1,
    ensures
        nat_of(s) % 2 == (s[0] as nat) % 2,
{
    let rest = nat_of(s.drop_first());
    assert(0x10000000000000000 * rest == 2 * (0x8000000000000000 * rest)) by (nonlinear_arith);
    vstd::arithmetic::div_mod::lemma_mod_multiples_vanish(
        (0x8000000000000000 * rest) as int,
        s[0] as int,
        2,
    );
}

} // verus!
