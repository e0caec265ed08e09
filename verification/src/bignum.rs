use num_bigint::{BigInt, Sign};
use num_integer::Integer;
use num_traits::ToPrimitive;
use crate::parse::decimal_text;
use vstd::arithmetic::power2::pow2;
use vstd::prelude::*;

verus! {

/// The value of little-endian base-2^32 limbs.
pub open spec fn limbs_value(limbs: Seq<u32>) -> nat
    decreases limbs.len(),
{
    if limbs.len() == 0 {
        0
    } else {
        limbs[0] as nat + 0x1_0000_0000 * limbs_value(limbs.drop_first())
    }
}

/// Absolute value.
pub open spec fn abs(a: int) -> int {
    if a < 0 {
        -a
    } else {
        a
    }
}

/// Integer division rounding toward zero, as Rust's `/` does.
pub open spec fn tdiv(a: int, b: int) -> int {
    let q = abs(a) / abs(b);
    if (a < 0) != (b < 0) {
        -q
    } else {
        q
    }
}

/// Greatest common divisor of two naturals (Euclid); `gcd(0, 0) == 0`.
pub open spec fn gcd(a: nat, b: nat) -> nat
    decreases b,
{
    if b == 0 {
        a
    } else {
        gcd(b, a % b)
    }
}

/// `-` and the decimal digits of `-v` for a negative `v`, the digits of `v` otherwise.
pub open spec fn signed_decimal(v: int) -> Seq<char> {
    if v < 0 {
        seq!['-'] + decimal_text((-v) as nat)
    } else {
        decimal_text(v as nat)
    }
}

/// Number of binary digits of `n` (0 for 0).
pub open spec fn bit_length(n: nat) -> nat
    decreases n,
{
    if n == 0 {
        0
    } else {
        1 + bit_length(n / 2)
    }
}

/// `a * 2^k`.
pub open spec fn shl(a: int, k: nat) -> int {
    a * pow2(k)
}

/// `a / 2^k` rounded toward negative infinity.
pub open spec fn shr(a: int, k: nat) -> int {
    a / (pow2(k) as int)
}

/// An arbitrary-precision signed integer, held as a sign and the
/// little-endian base-2^32 limbs of its magnitude.
#[derive(Debug)]
pub struct Int {
    negative: bool,
    limbs: Vec<u32>,
}

impl Int {
    /// Canonical form: no most-significant zero limb, and zero is not negative.
    #[verifier::type_invariant]
    spec fn canonical(self) -> bool {
        &&& (self.limbs.len() == 0 || self.limbs@.last() != 0)
        &&& (self.negative ==> self.limbs.len() > 0)
    }
}

/// The value of an `Int`: its sign applied to `limbs_value` of its limbs.
impl View for Int {
    type V = int;

    closed spec fn view(&self) -> int {
        if self.negative {
            -(limbs_value(self.limbs@) as int)
        } else {
            limbs_value(self.limbs@) as int
        }
    }
}

proof fn lemma_limbs_value_positive(s: Seq<u32>)
    requires
        s.len() > 0,
        s.last() != 0,
    ensures
        limbs_value(s) > 0,
    decreases s.len(),
{
    if s.len() > 1 {
        assert(s.drop_first().last() == s.last());
        lemma_limbs_value_positive(s.drop_first());
    }
}

proof fn lemma_limbs_two(lo: u32, hi: u32)
    ensures
        limbs_value(seq![lo, hi]) == lo + 0x1_0000_0000 * hi,
        limbs_value(seq![lo]) == lo as nat,
{
    let s = seq![lo, hi];
    assert(s.drop_first() =~= seq![hi]);
    assert(seq![hi].drop_first() =~= Seq::<u32>::empty());
    assert(seq![lo].drop_first() =~= Seq::<u32>::empty());
    assert(limbs_value(Seq::<u32>::empty()) == 0);
    assert(limbs_value(seq![hi]) == hi as nat);
    assert(limbs_value(seq![lo]) == lo as nat);
    assert(limbs_value(s) == s[0] as nat + 0x1_0000_0000 * limbs_value(s.drop_first()));
}

impl Clone for Int {
    fn clone(&self) -> (r: Self)
        ensures
            r@ == self@,
    {
        proof {
            use_type_invariant(self);
        }
        let limbs = self.limbs.clone();
        assert(limbs@ =~= self.limbs@);
        Int { negative: self.negative, limbs }
    }
}

impl Int {
    pub fn zero() -> (r: Int)
        ensures
            r@ == 0,
    {
        Int { negative: false, limbs: Vec::new() }
    }

    pub fn from_u64(v: u64) -> (r: Int)
        ensures
            r@ == v as int,
    {
        let lo = (v & 0xffff_ffff) as u32;
        let hi = (v >> 32u64) as u32;
        assert(v == lo + 0x1_0000_0000 * hi) by (bit_vector)
            requires
                lo == (v & 0xffff_ffff) as u32,
                hi == (v >> 32u64) as u32,
        ;
        proof {
            lemma_limbs_two(lo, hi);
        }
        if v == 0 {
            Int::zero()
        } else if hi == 0 {
            let mut limbs = Vec::new();
            limbs.push(lo);
            assert(limbs@ =~= seq![lo]);
            Int { negative: false, limbs }
        } else {
            let mut limbs = Vec::new();
            limbs.push(lo);
            limbs.push(hi);
            assert(limbs@ =~= seq![lo, hi]);
            Int { negative: false, limbs }
        }
    }

    pub fn from_i64(v: i64) -> (r: Int)
        ensures
            r@ == v as int,
    {
        if v >= 0 {
            Int::from_u64(v as u64)
        } else {
            let magnitude: u64 = ((-(v + 1)) as u64) + 1;
            Int::from_u64(magnitude).negated()
        }
    }

    /// Builds the value `(-1)^negative * limbs_value(limbs)` from any sign and limbs.
    pub fn from_parts(negative: bool, limbs: Vec<u32>) -> (r: Int)
        ensures
            r@ == (if negative {
                -(limbs_value(limbs@) as int)
            } else {
                limbs_value(limbs@) as int
            }),
    {
        let mut limbs = limbs;
        let ghost given = limbs@;
        while limbs.len() > 0 && limbs[limbs.len() - 1] == 0
            invariant
                limbs_value(limbs@) == limbs_value(given),
            decreases limbs.len(),
        {
            let ghost before = limbs@;
            limbs.pop();
            proof {
                lemma_drop_zero_top(before);
            }
            assert(before.drop_last() =~= limbs@);
        }
        let negative = negative && limbs.len() > 0;
        proof {
            if limbs.len() == 0 {
                assert(limbs_value(limbs@) == 0);
            }
        }
        Int { negative, limbs }
    }

    /// Whether the sign is negative (the value is below zero).
    pub fn is_negative(&self) -> (r: bool)
        ensures
            r == (self@ < 0),
    {
        proof {
            use_type_invariant(self);
            if self.limbs.len() > 0 {
                lemma_limbs_value_positive(self.limbs@);
            }
        }
        self.negative
    }

    /// The limbs of the magnitude, least significant first, without a top zero limb.
    pub fn magnitude_limbs(&self) -> (r: &Vec<u32>)
        ensures
            limbs_value(r@) == abs(self@),
            r@.len() == 0 || r@.last() != 0,
    {
        proof {
            use_type_invariant(self);
        }
        &self.limbs
    }

    pub fn is_zero(&self) -> (r: bool)
        ensures
            r == (self@ == 0),
    {
        proof {
            use_type_invariant(self);
            if self.limbs.len() > 0 {
                lemma_limbs_value_positive(self.limbs@);
            }
        }
        self.limbs.len() == 0
    }

    pub fn negated(&self) -> (r: Int)
        ensures
            r@ == -self@,
    {
        proof {
            use_type_invariant(self);
        }
        let limbs = self.limbs.clone();
        assert(limbs@ =~= self.limbs@);
        Int { negative: !self.negative && limbs.len() > 0, limbs }
    }

    pub fn absolute(&self) -> (r: Int)
        ensures
            r@ == abs(self@),
    {
        proof {
            use_type_invariant(self);
        }
        let limbs = self.limbs.clone();
        assert(limbs@ =~= self.limbs@);
        Int { negative: false, limbs }
    }

    /// Wrapper around `BigInt + BigInt`: the sum of the two values.
    #[verifier::external_body]
    pub fn plus(a: &Int, b: &Int) -> (r: Int)
        ensures
            r@ == a@ + b@,
    {
        let x = BigInt::from_slice(if a.negative { Sign::Minus } else { Sign::Plus }, &a.limbs);
        let y = BigInt::from_slice(if b.negative { Sign::Minus } else { Sign::Plus }, &b.limbs);
        let (sign, limbs) = (x + y).to_u32_digits();
        Int { negative: sign == Sign::Minus, limbs }
    }

    /// Wrapper around `BigInt - BigInt`: the difference of the two values.
    #[verifier::external_body]
    pub fn minus(a: &Int, b: &Int) -> (r: Int)
        ensures
            r@ == a@ - b@,
    {
        let x = BigInt::from_slice(if a.negative { Sign::Minus } else { Sign::Plus }, &a.limbs);
        let y = BigInt::from_slice(if b.negative { Sign::Minus } else { Sign::Plus }, &b.limbs);
        let (sign, limbs) = (x - y).to_u32_digits();
        Int { negative: sign == Sign::Minus, limbs }
    }

    /// Wrapper around `BigInt * BigInt`: the product of the two values.
    #[verifier::external_body]
    pub fn times(a: &Int, b: &Int) -> (r: Int)
        ensures
            r@ == a@ * b@,
    {
        let x = BigInt::from_slice(if a.negative { Sign::Minus } else { Sign::Plus }, &a.limbs);
        let y = BigInt::from_slice(if b.negative { Sign::Minus } else { Sign::Plus }, &b.limbs);
        let (sign, limbs) = (x * y).to_u32_digits();
        Int { negative: sign == Sign::Minus, limbs }
    }

    /// Wrapper around `BigInt / BigInt`, which rounds toward zero and panics on a
    /// zero divisor.
    #[verifier::external_body]
    pub fn quotient(a: &Int, b: &Int) -> (r: Int)
        requires
            b@ != 0,
        ensures
            r@ == tdiv(a@, b@),
    {
        let x = BigInt::from_slice(if a.negative { Sign::Minus } else { Sign::Plus }, &a.limbs);
        let y = BigInt::from_slice(if b.negative { Sign::Minus } else { Sign::Plus }, &b.limbs);
        let (sign, limbs) = (x / y).to_u32_digits();
        Int { negative: sign == Sign::Minus, limbs }
    }

    /// Wrapper around `BigInt << usize`: the value times `2^k`.
    #[verifier::external_body]
    pub fn shifted_left(a: &Int, k: usize) -> (r: Int)
        ensures
            r@ == shl(a@, k as nat),
    {
        let x = BigInt::from_slice(if a.negative { Sign::Minus } else { Sign::Plus }, &a.limbs);
        let (sign, limbs) = (x << k).to_u32_digits();
        Int { negative: sign == Sign::Minus, limbs }
    }

    /// Wrapper around `BigInt >> usize`, which rounds toward negative infinity.
    #[verifier::external_body]
    pub fn shifted_right(a: &Int, k: usize) -> (r: Int)
        ensures
            r@ == shr(a@, k as nat),
    {
        let x = BigInt::from_slice(if a.negative { Sign::Minus } else { Sign::Plus }, &a.limbs);
        let (sign, limbs) = (x >> k).to_u32_digits();
        Int { negative: sign == Sign::Minus, limbs }
    }

    /// Wrapper around `BigInt < BigInt`.
    #[verifier::external_body]
    pub fn less_than(a: &Int, b: &Int) -> (r: bool)
        ensures
            r == (a@ < b@),
    {
        let x = BigInt::from_slice(if a.negative { Sign::Minus } else { Sign::Plus }, &a.limbs);
        let y = BigInt::from_slice(if b.negative { Sign::Minus } else { Sign::Plus }, &b.limbs);
        x < y
    }

    /// Wrapper around `BigInt == BigInt`.
    #[verifier::external_body]
    pub fn equal_to(a: &Int, b: &Int) -> (r: bool)
        ensures
            r == (a@ == b@),
    {
        let x = BigInt::from_slice(if a.negative { Sign::Minus } else { Sign::Plus }, &a.limbs);
        let y = BigInt::from_slice(if b.negative { Sign::Minus } else { Sign::Plus }, &b.limbs);
        x == y
    }

    /// Wrapper around `num_integer::Integer::gcd` on `BigInt`: the non-negative
    /// greatest common divisor of the two magnitudes.
    #[verifier::external_body]
    pub fn gcd(a: &Int, b: &Int) -> (r: Int)
        ensures
            r@ == gcd(abs(a@) as nat, abs(b@) as nat),
    {
        let x = BigInt::from_slice(if a.negative { Sign::Minus } else { Sign::Plus }, &a.limbs);
        let y = BigInt::from_slice(if b.negative { Sign::Minus } else { Sign::Plus }, &b.limbs);
        let (sign, limbs) = x.gcd(&y).to_u32_digits();
        Int { negative: sign == Sign::Minus, limbs }
    }

    /// Wrapper around `BigInt::sqrt` on a non-negative value (it panics on a
    /// negative one): the truncated square root.
    #[verifier::external_body]
    pub fn floor_sqrt(a: &Int) -> (r: Int)
        requires
            a@ >= 0,
        ensures
            r@ >= 0,
            r@ * r@ <= a@ < (r@ + 1) * (r@ + 1),
    {
        let x = BigInt::from_slice(Sign::Plus, &a.limbs);
        let (sign, limbs) = x.sqrt().to_u32_digits();
        Int { negative: sign == Sign::Minus, limbs }
    }

    /// Wrapper around `BigInt::bits`: the bit length of the magnitude.
    #[verifier::external_body]
    pub fn bits(a: &Int) -> (r: u64)
        ensures
            r as nat == bit_length(abs(a@) as nat),
    {
        BigInt::from_slice(Sign::Plus, &a.limbs).bits()
    }

    /// Wrapper around `BigInt`'s `Display` (through `to_string`): the decimal
    /// digits without leading zeros, after a `-` for a negative value.
    #[verifier::external_body]
    pub fn to_decimal(&self) -> (r: String)
        ensures
            r@ == signed_decimal(self@),
    {
        BigInt::from_slice(if self.negative { Sign::Minus } else { Sign::Plus }, &self.limbs).to_string()
    }

    /// Wrapper around `ToPrimitive::to_i64` on `BigInt`: the value when it fits.
    #[verifier::external_body]
    pub fn to_i64(a: &Int) -> (r: Option<i64>)
        ensures
            r == (if i64::MIN <= a@ <= i64::MAX {
                Some(a@ as i64)
            } else {
                None
            }),
    {
        BigInt::from_slice(if a.negative { Sign::Minus } else { Sign::Plus }, &a.limbs).to_i64()
    }
}

proof fn lemma_drop_zero_top(s: Seq<u32>)
    requires
        s.len() > 0,
        s.last() == 0,
    ensures
        limbs_value(s.drop_last()) == limbs_value(s),
    decreases s.len(),
{
    if s.len() == 1 {
        assert(s.drop_last() =~= Seq::<u32>::empty());
        assert(s.drop_first() =~= Seq::<u32>::empty());
    } else {
        lemma_drop_zero_top(s.drop_first());
        assert(s.drop_first().drop_last() =~= s.drop_last().drop_first());
    }
}

} // verus!
