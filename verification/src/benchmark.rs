//! The computation behind benchmarking a formula: `pi` to a number of
//! decimal digits from the formula's arctangents in fixed point.
use crate::bignum::{signed_decimal, Int};
use crate::formula::{fixed_arctan, fixed_arctan_reciprocal, Term};
use crate::machin::power_of_ten;
use vstd::arithmetic::power::pow;
use vstd::prelude::*;
use vstd::string::{StrSliceExecFns, StringExecFns};

verus! {

/// Digits computed beyond the requested ones.
pub const GUARD_DIGITS: usize = 12;

/// Digits shown after the decimal point at most.
pub const SHOWN_DIGITS: usize = 51;

/// The fixed-point scale `10^(digits + 12)` of a run for `digits` digits (the
/// exponent taken as a `u32`).
pub fn decimal_scale(digits: usize) -> (r: Int)
    requires
        digits + GUARD_DIGITS <= usize::MAX,
    ensures
        r@ == pow(10, ((digits + GUARD_DIGITS) as u32) as nat),
{
    #[verifier::truncate]
    let exponent = (digits + GUARD_DIGITS) as u32;
    power_of_ten(exponent as usize)
}

/// The scale of a benchmark run for `digits` digits, refusing zero digits.
pub fn benchmark_scale(digits: usize) -> (r: Result<Int, String>)
    requires
        digits + GUARD_DIGITS <= usize::MAX,
    ensures
        digits == 0 ==> (r matches Err(e) && e@ == "digits must be positive"@),
        digits > 0 ==> (r matches Ok(scale) && scale@ == pow(10, ((digits + GUARD_DIGITS) as u32) as nat)),
{
    if digits == 0 {
        return Err(crate::parse::fixed_text("digits must be positive"));
    }
    Ok(decimal_scale(digits))
}

/// One term's share of the arctangent sum, `coefficient * arctan(1/denominator)`
/// at `scale`.
pub fn weighted_arctan(term: &Term, scale: &Int) -> (r: Int)
    requires
        term.denominator > 0,
    ensures
        r@ == fixed_arctan(term.denominator as int, scale@) * term.coefficient,
{
    Int::times(&fixed_arctan_reciprocal(term.denominator, scale), &Int::from_i64(term.coefficient))
}

/// The sum of the values.
pub open spec fn int_sum(parts: Seq<Int>) -> int
    decreases parts.len(),
{
    if parts.len() == 0 {
        0
    } else {
        int_sum(parts.drop_last()) + parts.last()@
    }
}

/// The digits of a value at scale `10^(digits + 12)` with the decimal point
/// put in and at most 51 digits after it; a text no longer than the
/// fractional part stays as it is.
pub open spec fn fraction_prefix(text: Seq<char>, digits: nat) -> Seq<char> {
    let fractional = digits + GUARD_DIGITS;
    if text.len() > fractional {
        let split = text.len() - fractional;
        let end = if text.len() < split + SHOWN_DIGITS {
            text.len() as int
        } else {
            split + SHOWN_DIGITS
        };
        text.subrange(0, split) + seq!['.'] + text.subrange(split, end)
    } else {
        text
    }
}

/// `pi` from the terms' shares, `4 * sum`, written out as `fraction_prefix`
/// does.
pub fn pi_prefix(parts: &[Int], digits: usize) -> (r: String)
    requires
        digits + GUARD_DIGITS <= usize::MAX,
    ensures
        r@ == fraction_prefix(signed_decimal(4 * int_sum(parts@)), digits as nat),
{
    let mut sum = Int::zero();
    let mut i: usize = 0;
    while i < parts.len()
        invariant
            i <= parts@.len(),
            sum@ == int_sum(parts@.take(i as int)),
        decreases parts@.len() - i,
    {
        proof {
            assert(parts@.take(i + 1).drop_last() =~= parts@.take(i as int));
        }
        sum = Int::plus(&sum, &parts[i]);
        i += 1;
    }
    proof {
        assert(parts@.take(parts@.len() as int) =~= parts@);
    }
    let pi = Int::times(&sum, &Int::from_u64(4));
    let text = pi.to_decimal();
    let whole = text.as_str();
    let length = whole.unicode_len();
    let fractional = digits + GUARD_DIGITS;
    if length > fractional {
        let split = length - fractional;
        let end = if length - split < SHOWN_DIGITS {
            length
        } else {
            split + SHOWN_DIGITS
        };
        let mut out = String::from_str(whole.substring_char(0, split));
        out.append(".");
        out.append(whole.substring_char(split, end));
        proof {
            reveal_strlit(".");
        }
        assert(out@ =~= fraction_prefix(signed_decimal(4 * int_sum(parts@)), digits as nat));
        out
    } else {
        text
    }
}

} // verus!
