//! Digit configuration: the digit word, the double-width accumulator used
//! for carry-safe intermediate products, the derived constants, and the
//! positional value that a digit sequence denotes.

use vstd::arithmetic::mul::lemma_mul_nonnegative;
use vstd::arithmetic::power::pow;
use vstd::prelude::*;

verus! {

/// One digit (limb) of a big integer.
pub type BigDigit = u32;

/// Overflow-safe accumulator holding a full digit-by-digit product plus
/// carry; never persisted in a digit sequence.
pub type DoubleBigDigit = u64;

/// Bit width of one digit.
pub const DIGIT_SIZE: usize = 32;

/// Number of decimal characters that always convert into a single digit
/// without intermediate overflow (10^8 < 2^32), for use by a decimal parser.
pub const BASE_10_PARSE_CHUNK_SIZE: usize = 8;

/// The base of the positional representation: 2^DIGIT_SIZE.
pub const DIGIT_BASE: u64 = 0x1_0000_0000;

/// DIGIT_BASE raised to the power `e`: the weight of the digit at
/// position `e` of a digit sequence.
pub open spec fn pow_base(e: nat) -> int {
    pow(DIGIT_BASE as int, e)
}

/// The non-negative integer denoted by a little-endian digit sequence.
pub open spec fn seq_val(s: Seq<BigDigit>) -> int
    decreases s.len(),
{
    if s.len() == 0 {
        0int
    } else {
        s[0] + DIGIT_BASE * seq_val(s.drop_first())
    }
}

/// A digit sequence denotes a non-negative integer.
pub proof fn lemma_seq_val_nonneg(s: Seq<BigDigit>)
    ensures
        seq_val(s) >= 0,
    decreases s.len(),
{
    if s.len() > 0 {
        lemma_seq_val_nonneg(s.drop_first());
        lemma_mul_nonnegative(DIGIT_BASE as int, seq_val(s.drop_first()));
    }
}

/// The weight of position `e` is DIGIT_BASE times the weight of
/// position `e - 1`.
pub proof fn lemma_pow_base_step(e: nat)
    requires
        e > 0,
    ensures
        pow_base(e) == DIGIT_BASE * pow_base((e - 1) as nat),
{
    reveal(pow);
}

/// Appending a digit adds its value weighted by the position it lands in.
pub proof fn lemma_seq_val_push(s: Seq<BigDigit>, d: BigDigit)
    ensures
        seq_val(s.push(d)) == seq_val(s) + d * pow_base(s.len()),
    decreases s.len(),
{
    if s.len() == 0 {
        assert(s.push(d).drop_first() =~= Seq::<BigDigit>::empty());
        assert(pow_base(0) == 1) by {
            vstd::arithmetic::power::lemma_pow0(DIGIT_BASE as int);
        }
        assert(seq_val(s.push(d)) == d + DIGIT_BASE * seq_val(s.push(d).drop_first()));
        assert(seq_val(s) == 0);
        assert(seq_val(s.push(d)) == d);
    } else {
        assert(s.push(d).drop_first() =~= s.drop_first().push(d));
        lemma_seq_val_push(s.drop_first(), d);
        let t: int = seq_val(s.drop_first());
        let p: int = pow_base((s.len() - 1) as nat);
        let b: int = DIGIT_BASE as int;
        lemma_pow_base_step(s.len());
        assert(pow_base(s.len()) == b * p);
        assert(seq_val(s.push(d)) == s[0] + b * (t + d * p));
        assert(s[0] + b * (t + d * p) == (s[0] + b * t) + d * (b * p)) by (nonlinear_arith);
        assert(seq_val(s) == s[0] + b * t);
        assert(seq_val(s.push(d)) == seq_val(s) + d * pow_base(s.len()));
    }
}

/// Replacing the digit at position `i` shifts the denoted value by the
/// difference at that position's weight.
pub proof fn lemma_seq_val_update(s: Seq<BigDigit>, i: int, d: BigDigit)
    requires
        0 <= i < s.len(),
    ensures
        seq_val(s.update(i, d)) == seq_val(s) + (d - s[i]) * pow_base(i as nat),
    decreases s.len(),
{
    let b: int = DIGIT_BASE as int;
    if i == 0 {
        assert(s.update(0, d).drop_first() =~= s.drop_first());
        assert(pow_base(0) == 1) by {
            vstd::arithmetic::power::lemma_pow0(b);
        }
    } else {
        assert(s.update(i, d).drop_first() =~= s.drop_first().update(i - 1, d));
        lemma_seq_val_update(s.drop_first(), i - 1, d);
        let df: int = d - s[i];
        let p: int = pow_base((i - 1) as nat);
        lemma_pow_base_step(i as nat);
        assert(pow_base(i as nat) == b * p);
        assert(seq_val(s.update(i, d)) == s[0] + b * (seq_val(s.drop_first()) + df * p));
        assert(s[0] + b * (seq_val(s.drop_first()) + df * p) == (s[0] + b * seq_val(
            s.drop_first(),
        )) + df * (b * p)) by (nonlinear_arith);
    }
}

/// A digit sequence of length `n` denotes a value below DIGIT_BASE^n.
pub proof fn lemma_seq_val_upper_bound(s: Seq<BigDigit>)
    ensures
        seq_val(s) < pow_base(s.len()),
    decreases s.len(),
{
    let b: int = DIGIT_BASE as int;
    if s.len() == 0 {
        assert(pow_base(0) == 1) by {
            vstd::arithmetic::power::lemma_pow0(b);
        }
    } else {
        lemma_seq_val_upper_bound(s.drop_first());
        let t: int = seq_val(s.drop_first());
        let p: int = pow_base((s.len() - 1) as nat);
        lemma_pow_base_step(s.len());
        assert(pow_base(s.len()) == b * p);
        assert(t + 1 <= p);
        assert(b * (t + 1) <= b * p);
        assert(seq_val(s) == s[0] + b * t);
        assert(s[0] + b * t < b * (t + 1));
    }
}

/// A digit sequence denotes at least its most significant digit times the
/// weight of its position.
pub proof fn lemma_seq_val_lower_bound(s: Seq<BigDigit>)
    requires
        s.len() > 0,
    ensures
        seq_val(s) >= s.last() * pow_base((s.len() - 1) as nat),
    decreases s.len(),
{
    let b: int = DIGIT_BASE as int;
    if s.len() == 1 {
        assert(pow_base(0) == 1) by {
            vstd::arithmetic::power::lemma_pow0(b);
        }
        assert(s.last() == s[0]);
        lemma_seq_val_nonneg(s.drop_first());
        lemma_mul_nonnegative(b, seq_val(s.drop_first()));
    } else {
        lemma_seq_val_lower_bound(s.drop_first());
        assert(s.drop_first().last() == s.last());
        let l: int = s.last() as int;
        let p: int = pow_base((s.len() - 2) as nat);
        lemma_pow_base_step((s.len() - 1) as nat);
        assert(pow_base((s.len() - 1) as nat) == b * p);
        assert(seq_val(s.drop_first()) >= l * p);
        assert(b * seq_val(s.drop_first()) >= b * (l * p));
        assert(b * (l * p) == l * (b * p)) by (nonlinear_arith);
    }
}

/// An all-zero digit sequence denotes zero.
pub proof fn lemma_seq_val_all_zero(s: Seq<BigDigit>)
    requires
        forall|k: int| 0 <= k < s.len() ==> s[k] == 0,
    ensures
        seq_val(s) == 0,
    decreases s.len(),
{
    if s.len() > 0 {
        lemma_seq_val_all_zero(s.drop_first());
    }
}

/// Splits a double-width value into its low and high digit halves, so that
/// `x == lo + hi * DIGIT_BASE`.
pub fn to_lo_hi(x: DoubleBigDigit) -> (r: (BigDigit, BigDigit))
    ensures
        r.0 == x as int % DIGIT_BASE as int,
        r.1 == x as int / DIGIT_BASE as int,
        x == r.0 + r.1 * DIGIT_BASE,
{
    proof {
        assert(x & 0xFFFF_FFFFu64 == x % 0x1_0000_0000u64) by (bit_vector);
        assert(x >> 32u64 == x / 0x1_0000_0000u64) by (bit_vector);
        assert(x % 0x1_0000_0000u64 < 0x1_0000_0000u64) by (bit_vector);
        assert(x / 0x1_0000_0000u64 < 0x1_0000_0000u64) by (bit_vector);
        vstd::arithmetic::div_mod::lemma_fundamental_div_mod(x as int, DIGIT_BASE as int);
    }
    let lo: u32 = (x & 0xFFFF_FFFF) as u32;
    let hi: u32 = (x >> 32) as u32;
    (lo, hi)
}

} // verus!
