//! The signed big-integer value: a sign together with a trimmed,
//! little-endian digit sequence, and the canonical-form machinery
//! (trimming, the canonical zero, uniqueness of representation).

use crate::digit::{
    lemma_seq_val_lower_bound, lemma_seq_val_nonneg, lemma_seq_val_push, lemma_seq_val_upper_bound,
    pow_base, seq_val, BigDigit, DIGIT_BASE,
};
use vstd::prelude::*;

verus! {

/// The sign of a big-integer value.  Under multiplication, `Zero` absorbs
/// and `Positive`/`Negative` combine by the usual sign-of-product rule.
#[derive(Clone, Copy, Debug, PartialEq, Eq, Structural)]
pub enum Sign {
    Positive,
    Negative,
    Zero,
}

/// The sign of a product: `Zero` if either factor's sign is `Zero`, else
/// `Positive` for like signs and `Negative` for unlike signs.
pub open spec fn sign_product(a: Sign, b: Sign) -> Sign {
    match (a, b) {
        (Sign::Zero, _) => Sign::Zero,
        (_, Sign::Zero) => Sign::Zero,
        (Sign::Positive, Sign::Positive) => Sign::Positive,
        (Sign::Negative, Sign::Negative) => Sign::Positive,
        _ => Sign::Negative,
    }
}

/// Computes the sign of a product.
pub fn sign_of_product(a: Sign, b: Sign) -> (s: Sign)
    ensures
        s == sign_product(a, b),
{
    match (a, b) {
        (Sign::Zero, _) => Sign::Zero,
        (_, Sign::Zero) => Sign::Zero,
        (Sign::Positive, Sign::Positive) => Sign::Positive,
        (Sign::Negative, Sign::Negative) => Sign::Positive,
        _ => Sign::Negative,
    }
}

/// A digit sequence is trimmed when it has no trailing (most significant)
/// zero digit, except for the single-digit sequence `[0]` denoting zero.
pub open spec fn trimmed(s: Seq<BigDigit>) -> bool {
    s.len() >= 1 && (s.len() > 1 ==> s.last() != 0)
}

/// A signed big integer: a sign and a little-endian digit sequence.
#[derive(Debug)]
pub struct BigInt {
    pub sign: Sign,
    pub digits: Vec<BigDigit>,
}

impl PartialEq for BigInt {
    /// Structural equality of sign and digit sequence; on well-formed
    /// values this coincides with equality of the denoted integers.
    fn eq(&self, other: &BigInt) -> (r: bool) {
        if self.sign != other.sign {
            return false;
        }
        if self.digits.len() != other.digits.len() {
            return false;
        }
        let mut i: usize = 0;
        while i < self.digits.len()
            invariant
                i <= self.digits@.len(),
                self.digits@.len() == other.digits@.len(),
                forall|k: int| 0 <= k < i ==> self.digits@[k] == other.digits@[k],
            decreases self.digits@.len() - i,
        {
            if self.digits[i] != other.digits[i] {
                return false;
            }
            i = i + 1;
        }
        proof {
            assert(self.digits@ =~= other.digits@);
        }
        true
    }
}

impl vstd::std_specs::cmp::PartialEqSpecImpl for BigInt {
    open spec fn obeys_eq_spec() -> bool {
        true
    }

    open spec fn eq_spec(&self, other: &BigInt) -> bool {
        self.sign == other.sign && self.digits@ == other.digits@
    }
}

impl BigInt {
    /// The integer this value denotes.
    pub open spec fn value(self) -> int {
        match self.sign {
            Sign::Positive => seq_val(self.digits@),
            Sign::Negative => -seq_val(self.digits@),
            Sign::Zero => 0int,
        }
    }

    /// Canonical form: the digit sequence is trimmed, and the sign is
    /// `Zero` exactly when the digit sequence denotes zero.
    pub open spec fn well_formed(self) -> bool {
        &&& trimmed(self.digits@)
        &&& self.sign == Sign::Zero <==> seq_val(self.digits@) == 0
    }

    /// The canonical zero value: sign `Zero`, digit sequence `[0]`.
    pub fn zero() -> (r: BigInt)
        ensures
            r.well_formed(),
            r.value() == 0,
            r.sign == Sign::Zero,
            r.digits@ == seq![0u32],
    {
        let mut digits: Vec<BigDigit> = Vec::new();
        digits.push(0);
        proof {
            assert(digits@ =~= seq![0u32]);
            assert(seq_val(digits@) == 0 + DIGIT_BASE * seq_val(digits@.drop_first()));
        }
        BigInt { sign: Sign::Zero, digits }
    }

    /// Whether this value is zero, judged by its sign.
    pub fn is_zero(&self) -> (r: bool)
        ensures
            r == (self.sign == Sign::Zero),
    {
        match self.sign {
            Sign::Zero => true,
            _ => false,
        }
    }

    /// Drops trailing zero digits down to at least one digit, keeping the
    /// sign and the denoted magnitude.
    pub fn trimmed(self) -> (r: BigInt)
        requires
            self.digits@.len() >= 1,
        ensures
            r.sign == self.sign,
            trimmed(r.digits@),
            seq_val(r.digits@) == seq_val(self.digits@),
            r.value() == self.value(),
    {
        let mut digits: Vec<BigDigit> = self.digits;
        while digits.len() > 1 && digits[digits.len() - 1] == 0
            invariant
                digits@.len() >= 1,
                seq_val(digits@) == seq_val(self.digits@),
            decreases digits@.len(),
        {
            let ghost before: Seq<BigDigit> = digits@;
            digits.pop();
            proof {
                assert(before =~= digits@.push(0u32));
                lemma_seq_val_push(digits@, 0u32);
            }
        }
        BigInt { sign: self.sign, digits }
    }
}

/// Two trimmed digit sequences denoting the same integer are the same
/// sequence: the canonical representation is unique.
pub proof fn lemma_trimmed_unique(s: Seq<BigDigit>, t: Seq<BigDigit>)
    requires
        trimmed(s),
        trimmed(t),
        seq_val(s) == seq_val(t),
    ensures
        s == t,
    decreases s.len(),
{
    let b: int = DIGIT_BASE as int;
    lemma_seq_val_nonneg(s.drop_first());
    lemma_seq_val_nonneg(t.drop_first());
    assert(seq_val(s) == b * seq_val(s.drop_first()) + s[0]);
    assert(seq_val(t) == b * seq_val(t.drop_first()) + t[0]);
    vstd::arithmetic::div_mod::lemma_fundamental_div_mod_converse(
        seq_val(s),
        b,
        seq_val(s.drop_first()),
        s[0] as int,
    );
    vstd::arithmetic::div_mod::lemma_fundamental_div_mod_converse(
        seq_val(t),
        b,
        seq_val(t.drop_first()),
        t[0] as int,
    );
    assert(s[0] == t[0]);
    assert(seq_val(s.drop_first()) == seq_val(t.drop_first()));
    if s.len() == 1 && t.len() == 1 {
        assert(s =~= t);
    } else if s.len() > 1 && t.len() > 1 {
        assert(trimmed(s.drop_first())) by {
            assert(s.drop_first().last() == s.last());
        }
        assert(trimmed(t.drop_first())) by {
            assert(t.drop_first().last() == t.last());
        }
        lemma_trimmed_unique(s.drop_first(), t.drop_first());
        assert(s.len() == t.len());
        assert forall|i: int| 0 <= i < s.len() implies s[i] == t[i] by {
            if i > 0 {
                assert(s[i] == s.drop_first()[i - 1]);
                assert(t[i] == t.drop_first()[i - 1]);
            }
        }
        assert(s =~= t);
    } else if s.len() == 1 {
        lemma_long_sequence_exceeds_one_digit(t);
        lemma_seq_val_upper_bound(s);
        assert(false);
    } else {
        lemma_long_sequence_exceeds_one_digit(s);
        lemma_seq_val_upper_bound(t);
        assert(false);
    }
}

/// A trimmed digit sequence of more than one digit denotes at least
/// DIGIT_BASE, so more than any single digit.
pub proof fn lemma_long_sequence_exceeds_one_digit(s: Seq<BigDigit>)
    requires
        trimmed(s),
        s.len() > 1,
    ensures
        seq_val(s) >= DIGIT_BASE,
{
    lemma_seq_val_lower_bound(s);
    let e: nat = (s.len() - 1) as nat;
    assert(pow_base(e) >= DIGIT_BASE as int) by {
        vstd::arithmetic::power::lemma_pow1(DIGIT_BASE as int);
        vstd::arithmetic::power::lemma_pow_increases(DIGIT_BASE as nat, 1, e);
    }
    assert(pow_base(e) > 0) by {
        vstd::arithmetic::power::lemma_pow_positive(DIGIT_BASE as int, e);
    }
    assert(s.last() * pow_base(e) >= pow_base(e)) by (nonlinear_arith)
        requires
            s.last() >= 1,
            pow_base(e) > 0,
    ;
}

/// A well-formed value denoting zero is the canonical zero: sign `Zero`
/// and digit sequence `[0]`.
pub proof fn lemma_canonical_zero(x: BigInt)
    requires
        x.well_formed(),
        x.value() == 0,
    ensures
        x.sign == Sign::Zero,
        x.digits@ == seq![0u32],
{
    lemma_seq_val_nonneg(x.digits@);
    assert(seq_val(x.digits@) == 0) by {
        if x.sign != Sign::Zero {
            assert(x.value() == seq_val(x.digits@) || x.value() == -seq_val(x.digits@));
        }
    }
    assert(seq![0u32].drop_first() =~= Seq::<BigDigit>::empty());
    assert(seq_val(seq![0u32]) == 0 + DIGIT_BASE * seq_val(seq![0u32].drop_first()));
    lemma_trimmed_unique(x.digits@, seq![0u32]);
}

/// Two well-formed values denoting the same integer are identical in sign
/// and digits: the representation of every integer is unique.
pub proof fn lemma_value_unique(x: BigInt, y: BigInt)
    requires
        x.well_formed(),
        y.well_formed(),
        x.value() == y.value(),
    ensures
        x.sign == y.sign,
        x.digits@ == y.digits@,
{
    lemma_seq_val_nonneg(x.digits@);
    lemma_seq_val_nonneg(y.digits@);
    if x.value() == 0 {
        lemma_canonical_zero(x);
        lemma_canonical_zero(y);
    } else if x.value() > 0 {
        assert(x.sign == Sign::Positive);
        assert(y.sign == Sign::Positive);
        lemma_trimmed_unique(x.digits@, y.digits@);
    } else {
        assert(x.sign == Sign::Negative);
        assert(y.sign == Sign::Negative);
        lemma_trimmed_unique(x.digits@, y.digits@);
    }
}

} // verus!
