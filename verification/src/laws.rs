//! Algebraic laws of big-integer multiplication, stated over the
//! mathematical model of the digit sequences and proved once for all
//! inputs.  Together with uniqueness of the canonical representation they
//! carry over to the executable entry points through their contracts.

use crate::digit::{seq_val, BigDigit, DIGIT_BASE};
use crate::value::{lemma_canonical_zero, lemma_value_unique, BigInt, Sign};
use vstd::prelude::*;

verus! {

/// Commutativity: two well-formed values denoting `a * b` and `b * a`
/// respectively (as the results of multiplying the same operands in either
/// order do) are one and the same value.
pub proof fn lemma_multiply_commutative(a: BigInt, b: BigInt, ab: BigInt, ba: BigInt)
    requires
        a.well_formed(),
        b.well_formed(),
        ab.well_formed(),
        ba.well_formed(),
        ab.value() == a.value() * b.value(),
        ba.value() == b.value() * a.value(),
    ensures
        ab.sign == ba.sign,
        ab.digits@ == ba.digits@,
{
    assert(a.value() * b.value() == b.value() * a.value()) by (nonlinear_arith);
    lemma_value_unique(ab, ba);
}

/// Zero absorption: a well-formed value denoting `a` times zero (the
/// result of multiplying by the zero value, or by the scalar `0`) is the
/// canonical zero.
pub proof fn lemma_zero_absorbs(a: BigInt, r: BigInt)
    requires
        a.well_formed(),
        r.well_formed(),
        r.value() == a.value() * 0,
    ensures
        r.sign == Sign::Zero,
        r.digits@ == seq![0u32],
{
    lemma_canonical_zero(r);
}

/// Identity: a well-formed value denoting `a * 1` (the trimmed result of
/// multiplying by the scalar `1`) is `a` itself.
pub proof fn lemma_scalar_identity(a: BigInt, r: BigInt)
    requires
        a.well_formed(),
        r.well_formed(),
        r.value() == a.value() * 1,
    ensures
        r.sign == a.sign,
        r.digits@ == a.digits@,
{
    lemma_value_unique(r, a);
}

/// The accumulation of per-digit scalar products of `a`'s digits with the
/// value of `b`, each shifted to its digit's position.
pub open spec fn shifted_scalar_sum(a: Seq<BigDigit>, b: Seq<BigDigit>) -> int
    decreases a.len(),
{
    if a.len() == 0 {
        0int
    } else {
        a[0] * seq_val(b) + DIGIT_BASE * shifted_scalar_sum(a.drop_first(), b)
    }
}

/// Schoolbook decomposition: multiplying by a multi-digit value equals the
/// accumulation of per-digit scalar multiplications shifted by position.
pub proof fn lemma_scalar_decomposition(a: Seq<BigDigit>, b: Seq<BigDigit>)
    ensures
        seq_val(a) * seq_val(b) == shifted_scalar_sum(a, b),
    decreases a.len(),
{
    if a.len() > 0 {
        lemma_scalar_decomposition(a.drop_first(), b);
        let a0: int = a[0] as int;
        let vt: int = seq_val(a.drop_first());
        let vb: int = seq_val(b);
        let c: int = DIGIT_BASE as int;
        assert((a0 + c * vt) * vb == a0 * vb + c * (vt * vb)) by (nonlinear_arith);
    }
}

} // verus!
