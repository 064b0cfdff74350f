//! The multiplication kernel: carry-propagating scalar multiplication,
//! schoolbook vector-by-vector multiplication into an accumulator, and the
//! sign-aware multiplication entry points.

use crate::digit::{
    lemma_pow_base_step, lemma_seq_val_all_zero, lemma_seq_val_lower_bound, lemma_seq_val_nonneg,
    lemma_seq_val_push, lemma_seq_val_upper_bound, pow_base, seq_val, to_lo_hi, BigDigit,
    DoubleBigDigit, DIGIT_BASE,
};
use crate::value::{sign_of_product, sign_product, trimmed, BigInt, Sign};
use vstd::prelude::*;

verus! {

/// The widened product of two digits, plus an accumulator digit, plus a
/// carry digit, never exceeds the double-digit maximum: no intermediate
/// computation of the kernel can overflow.
pub proof fn lemma_digit_mul_no_overflow(d1: BigDigit, d2: BigDigit, acc: BigDigit, c: BigDigit)
    by (nonlinear_arith)
    ensures
        d1 * d2 + acc + c <= u64::MAX,
{
}

/// One step of carry propagation: if the prefix processed so far plus the
/// carry at its weight equals the old prefix times the scalar, then after
/// absorbing one more digit the same holds one position further.
proof fn lemma_scalar_step(vp: int, vo: int, c: int, d: int, sc: int, lo: int, hi: int, p: int, b: int)
    by (nonlinear_arith)
    requires
        vp + c * p == vo * sc,
        lo + hi * b == d * sc + c,
    ensures
        (vp + lo * p) + hi * (b * p) == (vo + d * p) * sc,
{
}

/// Multiplies every digit of `digits` in place by `scalar`, propagating
/// carry across the whole sequence, and returns the final carry-out: the
/// new buffer plus the carry weighted one past the end denotes exactly the
/// old value times the scalar.
#[verifier::loop_isolation(false)]
pub fn multiply_scalar_in_place(digits: &mut Vec<BigDigit>, scalar: BigDigit) -> (carry: BigDigit)
    ensures
        final(digits)@.len() == old(digits)@.len(),
        seq_val(final(digits)@) + carry * pow_base(old(digits)@.len()) == seq_val(old(digits)@)
            * scalar,
{
    let ghost orig: Seq<BigDigit> = digits@;
    let mut carry: BigDigit = 0;
    let mut i: usize = 0;
    proof {
        assert(orig.subrange(0, 0) =~= Seq::<BigDigit>::empty());
        assert(digits@.subrange(0, 0) =~= Seq::<BigDigit>::empty());
        vstd::arithmetic::power::lemma_pow0(DIGIT_BASE as int);
    }
    while i < digits.len()
        invariant
            digits@.len() == orig.len(),
            i <= orig.len(),
            digits@.subrange(i as int, orig.len() as int) == orig.subrange(
                i as int,
                orig.len() as int,
            ),
            seq_val(digits@.subrange(0, i as int)) + carry * pow_base(i as nat) == seq_val(
                orig.subrange(0, i as int),
            ) * scalar,
        decreases orig.len() - i,
    {
        let d: BigDigit = digits[i];
        proof {
            assert(digits@.subrange(i as int, orig.len() as int)[0] == orig.subrange(
                i as int,
                orig.len() as int,
            )[0]);
            assert(d == orig[i as int]);
            lemma_digit_mul_no_overflow(d, scalar, 0, carry);
        }
        let full: DoubleBigDigit = (d as DoubleBigDigit) * (scalar as DoubleBigDigit) + (
        carry as DoubleBigDigit);
        let lohi: (BigDigit, BigDigit) = to_lo_hi(full);
        let ghost pre: Seq<BigDigit> = digits@;
        digits[i] = lohi.0;
        proof {
            let iv: int = i as int;
            assert(digits@ == pre.update(iv, lohi.0));
            assert(digits@.subrange(0, iv + 1) =~= pre.subrange(0, iv).push(lohi.0));
            assert(orig.subrange(0, iv + 1) =~= orig.subrange(0, iv).push(orig[iv]));
            lemma_seq_val_push(pre.subrange(0, iv), lohi.0);
            lemma_seq_val_push(orig.subrange(0, iv), orig[iv]);
            lemma_pow_base_step((i + 1) as nat);
            lemma_scalar_step(
                seq_val(pre.subrange(0, iv)),
                seq_val(orig.subrange(0, iv)),
                carry as int,
                d as int,
                scalar as int,
                lohi.0 as int,
                lohi.1 as int,
                pow_base(i as nat),
                DIGIT_BASE as int,
            );
            assert forall|k: int| iv + 1 <= k < orig.len() implies digits@[k] == orig[k] by {
                assert(pre.subrange(iv, orig.len() as int)[k - iv] == orig.subrange(
                    iv,
                    orig.len() as int,
                )[k - iv]);
            }
            assert(digits@.subrange(iv + 1, orig.len() as int) =~= orig.subrange(
                iv + 1,
                orig.len() as int,
            ));
        }
        carry = lohi.1;
        i = i + 1;
    }
    proof {
        assert(digits@.subrange(0, orig.len() as int) =~= digits@);
        assert(orig.subrange(0, orig.len() as int) =~= orig);
    }
    carry
}

/// One inner step of the schoolbook kernel, as a ring identity: absorbing
/// one digit-by-digit product plus accumulator digit plus carry moves the
/// running total one position forward.
proof fn lemma_accumulate_step(
    v: int,
    v0: int,
    c: int,
    l: int,
    r: int,
    dt: int,
    lo: int,
    hi: int,
    vj: int,
    pi: int,
    pj: int,
    pij: int,
    b: int,
)
    requires
        v + c * pij == v0 + l * vj * pi,
        lo + hi * b == l * r + dt + c,
        pij == pi * pj,
    ensures
        (v + (lo - dt) * pij) + hi * (b * pij) == v0 + l * (vj + r * pj) * pi,
{
    assert(hi * (b * pij) == (hi * b) * pij) by (nonlinear_arith);
    assert((v + (lo - dt) * pij) + (hi * b) * pij == v + ((lo - dt) + hi * b) * pij)
        by (nonlinear_arith);
    assert(((lo - dt) + hi * b) * pij == (l * r + c) * pij);
    assert((l * r + c) * pij == (l * r) * pij + c * pij) by (nonlinear_arith);
    assert((l * r) * pij == (l * (r * pj)) * pi) by (nonlinear_arith)
        requires
            pij == pi * pj,
    ;
    assert(l * (vj + r * pj) * pi == (l * vj) * pi + (l * (r * pj)) * pi) by (nonlinear_arith);
}

/// Completing one row of the schoolbook kernel: the accumulator has gained
/// one more digit of `lhs` times the whole of `rhs`, at that digit's weight.
proof fn lemma_accumulate_row(vt: int, vold: int, vl: int, vr: int, l: int, pi: int)
    by (nonlinear_arith)
    requires
        vt == (vold + vl * vr) + l * vr * pi,
    ensures
        vt == vold + (vl + l * pi) * vr,
{
}

/// Schoolbook multiplication into an accumulator: adds `lhs * rhs` to the
/// value held in `target`, positionally with carry propagation.
///
/// A too-short buffer is a caller bug, ruled out here statically: `target`
/// must be at least `lhs.len() + rhs.len()` digits long.  Its digits at
/// positions `rhs.len()` and above must be zero, because a row-boundary
/// carry is stored directly into the slot one past the row: only the low
/// `rhs.len()` digits of `target` are a true accumulation base.
#[verifier::loop_isolation(false)]
pub fn multiply_accumulate(target: &mut Vec<BigDigit>, lhs: &Vec<BigDigit>, rhs: &Vec<BigDigit>)
    requires
        old(target)@.len() >= lhs@.len() + rhs@.len(),
        forall|k: int| rhs@.len() <= k < old(target)@.len() ==> old(target)@[k] == 0,
    ensures
        final(target)@.len() == old(target)@.len(),
        seq_val(final(target)@) == seq_val(old(target)@) + seq_val(lhs@) * seq_val(rhs@),
{
    let ghost orig: Seq<BigDigit> = target@;
    let tlen: usize = target.len();
    let m: usize = lhs.len();
    let n: usize = rhs.len();
    let mut carry: BigDigit = 0;
    let mut i: usize = 0;
    proof {
        assert(lhs@.subrange(0, 0) =~= Seq::<BigDigit>::empty());
    }
    while i < m
        invariant
            target@.len() == orig.len(),
            i <= m,
            carry == 0,
            seq_val(target@) == seq_val(orig) + seq_val(lhs@.subrange(0, i as int)) * seq_val(
                rhs@,
            ),
            forall|k: int| i + n <= k < target@.len() ==> target@[k] == 0,
        decreases m - i,
    {
        let l: BigDigit = lhs[i];
        if l != 0 {
            let ghost t0: Seq<BigDigit> = target@;
            let mut j: usize = 0;
            proof {
                assert(rhs@.subrange(0, 0) =~= Seq::<BigDigit>::empty());
            }
            while j < n
                invariant
                    target@.len() == orig.len(),
                    i < m,
                    j <= n,
                    l == lhs@[i as int],
                    j == n ==> carry == 0,
                    seq_val(target@) + carry * pow_base((i + j) as nat) == seq_val(t0) + l
                        * seq_val(rhs@.subrange(0, j as int)) * pow_base(i as nat),
                    forall|k: int|
                        i + n + (if j == n {
                            1int
                        } else {
                            0int
                        }) <= k < target@.len() ==> target@[k] == 0,
                decreases n - j,
            {
                let r: BigDigit = rhs[j];
                let dt: BigDigit = target[i + j];
                proof {
                    lemma_digit_mul_no_overflow(l, r, dt, carry);
                }
                let full: DoubleBigDigit = (l as DoubleBigDigit) * (r as DoubleBigDigit) + (
                dt as DoubleBigDigit) + (carry as DoubleBigDigit);
                let lohi: (BigDigit, BigDigit) = to_lo_hi(full);
                let ghost pre: Seq<BigDigit> = target@;
                target[i + j] = lohi.0;
                proof {
                    let iv: int = i as int;
                    let jv: int = j as int;
                    assert(target@ == pre.update(iv + jv, lohi.0));
                    crate::digit::lemma_seq_val_update(pre, iv + jv, lohi.0);
                    assert(rhs@.subrange(0, jv + 1) =~= rhs@.subrange(0, jv).push(rhs@[jv]));
                    lemma_seq_val_push(rhs@.subrange(0, jv), rhs@[jv]);
                    lemma_pow_base_step((i + j + 1) as nat);
                    vstd::arithmetic::power::lemma_pow_adds(DIGIT_BASE as int, i as nat, j as nat);
                    lemma_accumulate_step(
                        seq_val(pre),
                        seq_val(t0),
                        carry as int,
                        l as int,
                        r as int,
                        dt as int,
                        lohi.0 as int,
                        lohi.1 as int,
                        seq_val(rhs@.subrange(0, jv)),
                        pow_base(i as nat),
                        pow_base(j as nat),
                        pow_base((i + j) as nat),
                        DIGIT_BASE as int,
                    );
                }
                if j + 1 != n {
                    carry = lohi.1;
                } else {
                    carry = 0;
                    let ghost mid: Seq<BigDigit> = target@;
                    target[i + n] = lohi.1;
                    proof {
                        let iv: int = i as int;
                        let nv: int = n as int;
                        assert(target@ == mid.update(iv + nv, lohi.1));
                        assert(mid[iv + nv] == pre[iv + nv]);
                        assert(pre[iv + nv] == 0);
                        crate::digit::lemma_seq_val_update(mid, iv + nv, lohi.1);
                    }
                }
                j = j + 1;
            }
            proof {
                assert(rhs@.subrange(0, n as int) =~= rhs@);
                assert(lhs@.subrange(0, i as int + 1) =~= lhs@.subrange(0, i as int).push(l));
                lemma_seq_val_push(lhs@.subrange(0, i as int), l);
                lemma_accumulate_row(
                    seq_val(target@),
                    seq_val(orig),
                    seq_val(lhs@.subrange(0, i as int)),
                    seq_val(rhs@),
                    l as int,
                    pow_base(i as nat),
                );
            }
        } else {
            proof {
                assert(lhs@.subrange(0, i as int + 1) =~= lhs@.subrange(0, i as int).push(0u32));
                lemma_seq_val_push(lhs@.subrange(0, i as int), 0u32);
                assert((seq_val(lhs@.subrange(0, i as int)) + 0 * pow_base(i as nat)) * seq_val(
                    rhs@,
                ) == seq_val(lhs@.subrange(0, i as int)) * seq_val(rhs@));
            }
        }
        i = i + 1;
    }
    proof {
        assert(lhs@.subrange(0, m as int) =~= lhs@);
    }
}

/// Allocates an all-zero digit buffer of the given length.
fn zero_buffer(len: usize) -> (v: Vec<BigDigit>)
    ensures
        v@.len() == len,
        forall|k: int| 0 <= k < len ==> v@[k] == 0,
{
    let mut v: Vec<BigDigit> = Vec::new();
    let mut i: usize = 0;
    while i < len
        invariant
            i <= len,
            v@.len() == i,
            forall|k: int| 0 <= k < i ==> v@[k] == 0,
        decreases len - i,
    {
        v.push(0);
        i = i + 1;
    }
    v
}

/// Sign-aware multiplication of two canonical big-integer values: the
/// result is the canonical (trimmed, sign-normalized) value denoting the
/// product of the two inputs, its sign the product of the input signs.
pub fn multiply_values(lhs: &BigInt, rhs: &BigInt) -> (r: BigInt)
    requires
        lhs.well_formed(),
        rhs.well_formed(),
        lhs.digits@.len() + rhs.digits@.len() <= usize::MAX,
    ensures
        r.well_formed(),
        trimmed(r.digits@),
        r.value() == lhs.value() * rhs.value(),
        r.sign == sign_product(lhs.sign, rhs.sign),
        r.sign == Sign::Zero ==> r.digits@ == seq![0u32],
{
    let sign: Sign = sign_of_product(lhs.sign, rhs.sign);
    match sign {
        Sign::Zero => BigInt::zero(),
        _ => {
            let a: Ghost<int> = Ghost(seq_val(lhs.digits@));
            let b: Ghost<int> = Ghost(seq_val(rhs.digits@));
            let mut digits: Vec<BigDigit> = zero_buffer(lhs.digits.len() + rhs.digits.len());
            proof {
                lemma_seq_val_all_zero(digits@);
            }
            multiply_accumulate(&mut digits, &lhs.digits, &rhs.digits);
            proof {
                lemma_seq_val_nonneg(lhs.digits@);
                lemma_seq_val_nonneg(rhs.digits@);
                assert(a@ * b@ >= 1) by (nonlinear_arith)
                    requires
                        a@ >= 1,
                        b@ >= 1,
                ;
                assert((-a@) * (-b@) == a@ * b@) by (nonlinear_arith);
                assert(a@ * (-b@) == -(a@ * b@)) by (nonlinear_arith);
                assert((-a@) * b@ == -(a@ * b@)) by (nonlinear_arith);
            }
            let out: BigInt = BigInt { sign, digits };
            out.trimmed()
        },
    }
}

/// Multiplies a value by an unsigned scalar digit: runs the in-place
/// kernel on the digit buffer and appends the final carry-out as one more
/// most significant digit when it is nonzero.  The scalar is a magnitude:
/// the sign is kept, except that a zero operand yields the canonical zero.
pub fn multiply_value_by_scalar(value: BigInt, scalar: BigDigit) -> (r: BigInt)
    requires
        value.well_formed(),
    ensures
        r.well_formed(),
        trimmed(r.digits@),
        r.value() == value.value() * scalar,
        r.sign == (if value.sign == Sign::Zero || scalar == 0 {
            Sign::Zero
        } else {
            value.sign
        }),
{
    if value.is_zero() || scalar == 0 {
        return BigInt::zero();
    }
    let a: Ghost<int> = Ghost(seq_val(value.digits@));
    proof {
        lemma_seq_val_nonneg(value.digits@);
    }
    let mut out: BigInt = value;
    let ghost orig: Seq<BigDigit> = out.digits@;
    let carry: BigDigit = multiply_scalar_in_place(&mut out.digits, scalar);
    if carry != 0 {
        let ghost pre: Seq<BigDigit> = out.digits@;
        out.digits.push(carry);
        proof {
            lemma_seq_val_push(pre, carry);
            assert(out.digits@.last() == carry);
        }
    } else {
        proof {
            if out.digits@.len() > 1 && out.digits@.last() == 0 {
                let s: Seq<BigDigit> = out.digits@;
                assert(s =~= s.drop_last().push(0u32));
                lemma_seq_val_push(s.drop_last(), 0u32);
                lemma_seq_val_upper_bound(s.drop_last());
                let p: int = pow_base((orig.len() - 1) as nat);
                vstd::arithmetic::power::lemma_pow_positive(
                    DIGIT_BASE as int,
                    (orig.len() - 1) as nat,
                );
                lemma_seq_val_lower_bound(orig);
                assert(orig.last() * p >= p) by (nonlinear_arith)
                    requires
                        orig.last() >= 1,
                        p > 0,
                ;
                assert(a@ * scalar >= a@) by (nonlinear_arith)
                    requires
                        a@ >= 0,
                        scalar >= 1,
                ;
                assert(false);
            }
        }
    }
    proof {
        assert(a@ * scalar >= 1) by (nonlinear_arith)
            requires
                a@ >= 1,
                scalar >= 1,
        ;
        assert((-a@) * scalar == -(a@ * scalar)) by (nonlinear_arith);
    }
    out
}

} // verus!
