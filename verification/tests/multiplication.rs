use bigint::digit::{to_lo_hi, BASE_10_PARSE_CHUNK_SIZE, DIGIT_SIZE};
use bigint::mul::{
    multiply_accumulate, multiply_scalar_in_place, multiply_value_by_scalar, multiply_values,
};
use bigint::value::{BigInt, Sign};

fn big(sign: Sign, digits: Vec<u32>) -> BigInt {
    BigInt { sign, digits }
}

/// Converts up to three little-endian digits into a u128 for cross-checking.
fn val(digits: &[u32]) -> u128 {
    assert!(digits.len() <= 3);
    let mut v: u128 = 0;
    for &d in digits.iter().rev() {
        v = (v << 32) | d as u128;
    }
    v
}

#[test]
fn digit_configuration() {
    assert_eq!(DIGIT_SIZE, 32);
    assert_eq!(BASE_10_PARSE_CHUNK_SIZE, 8);
    assert_eq!(to_lo_hi(0xFFFF_FFFE_0000_0001), (1, 0xFFFF_FFFE));
    assert_eq!(to_lo_hi(0), (0, 0));
    assert_eq!(to_lo_hi(0xFFFF_FFFF), (0xFFFF_FFFF, 0));
}

#[test]
fn scalar_mul_test_1() {
    let y: u32 = 915327;

    let a = BigInt {
        sign: Sign::Positive,
        digits: vec![3059078384, 2360247638, 2634550291, 6],
    };
    let b = BigInt {
        sign: Sign::Positive,
        digits: vec![356004624, 4070707789, 1201864523, 6053427],
    };

    assert_eq!(multiply_value_by_scalar(a, y), b);
}

#[test]
fn one_times_one() {
    let a = big(Sign::Positive, vec![1]);
    let b = big(Sign::Positive, vec![1]);
    let r = multiply_values(&a, &b);
    assert_eq!(r, big(Sign::Positive, vec![1]));
}

#[test]
fn zero_times_anything() {
    let z = big(Sign::Zero, vec![0]);
    let a = big(Sign::Positive, vec![123, 456]);
    let r = multiply_values(&z, &a);
    assert_eq!(r, big(Sign::Zero, vec![0]));
    let r2 = multiply_values(&a, &z);
    assert_eq!(r2, big(Sign::Zero, vec![0]));
}

#[test]
fn max_digit_squared() {
    let m = big(Sign::Positive, vec![u32::MAX]);
    let m_b = big(Sign::Positive, vec![u32::MAX]);
    let r = multiply_values(&m, &m_b);
    let expected = (u32::MAX as u64) * (u32::MAX as u64);
    assert_eq!(r.sign, Sign::Positive);
    assert_eq!(r.digits, vec![expected as u32, (expected >> 32) as u32]);
}

#[test]
fn scalar_in_place_max_values() {
    // One digit: the full widened product splits into low digit and carry.
    let mut digits = vec![u32::MAX];
    let carry = multiply_scalar_in_place(&mut digits, u32::MAX);
    assert_eq!(digits, vec![1]);
    assert_eq!(carry, 0xFFFF_FFFE);

    // Two max digits: carry propagates through the whole sequence.
    let mut digits = vec![u32::MAX, u32::MAX];
    let carry = multiply_scalar_in_place(&mut digits, u32::MAX);
    let a = (u64::MAX) as u128;
    let product = a * (u32::MAX as u128);
    let got = val(&digits) + ((carry as u128) << 64);
    assert_eq!(got, product);
}

#[test]
fn scalar_in_place_zero_scalar() {
    // A zero scalar still runs the whole loop: all-zero digits, carry 0.
    let mut digits = vec![7, 8, 9];
    let carry = multiply_scalar_in_place(&mut digits, 0);
    assert_eq!(digits, vec![0, 0, 0]);
    assert_eq!(carry, 0);
}

#[test]
fn accumulate_simple() {
    let mut target = vec![0, 0];
    multiply_accumulate(&mut target, &vec![3], &vec![4]);
    assert_eq!(target, vec![12, 0]);
}

#[test]
fn accumulate_into_nonzero_base() {
    // Digits of `target` below rhs.len() are a true accumulation base.
    let mut target = vec![5, 0, 0];
    multiply_accumulate(&mut target, &vec![2, 1], &vec![3]);
    // 5 + (2 + 1*2^32) * 3 == 11 + 3*2^32
    assert_eq!(target, vec![11, 3, 0]);
}

#[test]
fn accumulate_carry_between_rows() {
    let mut target = vec![0, 0, 0, 0];
    multiply_accumulate(&mut target, &vec![u32::MAX, u32::MAX], &vec![u32::MAX, u32::MAX]);
    let a = u64::MAX as u128;
    let product = a * a;
    let lo64 = (target[0] as u128) | ((target[1] as u128) << 32);
    let hi64 = (target[2] as u128) | ((target[3] as u128) << 32);
    assert_eq!(lo64 | (hi64 << 64), product);
}

#[test]
fn accumulate_skips_zero_digits() {
    let mut target = vec![0, 0, 0, 0];
    multiply_accumulate(&mut target, &vec![0, 2], &vec![3, 0]);
    // (2*2^32) * 3 == 6*2^32
    assert_eq!(target, vec![0, 6, 0, 0]);
}

#[test]
fn commutativity_concrete() {
    let a = big(Sign::Positive, vec![0xDEAD_BEEF, 0x1234_5678, 7]);
    let b = big(Sign::Negative, vec![0xCAFE_F00D, 0x0BAD_F00D]);
    let ab = multiply_values(&a, &b);
    let ba = multiply_values(&b, &a);
    assert_eq!(ab, ba);
}

#[test]
fn zero_absorption_scalar() {
    let a = big(Sign::Negative, vec![42, 43]);
    let r = multiply_value_by_scalar(a, 0);
    assert_eq!(r, big(Sign::Zero, vec![0]));
}

#[test]
fn scalar_identity() {
    let a = big(Sign::Negative, vec![42, 43]);
    let expected = big(Sign::Negative, vec![42, 43]);
    let r = multiply_value_by_scalar(a, 1);
    assert_eq!(r, expected);
}

#[test]
fn trimming_of_results() {
    // The product buffer is allocated at len(lhs) + len(rhs) and trimmed.
    let a = big(Sign::Positive, vec![1]);
    let b = big(Sign::Positive, vec![1]);
    assert_eq!(multiply_values(&a, &b).digits, vec![1]);

    let c = big(Sign::Positive, vec![2, 1]);
    let d = big(Sign::Positive, vec![2]);
    assert_eq!(multiply_values(&c, &d).digits, vec![4, 2]);
}

#[test]
fn sign_rules() {
    let pos = big(Sign::Positive, vec![3]);
    let pos_b = big(Sign::Positive, vec![5]);
    let neg = big(Sign::Negative, vec![3]);
    let neg_b = big(Sign::Negative, vec![5]);
    let zero = big(Sign::Zero, vec![0]);

    assert_eq!(multiply_values(&pos, &pos_b).sign, Sign::Positive);
    assert_eq!(multiply_values(&pos, &neg_b).sign, Sign::Negative);
    assert_eq!(multiply_values(&neg, &pos_b).sign, Sign::Negative);
    assert_eq!(multiply_values(&neg, &neg_b).sign, Sign::Positive);
    let zr = multiply_values(&zero, &neg_b);
    assert_eq!(zr.sign, Sign::Zero);
    assert_eq!(zr.digits, vec![0]);
}

#[test]
fn scalar_keeps_sign() {
    let n = big(Sign::Negative, vec![10]);
    let r = multiply_value_by_scalar(n, 4);
    assert_eq!(r, big(Sign::Negative, vec![40]));
}

#[test]
fn carry_extends_scalar_result() {
    // 0x8000_0000 * 4 needs one more digit: the carry is appended.
    let a = big(Sign::Positive, vec![0x8000_0000]);
    let r = multiply_value_by_scalar(a, 4);
    assert_eq!(r, big(Sign::Positive, vec![0, 2]));
}
