use bigint::mul::{multiply_scalar_in_place, multiply_values};
use bigint::value::{BigInt, Sign};

/// Adds `part` into `acc` starting at digit position `shift`, with carry.
fn add_shifted(acc: &mut Vec<u32>, part: &[u32], shift: usize) {
    let mut carry: u64 = 0;
    for (k, &p) in part.iter().enumerate() {
        let sum = acc[shift + k] as u64 + p as u64 + carry;
        acc[shift + k] = sum as u32;
        carry = sum >> 32;
    }
    let mut idx = shift + part.len();
    while carry > 0 {
        let sum = acc[idx] as u64 + carry;
        acc[idx] = sum as u32;
        carry = sum >> 32;
        idx += 1;
    }
}

/// Independent reference product: per-digit scalar multiplications
/// accumulated at shifted offsets.
fn reference_product(lhs: &[u32], rhs: &[u32]) -> Vec<u32> {
    let mut acc = vec![0u32; lhs.len() + rhs.len() + 1];
    for (i, &l) in lhs.iter().enumerate() {
        let mut row = rhs.to_vec();
        let carry = multiply_scalar_in_place(&mut row, l);
        row.push(carry);
        add_shifted(&mut acc, &row, i);
    }
    while acc.len() > 1 && *acc.last().unwrap() == 0 {
        acc.pop();
    }
    acc
}

#[test]
fn decomposition_matches_reference() {
    // Deterministic generator standing in for random digit sequences.
    let mut state: u64 = 0x9E37_79B9_7F4A_7C15;
    let mut next = move || {
        state = state.wrapping_mul(6364136223846793005).wrapping_add(1442695040888963407);
        (state >> 16) as u32
    };
    for la in 1..=8usize {
        for lb in 1..=8usize {
            let mut a: Vec<u32> = (0..la).map(|_| next()).collect();
            let mut b: Vec<u32> = (0..lb).map(|_| next()).collect();
            // Keep the inputs trimmed: force the top digits nonzero.
            *a.last_mut().unwrap() |= 1;
            *b.last_mut().unwrap() |= 1;
            let expected = reference_product(&a, &b);
            let va = BigInt { sign: Sign::Positive, digits: a };
            let vb = BigInt { sign: Sign::Positive, digits: b };
            let r = multiply_values(&va, &vb);
            assert_eq!(r.sign, Sign::Positive);
            assert_eq!(r.digits, expected);
        }
    }
}
