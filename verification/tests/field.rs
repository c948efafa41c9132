use exclusion_proof::circuit::enforce_not_equal;
use exclusion_proof::field::Scalar;
use exclusion_proof::r1cs::{squeeze_challenge, AllocatedBit, AllocatedNum, ConstraintSystem, Var};

/// The field order minus one, little endian.
const MINUS_ONE: [u8; 32] = [
    0x00, 0x00, 0x00, 0xf0, 0x93, 0xf5, 0xe1, 0x43, 0x91, 0x70, 0xb9, 0x79, 0x48, 0xe8, 0x33, 0x28,
    0x5d, 0x58, 0x81, 0x81, 0xb6, 0x45, 0x50, 0xb8, 0x29, 0xa0, 0x31, 0xe1, 0x72, 0x4e, 0x64, 0x30,
];

/// One half in the field: (order + 1) / 2, little endian.
const HALF: [u8; 32] = [
    0x01, 0x00, 0x00, 0xf8, 0xc9, 0xfa, 0xf0, 0xa1, 0x48, 0xb8, 0xdc, 0x3c, 0x24, 0xf4, 0x19, 0x94,
    0x2e, 0xac, 0xc0, 0x40, 0xdb, 0x22, 0x28, 0xdc, 0x14, 0xd0, 0x98, 0x70, 0x39, 0x27, 0x32, 0x18,
];

fn scalar(x: u64) -> Scalar {
    let mut bytes = [0u8; 32];
    bytes[..8].copy_from_slice(&x.to_le_bytes());
    Scalar { bytes }
}

fn num(cs: &mut ConstraintSystem, x: u64) -> AllocatedNum {
    AllocatedNum::allocate(cs, scalar(x))
}

fn aux_index(v: Var) -> usize {
    match v {
        Var::Aux(i) => i,
        Var::One => panic!("not an auxiliary variable"),
    }
}

#[test]
fn zero_one_and_equality() {
    assert_eq!(Scalar::zero().bytes, [0u8; 32]);
    assert_eq!(Scalar::one().bytes, scalar(1).bytes);
    assert!(Scalar::zero().equals(&scalar(0)));
    assert!(!Scalar::zero().equals(&Scalar::one()));
    assert!(!scalar(256).equals(&scalar(1)));
}

#[test]
fn sum_and_product_wrap_around_the_modulus() {
    let mut cs = ConstraintSystem::new();
    let m1 = AllocatedNum::allocate(&mut cs, Scalar { bytes: MINUS_ONE });
    let two = num(&mut cs, 2);
    let s = m1.add(&mut cs, &two);
    assert_eq!(s.value.bytes, scalar(1).bytes);
    let p = m1.mul(&mut cs, &m1);
    assert_eq!(p.value.bytes, scalar(1).bytes);
    let q = m1.mul(&mut cs, &two);
    assert!(q.value.equals(&Scalar { bytes: MINUS_ONE }) == false);
    let back = q.add(&mut cs, &two);
    assert!(back.value.equals(&Scalar::zero()));
    assert!(cs.is_satisfied());
}

#[test]
fn inverse_of_a_difference() {
    let mut cs = ConstraintSystem::new();
    let h = num(&mut cs, 5);
    let p = num(&mut cs, 3);
    enforce_not_equal(&mut cs, &h, &p);
    // The allocated inverse of 5 - 3 is one half.
    assert_eq!(cs.aux[2].bytes, HALF);
    assert!(cs.is_satisfied());
    // The difference is written with the coefficient minus one.
    assert_eq!(cs.constraints[0].b[1].coeff.bytes, MINUS_ONE);
}

#[test]
fn inverse_of_a_negative_difference() {
    let mut cs = ConstraintSystem::new();
    let h = num(&mut cs, 3);
    let p = num(&mut cs, 4);
    enforce_not_equal(&mut cs, &h, &p);
    // The inverse of -1 is -1.
    assert_eq!(cs.aux[2].bytes, MINUS_ONE);
    assert!(cs.is_satisfied());
}

#[test]
fn equal_values_have_no_inverse() {
    let mut cs = ConstraintSystem::new();
    let h = num(&mut cs, 9);
    let p = num(&mut cs, 9);
    enforce_not_equal(&mut cs, &h, &p);
    assert_eq!(cs.aux[2].bytes, [0u8; 32]);
    assert!(!cs.is_satisfied());
}

#[test]
fn challenge_bits_depend_on_the_inputs_only() {
    let mut cs = ConstraintSystem::new();
    let a: Vec<AllocatedNum> = b"192.168.02".iter().map(|c| num(&mut cs, *c as u64)).collect();
    let b: Vec<AllocatedNum> = b"192.168.02".iter().map(|c| num(&mut cs, *c as u64)).collect();
    let c: Vec<AllocatedNum> = b"192.168.03".iter().map(|c| num(&mut cs, *c as u64)).collect();
    let bits_a: Vec<bool> = squeeze_challenge(&mut cs, &a, 250).iter().map(|x| x.value).collect();
    let bits_b: Vec<bool> = squeeze_challenge(&mut cs, &b, 250).iter().map(|x| x.value).collect();
    let bits_c: Vec<bool> = squeeze_challenge(&mut cs, &c, 250).iter().map(|x| x.value).collect();
    let short: Vec<AllocatedBit> = squeeze_challenge(&mut cs, &a, 10);
    assert_eq!(bits_a.len(), 250);
    assert_eq!(bits_a, bits_b);
    assert_ne!(bits_a, bits_c);
    assert!(bits_a.iter().any(|b| *b) && bits_a.iter().any(|b| !*b));
    for (i, b) in short.iter().enumerate() {
        assert_eq!(b.value, bits_a[i]);
        assert_eq!(cs.aux[aux_index(b.var)].bytes, scalar(b.value as u64).bytes);
    }
    assert!(cs.is_satisfied());
}

#[test]
fn a_wrong_challenge_bit_is_caught() {
    let mut cs = ConstraintSystem::new();
    let a: Vec<AllocatedNum> = b"127.0.0.2\0".iter().map(|c| num(&mut cs, *c as u64)).collect();
    let bits = squeeze_challenge(&mut cs, &a, 250);
    assert!(cs.is_satisfied());
    let i = aux_index(bits[7].var);
    cs.aux[i] = scalar(if bits[7].value { 0 } else { 1 });
    assert!(!cs.is_satisfied());
}

#[test]
fn no_witness_makes_equal_values_differ() {
    for q in [0u64, 1, 5, 1 << 40] {
        let mut cs = ConstraintSystem::new();
        let h = num(&mut cs, 9);
        let p = num(&mut cs, 9);
        enforce_not_equal(&mut cs, &h, &p);
        cs.aux[2] = scalar(q);
        assert!(!cs.is_satisfied());
    }
}

#[test]
fn a_wrong_sum_is_caught() {
    let mut cs = ConstraintSystem::new();
    let a = num(&mut cs, 2);
    let b = num(&mut cs, 3);
    let s = a.add(&mut cs, &b);
    assert!(cs.is_satisfied());
    cs.aux[aux_index(s.var)] = scalar(6);
    assert!(!cs.is_satisfied());
}
