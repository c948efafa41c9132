use exclusion_proof::address::{
    address_from_str, public_addresses, AllocatedAddress, ADDRESS_SIZE, NUM_ADDRESSES,
};
use exclusion_proof::circuit::{
    le_bits_to_num, pow_vec, ExclusionCircuit, SynthesisError, NUM_CHALLENGE_BITS,
};
use exclusion_proof::field::Scalar;
use exclusion_proof::r1cs::{AllocatedBit, AllocatedNum, ConstraintSystem, Var};

fn scalar_from_u64(x: u64) -> Scalar {
    let mut bytes = [0u8; 32];
    bytes[..8].copy_from_slice(&x.to_le_bytes());
    Scalar { bytes }
}

fn num(cs: &mut ConstraintSystem, x: u64) -> AllocatedNum {
    AllocatedNum::allocate(cs, scalar_from_u64(x))
}

fn bit(cs: &mut ConstraintSystem, b: bool) -> AllocatedBit {
    let n = num(cs, if b { 1 } else { 0 });
    AllocatedBit { var: n.var, value: b }
}

#[test]
fn test_circuit() {
    let address = *b"192.168.02";
    let circuit = ExclusionCircuit::new(address);
    let mut cs = ConstraintSystem::new();
    let out = circuit
        .synthesize(&mut cs, &vec![])
        .expect("circuit should synthesize");
    assert!(out.is_empty());
    assert!(cs.is_satisfied());
}

#[test]
fn public_address_is_rejected() {
    for address in public_addresses().iter() {
        let circuit = ExclusionCircuit::new(*address);
        let mut cs = ConstraintSystem::new();
        circuit.synthesize(&mut cs, &vec![]).unwrap();
        assert!(!cs.is_satisfied());
    }
}

#[test]
fn padded_public_address_is_rejected() {
    let circuit = ExclusionCircuit::new(*b"8.8.8.8\0\0\0");
    let mut cs = ConstraintSystem::new();
    circuit.synthesize(&mut cs, &vec![]).unwrap();
    assert!(!cs.is_satisfied());
}

#[test]
fn near_public_address_is_accepted() {
    for address in [*b"192.168.00", *b"8.8.8.8\0\0\x01", *b"0000000000", *b"172.16.0.2"] {
        let circuit = ExclusionCircuit::new(address);
        let mut cs = ConstraintSystem::new();
        circuit.synthesize(&mut cs, &vec![]).unwrap();
        assert!(cs.is_satisfied());
    }
}

#[test]
fn synthesize_sizes_and_passes_z_through() {
    let circuit = ExclusionCircuit::new(*b"10.0.0.2\0\0");
    assert_eq!(circuit.arity(), 0);
    let mut cs = ConstraintSystem::new();
    let z = vec![num(&mut cs, 7)];
    let out = circuit.synthesize(&mut cs, &z).unwrap();
    assert_eq!(out.len(), 1);
    assert_eq!(out[0].var, z[0].var);
    assert_eq!(cs.aux.len(), 1 + 452);
    assert_eq!(cs.num_constraints(), 191);
    assert_eq!(cs.challenges.len(), 1);
    assert_eq!(cs.challenges[0].outputs.len(), NUM_CHALLENGE_BITS);
    assert!(cs.is_satisfied());
}

#[test]
fn synthesize_keeps_an_unsatisfied_system_unsatisfied() {
    let mut cs = ConstraintSystem::new();
    let a = num(&mut cs, 2);
    let b = num(&mut cs, 3);
    let c = a.mul(&mut cs, &b);
    // Break the product.
    cs.aux[match c.var { Var::Aux(i) => i, Var::One => 0 }] = scalar_from_u64(7);
    assert!(!cs.is_satisfied());
    ExclusionCircuit::new(*b"192.168.02").synthesize(&mut cs, &vec![]).unwrap();
    assert!(!cs.is_satisfied());
}

#[test]
fn le_bits_to_num_value() {
    let mut cs = ConstraintSystem::new();
    let bits: Vec<AllocatedBit> =
        [true, false, true, true].iter().map(|b| bit(&mut cs, *b)).collect();
    let n = le_bits_to_num(&mut cs, &bits);
    assert!(n.value.equals(&scalar_from_u64(13)));
    assert_eq!(cs.num_constraints(), 1);
    assert_eq!(cs.constraints[0].c.len(), 5);
    assert!(cs.is_satisfied());
}

#[test]
fn le_bits_to_num_rejects_a_wrong_number() {
    let mut cs = ConstraintSystem::new();
    let bits: Vec<AllocatedBit> = [false, true].iter().map(|b| bit(&mut cs, *b)).collect();
    let n = le_bits_to_num(&mut cs, &bits);
    assert!(n.value.equals(&scalar_from_u64(2)));
    cs.aux[match n.var { Var::Aux(i) => i, Var::One => 0 }] = scalar_from_u64(3);
    assert!(!cs.is_satisfied());
}

#[test]
fn pow_vec_values() {
    let mut cs = ConstraintSystem::new();
    let r = num(&mut cs, 3);
    let v = pow_vec(&mut cs, &r, 4).unwrap();
    let expected = [1u64, 3, 9, 27];
    for i in 0..4 {
        assert!(v[i].value.equals(&scalar_from_u64(expected[i])));
    }
    // One multiplication per power after the first.
    assert_eq!(cs.aux.len(), 1 + 4);
    assert_eq!(cs.num_constraints(), 3);
    assert!(cs.is_satisfied());
}

#[test]
fn pow_vec_of_size_zero_fails() {
    let mut cs = ConstraintSystem::new();
    let r = num(&mut cs, 3);
    assert_eq!(pow_vec(&mut cs, &r, 0).unwrap_err(), SynthesisError::UnconstrainedVariable);
    assert_eq!(cs.aux.len(), 2);
    assert_eq!(cs.num_constraints(), 0);
}

#[test]
fn pow_vec_chain_fixes_powers_up_to_the_first() {
    let mut cs = ConstraintSystem::new();
    let r = num(&mut cs, 3);
    let v = pow_vec(&mut cs, &r, 4).unwrap();
    // Any first value s satisfies the chain with s * r^i.
    let scaled = [2u64, 6, 18, 54];
    for i in 0..4 {
        cs.aux[index(v[i].var)] = scalar_from_u64(scaled[i]);
    }
    assert!(cs.is_satisfied());
    cs.aux[index(v[3].var)] = scalar_from_u64(27);
    assert!(!cs.is_satisfied());
}

#[test]
fn hash_is_polynomial_evaluation() {
    let mut cs = ConstraintSystem::new();
    let r = num(&mut cs, 10);
    let basis = pow_vec(&mut cs, &r, ADDRESS_SIZE).unwrap();
    let address = AllocatedAddress::allocate(&mut cs, &[1, 2, 3, 0, 0, 0, 0, 0, 0, 4]);
    let h = address.hash(&mut cs, &basis);
    // 1 + 2 * 10 + 3 * 100 + 4 * 10^9
    assert!(h.value.equals(&scalar_from_u64(4_000_000_321)));
    assert!(cs.is_satisfied());
}

#[test]
fn alloc_witness_allocates_all_addresses() {
    let circuit = ExclusionCircuit::new(*b"192.168.02");
    let mut cs = ConstraintSystem::new();
    let (address, public) = circuit.alloc_witness(&mut cs);
    assert_eq!(address.value.len(), ADDRESS_SIZE);
    assert_eq!(public.len(), NUM_ADDRESSES);
    assert!(address.value[9].value.equals(&scalar_from_u64(b'2' as u64)));
    assert!(public[1].value[0].value.equals(&scalar_from_u64(b'1' as u64)));
    assert!(public[1].value[9].value.equals(&scalar_from_u64(0)));
    assert_eq!(cs.aux.len(), 60);
    // One constant constraint per public byte, none for the private address.
    assert_eq!(cs.num_constraints(), 50);
    assert!(cs.is_satisfied());
}

#[test]
fn public_address_list() {
    let list = public_addresses();
    assert_eq!(&list[0], b"192.168.01");
    assert_eq!(&list[1], b"10.0.0.1\0\0");
    assert_eq!(&list[2], b"127.0.0.1\0");
    assert_eq!(&list[3], b"8.8.8.8\0\0\0");
    assert_eq!(&list[4], b"172.16.0.1");
}

#[test]
fn address_from_str_needs_ten_bytes() {
    assert_eq!(address_from_str("192.168.02"), Some(*b"192.168.02"));
    assert_eq!(address_from_str("10.0.0.1"), None);
    assert_eq!(address_from_str("192.168.0.10"), None);
}

#[test]
fn mul_and_add_gadgets() {
    let mut cs = ConstraintSystem::new();
    let a = num(&mut cs, 6);
    let b = num(&mut cs, 7);
    let p = a.mul(&mut cs, &b);
    let s = a.add(&mut cs, &b);
    assert!(p.value.equals(&scalar_from_u64(42)));
    assert!(s.value.equals(&scalar_from_u64(13)));
    assert_eq!(cs.num_constraints(), 2);
    assert!(cs.is_satisfied());
}

fn index(v: Var) -> usize {
    match v {
        Var::Aux(i) => i,
        Var::One => panic!("not an auxiliary variable"),
    }
}

fn first_unsatisfied(cs: &ConstraintSystem) -> Option<usize> {
    (0..cs.constraints.len()).find(|i| !cs.check_constraint(&cs.constraints[*i]))
}

#[test]
fn listed_address_fails_only_its_exclusion_constraint() {
    let public = public_addresses();
    for j in 0..NUM_ADDRESSES {
        let circuit = ExclusionCircuit::new(public[j]);
        let mut cs = ConstraintSystem::new();
        circuit.synthesize(&mut cs, &vec![]).unwrap();
        let failing: Vec<usize> =
            (0..cs.constraints.len()).filter(|i| !cs.check_constraint(&cs.constraints[*i])).collect();
        assert_eq!(failing, vec![186 + j]);
        // The inverse witness is zero where the hashes agree.
        assert!(cs.aux[447 + j].equals(&scalar_from_u64(0)));
    }
}

#[test]
fn public_bytes_cannot_be_swapped() {
    let circuit = ExclusionCircuit::new(*b"192.168.02");
    let mut cs = ConstraintSystem::new();
    circuit.synthesize(&mut cs, &vec![]).unwrap();
    assert!(cs.is_satisfied());
    // Change the first byte of the first public address.
    cs.aux[10] = scalar_from_u64(b'2' as u64);
    assert_eq!(first_unsatisfied(&cs), Some(0));
}

#[test]
fn hash_start_is_fixed_and_powers_are_chained() {
    let circuit = ExclusionCircuit::new(*b"192.168.02");
    let mut cs = ConstraintSystem::new();
    circuit.synthesize(&mut cs, &vec![]).unwrap();
    let mut changed_one = ConstraintSystem::new();
    circuit.synthesize(&mut changed_one, &vec![]).unwrap();
    // The first power has no constraint of its own; changing it breaks `r^0 * r == r^1`.
    changed_one.aux[311] = scalar_from_u64(5);
    assert_eq!(first_unsatisfied(&changed_one), Some(51));
    cs.aux[321] = scalar_from_u64(5);
    assert_eq!(first_unsatisfied(&cs), Some(60));
}

#[test]
fn circuit_shape_does_not_depend_on_the_address() {
    let mut cs1 = ConstraintSystem::new();
    let mut cs2 = ConstraintSystem::new();
    ExclusionCircuit::new(*b"192.168.02").synthesize(&mut cs1, &vec![]).unwrap();
    ExclusionCircuit::new(*b"192.168.01").synthesize(&mut cs2, &vec![]).unwrap();
    assert_eq!(cs1.aux.len(), cs2.aux.len());
    assert_eq!(cs1.constraints.len(), cs2.constraints.len());
    for (x, y) in cs1.constraints.iter().zip(cs2.constraints.iter()) {
        for (l1, l2) in [(&x.a, &y.a), (&x.b, &y.b), (&x.c, &y.c)] {
            assert_eq!(l1.len(), l2.len());
            for (t1, t2) in l1.iter().zip(l2.iter()) {
                assert_eq!(t1.var, t2.var);
                assert_eq!(t1.coeff.bytes, t2.coeff.bytes);
            }
        }
    }
    assert_eq!(cs1.challenges[0].inputs, cs2.challenges[0].inputs);
    assert_eq!(cs1.challenges[0].outputs, cs2.challenges[0].outputs);
}

#[test]
fn exclusion_constraints_read_inverse_times_difference() {
    let mut cs = ConstraintSystem::new();
    ExclusionCircuit::new(*b"192.168.02").synthesize(&mut cs, &vec![]).unwrap();
    for j in 0..NUM_ADDRESSES {
        let c = &cs.constraints[186 + j];
        assert_eq!(c.a.len(), 1);
        assert_eq!(c.a[0].var, Var::Aux(447 + j));
        assert_eq!(c.b.len(), 2);
        assert_eq!(c.b[0].var, Var::Aux(341));
        assert_eq!(c.b[1].var, Var::Aux(362 + 21 * j));
        assert_eq!(c.c.len(), 1);
        assert_eq!(c.c[0].var, Var::One);
    }
}

#[test]
fn allocate_constant_fixes_the_value() {
    let mut cs = ConstraintSystem::new();
    let k = AllocatedNum::allocate_constant(&mut cs, scalar_from_u64(9));
    assert!(k.value.equals(&scalar_from_u64(9)));
    assert_eq!(cs.num_constraints(), 1);
    assert!(cs.is_satisfied());
    cs.aux[index(k.var)] = scalar_from_u64(8);
    assert!(!cs.is_satisfied());
}

#[test]
fn different_bits_give_different_numbers() {
    let mut cs = ConstraintSystem::new();
    let b1: Vec<AllocatedBit> = [true, false, false].iter().map(|b| bit(&mut cs, *b)).collect();
    let b2: Vec<AllocatedBit> = [false, true, false].iter().map(|b| bit(&mut cs, *b)).collect();
    let n1 = le_bits_to_num(&mut cs, &b1);
    let n2 = le_bits_to_num(&mut cs, &b2);
    assert!(n1.value.equals(&scalar_from_u64(1)));
    assert!(n2.value.equals(&scalar_from_u64(2)));
    assert!(!n1.value.equals(&n2.value));
}

#[test]
fn hash_difference_is_hash_of_difference() {
    let mut cs = ConstraintSystem::new();
    let r = num(&mut cs, 10);
    let basis = pow_vec(&mut cs, &r, ADDRESS_SIZE).unwrap();
    let x = AllocatedAddress::allocate(&mut cs, &[1, 2, 3, 0, 0, 0, 0, 0, 0, 4]);
    let y = AllocatedAddress::allocate(&mut cs, &[1, 0, 3, 0, 0, 0, 0, 0, 0, 0]);
    let hx = x.hash(&mut cs, &basis);
    let hy = y.hash(&mut cs, &basis);
    // sum_i 10^i (x_i - y_i) = 2 * 10 + 4 * 10^9
    assert!(hx.value.equals(&scalar_from_u64(301 + 4_000_000_020)));
    assert!(hy.value.equals(&scalar_from_u64(301)));
    let same = AllocatedAddress::allocate(&mut cs, &[1, 0, 3, 0, 0, 0, 0, 0, 0, 0]);
    let hs = same.hash(&mut cs, &basis);
    assert!(hs.value.equals(&hy.value));
}

#[test]
fn different_addresses_can_collide_only_at_roots_of_their_difference() {
    // x - y = 1 - r, whose only root is r = 1.
    let x = [1u8, 0, 0, 0, 0, 0, 0, 0, 0, 0];
    let y = [0u8, 1, 0, 0, 0, 0, 0, 0, 0, 0];
    for (point, collide) in [(1u64, true), (2, false), (3, false)] {
        let mut cs = ConstraintSystem::new();
        let r = num(&mut cs, point);
        let basis = pow_vec(&mut cs, &r, ADDRESS_SIZE).unwrap();
        let hx = AllocatedAddress::allocate(&mut cs, &x).hash(&mut cs, &basis);
        let hy = AllocatedAddress::allocate(&mut cs, &y).hash(&mut cs, &basis);
        assert_eq!(hx.value.equals(&hy.value), collide);
    }
}
