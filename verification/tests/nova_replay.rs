//! The plain constraint system replayed into `nova_snark`'s own test
//! constraint system, whose verdict must agree with the library's.
use exclusion_proof::circuit::ExclusionCircuit;
use exclusion_proof::field::Scalar;
use exclusion_proof::r1cs::{poseidon_squeeze_bits, ConstraintSystem as PlainSystem, Term, Var};
use ff::PrimeFieldBits;
use halo2curves::bn256::Fr;
use nova_snark::frontend::test_cs::TestConstraintSystem;
use nova_snark::frontend::{num::AllocatedNum, ConstraintSystem, LinearCombination, Variable};
use nova_snark::provider::poseidon::{PoseidonConstantsCircuit, PoseidonRO, PoseidonROCircuit};
use nova_snark::traits::{ROCircuitTrait, ROTrait};

fn to_fr(s: &Scalar) -> Fr {
    Fr::from_bytes(&s.bytes).unwrap()
}

fn lc(terms: &[Term], vars: &[Variable]) -> LinearCombination<Fr> {
    let mut lc = LinearCombination::zero();
    for t in terms {
        let v = match t.var {
            Var::One => TestConstraintSystem::<Fr>::one(),
            Var::Aux(i) => vars[i],
        };
        lc = lc + (to_fr(&t.coeff), v);
    }
    lc
}

fn replay(plain: &PlainSystem) -> TestConstraintSystem<Fr> {
    let mut cs = TestConstraintSystem::<Fr>::new();
    let mut vars: Vec<Variable> = Vec::new();
    while vars.len() < plain.aux.len() {
        let i = vars.len();
        match plain.challenges.iter().find(|ch| ch.outputs.first() == Some(&i)) {
            Some(ch) => {
                let mut ro = PoseidonROCircuit::<Fr>::new(PoseidonConstantsCircuit::default());
                for &k in ch.inputs.iter() {
                    ro.absorb(&AllocatedNum::from_parts(vars[k], Some(to_fr(&plain.aux[k]))));
                }
                let bits =
                    ro.squeeze(cs.namespace(|| format!("squeeze_{i}")), ch.outputs.len(), false).unwrap();
                for (j, b) in bits.iter().enumerate() {
                    // The gadget's bits are the values the library assigned.
                    let expected = to_fr(&plain.aux[ch.outputs[j]]);
                    assert_eq!(Fr::from(b.get_value().unwrap() as u64), expected);
                    vars.push(b.get_variable());
                }
            }
            None => {
                let value = to_fr(&plain.aux[i]);
                vars.push(cs.alloc(|| format!("aux_{i}"), || Ok(value)).unwrap());
            }
        }
    }
    for (j, c) in plain.constraints.iter().enumerate() {
        cs.enforce(
            || format!("constraint_{j}"),
            |_| lc(&c.a, &vars),
            |_| lc(&c.b, &vars),
            |_| lc(&c.c, &vars),
        );
    }
    cs
}

fn synthesized(address: [u8; 10]) -> PlainSystem {
    let mut plain = PlainSystem::new();
    ExclusionCircuit::new(address).synthesize(&mut plain, &vec![]).unwrap();
    plain
}

#[test]
fn replayed_circuit_is_satisfied() {
    let plain = synthesized(*b"192.168.02");
    assert!(plain.is_satisfied());
    let cs = replay(&plain);
    assert!(cs.is_satisfied());
    assert_eq!(cs.num_constraints() > plain.constraints.len(), true);
}

#[test]
fn replayed_public_address_is_unsatisfied() {
    let plain = synthesized(*b"127.0.0.1\0");
    assert!(!plain.is_satisfied());
    let cs = replay(&plain);
    assert!(!cs.is_satisfied());
}

#[test]
fn squeezed_bits_match_the_native_sponge() {
    let inputs: Vec<Scalar> = b"172.16.0.9"
        .iter()
        .map(|c| {
            let mut bytes = [0u8; 32];
            bytes[0] = *c;
            Scalar { bytes }
        })
        .collect();
    let bits = poseidon_squeeze_bits(&inputs, 250);
    let mut ro = PoseidonRO::<Fr>::new(PoseidonConstantsCircuit::default());
    for s in inputs.iter() {
        ro.absorb(to_fr(s));
    }
    let r = ro.squeeze(250, false);
    let expected: Vec<bool> = r.to_le_bits().iter().take(250).map(|b| *b).collect();
    assert_eq!(bits, expected);
    // The squeezed element has only the 250 low bits.
    assert!(r.to_le_bits().iter().skip(250).all(|b| !*b));
}

#[test]
fn squeezing_fewer_bits_gives_a_prefix() {
    let inputs: Vec<Scalar> = b"10.0.0.7\0\0"
        .iter()
        .map(|c| {
            let mut bytes = [0u8; 32];
            bytes[0] = *c;
            Scalar { bytes }
        })
        .collect();
    let long = poseidon_squeeze_bits(&inputs, 253);
    let short = poseidon_squeeze_bits(&inputs, 100);
    assert_eq!(short.len(), 100);
    assert_eq!(&long[..100], &short[..]);
}

#[test]
fn challenge_and_powers_follow_the_address() {
    let plain = synthesized(*b"172.16.0.9");
    let address: Vec<Fr> = plain.aux[0..10].iter().map(to_fr).collect();
    let mut ro = PoseidonRO::<Fr>::new(PoseidonConstantsCircuit::default());
    for x in address.iter() {
        ro.absorb(*x);
    }
    let r = ro.squeeze(250, false);
    // The challenge bits, then the challenge, then its powers.
    let bits: Vec<bool> = r.to_le_bits().iter().take(250).map(|b| *b).collect();
    for k in 0..250 {
        assert_eq!(to_fr(&plain.aux[60 + k]), Fr::from(bits[k] as u64));
    }
    assert_eq!(to_fr(&plain.aux[310]), r);
    let mut power = Fr::from(1u64);
    let mut hash = Fr::from(0u64);
    for i in 0..10 {
        assert_eq!(to_fr(&plain.aux[311 + i]), power);
        hash += power * address[i];
        power *= r;
    }
    assert_eq!(to_fr(&plain.aux[341]), hash);
}
