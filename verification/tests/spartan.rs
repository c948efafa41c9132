//! The circuit proved and verified with Spartan over `nova_snark`, through a
//! step circuit that replays the library's plain constraint system.
use std::time::Instant;

use exclusion_proof::circuit::ExclusionCircuit;
use exclusion_proof::field::Scalar;
use exclusion_proof::r1cs::{ConstraintSystem as PlainSystem, Term, Var};
use halo2curves::bn256::Fr;
use nova_snark::frontend::{
    num::AllocatedNum, ConstraintSystem, LinearCombination, SynthesisError, Variable,
};
use nova_snark::provider::poseidon::{PoseidonConstantsCircuit, PoseidonROCircuit};
use nova_snark::provider::{ipa_pc, Bn256EngineIPA};
use nova_snark::spartan::{direct::DirectSNARK, snark::RelaxedR1CSSNARK};
use nova_snark::traits::{circuit::StepCircuit, ROCircuitTrait};

type E = Bn256EngineIPA;
type EE = ipa_pc::EvaluationEngine<E>;
type S = RelaxedR1CSSNARK<E, EE>;

#[derive(Clone, Copy)]
struct Step(ExclusionCircuit);

fn to_fr(s: &Scalar) -> Fr {
    Fr::from_bytes(&s.bytes).unwrap()
}

fn lc<CS: ConstraintSystem<Fr>>(terms: &[Term], vars: &[Variable]) -> LinearCombination<Fr> {
    let mut lc = LinearCombination::zero();
    for t in terms {
        let v = match t.var {
            Var::One => CS::one(),
            Var::Aux(i) => vars[i],
        };
        lc = lc + (to_fr(&t.coeff), v);
    }
    lc
}

impl StepCircuit<Fr> for Step {
    fn arity(&self) -> usize {
        self.0.arity()
    }

    fn synthesize<CS: ConstraintSystem<Fr>>(
        &self,
        cs: &mut CS,
        z: &[AllocatedNum<Fr>],
    ) -> Result<Vec<AllocatedNum<Fr>>, SynthesisError> {
        let mut plain = PlainSystem::new();
        self.0
            .synthesize(&mut plain, &vec![])
            .map_err(|_| SynthesisError::UnconstrainedVariable)?;
        let mut vars: Vec<Variable> = Vec::new();
        while vars.len() < plain.aux.len() {
            let i = vars.len();
            match plain.challenges.iter().find(|ch| ch.outputs.first() == Some(&i)) {
                Some(ch) => {
                    let mut ro = PoseidonROCircuit::<Fr>::new(PoseidonConstantsCircuit::default());
                    for &k in ch.inputs.iter() {
                        ro.absorb(&AllocatedNum::from_parts(vars[k], Some(to_fr(&plain.aux[k]))));
                    }
                    let bits =
                        ro.squeeze(cs.namespace(|| format!("squeeze_{i}")), ch.outputs.len(), false)?;
                    vars.extend(bits.iter().map(|b| b.get_variable()));
                }
                None => {
                    let value = to_fr(&plain.aux[i]);
                    vars.push(cs.alloc(|| format!("aux_{i}"), || Ok(value))?);
                }
            }
        }
        for (j, c) in plain.constraints.iter().enumerate() {
            cs.enforce(
                || format!("constraint_{j}"),
                |_| lc::<CS>(&c.a, &vars),
                |_| lc::<CS>(&c.b, &vars),
                |_| lc::<CS>(&c.c, &vars),
            );
        }
        Ok(z.to_vec())
    }
}

#[test]
fn test_delegated_spartan() {
    let address = *b"192.168.02";
    let circuit = Step(ExclusionCircuit::new(address));
    let time = Instant::now();
    let (pk, vk) =
        DirectSNARK::<E, S, _>::setup(circuit.clone()).expect("pk, vk should be constructed");
    println!("Setup time: {:?}", time.elapsed());
    let time = Instant::now();
    let proof = DirectSNARK::<E, S, _>::prove(&pk, circuit, &[]).expect("proof should be valid");
    println!("Proving time: {:?}", time.elapsed());
    let time = Instant::now();
    proof.verify(&vk, &[]).expect("proof should be verified");
    println!("Verification time: {:?}", time.elapsed());
}
