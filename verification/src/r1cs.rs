//! A rank-1 constraint system held as plain values.
//!
//! Variables are the constant one and the auxiliary (witness) variables.
//! A constraint `(a, b, c)` of linear combinations holds when
//! `a * b == c` in the field. Besides such constraints, the system records
//! challenge relations: a run of bit variables that must equal the leading
//! bits of a Poseidon sponge squeezed after absorbing some other variables.
use ff::PrimeFieldBits;
use halo2curves::bn256::Fr;
use nova_snark::provider::poseidon::{PoseidonConstantsCircuit, PoseidonRO};
use nova_snark::traits::ROTrait;
use vstd::arithmetic::div_mod::*;
use vstd::arithmetic::power2::pow2;
use vstd::prelude::*;

use crate::field::{modulus, nth_bit, scalar_add, scalar_mul, Scalar};

verus! {

/// A variable of the constraint system.
#[derive(Clone, Copy, Debug, PartialEq, Eq, Structural)]
pub enum Var {
    /// The input variable that always holds one.
    One,
    /// The auxiliary variable with this index.
    Aux(usize),
}

/// One term `coeff * var` of a linear combination.
#[derive(Clone, Copy, Debug)]
pub struct Term {
    pub var: Var,
    pub coeff: Scalar,
}

/// The constraint `a * b == c` over linear combinations.
#[derive(Debug)]
pub struct Constraint {
    pub a: Vec<Term>,
    pub b: Vec<Term>,
    pub c: Vec<Term>,
}

/// The relation: the values of `outputs` are the leading `outputs.len()` bits,
/// least significant first, of the Poseidon sponge that absorbed the values of
/// `inputs` in order.
#[derive(Debug)]
pub struct Challenge {
    pub inputs: Vec<usize>,
    pub outputs: Vec<usize>,
}

/// A constraint system together with an assignment of its auxiliary variables.
#[derive(Debug)]
pub struct ConstraintSystem {
    pub aux: Vec<Scalar>,
    pub constraints: Vec<Constraint>,
    pub challenges: Vec<Challenge>,
}

/// An allocated field element: a variable together with the value it holds.
#[derive(Clone, Copy, Debug)]
pub struct AllocatedNum {
    pub var: Var,
    pub value: Scalar,
}

/// An allocated bit: a variable that holds zero or one.
#[derive(Clone, Copy, Debug)]
pub struct AllocatedBit {
    pub var: Var,
    pub value: bool,
}

/// A Poseidon sponge of `nova_snark` over the BN254 scalar field, held in a
/// private field: its contents are known only through [`sponge_absorbed`].
#[verifier::external_body]
pub struct Sponge {
    ro: PoseidonRO<Fr>,
}

/// The values a sponge hashes on its next squeeze: those it absorbed since it
/// was made (a squeeze replaces them by the hash).
pub uninterp spec fn sponge_absorbed(sponge: Sponge) -> Seq<nat>;

/// The number of the field element that the Poseidon sponge of `nova_snark`
/// (default constants, wide mode) hashes `inputs` to.
pub uninterp spec fn poseidon_hash(inputs: Seq<nat>) -> nat;

/// The element that a sponge squeezes with `num_bits` bits after absorbing
/// `inputs`: the hash kept to its `num_bits` low bits, in the field.
pub open spec fn squeezed_value(inputs: Seq<nat>, num_bits: nat) -> nat {
    (poseidon_hash(inputs) % pow2(num_bits)) % modulus()
}

/// A fresh sponge, by `ROTrait::new` of `PoseidonRO<Fr>` with the default
/// constants (`PoseidonConstantsCircuit::default`).
/// Claims that it has absorbed nothing.
#[verifier::external_body]
fn sponge_new() -> (sponge: Sponge)
    ensures
        sponge_absorbed(sponge) == Seq::<nat>::empty(),
{
    Sponge { ro: <PoseidonRO<Fr> as ROTrait<Fr>>::new(PoseidonConstantsCircuit::<Fr>::default()) }
}

/// Absorbs a field element, by `ROTrait::absorb` of `PoseidonRO<Fr>`.
/// Claims that the element's value is appended to what the sponge absorbed.
#[verifier::external_body]
fn sponge_absorb(sponge: &mut Sponge, x: &Scalar)
    requires
        x.wf(),
    ensures
        sponge_absorbed(*final(sponge)) == sponge_absorbed(*old(sponge)).push(x.value()),
{
    sponge.ro.absorb(Fr::from_bytes(&x.bytes).unwrap());
}

/// Squeezes a challenge, by `ROTrait::squeeze(num_bits, false)` of
/// `PoseidonRO<Fr>`: it hashes what was absorbed and sums, in the field, the
/// hash's `num_bits` low bits each times its power of two. Claims that the
/// result is the named hash of the absorbed values, taken modulo
/// `2^num_bits`, in the field. It says nothing of what the sponge holds
/// afterwards.
#[verifier::external_body]
fn sponge_squeeze(sponge: &mut Sponge, num_bits: usize) -> (r: Scalar)
    requires
        num_bits <= 256,
        sponge_absorbed(*old(sponge)).len() < 0x8000_0000,
    ensures
        r.wf(),
        r.value() == (poseidon_hash(sponge_absorbed(*old(sponge))) % pow2(num_bits as nat))
            % modulus(),
{
    Scalar { bytes: sponge.ro.squeeze(num_bits, false).to_bytes() }
}

/// The binary digits of a field element, least significant first, by
/// `PrimeFieldBits::to_le_bits` of `Fr`. Claims that there are 256 of them
/// and that digit `k` is bit `k` of the element's value.
#[verifier::external_body]
fn scalar_to_le_bits(x: &Scalar) -> (bits: Vec<bool>)
    requires
        x.wf(),
    ensures
        bits.len() == 256,
        forall|k: int| 0 <= k < 256 ==> #[trigger] bits[k] == nth_bit(x.value(), k as nat),
{
    Fr::from_bytes(&x.bytes).unwrap().to_le_bits().iter().map(|b| *b).collect()
}

/// The `num_bits` binary digits, least significant first, of the element a
/// fresh sponge squeezes with `num_bits` bits after absorbing `inputs`.
pub open spec fn squeezed_bits(inputs: Seq<nat>, num_bits: nat) -> Seq<bool> {
    Seq::new(num_bits, |k: int| nth_bit(squeezed_value(inputs, num_bits), k as nat))
}

/// Bit `k` of `x` is also bit `k` of `x` modulo `2^n`, for `k < n`.
pub proof fn lemma_nth_bit_of_low_bits(x: nat, n: nat, k: nat)
    requires
        k < n,
    ensures
        nth_bit(x % pow2(n), k) == nth_bit(x, k),
{
    let a = pow2(k) as int;
    let c = pow2((n - k - 1) as nat) as int;
    vstd::arithmetic::power2::lemma_pow2_pos(k);
    vstd::arithmetic::power2::lemma_pow2_pos((n - k - 1) as nat);
    vstd::arithmetic::power2::lemma_pow2_adds(k, (n - k) as nat);
    vstd::arithmetic::power2::lemma_pow2_unfold((n - k) as nat);
    assert(pow2((n - k) as nat) == 2 * c);
    let b = 2 * c;
    assert(pow2(n) == a * b);
    lemma_mod_breakdown(x as int, a, b);
    let y = (x as int) / a;
    let u = (x as int) % (a * b);
    lemma_mod_pos_bound(x as int, a);
    lemma_mod_pos_bound(y, b);
    assert(u == ((y % b) * a) + (x as int) % a) by (nonlinear_arith)
        requires
            u == a * (y % b) + (x as int) % a,
    ;
    lemma_fundamental_div_mod_converse(u, a, y % b, (x as int) % a);
    lemma_mod_mod(y, 2, c);
}

/// The element a sponge squeezes with at most 253 bits is the hash modulo
/// `2^num_bits` itself: it is already below the field order.
pub proof fn lemma_squeezed_value_is_low_bits(inputs: Seq<nat>, num_bits: nat)
    requires
        num_bits <= 253,
    ensures
        squeezed_value(inputs, num_bits) == poseidon_hash(inputs) % pow2(num_bits),
{
    crate::field::lemma_pow2_253_below_modulus();
    vstd::arithmetic::power2::lemma_pow2_pos(num_bits);
    if num_bits < 253 {
        vstd::arithmetic::power2::lemma_pow2_strictly_increases(num_bits, 253);
    }
    lemma_mod_pos_bound(poseidon_hash(inputs) as int, pow2(num_bits) as int);
    lemma_small_mod(poseidon_hash(inputs) % pow2(num_bits), modulus());
}

/// Squeezing fewer bits gives a prefix of the bits squeezed with more, up to
/// 253 bits: each is the low bits of one hash.
pub proof fn lemma_squeezed_bits_prefix(inputs: Seq<nat>, n1: nat, n2: nat)
    requires
        n1 <= n2 <= 253,
    ensures
        squeezed_bits(inputs, n1) == squeezed_bits(inputs, n2).take(n1 as int),
{
    let h = poseidon_hash(inputs);
    lemma_squeezed_value_is_low_bits(inputs, n1);
    lemma_squeezed_value_is_low_bits(inputs, n2);
    assert forall|k: int| 0 <= k < n1 implies squeezed_bits(inputs, n1)[k] == squeezed_bits(
        inputs,
        n2,
    )[k] by {
        lemma_nth_bit_of_low_bits(h, n1, k as nat);
        lemma_nth_bit_of_low_bits(h, n2, k as nat);
    }
    assert(squeezed_bits(inputs, n1) =~= squeezed_bits(inputs, n2).take(n1 as int));
}

/// The numbers that a sequence of field elements stands for.
pub open spec fn values_of(s: Seq<Scalar>) -> Seq<nat> {
    s.map_values(|x: Scalar| x.value())
}

/// Absorbs `inputs` into a fresh sponge, squeezes an element with
/// `num_bits` bits and returns its binary digits, least significant first.
pub fn poseidon_squeeze_bits(inputs: &Vec<Scalar>, num_bits: usize) -> (bits: Vec<bool>)
    requires
        num_bits <= 256,
        inputs.len() < 0x8000_0000,
        forall|i: int| 0 <= i < inputs.len() ==> (#[trigger] inputs[i]).wf(),
    ensures
        bits.len() == num_bits,
        bits@ == squeezed_bits(values_of(inputs@), num_bits as nat),
{
    let mut ro = sponge_new();
    let mut i: usize = 0;
    while i < inputs.len()
        invariant
            0 <= i <= inputs.len(),
            forall|j: int| 0 <= j < inputs.len() ==> (#[trigger] inputs[j]).wf(),
            sponge_absorbed(ro) == values_of(inputs@.take(i as int)),
        decreases inputs.len() - i,
    {
        sponge_absorb(&mut ro, &inputs[i]);
        proof {
            assert(values_of(inputs@.take(i as int + 1)) =~= values_of(inputs@.take(i as int)).push(
                inputs[i as int].value(),
            ));
        }
        i = i + 1;
    }
    assert(inputs@.take(inputs.len() as int) =~= inputs@);
    let r = sponge_squeeze(&mut ro, num_bits);
    let all = scalar_to_le_bits(&r);
    let mut bits: Vec<bool> = Vec::new();
    let mut k: usize = 0;
    while k < num_bits
        invariant
            0 <= k <= num_bits,
            num_bits <= 256,
            all.len() == 256,
            forall|j: int| 0 <= j < 256 ==> #[trigger] all[j] == nth_bit(r.value(), j as nat),
            r.value() == squeezed_value(values_of(inputs@), num_bits as nat),
            bits.len() == k,
            forall|j: int| 0 <= j < k ==> #[trigger] bits[j] == all[j],
        decreases num_bits - k,
    {
        bits.push(all[k]);
        k = k + 1;
    }
    assert(bits@ =~= squeezed_bits(values_of(inputs@), num_bits as nat)) by {
        assert forall|j: int| 0 <= j < num_bits implies bits@[j] == squeezed_bits(
            values_of(inputs@),
            num_bits as nat,
        )[j] by {
            assert(all[j] == nth_bit(r.value(), j as nat));
        }
    }
    bits
}

/// The value a variable holds under an assignment of the auxiliary variables.
pub open spec fn var_value(aux: Seq<Scalar>, v: Var) -> nat {
    match v {
        Var::One => 1,
        Var::Aux(i) => aux[i as int].value(),
    }
}

/// The variable exists in a system with `n` auxiliary variables.
pub open spec fn var_in_range(v: Var, n: nat) -> bool {
    match v {
        Var::One => true,
        Var::Aux(i) => i < n,
    }
}

/// The value of a linear combination, as an integer (not reduced).
pub open spec fn lc_value(terms: Seq<Term>, aux: Seq<Scalar>) -> int
    decreases terms.len(),
{
    if terms.len() == 0 {
        0
    } else {
        lc_value(terms.drop_last(), aux) + terms.last().coeff.value() * var_value(
            aux,
            terms.last().var,
        )
    }
}

/// Every term has a canonical coefficient and a variable among `n` auxiliaries.
pub open spec fn lc_wf(terms: Seq<Term>, n: nat) -> bool {
    forall|i: int|
        0 <= i < terms.len() ==> (#[trigger] terms[i]).coeff.wf() && var_in_range(terms[i].var, n)
}

/// The constraint's linear combinations only name existing variables.
pub open spec fn constraint_wf(c: Constraint, n: nat) -> bool {
    lc_wf(c.a@, n) && lc_wf(c.b@, n) && lc_wf(c.c@, n)
}

/// The constraint `a * b == c` holds in the field under the assignment.
pub open spec fn constraint_holds(c: Constraint, aux: Seq<Scalar>) -> bool {
    (lc_value(c.a@, aux) * lc_value(c.b@, aux)) % (modulus() as int) == lc_value(c.c@, aux) % (
    modulus() as int)
}

/// The challenge only names existing variables.
pub open spec fn challenge_wf(ch: Challenge, n: nat) -> bool {
    &&& ch.outputs.len() <= 256
    &&& ch.inputs.len() < 0x8000_0000
    &&& forall|i: int| 0 <= i < ch.inputs.len() ==> #[trigger] ch.inputs[i] < n
    &&& forall|i: int| 0 <= i < ch.outputs.len() ==> #[trigger] ch.outputs[i] < n
}

/// The values of the variables a challenge absorbs.
pub open spec fn challenge_inputs(ch: Challenge, aux: Seq<Scalar>) -> Seq<nat> {
    ch.inputs@.map_values(|i: usize| aux[i as int].value())
}

/// The bit that a field value stands for, if it is zero or one.
pub open spec fn bit_value(b: bool) -> nat {
    if b {
        1
    } else {
        0
    }
}

/// The output variables hold the bits of the sponge over the input values.
pub open spec fn challenge_holds(ch: Challenge, aux: Seq<Scalar>) -> bool {
    let bits = squeezed_bits(challenge_inputs(ch, aux), ch.outputs.len() as nat);
    forall|k: int|
        0 <= k < ch.outputs.len() ==> aux[#[trigger] ch.outputs[k] as int].value() == bit_value(
            bits[k],
        )
}

impl ConstraintSystem {
    /// All values are canonical and every constraint and challenge only names
    /// existing variables.
    pub open spec fn wf(&self) -> bool {
        &&& forall|i: int| 0 <= i < self.aux.len() ==> (#[trigger] self.aux[i]).wf()
        &&& forall|i: int|
            0 <= i < self.constraints.len() ==> constraint_wf(
                #[trigger] self.constraints[i],
                self.aux.len() as nat,
            )
        &&& forall|i: int|
            0 <= i < self.challenges.len() ==> challenge_wf(
                #[trigger] self.challenges[i],
                self.aux.len() as nat,
            )
    }

    /// Every constraint and every challenge holds under the assignment.
    pub open spec fn satisfied(&self) -> bool {
        &&& forall|i: int|
            0 <= i < self.constraints.len() ==> constraint_holds(
                #[trigger] self.constraints[i],
                self.aux@,
            )
        &&& forall|i: int|
            0 <= i < self.challenges.len() ==> challenge_holds(
                #[trigger] self.challenges[i],
                self.aux@,
            )
    }

    /// `self` is `old` with variables, constraints and challenges appended.
    pub open spec fn extends(&self, old: &ConstraintSystem) -> bool {
        &&& old.aux@.len() <= self.aux@.len()
        &&& self.aux@.subrange(0, old.aux@.len() as int) == old.aux@
        &&& old.constraints@.len() <= self.constraints@.len()
        &&& self.constraints@.subrange(0, old.constraints@.len() as int) == old.constraints@
        &&& old.challenges@.len() <= self.challenges@.len()
        &&& self.challenges@.subrange(0, old.challenges@.len() as int) == old.challenges@
    }

    /// The allocated number lives in this system and holds its recorded value.
    pub open spec fn holds_num(&self, n: AllocatedNum) -> bool {
        &&& n.value.wf()
        &&& var_in_range(n.var, self.aux.len() as nat)
        &&& var_value(self.aux@, n.var) == n.value.value()
    }

    /// The allocated bit lives in this system and holds its recorded value.
    pub open spec fn holds_bit(&self, b: AllocatedBit) -> bool {
        &&& var_in_range(b.var, self.aux.len() as nat)
        &&& var_value(self.aux@, b.var) == bit_value(b.value)
    }

    /// An empty system.
    pub fn new() -> (cs: ConstraintSystem)
        ensures
            cs.wf(),
            cs.satisfied(),
            cs.aux@.len() == 0,
            cs.constraints@.len() == 0,
            cs.challenges@.len() == 0,
    {
        ConstraintSystem { aux: Vec::new(), constraints: Vec::new(), challenges: Vec::new() }
    }

    /// The number of constraints.
    pub fn num_constraints(&self) -> (r: usize)
        ensures
            r == self.constraints.len(),
    {
        self.constraints.len()
    }

    /// Allocates an auxiliary variable holding `value`.
    pub fn alloc_var(&mut self, value: Scalar) -> (v: Var)
        requires
            old(self).wf(),
            value.wf(),
        ensures
            final(self).wf(),
            final(self).aux@ == old(self).aux@.push(value),
            final(self).constraints@ == old(self).constraints@,
            final(self).challenges@ == old(self).challenges@,
            v == Var::Aux(old(self).aux.len()),
    {
        let v = Var::Aux(self.aux.len());
        self.aux.push(value);
        proof {
            assert forall|i: int| 0 <= i < self.constraints.len() implies constraint_wf(
                #[trigger] self.constraints[i],
                self.aux.len() as nat,
            ) by {
                lemma_constraint_wf_grows(self.constraints[i], (self.aux.len() - 1) as nat, self.aux.len() as nat);
            }
            assert forall|i: int| 0 <= i < self.challenges.len() implies challenge_wf(
                #[trigger] self.challenges[i],
                self.aux.len() as nat,
            ) by {
                let ch = self.challenges[i];
                assert(challenge_wf(ch, (self.aux.len() - 1) as nat));
            }
        }
        v
    }

    /// Adds the constraint `a * b == c`.
    pub fn enforce(&mut self, a: Vec<Term>, b: Vec<Term>, c: Vec<Term>)
        requires
            old(self).wf(),
            lc_wf(a@, old(self).aux.len() as nat),
            lc_wf(b@, old(self).aux.len() as nat),
            lc_wf(c@, old(self).aux.len() as nat),
        ensures
            final(self).wf(),
            final(self).aux@ == old(self).aux@,
            final(self).constraints@ == old(self).constraints@.push(Constraint { a, b, c }),
            final(self).challenges@ == old(self).challenges@,
    {
        self.constraints.push(Constraint { a, b, c });
    }

    /// Evaluates a linear combination in the field.
    pub fn eval_lc(&self, terms: &Vec<Term>) -> (r: Scalar)
        requires
            self.wf(),
            lc_wf(terms@, self.aux.len() as nat),
        ensures
            r.wf(),
            r.value() as int == lc_value(terms@, self.aux@) % (modulus() as int),
    {
        let mut acc = Scalar::zero();
        let mut i: usize = 0;
        while i < terms.len()
            invariant
                self.wf(),
                lc_wf(terms@, self.aux.len() as nat),
                0 <= i <= terms.len(),
                acc.wf(),
                acc.value() as int == lc_value(terms@.take(i as int), self.aux@) % (
                modulus() as int),
            decreases terms.len() - i,
        {
            let t = terms[i];
            assert(t.coeff.wf() && var_in_range(t.var, self.aux.len() as nat));
            let v = match t.var {
                Var::One => Scalar::one(),
                Var::Aux(k) => self.aux[k],
            };
            let prod = scalar_mul(&t.coeff, &v);
            acc = scalar_add(&acc, &prod);
            proof {
                let m = modulus() as int;
                let pre = terms@.take(i as int);
                let next = terms@.take(i as int + 1);
                assert(next.drop_last() =~= pre);
                assert(next.last() == t);
                let x = lc_value(pre, self.aux@);
                let y = (t.coeff.value() * var_value(self.aux@, t.var)) as int;
                assert(v.value() == var_value(self.aux@, t.var));
                lemma_add_mod_noop(x, y, m);
                lemma_mod_twice(x, m);
                lemma_mod_twice(y, m);
            }
            i = i + 1;
        }
        assert(terms@.take(terms.len() as int) =~= terms@);
        acc
    }

    /// Whether one constraint holds under the assignment.
    pub fn check_constraint(&self, c: &Constraint) -> (r: bool)
        requires
            self.wf(),
            constraint_wf(*c, self.aux.len() as nat),
        ensures
            r == constraint_holds(*c, self.aux@),
    {
        let ea = self.eval_lc(&c.a);
        let eb = self.eval_lc(&c.b);
        let ec = self.eval_lc(&c.c);
        let ab = scalar_mul(&ea, &eb);
        proof {
            let m = modulus() as int;
            lemma_mul_mod_noop(lc_value(c.a@, self.aux@), lc_value(c.b@, self.aux@), m);
        }
        ab.equals(&ec)
    }

    /// Whether one challenge holds under the assignment.
    pub fn check_challenge(&self, ch: &Challenge) -> (r: bool)
        requires
            self.wf(),
            challenge_wf(*ch, self.aux.len() as nat),
        ensures
            r == challenge_holds(*ch, self.aux@),
    {
        let mut ins: Vec<Scalar> = Vec::new();
        let mut i: usize = 0;
        while i < ch.inputs.len()
            invariant
                self.wf(),
                challenge_wf(*ch, self.aux.len() as nat),
                0 <= i <= ch.inputs.len(),
                ins.len() == i,
                forall|k: int| 0 <= k < i ==> #[trigger] ins[k] == self.aux[ch.inputs[k] as int],
            decreases ch.inputs.len() - i,
        {
            ins.push(self.aux[ch.inputs[i]]);
            i = i + 1;
        }
        assert(values_of(ins@) =~= challenge_inputs(*ch, self.aux@));
        let bits = poseidon_squeeze_bits(&ins, ch.outputs.len());
        let one = Scalar::one();
        let zero = Scalar::zero();
        let mut k: usize = 0;
        while k < ch.outputs.len()
            invariant
                self.wf(),
                challenge_wf(*ch, self.aux.len() as nat),
                0 <= k <= ch.outputs.len(),
                bits.len() == ch.outputs.len(),
                bits@ == squeezed_bits(
                    challenge_inputs(*ch, self.aux@),
                    ch.outputs.len() as nat,
                ),
                one.value() == 1,
                zero.value() == 0,
                forall|j: int|
                    0 <= j < k ==> self.aux[#[trigger] ch.outputs[j] as int].value() == bit_value(
                        bits[j],
                    ),
            decreases ch.outputs.len() - k,
        {
            let expected = if bits[k] {
                one
            } else {
                zero
            };
            if !self.aux[ch.outputs[k]].equals(&expected) {
                return false;
            }
            k = k + 1;
        }
        true
    }

    /// Whether every constraint and every challenge holds.
    pub fn is_satisfied(&self) -> (r: bool)
        requires
            self.wf(),
        ensures
            r == self.satisfied(),
    {
        let mut i: usize = 0;
        while i < self.constraints.len()
            invariant
                self.wf(),
                0 <= i <= self.constraints.len(),
                forall|j: int|
                    0 <= j < i ==> constraint_holds(#[trigger] self.constraints[j], self.aux@),
            decreases self.constraints.len() - i,
        {
            if !self.check_constraint(&self.constraints[i]) {
                return false;
            }
            i = i + 1;
        }
        let mut k: usize = 0;
        while k < self.challenges.len()
            invariant
                self.wf(),
                0 <= k <= self.challenges.len(),
                forall|j: int|
                    0 <= j < self.constraints.len() ==> constraint_holds(
                        #[trigger] self.constraints[j],
                        self.aux@,
                    ),
                forall|j: int|
                    0 <= j < k ==> challenge_holds(#[trigger] self.challenges[j], self.aux@),
            decreases self.challenges.len() - k,
        {
            if !self.check_challenge(&self.challenges[k]) {
                return false;
            }
            k = k + 1;
        }
        true
    }
}

/// `new` is a well-formed extension of `old` whose appended constraints and
/// challenges all hold, so it is satisfied exactly when `old` is.
pub open spec fn grows(new: ConstraintSystem, old: ConstraintSystem) -> bool {
    &&& new.wf()
    &&& new.extends(&old)
    &&& appended_hold(new, old)
    &&& (new.satisfied() <==> old.satisfied())
}

/// The term is `1 * v`.
pub open spec fn is_unit_term(t: Term, v: Var) -> bool {
    t.var == v && t.coeff.value() == 1
}

/// The linear combination is the single variable `v`.
pub open spec fn is_single(lc: Seq<Term>, v: Var) -> bool {
    lc.len() == 1 && is_unit_term(lc[0], v)
}

/// The constraint is `x * y == z`.
pub open spec fn is_mul_constraint(c: Constraint, x: Var, y: Var, z: Var) -> bool {
    is_single(c.a@, x) && is_single(c.b@, y) && is_single(c.c@, z)
}

/// The constraint is `(x + y) * 1 == z`.
pub open spec fn is_add_constraint(c: Constraint, x: Var, y: Var, z: Var) -> bool {
    &&& c.a@.len() == 2
    &&& is_unit_term(c.a@[0], x)
    &&& is_unit_term(c.a@[1], y)
    &&& is_single(c.b@, Var::One)
    &&& is_single(c.c@, z)
}

/// The single-variable linear combination `1 * v`.
pub fn unit_lc(v: Var) -> (lc: Vec<Term>)
    ensures
        is_single(lc@, v),
{
    let mut lc: Vec<Term> = Vec::new();
    lc.push(Term { var: v, coeff: Scalar::one() });
    lc
}

impl AllocatedNum {
    /// Allocates a variable holding `value`, without any constraint.
    pub fn allocate(cs: &mut ConstraintSystem, value: Scalar) -> (r: AllocatedNum)
        requires
            old(cs).wf(),
            value.wf(),
        ensures
            grows(*final(cs), *old(cs)),
            final(cs).aux@ == old(cs).aux@.push(value),
            final(cs).constraints@ == old(cs).constraints@,
            final(cs).challenges@ == old(cs).challenges@,
            r.var == Var::Aux(old(cs).aux.len()),
            r.value == value,
            final(cs).holds_num(r),
    {
        let ghost old_cs = *cs;
        let var = cs.alloc_var(value);
        proof {
            assert(cs.aux@.subrange(0, old_cs.aux@.len() as int) =~= old_cs.aux@);
            assert(cs.constraints@.subrange(0, old_cs.constraints@.len() as int)
                =~= old_cs.constraints@);
            assert(cs.challenges@.subrange(0, old_cs.challenges@.len() as int)
                =~= old_cs.challenges@);
            lemma_extension_satisfied(old_cs, *cs);
        }
        AllocatedNum { var, value }
    }

    /// Allocates the product of two numbers and constrains `self * other == product`.
    pub fn mul(&self, cs: &mut ConstraintSystem, other: &AllocatedNum) -> (r: AllocatedNum)
        requires
            old(cs).wf(),
            old(cs).holds_num(*self),
            old(cs).holds_num(*other),
        ensures
            grows(*final(cs), *old(cs)),
            final(cs).aux@ == old(cs).aux@.push(r.value),
            final(cs).constraints@.len() == old(cs).constraints@.len() + 1,
            is_mul_constraint(final(cs).constraints@.last(), self.var, other.var, r.var),
            final(cs).challenges@ == old(cs).challenges@,
            r.var == Var::Aux(old(cs).aux.len()),
            r.value.value() == (self.value.value() * other.value.value()) % modulus(),
            final(cs).holds_num(r),
    {
        let ghost old_cs = *cs;
        let value = scalar_mul(&self.value, &other.value);
        let var = cs.alloc_var(value);
        let a = unit_lc(self.var);
        let b = unit_lc(other.var);
        let c = unit_lc(var);
        proof {
            lemma_lc_single_wf(a@, self.var, cs.aux.len() as nat);
            lemma_lc_single_wf(b@, other.var, cs.aux.len() as nat);
            lemma_lc_single_wf(c@, var, cs.aux.len() as nat);
        }
        cs.enforce(a, b, c);
        proof {
            let m = modulus() as int;
            let aux = cs.aux@;
            assert(cs.aux@.subrange(0, old_cs.aux@.len() as int) =~= old_cs.aux@);
            lemma_aux_prefix(old_cs.aux@, aux);
            lemma_lc_single_value(cs.constraints@.last().a@, self.var, aux);
            lemma_lc_single_value(cs.constraints@.last().b@, other.var, aux);
            lemma_lc_single_value(cs.constraints@.last().c@, var, aux);
            assert(var_value(aux, self.var) == self.value.value());
            assert(var_value(aux, other.var) == other.value.value());
            assert(var_value(aux, var) == value.value());
            lemma_small_mod(value.value(), modulus());
            assert(constraint_holds(cs.constraints@.last(), aux));
            assert(cs.constraints@.subrange(0, old_cs.constraints@.len() as int)
                =~= old_cs.constraints@);
            assert(cs.challenges@.subrange(0, old_cs.challenges@.len() as int)
                =~= old_cs.challenges@);
            assert forall|i: int|
                old_cs.constraints.len() <= i < cs.constraints.len() implies constraint_holds(
                #[trigger] cs.constraints[i],
                cs.aux@,
            ) by {
                assert(i == cs.constraints.len() - 1);
            }
            lemma_extension_satisfied(old_cs, *cs);
        }
        AllocatedNum { var, value }
    }

    /// Allocates the sum of two numbers and constrains `(self + other) * 1 == sum`.
    pub fn add(&self, cs: &mut ConstraintSystem, other: &AllocatedNum) -> (r: AllocatedNum)
        requires
            old(cs).wf(),
            old(cs).holds_num(*self),
            old(cs).holds_num(*other),
        ensures
            grows(*final(cs), *old(cs)),
            final(cs).aux@ == old(cs).aux@.push(r.value),
            final(cs).constraints@.len() == old(cs).constraints@.len() + 1,
            is_add_constraint(final(cs).constraints@.last(), self.var, other.var, r.var),
            final(cs).challenges@ == old(cs).challenges@,
            r.var == Var::Aux(old(cs).aux.len()),
            r.value.value() == (self.value.value() + other.value.value()) % modulus(),
            final(cs).holds_num(r),
    {
        let ghost old_cs = *cs;
        let value = scalar_add(&self.value, &other.value);
        let var = cs.alloc_var(value);
        let mut a: Vec<Term> = Vec::new();
        a.push(Term { var: self.var, coeff: Scalar::one() });
        a.push(Term { var: other.var, coeff: Scalar::one() });
        let b = unit_lc(Var::One);
        let c = unit_lc(var);
        proof {
            assert(lc_wf(a@, cs.aux.len() as nat));
            lemma_lc_single_wf(b@, Var::One, cs.aux.len() as nat);
            lemma_lc_single_wf(c@, var, cs.aux.len() as nat);
        }
        cs.enforce(a, b, c);
        proof {
            let m = modulus() as int;
            let aux = cs.aux@;
            let last = cs.constraints@.last();
            assert(cs.aux@.subrange(0, old_cs.aux@.len() as int) =~= old_cs.aux@);
            lemma_aux_prefix(old_cs.aux@, aux);
            assert(last.a@ =~= seq![last.a@[0], last.a@[1]]);
            lemma_lc_value_two_terms(last.a@[0], last.a@[1], aux);
            lemma_lc_single_value(last.b@, Var::One, aux);
            lemma_lc_single_value(last.c@, var, aux);
            assert(var_value(aux, self.var) == self.value.value());
            assert(var_value(aux, other.var) == other.value.value());
            assert(var_value(aux, var) == value.value());
            lemma_small_mod(value.value(), modulus());
            assert(constraint_holds(last, aux));
            assert(cs.constraints@.subrange(0, old_cs.constraints@.len() as int)
                =~= old_cs.constraints@);
            assert(cs.challenges@.subrange(0, old_cs.challenges@.len() as int)
                =~= old_cs.challenges@);
            assert forall|i: int|
                old_cs.constraints.len() <= i < cs.constraints.len() implies constraint_holds(
                #[trigger] cs.constraints[i],
                cs.aux@,
            ) by {
                assert(i == cs.constraints.len() - 1);
            }
            lemma_extension_satisfied(old_cs, *cs);
        }
        AllocatedNum { var, value }
    }

    /// Allocates a variable holding `value` and constrains `variable * 1 == value`,
    /// so that every satisfying assignment gives it that value.
    pub fn allocate_constant(cs: &mut ConstraintSystem, value: Scalar) -> (r: AllocatedNum)
        requires
            old(cs).wf(),
            value.wf(),
        ensures
            grows(*final(cs), *old(cs)),
            final(cs).aux@ == old(cs).aux@.push(value),
            final(cs).constraints@.len() == old(cs).constraints@.len() + 1,
            is_constant_constraint(final(cs).constraints@.last(), r.var, value.value()),
            final(cs).challenges@ == old(cs).challenges@,
            r.var == Var::Aux(old(cs).aux.len()),
            r.value == value,
            final(cs).holds_num(r),
    {
        let ghost old_cs = *cs;
        let var = cs.alloc_var(value);
        let a = unit_lc(var);
        let b = unit_lc(Var::One);
        let mut c: Vec<Term> = Vec::new();
        c.push(Term { var: Var::One, coeff: value });
        proof {
            lemma_lc_single_wf(a@, var, cs.aux.len() as nat);
            lemma_lc_single_wf(b@, Var::One, cs.aux.len() as nat);
            assert(lc_wf(c@, cs.aux.len() as nat));
        }
        cs.enforce(a, b, c);
        proof {
            let aux = cs.aux@;
            let last = cs.constraints@.last();
            lemma_lc_single_value(last.a@, var, aux);
            lemma_lc_single_value(last.b@, Var::One, aux);
            assert(last.c@ =~= seq![last.c@[0]]);
            lemma_lc_value_one_term(last.c@[0], aux);
            assert(var_value(aux, var) == value.value());
            assert(constraint_holds(last, aux));
            assert(cs.aux@.subrange(0, old_cs.aux@.len() as int) =~= old_cs.aux@);
            assert(cs.constraints@.subrange(0, old_cs.constraints@.len() as int)
                =~= old_cs.constraints@);
            assert(cs.challenges@.subrange(0, old_cs.challenges@.len() as int)
                =~= old_cs.challenges@);
            assert forall|i: int|
                old_cs.constraints.len() <= i < cs.constraints.len() implies constraint_holds(
                #[trigger] cs.constraints[i],
                cs.aux@,
            ) by {
                assert(i == cs.constraints.len() - 1);
            }
            lemma_extension_satisfied(old_cs, *cs);
        }
        AllocatedNum { var, value }
    }
}

/// The constraint is `v * 1 == k`, which fixes `v` to the constant `k`.
pub open spec fn is_constant_constraint(c: Constraint, v: Var, k: nat) -> bool {
    &&& is_single(c.a@, v)
    &&& is_single(c.b@, Var::One)
    &&& c.c@.len() == 1
    &&& c.c@[0].var == Var::One
    &&& c.c@[0].coeff.value() == k
}

/// Whatever the assignment, a constant constraint `v * 1 == k` that holds,
/// with `k` and the value of `v` in the field, gives `v` the value `k`.
pub proof fn lemma_constant_constraint_sound(c: Constraint, v: Var, k: nat, aux: Seq<Scalar>)
    requires
        is_constant_constraint(c, v, k),
        constraint_holds(c, aux),
        k < modulus(),
        var_value(aux, v) < modulus(),
    ensures
        var_value(aux, v) == k,
{
    lemma_lc_single_value(c.a@, v, aux);
    lemma_lc_single_value(c.b@, Var::One, aux);
    assert(c.c@ =~= seq![c.c@[0]]);
    lemma_lc_value_one_term(c.c@[0], aux);
    lemma_small_mod(var_value(aux, v), modulus());
    lemma_small_mod(k, modulus());
    let m = modulus() as int;
    let x = var_value(aux, v) as int;
    assert(lc_value(c.a@, aux) == x);
    assert(lc_value(c.b@, aux) == 1);
    assert(lc_value(c.a@, aux) * lc_value(c.b@, aux) == x) by (nonlinear_arith)
        requires
            lc_value(c.a@, aux) == x,
            lc_value(c.b@, aux) == 1,
    ;
    assert(lc_value(c.c@, aux) == k as int);
    assert(x % m == x);
    assert((k as int) % m == k as int);
}

/// Whatever the assignment, a multiplication constraint `x * y == z` that
/// holds makes `z` the product of `x` and `y` in the field.
pub proof fn lemma_mul_constraint_sound(c: Constraint, x: Var, y: Var, z: Var, aux: Seq<Scalar>)
    requires
        is_mul_constraint(c, x, y, z),
        constraint_holds(c, aux),
    ensures
        var_value(aux, z) % modulus() == (var_value(aux, x) * var_value(aux, y)) % modulus(),
{
    lemma_lc_single_value(c.a@, x, aux);
    lemma_lc_single_value(c.b@, y, aux);
    lemma_lc_single_value(c.c@, z, aux);
}

/// Whatever the assignment, an addition constraint `(x + y) * 1 == z` that
/// holds makes `z` the sum of `x` and `y` in the field.
pub proof fn lemma_add_constraint_sound(c: Constraint, x: Var, y: Var, z: Var, aux: Seq<Scalar>)
    requires
        is_add_constraint(c, x, y, z),
        constraint_holds(c, aux),
    ensures
        var_value(aux, z) % modulus() == (var_value(aux, x) + var_value(aux, y)) % modulus(),
{
    assert(c.a@ =~= seq![c.a@[0], c.a@[1]]);
    lemma_lc_value_two_terms(c.a@[0], c.a@[1], aux);
    lemma_lc_single_value(c.b@, Var::One, aux);
    lemma_lc_single_value(c.c@, z, aux);
    let k0 = c.a@[0].coeff.value() as int;
    let k1 = c.a@[1].coeff.value() as int;
    let vx = var_value(aux, x) as int;
    let vy = var_value(aux, y) as int;
    assert(k0 * vx + k1 * vy == vx + vy) by (nonlinear_arith)
        requires
            k0 == 1,
            k1 == 1,
    ;
    let a = lc_value(c.a@, aux);
    assert(a * 1 == a) by (nonlinear_arith);
}

/// A one-term linear combination `1 * v` over an existing variable is well formed.
pub proof fn lemma_lc_single_wf(lc: Seq<Term>, v: Var, n: nat)
    requires
        is_single(lc, v),
        var_in_range(v, n),
    ensures
        lc_wf(lc, n),
{
    assert forall|i: int| 0 <= i < lc.len() implies (#[trigger] lc[i]).coeff.wf()
        && var_in_range(lc[i].var, n) by {
        assert(i == 0);
        crate::field::lemma_value_one_wf(lc[0].coeff);
    }
}

/// The value of the linear combination `1 * v`.
pub proof fn lemma_lc_single_value(lc: Seq<Term>, v: Var, aux: Seq<Scalar>)
    requires
        is_single(lc, v),
    ensures
        lc_value(lc, aux) == var_value(aux, v),
{
    assert(lc =~= seq![lc[0]]);
    lemma_lc_value_one_term(lc[0], aux);
}

/// Every entry of the assignment is a canonical field element.
pub open spec fn assignment_wf(w: Seq<Scalar>) -> bool {
    forall|i: int| 0 <= i < w.len() ==> (#[trigger] w[i]).wf()
}

/// The constraints with an index in `lo..hi` all hold under `w`.
pub open spec fn holds_between(constraints: Seq<Constraint>, lo: int, hi: int, w: Seq<Scalar>) -> bool {
    forall|k: int| lo <= k < hi ==> constraint_holds(#[trigger] constraints[k], w)
}

/// The values that the variables hold under `w`.
pub open spec fn var_values(w: Seq<Scalar>, vars: Seq<Var>) -> Seq<nat> {
    vars.map_values(|v: Var| var_value(w, v))
}

/// The variables of a sequence of allocated numbers.
pub open spec fn num_vars(nums: Seq<AllocatedNum>) -> Seq<Var> {
    nums.map_values(|n: AllocatedNum| n.var)
}

/// The rows of a linear combination: each term's variable and coefficient.
pub open spec fn lc_rows(lc: Seq<Term>) -> Seq<(Var, nat)> {
    lc.map_values(|t: Term| (t.var, t.coeff.value()))
}

/// The rows of the three linear combinations of a constraint.
pub open spec fn constraint_rows(c: Constraint) -> (Seq<(Var, nat)>, Seq<(Var, nat)>, Seq<(Var, nat)>) {
    (lc_rows(c.a@), lc_rows(c.b@), lc_rows(c.c@))
}

/// Linear combinations whose terms agree one by one have the same rows.
pub proof fn lemma_lc_rows_agree(l1: Seq<Term>, l2: Seq<Term>)
    requires
        l1.len() == l2.len(),
        forall|i: int|
            0 <= i < l1.len() ==> (#[trigger] l1[i]).var == l2[i].var && l1[i].coeff.value()
                == l2[i].coeff.value(),
    ensures
        lc_rows(l1) == lc_rows(l2),
{
    assert(lc_rows(l1) =~= lc_rows(l2));
}

/// The values that a sequence of allocated numbers hold.
pub open spec fn num_values(nums: Seq<AllocatedNum>) -> Seq<nat> {
    nums.map_values(|n: AllocatedNum| n.value.value())
}

impl ConstraintSystem {
    /// Records a challenge relation.
    pub fn record_challenge(&mut self, ch: Challenge)
        requires
            old(self).wf(),
            challenge_wf(ch, old(self).aux.len() as nat),
        ensures
            final(self).wf(),
            final(self).aux@ == old(self).aux@,
            final(self).constraints@ == old(self).constraints@,
            final(self).challenges@ == old(self).challenges@.push(ch),
    {
        self.challenges.push(ch);
    }
}

/// The challenge absorbs the variables of `inputs` in order and outputs to
/// the `num_bits` auxiliary variables from `first_output` on.
pub open spec fn is_challenge_record(
    ch: Challenge,
    inputs: Seq<AllocatedNum>,
    first_output: int,
    num_bits: int,
) -> bool {
    &&& ch.inputs@.len() == inputs.len()
    &&& forall|i: int| 0 <= i < inputs.len() ==> inputs[i].var == Var::Aux(#[trigger] ch.inputs@[i])
    &&& ch.outputs@.len() == num_bits
    &&& forall|k: int| 0 <= k < num_bits ==> #[trigger] ch.outputs@[k] == first_output + k
}

/// Absorbs the values of `inputs` into the Poseidon sponge, squeezes
/// `num_bits` bits, allocates one variable per bit and records the challenge
/// relation that ties those variables to the inputs.
pub fn squeeze_challenge(cs: &mut ConstraintSystem, inputs: &Vec<AllocatedNum>, num_bits: usize) -> (bits: Vec<AllocatedBit>)
    requires
        old(cs).wf(),
        num_bits <= 256,
        inputs.len() < 0x8000_0000,
        forall|i: int|
            0 <= i < inputs.len() ==> old(cs).holds_num(#[trigger] inputs[i]) && inputs[i].var is Aux,
        old(cs).aux.len() + num_bits <= usize::MAX,
    ensures
        grows(*final(cs), *old(cs)),
        final(cs).aux@.len() == old(cs).aux@.len() + num_bits,
        final(cs).constraints@ == old(cs).constraints@,
        final(cs).challenges@.len() == old(cs).challenges@.len() + 1,
        bits.len() == num_bits,
        forall|k: int|
            0 <= k < num_bits ==> (#[trigger] bits[k]).value == squeezed_bits(
                num_values(inputs@),
                num_bits as nat,
            )[k],
        is_challenge_record(
            final(cs).challenges@.last(),
            inputs@,
            old(cs).aux.len() as int,
            num_bits as int,
        ),
        forall|k: int| 0 <= k < num_bits ==> final(cs).holds_bit(#[trigger] bits[k]),
        forall|k: int|
            0 <= k < num_bits ==> (#[trigger] bits[k]).var == Var::Aux(
                (old(cs).aux.len() + k) as usize,
            ),
{
    let ghost old_cs = *cs;
    let mut vals: Vec<Scalar> = Vec::new();
    let mut idxs: Vec<usize> = Vec::new();
    let mut i: usize = 0;
    while i < inputs.len()
        invariant
            *cs == old_cs,
            old_cs.wf(),
            forall|j: int|
                0 <= j < inputs.len() ==> old_cs.holds_num(#[trigger] inputs[j]) && inputs[j].var is Aux,
            0 <= i <= inputs.len(),
            vals.len() == i,
            idxs.len() == i,
            forall|j: int|
                0 <= j < i ==> #[trigger] vals[j] == inputs[j].value && inputs[j].var == Var::Aux(
                    idxs[j],
                ) && idxs[j] < old_cs.aux.len(),
        decreases inputs.len() - i,
    {
        let n = inputs[i];
        vals.push(n.value);
        let k = match n.var {
            Var::Aux(k) => k,
            Var::One => 0,
        };
        idxs.push(k);
        i = i + 1;
    }
    assert(values_of(vals@) =~= num_values(inputs@));
    let squeezed = poseidon_squeeze_bits(&vals, num_bits);
    let one = Scalar::one();
    let zero = Scalar::zero();
    let mut outs: Vec<usize> = Vec::new();
    let mut bits: Vec<AllocatedBit> = Vec::new();
    let mut k: usize = 0;
    while k < num_bits
        invariant
            old_cs.wf(),
            cs.wf(),
            one.value() == 1,
            zero.value() == 0,
            squeezed.len() == num_bits,
            old_cs.aux.len() + num_bits <= usize::MAX,
            0 <= k <= num_bits,
            cs.aux@.len() == old_cs.aux@.len() + k,
            cs.aux@.subrange(0, old_cs.aux@.len() as int) == old_cs.aux@,
            cs.constraints@ == old_cs.constraints@,
            cs.challenges@ == old_cs.challenges@,
            outs.len() == k,
            bits.len() == k,
            forall|j: int|
                0 <= j < k ==> #[trigger] outs[j] == old_cs.aux.len() + j && cs.aux[outs[j] as int].value()
                    == bit_value(squeezed[j]) && bits[j].var == Var::Aux(outs[j])
                    && bits[j].value == squeezed[j],
        decreases num_bits - k,
    {
        let b = squeezed[k];
        let v = if b {
            one
        } else {
            zero
        };
        let idx = cs.aux.len();
        let ghost before = cs.aux@;
        let var = cs.alloc_var(v);
        outs.push(idx);
        bits.push(AllocatedBit { var, value: b });
        proof {
            assert(cs.aux@.subrange(0, old_cs.aux@.len() as int) =~= old_cs.aux@) by {
                assert forall|j: int| 0 <= j < old_cs.aux@.len() implies cs.aux@[j] == old_cs.aux@[j] by {
                    assert(before[j] == before.subrange(0, old_cs.aux@.len() as int)[j]);
                }
            }
            assert forall|j: int| 0 <= j < k + 1 implies #[trigger] outs[j] == old_cs.aux.len() + j
                && cs.aux[outs[j] as int].value() == bit_value(squeezed[j]) && bits[j].var == Var::Aux(
                outs[j],
            ) && bits[j].value == squeezed[j] by {
                if j < k {
                    assert(cs.aux@[outs[j] as int] == before[outs[j] as int]);
                }
            }
        }
        k = k + 1;
    }
    let ch = Challenge { inputs: idxs, outputs: outs };
    proof {
        assert forall|j: int| 0 <= j < ch.inputs.len() implies #[trigger] ch.inputs[j] < cs.aux.len() by {
            assert(vals[j] == inputs[j].value);
        }
    }
    cs.record_challenge(ch);
    proof {
        let aux = cs.aux@;
        lemma_aux_prefix(old_cs.aux@, aux);
        let last = cs.challenges@.last();
        assert(challenge_inputs(last, aux) =~= num_values(inputs@)) by {
            assert forall|j: int| 0 <= j < inputs.len() implies challenge_inputs(last, aux)[j]
                == num_values(inputs@)[j] by {
                assert(vals[j] == inputs[j].value);
                assert(old_cs.holds_num(inputs[j]));
                assert(aux[idxs[j] as int] == old_cs.aux@[idxs[j] as int]);
            }
        }
        assert(challenge_holds(last, aux));
        assert(is_challenge_record(last, inputs@, old_cs.aux.len() as int, num_bits as int)) by {
            assert forall|j: int| 0 <= j < inputs.len() implies inputs[j].var == Var::Aux(
                #[trigger] last.inputs@[j],
            ) by {
                assert(vals[j] == inputs[j].value);
            }
        }
        assert(cs.constraints@.subrange(0, old_cs.constraints@.len() as int)
            =~= old_cs.constraints@);
        assert(cs.challenges@.subrange(0, old_cs.challenges@.len() as int)
            =~= old_cs.challenges@);
        assert forall|i: int|
            old_cs.challenges.len() <= i < cs.challenges.len() implies challenge_holds(
            #[trigger] cs.challenges[i],
            cs.aux@,
        ) by {
            assert(i == cs.challenges.len() - 1);
        }
        lemma_extension_satisfied(old_cs, *cs);
        assert forall|k: int| 0 <= k < num_bits implies (#[trigger] bits[k]).value == squeezed_bits(
            num_values(inputs@),
            num_bits as nat,
        )[k] && cs.holds_bit(bits[k]) && bits[k].var == Var::Aux(
            (old_cs.aux.len() + k) as usize,
        ) by {
            assert(outs[k] == old_cs.aux.len() + k);
        }
    }
    bits
}

/// Every well-formed system grows into itself.
pub proof fn lemma_grows_refl(cs: ConstraintSystem)
    requires
        cs.wf(),
    ensures
        grows(cs, cs),
{
    assert(cs.aux@.subrange(0, cs.aux@.len() as int) =~= cs.aux@);
    assert(cs.constraints@.subrange(0, cs.constraints@.len() as int) =~= cs.constraints@);
    assert(cs.challenges@.subrange(0, cs.challenges@.len() as int) =~= cs.challenges@);
}

/// Growth is transitive.
pub proof fn lemma_grows_trans(a: ConstraintSystem, b: ConstraintSystem, c: ConstraintSystem)
    requires
        a.wf(),
        grows(b, a),
        grows(c, b),
    ensures
        grows(c, a),
{
    lemma_extends_keeps(a, b, c);
    assert forall|i: int|
        a.constraints.len() <= i < c.constraints.len() implies constraint_holds(
        #[trigger] c.constraints[i],
        c.aux@,
    ) by {
        if i < b.constraints.len() {
            let k = b.constraints[i];
            assert(c.constraints@.subrange(0, b.constraints@.len() as int)[i] == c.constraints[i]);
            assert(constraint_wf(k, b.aux.len() as nat));
            lemma_constraint_holds_extends(k, b.aux@, c.aux@);
        }
    }
    assert forall|i: int|
        a.challenges.len() <= i < c.challenges.len() implies challenge_holds(
        #[trigger] c.challenges[i],
        c.aux@,
    ) by {
        if i < b.challenges.len() {
            let ch = b.challenges[i];
            assert(c.challenges@.subrange(0, b.challenges@.len() as int)[i] == c.challenges[i]);
            assert(challenge_wf(ch, b.aux.len() as nat));
            lemma_challenge_holds_extends(ch, b.aux@, c.aux@);
        }
    }
}

/// Whether a constraint over the old variables holds does not change when
/// the assignment is extended.
pub proof fn lemma_constraint_holds_extends(c: Constraint, old_aux: Seq<Scalar>, new_aux: Seq<Scalar>)
    requires
        constraint_wf(c, old_aux.len()),
        old_aux.len() <= new_aux.len(),
        new_aux.subrange(0, old_aux.len() as int) == old_aux,
    ensures
        constraint_holds(c, new_aux) == constraint_holds(c, old_aux),
{
    lemma_lc_value_extends(c.a@, old_aux, new_aux);
    lemma_lc_value_extends(c.b@, old_aux, new_aux);
    lemma_lc_value_extends(c.c@, old_aux, new_aux);
}

/// Whether a challenge over the old variables holds does not change when the
/// assignment is extended.
pub proof fn lemma_challenge_holds_extends(ch: Challenge, old_aux: Seq<Scalar>, new_aux: Seq<Scalar>)
    requires
        challenge_wf(ch, old_aux.len()),
        old_aux.len() <= new_aux.len(),
        new_aux.subrange(0, old_aux.len() as int) == old_aux,
    ensures
        challenge_holds(ch, new_aux) == challenge_holds(ch, old_aux),
{
    lemma_aux_prefix(old_aux, new_aux);
    assert(challenge_inputs(ch, old_aux) =~= challenge_inputs(ch, new_aux));
}
/// A linear combination over fewer variables is one over more.
pub proof fn lemma_lc_wf_grows(terms: Seq<Term>, n: nat, m: nat)
    requires
        lc_wf(terms, n),
        n <= m,
    ensures
        lc_wf(terms, m),
{
    assert forall|i: int| 0 <= i < terms.len() implies (#[trigger] terms[i]).coeff.wf()
        && var_in_range(terms[i].var, m) by {
        assert(var_in_range(terms[i].var, n));
    }
}

/// A constraint over fewer variables is one over more.
pub proof fn lemma_constraint_wf_grows(c: Constraint, n: nat, m: nat)
    requires
        constraint_wf(c, n),
        n <= m,
    ensures
        constraint_wf(c, m),
{
    lemma_lc_wf_grows(c.a@, n, m);
    lemma_lc_wf_grows(c.b@, n, m);
    lemma_lc_wf_grows(c.c@, n, m);
}

/// Extending the assignment leaves the value of a linear combination over the
/// old variables unchanged.
pub proof fn lemma_lc_value_extends(terms: Seq<Term>, old_aux: Seq<Scalar>, new_aux: Seq<Scalar>)
    requires
        lc_wf(terms, old_aux.len()),
        old_aux.len() <= new_aux.len(),
        new_aux.subrange(0, old_aux.len() as int) == old_aux,
    ensures
        lc_value(terms, new_aux) == lc_value(terms, old_aux),
    decreases terms.len(),
{
    if terms.len() > 0 {
        let t = terms.last();
        assert(terms[terms.len() - 1] == t);
        assert(lc_wf(terms.drop_last(), old_aux.len())) by {
            assert forall|i: int| 0 <= i < terms.drop_last().len() implies (
            #[trigger] terms.drop_last()[i]).coeff.wf() && var_in_range(
                terms.drop_last()[i].var,
                old_aux.len(),
            ) by {
                assert(terms.drop_last()[i] == terms[i]);
            }
        }
        lemma_lc_value_extends(terms.drop_last(), old_aux, new_aux);
        match t.var {
            Var::One => {},
            Var::Aux(k) => {
                assert(new_aux[k as int] == new_aux.subrange(0, old_aux.len() as int)[k as int]);
            },
        }
    }
}

/// The value of a one-term linear combination.
pub proof fn lemma_lc_value_one_term(t: Term, aux: Seq<Scalar>)
    ensures
        lc_value(seq![t], aux) == t.coeff.value() * var_value(aux, t.var),
{
    assert(seq![t].drop_last() =~= Seq::<Term>::empty());
    assert(seq![t].last() == t);
    assert(lc_value(Seq::<Term>::empty(), aux) == 0);
}

/// The value of a two-term linear combination.
pub proof fn lemma_lc_value_two_terms(t: Term, u: Term, aux: Seq<Scalar>)
    ensures
        lc_value(seq![t, u], aux) == t.coeff.value() * var_value(aux, t.var) + u.coeff.value()
            * var_value(aux, u.var),
{
    assert(seq![t, u].drop_last() =~= seq![t]);
    assert(seq![t, u].last() == u);
    lemma_lc_value_one_term(t, aux);
}

/// Appending variables, constraints that hold and challenges that hold to a
/// system leaves it satisfied exactly when it was.
pub proof fn lemma_extension_satisfied(old: ConstraintSystem, new: ConstraintSystem)
    requires
        old.wf(),
        new.extends(&old),
        appended_hold(new, old),
    ensures
        new.satisfied() <==> old.satisfied(),
{
    lemma_extension_satisfied_iff(old, new);
}

/// The constraints and challenges that `new` has beyond `old` all hold.
pub open spec fn appended_hold(new: ConstraintSystem, old: ConstraintSystem) -> bool {
    &&& forall|i: int|
        old.constraints.len() <= i < new.constraints.len() ==> constraint_holds(
            #[trigger] new.constraints[i],
            new.aux@,
        )
    &&& forall|i: int|
        old.challenges.len() <= i < new.challenges.len() ==> challenge_holds(
            #[trigger] new.challenges[i],
            new.aux@,
        )
}

/// An extension of a system is satisfied exactly when the system is and
/// everything appended holds.
pub proof fn lemma_extension_satisfied_iff(old: ConstraintSystem, new: ConstraintSystem)
    requires
        old.wf(),
        new.extends(&old),
    ensures
        new.satisfied() <==> (old.satisfied() && appended_hold(new, old)),
{
    assert forall|i: int| 0 <= i < old.constraints.len() implies constraint_holds(
        #[trigger] old.constraints[i],
        old.aux@,
    ) == constraint_holds(new.constraints[i], new.aux@) by {
        let c = old.constraints[i];
        assert(new.constraints@.subrange(0, old.constraints@.len() as int)[i] == c);
        assert(constraint_wf(c, old.aux.len() as nat));
        lemma_lc_value_extends(c.a@, old.aux@, new.aux@);
        lemma_lc_value_extends(c.b@, old.aux@, new.aux@);
        lemma_lc_value_extends(c.c@, old.aux@, new.aux@);
    }
    assert forall|i: int| 0 <= i < old.challenges.len() implies challenge_holds(
        #[trigger] old.challenges[i],
        old.aux@,
    ) == challenge_holds(new.challenges[i], new.aux@) by {
        let ch = old.challenges[i];
        assert(new.challenges@.subrange(0, old.challenges@.len() as int)[i] == ch);
        assert(challenge_wf(ch, old.aux.len() as nat));
        lemma_aux_prefix(old.aux@, new.aux@);
        assert(challenge_inputs(ch, old.aux@) =~= challenge_inputs(ch, new.aux@));
    }
    if new.satisfied() {
        assert forall|i: int| 0 <= i < old.constraints.len() implies constraint_holds(
            #[trigger] old.constraints[i],
            old.aux@,
        ) by {
            assert(new.constraints[i] == old.constraints[i]) by {
                assert(new.constraints@.subrange(0, old.constraints@.len() as int)[i]
                    == old.constraints[i]);
            }
        }
        assert forall|i: int| 0 <= i < old.challenges.len() implies challenge_holds(
            #[trigger] old.challenges[i],
            old.aux@,
        ) by {
            assert(new.challenges[i] == old.challenges[i]) by {
                assert(new.challenges@.subrange(0, old.challenges@.len() as int)[i]
                    == old.challenges[i]);
            }
        }
    }
    if old.satisfied() && appended_hold(new, old) {
        assert forall|i: int| 0 <= i < new.constraints.len() implies constraint_holds(
            #[trigger] new.constraints[i],
            new.aux@,
        ) by {
            if i < old.constraints.len() {
                assert(new.constraints[i] == old.constraints[i]) by {
                    assert(new.constraints@.subrange(0, old.constraints@.len() as int)[i]
                        == old.constraints[i]);
                }
            }
        }
        assert forall|i: int| 0 <= i < new.challenges.len() implies challenge_holds(
            #[trigger] new.challenges[i],
            new.aux@,
        ) by {
            if i < old.challenges.len() {
                assert(new.challenges[i] == old.challenges[i]) by {
                    assert(new.challenges@.subrange(0, old.challenges@.len() as int)[i]
                        == old.challenges[i]);
                }
            }
        }
    }
}

/// Constraints of a prefix keep their places.
pub proof fn lemma_constraints_kept(s1: Seq<Constraint>, s2: Seq<Constraint>)
    requires
        s1.len() <= s2.len(),
        s2.subrange(0, s1.len() as int) == s1,
    ensures
        forall|i: int| 0 <= i < s1.len() ==> #[trigger] s2[i] == s1[i],
{
    assert forall|i: int| 0 <= i < s1.len() implies #[trigger] s2[i] == s1[i] by {
        assert(s2.subrange(0, s1.len() as int)[i] == s2[i]);
    }
}

/// Entries of the old assignment keep their values in an extension.
pub proof fn lemma_aux_prefix(old_aux: Seq<Scalar>, new_aux: Seq<Scalar>)
    requires
        old_aux.len() <= new_aux.len(),
        new_aux.subrange(0, old_aux.len() as int) == old_aux,
    ensures
        forall|i: int| 0 <= i < old_aux.len() ==> #[trigger] new_aux[i] == old_aux[i],
{
    assert forall|i: int| 0 <= i < old_aux.len() implies #[trigger] new_aux[i] == old_aux[i] by {
        assert(new_aux.subrange(0, old_aux.len() as int)[i] == new_aux[i]);
    }
}

/// What an allocated number or bit holds is kept by extensions, and
/// extension is transitive.
pub proof fn lemma_extends_keeps(a: ConstraintSystem, b: ConstraintSystem, c: ConstraintSystem)
    requires
        b.extends(&a),
        c.extends(&b),
    ensures
        c.extends(&a),
        forall|n: AllocatedNum| a.holds_num(n) ==> #[trigger] c.holds_num(n),
        forall|n: AllocatedNum| b.holds_num(n) ==> #[trigger] c.holds_num(n),
        forall|x: AllocatedBit| a.holds_bit(x) ==> #[trigger] c.holds_bit(x),
        forall|x: AllocatedBit| b.holds_bit(x) ==> #[trigger] c.holds_bit(x),
{
    lemma_aux_prefix(a.aux@, b.aux@);
    lemma_aux_prefix(b.aux@, c.aux@);
    assert(c.aux@.subrange(0, a.aux@.len() as int) =~= a.aux@);
    assert(c.constraints@.subrange(0, a.constraints@.len() as int) =~= a.constraints@) by {
        assert forall|i: int| 0 <= i < a.constraints@.len() implies c.constraints@[i]
            == a.constraints@[i] by {
            assert(c.constraints@.subrange(0, b.constraints@.len() as int)[i]
                == c.constraints@[i]);
            assert(b.constraints@.subrange(0, a.constraints@.len() as int)[i]
                == b.constraints@[i]);
        }
    }
    assert(c.challenges@.subrange(0, a.challenges@.len() as int) =~= a.challenges@) by {
        assert forall|i: int| 0 <= i < a.challenges@.len() implies c.challenges@[i]
            == a.challenges@[i] by {
            assert(c.challenges@.subrange(0, b.challenges@.len() as int)[i] == c.challenges@[i]);
            assert(b.challenges@.subrange(0, a.challenges@.len() as int)[i] == b.challenges@[i]);
        }
    }
}

} // verus!
