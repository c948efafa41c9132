//! The exclusion circuit: it proves that a private address differs from every
//! address of a public list.
//!
//! The address and the public addresses are hashed as polynomials evaluated
//! at a challenge `r` that a Poseidon sponge derives from the private address:
//! `hash(a) = a[0] + a[1] r + ... + a[9] r^9`. For each public address `p`,
//! the circuit holds a witness `q` with `q * (hash(a) - hash(p)) == 1`, which
//! exists exactly when the two hashes differ. The bytes of the public
//! addresses and the hash's starting zero are fixed by constant constraints,
//! so that whatever assignment satisfies the circuit shows the private
//! address to be off the list.
use vstd::arithmetic::div_mod::*;
use vstd::arithmetic::power::pow;
use vstd::arithmetic::power2::pow2;
use vstd::prelude::*;
use vstd::string::StringSliceAdditionalSpecFns;

use crate::address::{
    address_hash, byte_values, dot, is_hash_layout, is_public_address, lemma_dot_powers,
    lemma_hash_layout_kept, lemma_hash_layout_rows, lemma_hash_layout_sound, lemma_keeps_address, public_addresses,
    spec_public_address, AllocatedAddress, ADDRESS_SIZE,
};
use crate::field::{
    lemma_pow2_253_below_modulus, modulus, nth_bit, scalar_add, scalar_double, scalar_invert, scalar_sub, Scalar,
};
use crate::r1cs::{
    appended_hold, assignment_wf, bit_value, challenge_holds, constraint_holds, grows,
    holds_between, is_constant_constraint, is_mul_constraint, is_single,
    is_unit_term, lc_value, lc_wf, lemma_aux_prefix, lemma_challenge_holds_extends,
    lemma_constant_constraint_sound, lemma_constraint_holds_extends, lemma_constraints_kept,
    lemma_extends_keeps, lemma_extension_satisfied, lemma_extension_satisfied_iff,
    lemma_grows_refl, lemma_grows_trans, lemma_lc_single_value, lemma_lc_single_wf,
    lemma_lc_value_extends, lemma_lc_value_two_terms, num_values, num_vars, poseidon_hash,
    squeezed_value, lemma_squeezed_value_is_low_bits,
    constraint_wf, challenge_wf, constraint_rows, lemma_lc_rows_agree, challenge_inputs,
    lemma_mul_constraint_sound,
    squeezed_bits, squeeze_challenge, unit_lc, var_in_range, var_value, var_values,
    AllocatedBit, AllocatedNum, Challenge, Constraint, ConstraintSystem, Term, Var,
};

verus! {

/// The number of challenge bits squeezed from the sponge.
pub const NUM_CHALLENGE_BITS: usize = 250;

/// The number whose little-endian binary digits are `bits`.
pub open spec fn bits_value(bits: Seq<bool>) -> nat
    decreases bits.len(),
{
    if bits.len() == 0 {
        0
    } else {
        bits_value(bits.drop_last()) + bit_value(bits.last()) * pow2((bits.len() - 1) as nat)
    }
}

/// The challenge point that the circuit derives from an address: the number
/// whose binary digits are the [`NUM_CHALLENGE_BITS`] bits of the element the
/// sponge squeezes from the address bytes, in the field.
pub open spec fn challenge_point(address: Seq<u8>) -> nat {
    challenge_point_of(byte_values(address))
}

/// The challenge point derived from the values of the address variables.
pub open spec fn challenge_point_of(values: Seq<nat>) -> nat {
    bits_value(squeezed_bits(values, 250)) % modulus()
}

/// The powers `r^i` times `s` in the field, for `i < n`.
pub open spec fn scaled_powers(s: nat, r: int, n: nat) -> Seq<nat> {
    Seq::new(n, |i: int| ((s * pow(r, i as nat)) % (modulus() as int)) as nat)
}

/// The address's hash differs from the hash of every public address, at the
/// challenge point derived from the address.
pub open spec fn excluded(address: Seq<u8>) -> bool {
    let r = challenge_point(address) as int;
    forall|j: int|
        0 <= j < 5 ==> address_hash(address, r) != address_hash(
            #[trigger] spec_public_address(j),
            r,
        )
}

/// The error the circuit's construction can end in.
#[derive(Clone, Copy, Debug, PartialEq, Eq, Structural)]
pub enum SynthesisError {
    /// A vector of allocated numbers did not have the length asked for.
    UnconstrainedVariable,
}

/// The circuit for one private address.
#[derive(Clone, Copy, Debug)]
pub struct ExclusionCircuit {
    address: [u8; 10],
}

impl View for ExclusionCircuit {
    type V = Seq<u8>;

    /// The private address.
    closed spec fn view(&self) -> Seq<u8> {
        self.address@
    }
}

/// The variables of the private address when the circuit starts at
/// auxiliary variable `a0`.
pub open spec fn address_vars(a0: int) -> Seq<Var> {
    Seq::new(10, |i: int| Var::Aux((a0 + i) as usize))
}

/// The variables of public address `j` when the circuit starts at auxiliary
/// variable `a0`.
pub open spec fn public_address_vars(a0: int, j: int) -> Seq<Var> {
    Seq::new(10, |i: int| Var::Aux((a0 + 10 + 10 * j + i) as usize))
}

/// From constraint `c0` on, byte `i` of public address `j` is fixed to its
/// value by constraint `c0 + 10 j + i`.
pub open spec fn is_public_list_layout(constraints: Seq<Constraint>, c0: int, a0: int) -> bool {
    forall|j: int, i: int|
        0 <= j < 5 && 0 <= i < 10 ==> is_constant_constraint(
            #[trigger] constraints[c0 + 10 * j + i],
            Var::Aux((a0 + 10 + 10 * j + i) as usize),
            #[trigger] spec_public_address(j)[i] as nat,
        )
}

impl ExclusionCircuit {
    /// The circuit for `address`.
    pub fn new(address: [u8; 10]) -> (r: ExclusionCircuit)
        ensures
            r@ == address@,
    {
        ExclusionCircuit { address }
    }

    /// The number of values the circuit takes as input and gives as output.
    pub fn arity(&self) -> (r: usize)
        ensures
            r == 0,
    {
        0
    }

    /// Allocates the private address, unconstrained, and then each public
    /// address, its bytes fixed by constant constraints.
    pub fn alloc_witness(&self, cs: &mut ConstraintSystem) -> (r: (
        AllocatedAddress,
        Vec<AllocatedAddress>,
    ))
        requires
            old(cs).wf(),
        ensures
            grows(*final(cs), *old(cs)),
            final(cs).aux@.len() == old(cs).aux@.len() + 60,
            final(cs).constraints@.len() == old(cs).constraints@.len() + 50,
            final(cs).challenges@ == old(cs).challenges@,
            r.0.allocates(*final(cs), self@),
            num_vars(r.0.value@) == address_vars(old(cs).aux.len() as int),
            r.1.len() == 5,
            forall|j: int|
                0 <= j < 5 ==> (#[trigger] r.1[j]).allocates(*final(cs), spec_public_address(j))
                    && num_vars(r.1[j].value@) == public_address_vars(old(cs).aux.len() as int, j),
            is_public_list_layout(
                final(cs).constraints@,
                old(cs).constraints.len() as int,
                old(cs).aux.len() as int,
            ),
            forall|w: Seq<Scalar>|
                assignment_wf(w) && w.len() == final(cs).aux.len() && #[trigger] holds_between(
                    final(cs).constraints@,
                    old(cs).constraints.len() as int,
                    old(cs).constraints.len() + 50,
                    w,
                ) ==> forall|j: int|
                    0 <= j < 5 ==> var_values(w, #[trigger] public_address_vars(old(cs).aux.len() as int, j))
                        == byte_values(spec_public_address(j)),
    {
        let ghost old_cs = *cs;
        let ghost c0 = old_cs.constraints.len() as int;
        let ghost a0 = old_cs.aux.len() as int;
        let address = AllocatedAddress::allocate(cs, &self.address);
        let ghost first = *cs;
        proof {
            lemma_grows_refl(first);
            assert(num_vars(address.value@) =~= address_vars(a0));
        }
        let addresses = public_addresses();
        let mut public: Vec<AllocatedAddress> = Vec::new();
        let mut j: usize = 0;
        while j < 5
            invariant
                old_cs.wf(),
                grows(first, old_cs),
                grows(*cs, first),
                first.aux@.len() == old_cs.aux@.len() + 10,
                c0 == old_cs.constraints.len() as int,
                a0 == old_cs.aux.len() as int,
                cs.aux@.len() == first.aux@.len() + 10 * j,
                cs.constraints@.len() == old_cs.constraints@.len() + 10 * j,
                cs.challenges@ == old_cs.challenges@,
                first.constraints@ == old_cs.constraints@,
                first.challenges@ == old_cs.challenges@,
                address.allocates(*cs, self@),
                num_vars(address.value@) == address_vars(a0),
                forall|k: int| 0 <= k < 5 ==> (#[trigger] addresses[k])@ == spec_public_address(k),
                0 <= j <= 5,
                public.len() == j,
                forall|k: int|
                    0 <= k < j ==> (#[trigger] public[k]).allocates(*cs, spec_public_address(k))
                        && num_vars(public[k].value@) == public_address_vars(a0, k),
                forall|k: int, i: int|
                    0 <= k < j && 0 <= i < 10 ==> is_constant_constraint(
                        #[trigger] cs.constraints@[c0 + 10 * k + i],
                        Var::Aux((a0 + 10 + 10 * k + i) as usize),
                        #[trigger] spec_public_address(k)[i] as nat,
                    ),
            decreases 5 - j,
        {
            let ghost before = *cs;
            let p = AllocatedAddress::allocate_constant(cs, &addresses[j]);
            proof {
                lemma_extends_keeps(first, before, *cs);
                lemma_grows_trans(first, before, *cs);
                lemma_keeps_address(before, *cs, address, self@);
                assert forall|k: int| 0 <= k < j implies (#[trigger] public[k]).allocates(
                    *cs,
                    spec_public_address(k),
                ) by {
                    lemma_keeps_address(before, *cs, public[k], spec_public_address(k));
                }
                assert(num_vars(p.value@) =~= public_address_vars(a0, j as int));
                lemma_constraints_kept(before.constraints@, cs.constraints@);
                assert forall|k: int, i: int|
                    0 <= k < j + 1 && 0 <= i < 10 implies is_constant_constraint(
                        #[trigger] cs.constraints@[c0 + 10 * k + i],
                        Var::Aux((a0 + 10 + 10 * k + i) as usize),
                        #[trigger] spec_public_address(k)[i] as nat,
                    ) by {
                    if k < j {
                        assert(cs.constraints@[c0 + 10 * k + i] == before.constraints@[c0 + 10 * k + i]);
                    } else {
                        assert(cs.constraints@[c0 + 10 * k + i] == cs.constraints@[before.constraints.len() + i]);
                    }
                }
            }
            public.push(p);
            proof {
                assert(public[j as int] == p);
            }
            j = j + 1;
        }
        proof {
            lemma_grows_trans(old_cs, first, *cs);
            assert(is_public_list_layout(cs.constraints@, c0, a0));
            let fin = *cs;
            assert forall|w: Seq<Scalar>|
                assignment_wf(w) && w.len() == fin.aux.len() && #[trigger] holds_between(
                    fin.constraints@,
                    c0,
                    c0 + 50,
                    w,
                ) implies forall|j: int|
                    0 <= j < 5 ==> var_values(w, #[trigger] public_address_vars(a0, j))
                        == byte_values(spec_public_address(j)) by {
                lemma_public_list_layout_sound(fin.constraints@, c0, a0, w);
            }
        }
        (address, public)
    }
}

/// The values of a sequence of allocated bits.
pub open spec fn bit_bools(bits: Seq<AllocatedBit>) -> Seq<bool> {
    bits.map_values(|b: AllocatedBit| b.value)
}

/// The variables of a sequence of allocated bits.
pub open spec fn bit_vars(bits: Seq<AllocatedBit>) -> Seq<Var> {
    bits.map_values(|b: AllocatedBit| b.var)
}

/// The constraint is `0 * 0 == sum_i 2^i * bits[i] - num`, the coefficients
/// taken in the field.
pub open spec fn is_bits_to_num_constraint(c: Constraint, bits: Seq<Var>, num: Var) -> bool {
    &&& c.a@.len() == 0
    &&& c.b@.len() == 0
    &&& c.c@.len() == bits.len() + 1
    &&& forall|i: int|
        0 <= i < bits.len() ==> (#[trigger] c.c@[i]).var == bits[i] && c.c@[i].coeff.value()
            == pow2(i as nat) % modulus()
    &&& c.c@[bits.len() as int].var == num
    &&& c.c@[bits.len() as int].coeff.value() == modulus() - 1
}

/// Allocates the number whose little-endian binary digits are the given bits
/// and constrains it to equal `sum_i 2^i * bits[i]`.
pub fn le_bits_to_num(cs: &mut ConstraintSystem, bits: &Vec<AllocatedBit>) -> (num: AllocatedNum)
    requires
        old(cs).wf(),
        forall|i: int| 0 <= i < bits.len() ==> old(cs).holds_bit(#[trigger] bits[i]),
    ensures
        grows(*final(cs), *old(cs)),
        final(cs).aux@ == old(cs).aux@.push(num.value),
        final(cs).constraints@.len() == old(cs).constraints@.len() + 1,
        is_bits_to_num_constraint(final(cs).constraints@.last(), bit_vars(bits@), num.var),
        final(cs).challenges@ == old(cs).challenges@,
        num.var == Var::Aux(old(cs).aux.len()),
        num.value.value() == bits_value(bit_bools(bits@)) % modulus(),
        final(cs).holds_num(num),
{
    let ghost old_cs = *cs;
    let ghost bools = bit_bools(bits@);
    let ghost m = modulus() as int;
    let mut lc: Vec<Term> = Vec::new();
    let mut coeff = Scalar::one();
    let mut fe = Scalar::zero();
    proof {
        assert(bools.take(0) =~= Seq::<bool>::empty());
        assert(pow2(0) == 1) by {
            vstd::arithmetic::power2::lemma2_to64();
        }
        assert(lc_value(lc@, cs.aux@) == 0);
    }
    let mut i: usize = 0;
    while i < bits.len()
        invariant
            *cs == old_cs,
            old_cs.wf(),
            bools == bit_bools(bits@),
            m == modulus() as int,
            forall|j: int| 0 <= j < bits.len() ==> old_cs.holds_bit(#[trigger] bits[j]),
            0 <= i <= bits.len(),
            lc.len() == i,
            forall|j: int|
                0 <= j < i ==> (#[trigger] lc[j]).var == bits[j].var && lc[j].coeff.wf()
                    && lc[j].coeff.value() == pow2(j as nat) % modulus(),
            coeff.wf(),
            coeff.value() == pow2(i as nat) % modulus(),
            fe.wf(),
            fe.value() == bits_value(bools.take(i as int)) % modulus(),
            lc_value(lc@, old_cs.aux@) % m == bits_value(bools.take(i as int)) as int % m,
        decreases bits.len() - i,
    {
        let b = bits[i];
        let ghost prev_lc = lc@;
        let ghost l = lc_value(prev_lc, old_cs.aux@);
        let ghost sv = bits_value(bools.take(i as int)) as int;
        let ghost p = pow2(i as nat) as int;
        lc.push(Term { var: b.var, coeff });
        if b.value {
            fe = scalar_add(&fe, &coeff);
        }
        let ghost old_coeff = coeff;
        coeff = scalar_double(&coeff);
        proof {
            let bv = bit_value(b.value) as int;
            assert(var_value(old_cs.aux@, b.var) == bv) by {
                assert(old_cs.holds_bit(bits[i as int]));
            }
            // The sum of the first i + 1 bits.
            assert(bools.take(i as int + 1).drop_last() =~= bools.take(i as int));
            assert(bools.take(i as int + 1).last() == b.value);
            assert(bits_value(bools.take(i as int + 1)) == sv + bv * p);
            // The next coefficient.
            vstd::arithmetic::power2::lemma_pow2_unfold((i + 1) as nat);
            lemma_mul_mod_noop_right(2, p, m);
            // The accumulated value.
            lemma_mod_twice(p, m);
            lemma_add_mod_noop(sv, p, m);
            lemma_add_mod_noop(sv, 0, m);
            // The linear combination.
            assert(lc@.drop_last() =~= prev_lc);
            assert(lc@.last() == Term { var: b.var, coeff: old_coeff });
            assert(lc_value(lc@, old_cs.aux@) == l + (p % m) * bv);
            if bv == 1 {
                assert(l % m == sv % m);
                lemma_add_mod_noop(l, p % m, m);
                lemma_mod_twice(p, m);
                lemma_add_mod_noop(sv, p, m);
                assert((l + (p % m)) % m == (sv + p) % m);
                assert((p % m) * bv == p % m) by (nonlinear_arith)
                    requires
                        bv == 1,
                ;
                assert(bv * p == p) by (nonlinear_arith)
                    requires
                        bv == 1,
                ;
                assert((l + (p % m) * bv) % m == (sv + bv * p) % m);
            } else {
                assert((p % m) * bv == 0) by (nonlinear_arith)
                    requires
                        bv == 0,
                ;
                assert(bv * p == 0) by (nonlinear_arith)
                    requires
                        bv == 0,
                ;
                assert((l + (p % m) * bv) % m == (sv + bv * p) % m);
            }
            assert forall|j: int| 0 <= j < i + 1 implies (#[trigger] lc[j]).var == bits[j].var
                && lc[j].coeff.wf() && lc[j].coeff.value() == pow2(j as nat) % modulus() by {
                if j < i {
                    assert(lc[j] == prev_lc[j]);
                }
            }
        }
        i = i + 1;
    }
    proof {
        assert(bools.take(bits.len() as int) =~= bools);
        assert(lc_wf(lc@, old_cs.aux.len() as nat)) by {
            assert forall|j: int| 0 <= j < lc.len() implies (#[trigger] lc@[j]).coeff.wf()
                && var_in_range(lc@[j].var, old_cs.aux.len() as nat) by {
                assert(old_cs.holds_bit(bits[j]));
            }
        }
    }
    let num = AllocatedNum::allocate(cs, fe);
    let ghost after_alloc = *cs;
    let zero = Scalar::zero();
    let one = Scalar::one();
    let minus_one = scalar_sub(&zero, &one);
    let ghost lc_bits = lc@;
    lc.push(Term { var: num.var, coeff: minus_one });
    let a: Vec<Term> = Vec::new();
    let b: Vec<Term> = Vec::new();
    proof {
        lemma_lc_value_extends(lc_bits, old_cs.aux@, cs.aux@);
        assert(lc_wf(lc@, cs.aux.len() as nat)) by {
            assert forall|j: int| 0 <= j < lc.len() implies (#[trigger] lc@[j]).coeff.wf()
                && var_in_range(lc@[j].var, cs.aux.len() as nat) by {
                if j < lc_bits.len() {
                    assert(lc@[j] == lc_bits[j]);
                    assert(var_in_range(lc_bits[j].var, old_cs.aux.len() as nat));
                }
            }
        }
    }
    cs.enforce(a, b, lc);
    proof {
        let aux = cs.aux@;
        let last = cs.constraints@.last();
        let l = lc_value(lc_bits, aux);
        let sv = bits_value(bools) as int;
        let n = num.value.value() as int;
        assert(n == sv % m);
        assert(last.c@ =~= lc@);
        assert(lc@.drop_last() =~= lc_bits);
        assert(minus_one.value() == m - 1) by {
            lemma_small_mod((m - 1) as nat, m as nat);
        }
        assert(lc_value(lc@, aux) == l + (m - 1) * n);
        assert(lc_value(last.a@, aux) == 0);
        assert(lc_value(last.b@, aux) == 0);
        // l == q * m + n, so l + (m - 1) * n == (q + n) * m.
        lemma_fundamental_div_mod(l, m);
        let q = l / m;
        assert(l == m * q + n);
        assert(l + (m - 1) * n == (q + n) * m) by (nonlinear_arith)
            requires
                l == m * q + n,
        ;
        lemma_mod_multiples_basic(q + n, m);
        assert(constraint_holds(last, aux));
        assert(cs.aux@.subrange(0, old_cs.aux@.len() as int) =~= old_cs.aux@);
        assert(cs.constraints@.subrange(0, old_cs.constraints@.len() as int)
            =~= old_cs.constraints@);
        assert(cs.challenges@.subrange(0, old_cs.challenges@.len() as int)
            =~= old_cs.challenges@);
        assert forall|k: int|
            old_cs.constraints.len() <= k < cs.constraints.len() implies constraint_holds(
            #[trigger] cs.constraints[k],
            cs.aux@,
        ) by {
            assert(k == cs.constraints.len() - 1);
        }
        lemma_extension_satisfied(old_cs, *cs);
        assert forall|j: int| 0 <= j < bits.len() implies (#[trigger] last.c@[j]).var
            == bit_vars(bits@)[j] && last.c@[j].coeff.value() == pow2(j as nat) % modulus() by {
            assert(last.c@[j] == lc_bits[j]);
        }
    }
    num
}


/// `sum_i 2^i * value(bits[i])` under an assignment, whatever the bit
/// variables hold.
pub open spec fn weighted_bits(bits: Seq<Var>, aux: Seq<Scalar>) -> int
    decreases bits.len(),
{
    if bits.len() == 0 {
        0
    } else {
        weighted_bits(bits.drop_last(), aux) + pow2((bits.len() - 1) as nat) * var_value(
            aux,
            bits.last(),
        )
    }
}

/// The coefficients of a bits-to-number constraint weigh the bit variables by
/// powers of two, in the field.
proof fn lemma_bits_lc_prefix(c: Constraint, bits: Seq<Var>, num: Var, aux: Seq<Scalar>, k: int)
    requires
        is_bits_to_num_constraint(c, bits, num),
        0 <= k <= bits.len(),
    ensures
        lc_value(c.c@.take(k), aux) % (modulus() as int) == weighted_bits(bits.take(k), aux) % (
        modulus() as int),
    decreases k,
{
    let m = modulus() as int;
    if k == 0 {
        assert(c.c@.take(0) =~= Seq::<Term>::empty());
        assert(bits.take(0) =~= Seq::<Var>::empty());
    } else {
        lemma_bits_lc_prefix(c, bits, num, aux, k - 1);
        let t = c.c@[k - 1];
        assert(c.c@.take(k).drop_last() =~= c.c@.take(k - 1));
        assert(c.c@.take(k).last() == t);
        assert(bits.take(k).drop_last() =~= bits.take(k - 1));
        assert(bits.take(k).last() == bits[k - 1]);
        let p = pow2((k - 1) as nat) as int;
        let v = var_value(aux, t.var) as int;
        assert(t.var == bits[k - 1] && t.coeff.value() == p % m);
        let l = lc_value(c.c@.take(k - 1), aux);
        let w = weighted_bits(bits.take(k - 1), aux);
        assert(lc_value(c.c@.take(k), aux) == l + (p % m) * v);
        assert(weighted_bits(bits.take(k), aux) == w + p * v);
        lemma_mul_mod_noop_left(p, v, m);
        lemma_add_mod_noop(l, (p % m) * v, m);
        lemma_add_mod_noop(w, p * v, m);
    }
}

/// Whatever the assignment, a bits-to-number constraint that holds forces the
/// number to be `sum_i 2^i * bits[i]` in the field.
pub proof fn lemma_bits_to_num_constraint_sound(
    c: Constraint,
    bits: Seq<Var>,
    num: Var,
    aux: Seq<Scalar>,
)
    requires
        is_bits_to_num_constraint(c, bits, num),
        constraint_holds(c, aux),
        var_value(aux, num) < modulus(),
    ensures
        var_value(aux, num) as int == weighted_bits(bits, aux) % (modulus() as int),
{
    let m = modulus() as int;
    let n = bits.len() as int;
    lemma_bits_lc_prefix(c, bits, num, aux, n);
    assert(bits.take(n) =~= bits);
    assert(c.c@.drop_last() =~= c.c@.take(n));
    assert(c.c@.last() == c.c@[n]);
    let l = lc_value(c.c@.take(n), aux);
    let nv = var_value(aux, num) as int;
    let w = weighted_bits(bits, aux);
    assert(lc_value(c.c@, aux) == l + (m - 1) * nv);
    assert(lc_value(c.a@, aux) == 0);
    assert((l + (m - 1) * nv) % m == 0);
    // l + (m - 1) * nv == (l - nv) + m * nv.
    assert(l + (m - 1) * nv == (l - nv) + m * nv) by (nonlinear_arith);
    lemma_mod_multiples_vanish(nv, l - nv, m);
    lemma_sub_mod_noop(l, nv, m);
    lemma_small_mod(nv as nat, m as nat);
    lemma_mod_equivalence(l, nv, m);
}

/// From constraint `c0` on, the constraints `v_(i-1) * r == v_i` for
/// `1 <= i < size`, where `v_i` is auxiliary variable `a0 + i`.
pub open spec fn is_pow_layout(constraints: Seq<Constraint>, c0: int, a0: int, r: Var, size: int) -> bool {
    forall|i: int|
        1 <= i < size ==> is_mul_constraint(
            #[trigger] constraints[c0 + i - 1],
            Var::Aux((a0 + i - 1) as usize),
            r,
            Var::Aux((a0 + i) as usize),
        )
}

/// Allocates `1, r, r^2, ..., r^(size - 1)`: the first without a
/// constraint, each further power with the constraint
/// `previous * r == power`. Fails, after allocating the first, when `size`
/// is zero.
pub fn pow_vec(cs: &mut ConstraintSystem, r: &AllocatedNum, size: usize) -> (res: Result<
    Vec<AllocatedNum>,
    SynthesisError,
>)
    requires
        old(cs).wf(),
        old(cs).holds_num(*r),
        old(cs).aux.len() + size + 1 <= usize::MAX,
    ensures
        grows(*final(cs), *old(cs)),
        final(cs).challenges@ == old(cs).challenges@,
        size == 0 ==> res == Err::<Vec<AllocatedNum>, SynthesisError>(
            SynthesisError::UnconstrainedVariable,
        ) && final(cs).aux@.len() == old(cs).aux@.len() + 1 && final(cs).constraints@
            == old(cs).constraints@,
        size > 0 ==> res is Ok && final(cs).aux@.len() == old(cs).aux@.len() + size
            && final(cs).constraints@.len() == old(cs).constraints@.len() + size - 1,
        res matches Ok(v) ==> {
            &&& v.len() == size
            &&& forall|i: int|
                0 <= i < size ==> final(cs).holds_num(#[trigger] v[i]) && v[i].value.value() == pow(
                    r.value.value() as int,
                    i as nat,
                ) % (modulus() as int) && v[i].var == Var::Aux((old(cs).aux.len() + i) as usize)
        },
        is_pow_layout(
            final(cs).constraints@,
            old(cs).constraints.len() as int,
            old(cs).aux.len() as int,
            r.var,
            size as int,
        ),
        forall|w: Seq<Scalar>|
            assignment_wf(w) && w.len() == final(cs).aux.len() && #[trigger] holds_between(
                final(cs).constraints@,
                old(cs).constraints.len() as int,
                old(cs).constraints.len() + size - 1,
                w,
            ) ==> forall|i: int|
                0 <= i < size ==> #[trigger] w[old(cs).aux.len() + i].value() == (w[old(
                    cs,
                ).aux.len() as int].value() * pow(var_value(w, r.var) as int, i as nat)) % (
                modulus() as int),
{
    let ghost old_cs = *cs;
    let ghost rv = r.value.value() as int;
    let ghost m = modulus() as int;
    let ghost c0 = old_cs.constraints.len() as int;
    let ghost a0 = old_cs.aux.len() as int;
    let mut result: Vec<AllocatedNum> = Vec::new();
    let mut current = AllocatedNum::allocate(cs, Scalar::one());
    proof {
        reveal(pow);
        lemma_small_mod(1, modulus());
        lemma_grows_refl(old_cs);
        lemma_extends_keeps(old_cs, old_cs, *cs);
    }
    result.push(current);
    let mut i: usize = 1;
    while i < size
        invariant
            old_cs.wf(),
            old_cs.holds_num(*r),
            rv == r.value.value() as int,
            m == modulus() as int,
            c0 == old_cs.constraints.len() as int,
            a0 == old_cs.aux.len() as int,
            old_cs.aux.len() + size + 1 <= usize::MAX,
            grows(*cs, old_cs),
            cs.challenges@ == old_cs.challenges@,
            1 <= i,
            i <= size || (size == 0 && i == 1),
            cs.aux@.len() == old_cs.aux@.len() + i,
            cs.constraints@.len() == old_cs.constraints@.len() + i - 1,
            result.len() == i,
            current == result[i - 1],
            forall|j: int|
                0 <= j < i ==> cs.holds_num(#[trigger] result[j]) && result[j].value.value() == pow(
                    rv,
                    j as nat,
                ) % m && result[j].var == Var::Aux((a0 + j) as usize),
            is_pow_layout(cs.constraints@, c0, a0, r.var, i as int),
        decreases size - i,
    {
        let ghost before = *cs;
        proof {
            lemma_grows_refl(old_cs);
            lemma_extends_keeps(old_cs, old_cs, before);
        }
        let next = current.mul(cs, r);
        proof {
            lemma_grows_refl(before);
            lemma_extends_keeps(before, before, *cs);
            lemma_grows_trans(old_cs, before, *cs);
            let pc = pow(rv, (i - 1) as nat);
            reveal(pow);
            assert(pow(rv, i as nat) == rv * pc);
            lemma_mul_mod_noop_left(pc, rv, m);
            assert(pc * rv == rv * pc) by (nonlinear_arith);
            lemma_constraints_kept(before.constraints@, cs.constraints@);
            assert forall|j: int|
                1 <= j < i + 1 implies is_mul_constraint(
                #[trigger] cs.constraints@[c0 + j - 1],
                Var::Aux((a0 + j - 1) as usize),
                r.var,
                Var::Aux((a0 + j) as usize),
            ) by {
                if j < i {
                    assert(cs.constraints@[c0 + j - 1] == before.constraints@[c0 + j - 1]);
                }
            }
        }
        result.push(next);
        current = next;
        i = i + 1;
    }
    proof {
        let fin = *cs;
        assert forall|w: Seq<Scalar>|
            assignment_wf(w) && w.len() == fin.aux.len() && #[trigger] holds_between(
                fin.constraints@,
                c0,
                c0 + size - 1,
                w,
            ) implies forall|k: int|
                0 <= k < size ==> #[trigger] w[a0 + k].value() == (w[a0].value() * pow(
                    var_value(w, r.var) as int,
                    k as nat,
                )) % m by {
            assert forall|k: int| 0 <= k < size implies #[trigger] w[a0 + k].value() == (
            w[a0].value() * pow(var_value(w, r.var) as int, k as nat)) % m by {
                lemma_pow_layout_sound(fin.constraints@, c0, a0, r.var, size as int, w, k);
            }
        }
    }
    if size == 0 {
        proof {
            assert(cs.constraints@ =~= old_cs.constraints@);
        }
        return Err(SynthesisError::UnconstrainedVariable);
    }
    Ok(result)
}

/// Whatever the assignment, power constraints laid out as by [`pow_vec`]
/// that all hold, over canonical values, give variable `i` the first
/// variable's value times `r^i`, in the field.
pub proof fn lemma_pow_layout_sound(
    constraints: Seq<Constraint>,
    c0: int,
    a0: int,
    r: Var,
    size: int,
    w: Seq<Scalar>,
    i: int,
)
    requires
        is_pow_layout(constraints, c0, a0, r, size),
        0 <= c0,
        c0 + size - 1 <= constraints.len(),
        0 <= a0,
        a0 + size <= usize::MAX,
        holds_between(constraints, c0, c0 + size - 1, w),
        assignment_wf(w),
        a0 + size <= w.len(),
        0 <= i < size,
    ensures
        w[a0 + i].value() == (w[a0].value() * pow(var_value(w, r) as int, i as nat)) % (
        modulus() as int),
    decreases i,
{
    let m = modulus() as int;
    let rv = var_value(w, r) as int;
    let w0 = w[a0].value() as int;
    assert(w[a0 + i].wf());
    if i == 0 {
        reveal(pow);
        assert(pow(rv, 0) == 1);
        assert(w0 * 1 == w0);
        lemma_small_mod(w[a0].value(), modulus());
    } else {
        lemma_pow_layout_sound(constraints, c0, a0, r, size, w, i - 1);
        let k = constraints[c0 + i - 1];
        assert(is_mul_constraint(k, Var::Aux((a0 + i - 1) as usize), r, Var::Aux((a0 + i) as usize)));
        assert(constraint_holds(k, w));
        lemma_mul_constraint_sound(k, Var::Aux((a0 + i - 1) as usize), r, Var::Aux((a0 + i) as usize), w);
        let prev = w[a0 + i - 1].value() as int;
        let cur = w[a0 + i].value() as int;
        assert(var_value(w, Var::Aux((a0 + i - 1) as usize)) == prev);
        assert(var_value(w, Var::Aux((a0 + i) as usize)) == cur);
        let pc = pow(rv, (i - 1) as nat);
        assert(prev == (w0 * pc) % m);
        reveal(pow);
        assert(pow(rv, i as nat) == rv * pc);
        lemma_small_mod(w[a0 + i].value(), modulus());
        assert(cur == (prev * rv) % m);
        lemma_mul_mod_noop_left(w0 * pc, rv, m);
        assert(w0 * pc * rv == w0 * (rv * pc)) by (nonlinear_arith);
    }
}

/// A public address is never excluded: its hash equals its own public hash.
pub proof fn lemma_public_address_not_excluded(address: Seq<u8>)
    requires
        is_public_address(address),
    ensures
        !excluded(address),
{
    let j = choose|j: int| 0 <= j < 5 && address == #[trigger] spec_public_address(j);
    let r = challenge_point(address) as int;
    assert(address_hash(address, r) == address_hash(spec_public_address(j), r));
}

/// The constraint is `q * (h - p) == 1`, the difference written with the
/// coefficients one and minus one.
pub open spec fn is_inverse_constraint(c: Constraint, q: Var, h: Var, p: Var) -> bool {
    &&& is_single(c.a@, q)
    &&& c.b@.len() == 2
    &&& is_unit_term(c.b@[0], h)
    &&& c.b@[1].var == p
    &&& c.b@[1].coeff.value() == modulus() - 1
    &&& is_single(c.c@, Var::One)
}

/// Allocates the inverse of `h - p` (zero when `h == p`) and constrains
/// `inverse * (h - p) == 1`, which holds exactly when `h` and `p` differ.
pub fn enforce_not_equal(cs: &mut ConstraintSystem, h: &AllocatedNum, p: &AllocatedNum)
    requires
        old(cs).wf(),
        old(cs).holds_num(*h),
        old(cs).holds_num(*p),
    ensures
        final(cs).wf(),
        final(cs).extends(&*old(cs)),
        final(cs).satisfied() <==> (old(cs).satisfied() && h.value.value() != p.value.value()),
        final(cs).aux@.len() == old(cs).aux@.len() + 1,
        final(cs).aux@.subrange(0, old(cs).aux.len() as int) == old(cs).aux@,
        constraint_holds(final(cs).constraints@.last(), final(cs).aux@) <==> h.value.value()
            != p.value.value(),
        h.value.value() == p.value.value() ==> final(cs).aux@.last().value() == 0,
        h.value.value() != p.value.value() ==> (final(cs).aux@.last().value() * (h.value.value()
            - p.value.value())) % (modulus() as int) == 1,
        final(cs).constraints@.len() == old(cs).constraints@.len() + 1,
        is_inverse_constraint(
            final(cs).constraints@.last(),
            Var::Aux(old(cs).aux.len()),
            h.var,
            p.var,
        ),
        final(cs).challenges@ == old(cs).challenges@,
{
    let ghost before = *cs;
    let ghost m = modulus() as int;
    let zero = Scalar::zero();
    let one = Scalar::one();
    let minus_one = scalar_sub(&zero, &one);
    proof {
        lemma_small_mod((m - 1) as nat, m as nat);
    }
    let a = h.value;
    let b = p.value;
    let diff = scalar_sub(&a, &b);
    let inv = match scalar_invert(&diff) {
        Some(x) => x,
        None => Scalar::zero(),
    };
    let q = cs.alloc_var(inv);
    let ghost after_alloc = *cs;
    let lc_a = unit_lc(q);
    let mut lc_b: Vec<Term> = Vec::new();
    lc_b.push(Term { var: h.var, coeff: one });
    lc_b.push(Term { var: p.var, coeff: minus_one });
    let lc_c = unit_lc(Var::One);
    proof {
        assert(after_alloc.aux@.subrange(0, before.aux@.len() as int) =~= before.aux@);
        lemma_aux_prefix(before.aux@, after_alloc.aux@);
        lemma_lc_single_wf(lc_a@, q, after_alloc.aux.len() as nat);
        lemma_lc_single_wf(lc_c@, Var::One, after_alloc.aux.len() as nat);
        assert(lc_wf(lc_b@, after_alloc.aux.len() as nat));
    }
    cs.enforce(lc_a, lc_b, lc_c);
    proof {
        let aux = cs.aux@;
        let last = cs.constraints@.last();
        let ah = a.value() as int;
        let ph = b.value() as int;
        let iv = inv.value() as int;
        assert(cs.aux@.subrange(0, before.aux@.len() as int) =~= before.aux@);
        assert(cs.constraints@.subrange(0, before.constraints@.len() as int)
            =~= before.constraints@);
        assert(cs.challenges@.subrange(0, before.challenges@.len() as int)
            =~= before.challenges@);
        lemma_aux_prefix(before.aux@, aux);
        lemma_lc_single_value(last.a@, q, aux);
        lemma_lc_single_value(last.c@, Var::One, aux);
        assert(last.b@ =~= seq![last.b@[0], last.b@[1]]);
        lemma_lc_value_two_terms(last.b@[0], last.b@[1], aux);
        assert(var_value(aux, q) == iv);
        assert(var_value(aux, h.var) == ah);
        assert(var_value(aux, p.var) == ph);
        let bb = ah + (m - 1) * ph;
        assert(lc_value(last.b@, aux) == bb);
        assert(lc_value(last.a@, aux) == iv);
        assert(lc_value(last.c@, aux) == 1);
        lemma_small_mod(1, m as nat);
        assert(bb == m * ph + (ah - ph));
        lemma_mod_multiples_vanish(ph, ah - ph, m);
        assert(bb % m == (ah - ph) % m);
        lemma_mul_mod_noop_right(iv, bb, m);
        lemma_mul_mod_noop_right(iv, ah - ph, m);
        if ah == ph {
            assert((ah - ph) % m == 0);
            assert(cs.aux@.last() == inv);
            assert(iv * 0 == 0) by (nonlinear_arith);
            assert(!constraint_holds(last, aux));
        } else {
            assert((ah - ph) % m != 0) by {
                if ah > ph {
                    lemma_small_mod((ah - ph) as nat, m as nat);
                } else {
                    lemma_small_mod((ah - ph + m) as nat, m as nat);
                    lemma_mod_add_multiples_vanish(ah - ph, m);
                }
            }
            assert(diff.value() == (ah - ph) % m);
            assert(iv * diff.value() == diff.value() * iv) by (nonlinear_arith);
            assert(constraint_holds(last, aux));
            assert(cs.aux@.last() == inv);
        }
        lemma_extension_satisfied_iff(before, *cs);
        assert(appended_hold(*cs, before) <==> constraint_holds(last, aux)) by {
            if constraint_holds(last, aux) {
                assert forall|i: int|
                    before.constraints.len() <= i < cs.constraints.len() implies constraint_holds(
                    #[trigger] cs.constraints[i],
                    cs.aux@,
                ) by {
                    assert(i == cs.constraints.len() - 1);
                }
            }
        }
    }
}


/// Whatever the assignment, a constraint `q * (h - p) == 1` that holds forces
/// `h` and `p` to hold different field elements: equal values have no inverse.
pub proof fn lemma_inverse_constraint_sound(c: Constraint, q: Var, h: Var, p: Var, aux: Seq<Scalar>)
    requires
        is_inverse_constraint(c, q, h, p),
        constraint_holds(c, aux),
        var_value(aux, h) < modulus(),
        var_value(aux, p) < modulus(),
    ensures
        var_value(aux, h) != var_value(aux, p),
{
    let m = modulus() as int;
    let hv = var_value(aux, h) as int;
    let pv = var_value(aux, p) as int;
    let qv = var_value(aux, q) as int;
    lemma_lc_single_value(c.a@, q, aux);
    lemma_lc_single_value(c.c@, Var::One, aux);
    assert(c.b@ =~= seq![c.b@[0], c.b@[1]]);
    lemma_lc_value_two_terms(c.b@[0], c.b@[1], aux);
    let bb = hv + (m - 1) * pv;
    assert(lc_value(c.b@, aux) == bb);
    lemma_small_mod(1, m as nat);
    if hv == pv {
        assert(bb == m * pv);
        assert(qv * bb == (qv * pv) * m) by (nonlinear_arith)
            requires
                bb == m * pv,
        ;
        lemma_mod_multiples_basic(qv * pv, m);
        assert((lc_value(c.a@, aux) * lc_value(c.b@, aux)) % m == 0);
    }
}

/// The values that the circuit assigns for `address`, its variables starting
/// at `a0`: the address bytes, the challenge `r`, the first power (one), the
/// hash of the address, the hash of each public address and each inverse
/// witness.
pub open spec fn is_exclusion_witness(aux: Seq<Scalar>, a0: int, address: Seq<u8>) -> bool {
    let r = challenge_point(address) as int;
    &&& var_values(aux, address_vars(a0)) == byte_values(address)
    &&& aux[challenge_var(a0)].value() == r
    &&& aux[a0 + 311].value() == 1
    &&& aux[address_hash_var(a0)].value() == address_hash(address, r)
    &&& forall|j: int|
        0 <= j < 5 ==> #[trigger] is_inverse_witness(
            aux,
            a0,
            j,
            address_hash(address, r),
            address_hash(spec_public_address(j), r),
        )
}

/// The hash of public address `j` holds `p`, and its inverse witness is the
/// inverse of `h - p`, or zero where `h == p`.
pub open spec fn is_inverse_witness(aux: Seq<Scalar>, a0: int, j: int, h: nat, p: nat) -> bool {
    &&& aux[public_hash_var(a0, j)].value() == p
    &&& h == p ==> aux[inverse_var(a0, j)].value() == 0
    &&& h != p ==> (aux[inverse_var(a0, j)].value() * (h - p)) % (modulus() as int) == 1
}

impl ExclusionCircuit {
    /// Builds the circuit in `cs`: allocates the private address and the
    /// public addresses (these fixed by constant constraints), squeezes the
    /// challenge bits from the private address, turns them into the challenge
    /// `r`, allocates the powers of `r`, hashes every address with them, and
    /// for each public address allocates the inverse of the difference of the
    /// hashes (zero when there is none) and constrains
    /// `inverse * (hash - public hash) == 1`. Returns `z` unchanged; it
    /// never fails.
    #[verifier::rlimit(100)]
    #[verifier::spinoff_prover]
    pub fn synthesize(&self, cs: &mut ConstraintSystem, z: &Vec<AllocatedNum>) -> (res: Result<
        Vec<AllocatedNum>,
        SynthesisError,
    >)
        requires
            old(cs).wf(),
            old(cs).aux.len() + 1000 <= usize::MAX,
        ensures
            final(cs).wf(),
            final(cs).extends(&*old(cs)),
            final(cs).satisfied() <==> (old(cs).satisfied() && excluded(self@)),
            final(cs).aux@.len() == old(cs).aux@.len() + 452,
            final(cs).constraints@.len() == old(cs).constraints@.len() + 191,
            final(cs).challenges@.len() == old(cs).challenges@.len() + 1,
            res matches Ok(out) && out@ == z@,
            is_exclusion_layout(
                final(cs).constraints@,
                old(cs).constraints.len() as int,
                old(cs).aux.len() as int,
            ),
            is_challenge_layout(final(cs).challenges@.last(), old(cs).aux.len() as int),
            is_exclusion_witness(final(cs).aux@, old(cs).aux.len() as int, self@),
            holds_between(
                final(cs).constraints@,
                old(cs).constraints.len() as int,
                old(cs).constraints.len() + 186,
                final(cs).aux@,
            ),
            challenge_holds(final(cs).challenges@.last(), final(cs).aux@),
            forall|j: int|
                0 <= j < 5 ==> (constraint_holds(
                    #[trigger] final(cs).constraints@[old(cs).constraints.len() + 186 + j],
                    final(cs).aux@,
                ) <==> address_hash(self@, challenge_point(self@) as int) != address_hash(
                    spec_public_address(j),
                    challenge_point(self@) as int,
                )),
            forall|w: Seq<Scalar>|
                assignment_wf(w) && w.len() == final(cs).aux.len() && #[trigger] holds_between(
                    final(cs).constraints@,
                    old(cs).constraints.len() as int,
                    old(cs).constraints.len() + 191,
                    w,
                ) ==> shows_exclusion(w, old(cs).aux.len() as int),
            forall|w: Seq<Scalar>|
                assignment_wf(w) && w.len() == final(cs).aux.len() && #[trigger] holds_between(
                    final(cs).constraints@,
                    old(cs).constraints.len() as int,
                    old(cs).constraints.len() + 191,
                    w,
                ) && challenge_holds(final(cs).challenges@.last(), w) ==> shows_challenge(
                    w,
                    old(cs).aux.len() as int,
                ),
    {
        let ghost old_cs = *cs;
        let ghost m = modulus() as int;
        let ghost c0 = old_cs.constraints.len() as int;
        let ghost a0 = old_cs.aux.len() as int;
        let (address, pub_addresses) = self.alloc_witness(cs);
        let ghost c1 = *cs;
        let r_bits = squeeze_challenge(cs, &address.value, NUM_CHALLENGE_BITS);
        let ghost c2 = *cs;
        proof {
            lemma_grows_trans(old_cs, c1, c2);
            lemma_grows_refl(c1);
            lemma_extends_keeps(c1, c1, c2);
            assert(bit_vars(r_bits@) =~= challenge_bit_vars(a0));
            assert(num_vars(address.value@)[0] == address.value@[0].var);
            let ch = c2.challenges@.last();
            assert forall|i: int| 0 <= i < 10 implies #[trigger] ch.inputs@[i] == a0 + i by {
                assert(num_vars(address.value@)[i] == address.value@[i].var);
                assert(address_vars(a0)[i] == Var::Aux((a0 + i) as usize));
            }
            assert(is_challenge_layout(ch, a0));
        }
        let hash = le_bits_to_num(cs, &r_bits);
        let ghost c3 = *cs;
        let ghost rp = challenge_point(self@) as int;
        proof {
            lemma_grows_trans(old_cs, c2, c3);
            assert(num_values(address.value@) =~= byte_values(self@));
            assert(bit_bools(r_bits@) =~= squeezed_bits(byte_values(self@), 250));
            assert(hash.value.value() == rp);
            assert(c3.constraints@[c0 + 50] == c3.constraints@.last());
        }
        let basis = match pow_vec(cs, &hash, ADDRESS_SIZE) {
            Ok(b) => b,
            Err(_) => {
                proof {
                    assert(false);
                }
                Vec::new()
            },
        };
        let ghost c4 = *cs;
        proof {
            lemma_grows_trans(old_cs, c3, c4);
            lemma_extends_keeps(c1, c2, c3);
            lemma_extends_keeps(c1, c3, c4);
            lemma_keeps_address(c1, c4, address, self@);
            assert(num_vars(basis@) =~= basis_vars(a0));
        }
        let address_hash_num = address.hash(cs, &basis);
        let ghost c5 = *cs;
        proof {
            lemma_grows_trans(old_cs, c4, c5);
            lemma_grows_refl(c4);
            lemma_extends_keeps(c4, c4, c5);
            assert(num_values(basis@).len() == 10);
            lemma_dot_powers(num_values(basis@), self@, rp);
            assert(address_hash_num.value.value() == address_hash(self@, rp));
            lemma_grows_refl(c5);
            lemma_extends_keeps(c1, c4, c5);
        }
        let mut public_hashes: Vec<AllocatedNum> = Vec::new();
        let mut j: usize = 0;
        while j < 5
            invariant
                old_cs.wf(),
                m == modulus() as int,
                c0 == old_cs.constraints.len() as int,
                a0 == old_cs.aux.len() as int,
                grows(*cs, c5),
                grows(c5, old_cs),
                c5.extends(&c1),
                c5.challenges@.len() == old_cs.challenges@.len() + 1,
                cs.challenges@ == c5.challenges@,
                c5.aux@.len() == old_cs.aux@.len() + 342,
                c5.constraints@.len() == old_cs.constraints@.len() + 81,
                cs.aux@.len() == c5.aux@.len() + 21 * j,
                cs.constraints@.len() == c5.constraints@.len() + 21 * j,
                old_cs.aux.len() + 1000 <= usize::MAX,
                basis.len() == 10,
                num_vars(basis@) == basis_vars(a0),
                forall|i: int| 0 <= i < 10 ==> c5.holds_num(#[trigger] basis[i]) && basis[i].value.value() == pow(rp, i as nat) % m,
                pub_addresses.len() == 5,
                forall|k: int| 0 <= k < 5 ==> (#[trigger] pub_addresses[k]).allocates(c1, spec_public_address(k))
                    && num_vars(pub_addresses[k].value@) == public_address_vars(a0, k),
                cs.holds_num(address_hash_num),
                address_hash_num.value.value() == address_hash(self@, rp),
                0 <= j <= 5,
                public_hashes.len() == j,
                forall|k: int|
                    0 <= k < j ==> cs.holds_num(#[trigger] public_hashes[k])
                        && public_hashes[k].value.value() == address_hash(spec_public_address(k), rp)
                        && public_hashes[k].var == Var::Aux(public_hash_var(a0, k) as usize),
                forall|k: int|
                    0 <= k < j ==> is_hash_layout(
                        cs.constraints@,
                        c0 + 81 + 21 * k,
                        #[trigger] public_hash_var(a0, k) - 20,
                        basis_vars(a0),
                        public_address_vars(a0, k),
                        10,
                    ),
            decreases 5 - j,
        {
            let ghost before = *cs;
            proof {
                lemma_grows_refl(c5);
                lemma_extends_keeps(c1, c5, before);
                lemma_keeps_address(c1, before, pub_addresses[j as int], spec_public_address(j as int));
                lemma_extends_keeps(c5, c5, before);
            }
            let h = pub_addresses[j].hash(cs, &basis);
            proof {
                lemma_extends_keeps(c5, before, *cs);
                lemma_grows_trans(c5, before, *cs);
                assert(num_values(basis@).len() == 10);
                lemma_dot_powers(num_values(basis@), spec_public_address(j as int), rp);
                assert(num_values(pub_addresses[j as int].value@) =~= byte_values(spec_public_address(j as int)));
                assert forall|k: int| 0 <= k < j implies cs.holds_num(#[trigger] public_hashes[k]) by {
                    assert(before.holds_num(public_hashes[k]));
                }
                assert forall|k: int|
                    0 <= k < j + 1 implies is_hash_layout(
                        cs.constraints@,
                        c0 + 81 + 21 * k,
                        #[trigger] public_hash_var(a0, k) - 20,
                        basis_vars(a0),
                        public_address_vars(a0, k),
                        10,
                    ) by {
                    if k < j {
                        lemma_hash_layout_kept(
                            before.constraints@,
                            cs.constraints@,
                            c0 + 81 + 21 * k,
                            public_hash_var(a0, k) - 20,
                            basis_vars(a0),
                            public_address_vars(a0, k),
                            10,
                        );
                    }
                }
            }
            public_hashes.push(h);
            j = j + 1;
        }
        let ghost c6 = *cs;
        proof {
            lemma_grows_trans(old_cs, c5, c6);
            lemma_grows_refl(c6);
        }
        let mut k: usize = 0;
        while k < 5
            invariant
                old_cs.wf(),
                c6.wf(),
                m == modulus() as int,
                c0 == old_cs.constraints.len() as int,
                a0 == old_cs.aux.len() as int,
                grows(c6, old_cs),
                cs.wf(),
                cs.extends(&c6),
                cs.satisfied() <==> (c6.satisfied() && forall|i: int| 0 <= i < k ==> address_hash_num.value.value() != (#[trigger] public_hashes[i]).value.value()),
                cs.challenges@ == c6.challenges@,
                c6.challenges@.len() == old_cs.challenges@.len() + 1,
                c6.aux@.len() == old_cs.aux@.len() + 447,
                c6.constraints@.len() == old_cs.constraints@.len() + 186,
                cs.aux@.len() == c6.aux@.len() + k,
                cs.constraints@.len() == c6.constraints@.len() + k,
                old_cs.aux.len() + 1000 <= usize::MAX,
                c6.holds_num(address_hash_num),
                address_hash_num.var == Var::Aux(address_hash_var(a0) as usize),
                address_hash_num.value.value() == address_hash(self@, rp),
                forall|i: int| 0 <= i < 5 ==> (#[trigger] public_hashes[i]).value.value()
                    == address_hash(spec_public_address(i), rp),
                public_hashes.len() == 5,
                forall|i: int| 0 <= i < 5 ==> c6.holds_num(#[trigger] public_hashes[i])
                    && public_hashes[i].var == Var::Aux(public_hash_var(a0, i) as usize),
                0 <= k <= 5,
                forall|i: int|
                    0 <= i < k ==> is_inverse_constraint(
                        #[trigger] cs.constraints@[c0 + 186 + i],
                        Var::Aux(inverse_var(a0, i) as usize),
                        Var::Aux(address_hash_var(a0) as usize),
                        Var::Aux(public_hash_var(a0, i) as usize),
                    ),
                forall|i: int|
                    0 <= i < k ==> (constraint_holds(#[trigger] cs.constraints@[c0 + 186 + i], cs.aux@)
                        <==> address_hash_num.value.value() != public_hashes[i].value.value()),
                forall|i: int|
                    0 <= i < k ==> #[trigger] is_inverse_witness(
                        cs.aux@,
                        a0,
                        i,
                        address_hash_num.value.value(),
                        public_hashes[i].value.value(),
                    ),
            decreases 5 - k,
        {
            let ghost before = *cs;
            proof {
                lemma_grows_refl(c6);
                lemma_extends_keeps(c6, c6, before);
                assert(before.holds_num(public_hashes[k as int]));
                assert(before.holds_num(address_hash_num));
            }
            enforce_not_equal(cs, &address_hash_num, &public_hashes[k]);
            proof {
                lemma_extends_keeps(c6, before, *cs);
                lemma_constraints_kept(before.constraints@, cs.constraints@);
                lemma_aux_prefix(before.aux@, cs.aux@);
                assert(cs.satisfied() <==> (c6.satisfied() && forall|i: int| 0 <= i < k + 1 ==> address_hash_num.value.value() != (#[trigger] public_hashes[i]).value.value()));
                assert forall|i: int|
                    0 <= i < k + 1 implies is_inverse_constraint(
                        #[trigger] cs.constraints@[c0 + 186 + i],
                        Var::Aux(inverse_var(a0, i) as usize),
                        Var::Aux(address_hash_var(a0) as usize),
                        Var::Aux(public_hash_var(a0, i) as usize),
                    ) by {
                    if i < k {
                        assert(cs.constraints@[c0 + 186 + i] == before.constraints@[c0 + 186 + i]);
                    }
                }
                assert forall|i: int|
                    0 <= i < k + 1 implies (constraint_holds(#[trigger] cs.constraints@[c0 + 186 + i], cs.aux@)
                        <==> address_hash_num.value.value() != public_hashes[i].value.value()) by {
                    if i < k {
                        let ki = before.constraints@[c0 + 186 + i];
                        assert(cs.constraints@[c0 + 186 + i] == ki);
                        assert(constraint_wf(ki, before.aux.len() as nat));
                        lemma_constraint_holds_extends(ki, before.aux@, cs.aux@);
                    }
                }
                assert forall|i: int|
                    0 <= i < k + 1 implies #[trigger] is_inverse_witness(
                        cs.aux@,
                        a0,
                        i,
                        address_hash_num.value.value(),
                        public_hashes[i].value.value(),
                    ) by {
                    assert(c6.holds_num(public_hashes[i]));
                    assert(cs.aux@[public_hash_var(a0, i)] == c6.aux@[public_hash_var(a0, i)]) by {
                        lemma_aux_prefix(c6.aux@, cs.aux@);
                    }
                    if i < k {
                        assert(is_inverse_witness(before.aux@, a0, i, address_hash_num.value.value(), public_hashes[i].value.value()));
                        assert(cs.aux@[inverse_var(a0, i)] == before.aux@[inverse_var(a0, i)]);
                    } else {
                        assert(cs.aux@[inverse_var(a0, i)] == cs.aux@.last());
                    }
                }
            }
            k = k + 1;
        }
        proof {
            let fin = *cs;
            lemma_extends_keeps(c1, c5, c6);
            lemma_extends_keeps(c3, c4, c5);
            lemma_extends_keeps(c3, c5, c6);
            lemma_extends_keeps(c4, c5, c6);
            lemma_extends_keeps(c1, c6, fin);
            lemma_extends_keeps(c3, c6, fin);
            lemma_extends_keeps(c4, c6, fin);
            lemma_extends_keeps(c5, c6, fin);
            lemma_constraints_kept(c6.constraints@, fin.constraints@);
            lemma_constraints_kept(c4.constraints@, fin.constraints@);
            lemma_constraints_kept(c3.constraints@, fin.constraints@);
            lemma_constraints_kept(c1.constraints@, fin.constraints@);
            assert(is_exclusion_layout(fin.constraints@, c0, a0)) by {
                reveal(is_exclusion_layout);
                assert(is_public_list_layout(fin.constraints@, c0, a0)) by {
                    assert forall|j: int, i: int|
                        0 <= j < 5 && 0 <= i < 10 implies is_constant_constraint(
                            #[trigger] fin.constraints@[c0 + 10 * j + i],
                            Var::Aux((a0 + 10 + 10 * j + i) as usize),
                            #[trigger] spec_public_address(j)[i] as nat,
                        ) by {
                        assert(fin.constraints@[c0 + 10 * j + i] == c1.constraints@[c0 + 10 * j + i]);
                    }
                }
                assert(fin.constraints@[c0 + 50] == c3.constraints@[c0 + 50]);
                assert forall|i: int|
                    1 <= i < 10 implies is_mul_constraint(
                        #[trigger] fin.constraints@[c0 + 51 + i - 1],
                        Var::Aux((a0 + 311 + i - 1) as usize),
                        Var::Aux(challenge_var(a0) as usize),
                        Var::Aux((a0 + 311 + i) as usize),
                    ) by {
                    assert(fin.constraints@[c0 + 51 + i - 1] == c4.constraints@[c0 + 51 + i - 1]);
                }
                lemma_hash_layout_kept(c5.constraints@, fin.constraints@, c0 + 60, a0 + 321, basis_vars(a0), address_vars(a0), 10);
                assert forall|j: int|
                    0 <= j < 5 implies is_hash_layout(
                        fin.constraints@,
                        c0 + 81 + 21 * j,
                        #[trigger] public_hash_var(a0, j) - 20,
                        basis_vars(a0),
                        public_address_vars(a0, j),
                        10,
                    ) by {
                    lemma_hash_layout_kept(c6.constraints@, fin.constraints@, c0 + 81 + 21 * j, public_hash_var(a0, j) - 20, basis_vars(a0), public_address_vars(a0, j), 10);
                }
            }
            assert(is_exclusion_witness(fin.aux@, a0, self@)) by {
                assert(var_values(fin.aux@, address_vars(a0)) =~= byte_values(self@)) by {
                    lemma_keeps_address(c1, fin, address, self@);
                    assert forall|i: int| 0 <= i < 10 implies var_values(fin.aux@, address_vars(a0))[i] == byte_values(self@)[i] by {
                        assert(num_vars(address.value@)[i] == address.value@[i].var);
                        assert(fin.holds_num(address.value[i]));
                    }
                }
                assert(fin.holds_num(hash));
                assert(hash.var == Var::Aux(challenge_var(a0) as usize));
                assert(fin.holds_num(basis[0]));
                assert(basis[0].value.value() == 1) by {
                    reveal(pow);
                    lemma_small_mod(1, modulus());
                }
                assert(fin.holds_num(address_hash_num));
                assert forall|j: int| 0 <= j < 5 implies #[trigger] is_inverse_witness(
                    fin.aux@,
                    a0,
                    j,
                    address_hash(self@, rp),
                    address_hash(spec_public_address(j), rp),
                ) by {
                    assert(is_inverse_witness(fin.aux@, a0, j, address_hash_num.value.value(), public_hashes[j].value.value()));
                }
            }
            assert(holds_between(fin.constraints@, c0, c0 + 186, fin.aux@)) by {
                assert forall|i: int| c0 <= i < c0 + 186 implies constraint_holds(#[trigger] fin.constraints@[i], fin.aux@) by {
                    let ki = c6.constraints@[i];
                    assert(constraint_holds(c6.constraints[i], c6.aux@));
                    assert(constraint_wf(ki, c6.aux.len() as nat));
                    assert(fin.constraints@[i] == ki);
                    lemma_constraint_holds_extends(ki, c6.aux@, fin.aux@);
                }
            }
            assert(challenge_holds(fin.challenges@.last(), fin.aux@)) by {
                let ch = c6.challenges[old_cs.challenges.len() as int];
                assert(challenge_holds(ch, c6.aux@));
                assert(challenge_wf(ch, c6.aux.len() as nat));
                lemma_challenge_holds_extends(ch, c6.aux@, fin.aux@);
            }
            assert forall|w: Seq<Scalar>|
                assignment_wf(w) && w.len() == fin.aux.len() && #[trigger] holds_between(
                    fin.constraints@,
                    c0,
                    c0 + 191,
                    w,
                ) implies shows_exclusion(w, a0) by {
                lemma_exclusion_layout_sound(fin.constraints@, c0, a0, w);
            }
            assert(is_challenge_layout(fin.challenges@.last(), a0));
            assert forall|w: Seq<Scalar>|
                assignment_wf(w) && w.len() == fin.aux.len() && #[trigger] holds_between(
                    fin.constraints@,
                    c0,
                    c0 + 191,
                    w,
                ) && challenge_holds(fin.challenges@.last(), w) implies shows_challenge(w, a0) by {
                lemma_exclusion_challenge_sound(fin.constraints@, fin.challenges@.last(), c0, a0, w);
            }
            lemma_extends_keeps(old_cs, c6, *cs);
            assert(excluded(self@) <==> forall|i: int| 0 <= i < 5 ==> address_hash_num.value.value() != (#[trigger] public_hashes[i]).value.value()) by {
                if excluded(self@) {
                    assert forall|i: int| 0 <= i < 5 implies address_hash_num.value.value() != (#[trigger] public_hashes[i]).value.value() by {
                        assert(address_hash(self@, rp) != address_hash(spec_public_address(i), rp));
                    }
                } else {
                    let i = choose|i: int| 0 <= i < 5 && !(address_hash(self@, rp) != address_hash(#[trigger] spec_public_address(i), rp));
                    assert(public_hashes[i].value.value() == address_hash(spec_public_address(i), rp));
                }
            }
        }
        let mut out: Vec<AllocatedNum> = Vec::new();
        let mut i: usize = 0;
        while i < z.len()
            invariant
                0 <= i <= z.len(),
                out@ == z@.take(i as int),
            decreases z.len() - i,
        {
            out.push(z[i]);
            proof {
                assert(z@.take(i as int + 1) =~= z@.take(i as int).push(z[i as int]));
            }
            i = i + 1;
        }
        proof {
            assert(z@.take(z.len() as int) =~= z@);
        }
        Ok(out)
    }
}

/// The challenge bit variables when the circuit starts at auxiliary
/// variable `a0`.
pub open spec fn challenge_bit_vars(a0: int) -> Seq<Var> {
    Seq::new(250, |k: int| Var::Aux((a0 + 60 + k) as usize))
}

/// The variables of the powers `1, r, ..., r^9` when the circuit starts at
/// auxiliary variable `a0`.
pub open spec fn basis_vars(a0: int) -> Seq<Var> {
    Seq::new(10, |i: int| Var::Aux((a0 + 311 + i) as usize))
}

/// The variable of the challenge `r`.
pub open spec fn challenge_var(a0: int) -> int {
    a0 + 310
}

/// The variable of the private address's hash.
pub open spec fn address_hash_var(a0: int) -> int {
    a0 + 341
}

/// The variable of the hash of public address `j`.
pub open spec fn public_hash_var(a0: int, j: int) -> int {
    a0 + 362 + 21 * j
}

/// The variable of the inverse witness for public address `j`.
pub open spec fn inverse_var(a0: int, j: int) -> int {
    a0 + 447 + j
}

/// The challenge absorbs the private address variables and outputs to the
/// challenge bit variables.
pub open spec fn is_challenge_layout(ch: Challenge, a0: int) -> bool {
    &&& ch.inputs@.len() == 10
    &&& forall|i: int| 0 <= i < 10 ==> #[trigger] ch.inputs@[i] == a0 + i
    &&& ch.outputs@.len() == 250
    &&& forall|k: int| 0 <= k < 250 ==> #[trigger] ch.outputs@[k] == a0 + 60 + k
}

/// The constraints from `c0` on are those of [`ExclusionCircuit::synthesize`]
/// for a circuit whose variables start at `a0`, in order: the 50 constant
/// constraints of the public bytes; the challenge bits to `r`; each power
/// after the first (the first, variable `a0 + 311`, is free) times `r`; the
/// hash of the private address; the hash of each public
/// address; and for each public address `j`, `q_j * (h - p_j) == 1`. Nothing
/// in it depends on the private address.
#[verifier::opaque]
pub open spec fn is_exclusion_layout(constraints: Seq<Constraint>, c0: int, a0: int) -> bool {
    &&& is_public_list_layout(constraints, c0, a0)
    &&& is_bits_to_num_constraint(
        constraints[c0 + 50],
        challenge_bit_vars(a0),
        Var::Aux(challenge_var(a0) as usize),
    )
    &&& is_pow_layout(constraints, c0 + 51, a0 + 311, Var::Aux(challenge_var(a0) as usize), 10)
    &&& is_hash_layout(constraints, c0 + 60, a0 + 321, basis_vars(a0), address_vars(a0), 10)
    &&& forall|j: int|
        0 <= j < 5 ==> is_hash_layout(
            constraints,
            c0 + 81 + 21 * j,
            #[trigger] public_hash_var(a0, j) - 20,
            basis_vars(a0),
            public_address_vars(a0, j),
            10,
        )
    &&& forall|j: int|
        0 <= j < 5 ==> is_inverse_constraint(
            #[trigger] constraints[c0 + 186 + j],
            Var::Aux(inverse_var(a0, j) as usize),
            Var::Aux(address_hash_var(a0) as usize),
            Var::Aux(public_hash_var(a0, j) as usize),
        )
}

/// What an assignment that satisfies the circuit shows: the private address
/// hash differs from every public hash, and the private address variables do
/// not hold any public address.
pub open spec fn shows_exclusion(w: Seq<Scalar>, a0: int) -> bool {
    forall|j: int| 0 <= j < 5 ==> #[trigger] shows_not_public(w, a0, j)
}

/// Under `w`, the private address hash differs from the hash of public
/// address `j`, and the private address variables do not hold that address.
pub open spec fn shows_not_public(w: Seq<Scalar>, a0: int, j: int) -> bool {
    &&& w[address_hash_var(a0)].value() != w[public_hash_var(a0, j)].value()
    &&& var_values(w, address_vars(a0)) != byte_values(spec_public_address(j))
}

/// Whatever the assignment, if it is canonical and the constant constraints
/// of the public list hold, the public address variables hold the public
/// addresses.
pub proof fn lemma_public_list_layout_sound(constraints: Seq<Constraint>, c0: int, a0: int, w: Seq<Scalar>)
    requires
        is_public_list_layout(constraints, c0, a0),
        holds_between(constraints, c0, c0 + 50, w),
        assignment_wf(w),
        0 <= a0,
        a0 + 60 <= w.len(),
        a0 + 60 <= usize::MAX,
    ensures
        forall|j: int|
            0 <= j < 5 ==> var_values(w, #[trigger] public_address_vars(a0, j)) == byte_values(
                spec_public_address(j),
            ),
{
    assert forall|j: int| 0 <= j < 5 implies var_values(w, #[trigger] public_address_vars(a0, j))
        == byte_values(spec_public_address(j)) by {
        let pubs = public_address_vars(a0, j);
        assert forall|i: int| 0 <= i < 10 implies var_values(w, pubs)[i] == byte_values(
            spec_public_address(j),
        )[i] by {
            let ki = constraints[c0 + 10 * j + i];
            let v = Var::Aux((a0 + 10 + 10 * j + i) as usize);
            assert(is_constant_constraint(ki, v, spec_public_address(j)[i] as nat));
            assert(constraint_holds(ki, w));
            assert(w[a0 + 10 + 10 * j + i].wf());
            lemma_constant_constraint_sound(ki, v, spec_public_address(j)[i] as nat, w);
        }
        assert(var_values(w, pubs) =~= byte_values(spec_public_address(j)));
    }
}

/// Whatever the assignment, if it is canonical and every constraint of the
/// exclusion circuit holds, the private address hash differs from each
/// public hash and the private address is none of the public addresses.
pub proof fn lemma_exclusion_layout_sound(constraints: Seq<Constraint>, c0: int, a0: int, w: Seq<Scalar>)
    requires
        is_exclusion_layout(constraints, c0, a0),
        0 <= c0,
        0 <= a0,
        a0 + 452 <= usize::MAX,
        c0 + 191 <= constraints.len(),
        holds_between(constraints, c0, c0 + 191, w),
        assignment_wf(w),
        a0 + 452 <= w.len(),
    ensures
        shows_exclusion(w, a0),
{
    reveal(is_exclusion_layout);
    let h = address_hash_var(a0);
    assert forall|j: int| 0 <= j < 5 implies #[trigger] shows_not_public(w, a0, j) by {
        let p = public_hash_var(a0, j);
        let q = inverse_var(a0, j);
        let k = constraints[c0 + 186 + j];
        assert(constraint_holds(k, w));
        assert(w[h].wf());
        assert(w[p].wf());
        lemma_inverse_constraint_sound(k, Var::Aux(q as usize), Var::Aux(h as usize), Var::Aux(p as usize), w);
        if var_values(w, address_vars(a0)) == byte_values(spec_public_address(j)) {
            let basis = basis_vars(a0);
            let pubs = public_address_vars(a0, j);
            assert(holds_between(constraints, c0 + 60, c0 + 81, w));
            lemma_hash_layout_sound(constraints, c0 + 60, a0 + 321, basis, address_vars(a0), 10, w);
            assert(holds_between(constraints, c0 + 81 + 21 * j, c0 + 81 + 21 * j + 21, w));
            lemma_hash_layout_sound(constraints, c0 + 81 + 21 * j, p - 20, basis, pubs, 10, w);
            assert(holds_between(constraints, c0, c0 + 50, w));
            lemma_public_list_layout_sound(constraints, c0, a0, w);
            assert(var_values(w, pubs) == byte_values(spec_public_address(j)));
            assert(basis.take(10) =~= basis);
            assert(pubs.take(10) =~= pubs);
            assert(address_vars(a0).take(10) =~= address_vars(a0));
        }
    }
}

/// The first `n` binary digits of `x` make up `x` modulo `2^n`.
pub proof fn lemma_low_bits_value(x: nat, n: nat)
    ensures
        bits_value(Seq::new(n, |k: int| nth_bit(x, k as nat))) == x % pow2(n),
    decreases n,
{
    let s = Seq::new(n, |k: int| nth_bit(x, k as nat));
    vstd::arithmetic::power2::lemma_pow2_pos(n);
    if n == 0 {
        vstd::arithmetic::power2::lemma2_to64();
        assert(x % 1 == 0);
    } else {
        let m = (n - 1) as nat;
        let p = pow2(m);
        vstd::arithmetic::power2::lemma_pow2_pos(m);
        assert(s.drop_last() =~= Seq::new(m, |k: int| nth_bit(x, k as nat)));
        lemma_low_bits_value(x, m);
        vstd::arithmetic::power2::lemma_pow2_unfold(n);
        assert(pow2(n) == p * 2);
        lemma_mod_breakdown(x as int, p as int, 2);
        let b = (x / p) % 2;
        let bv = bit_value(s.last()) as int;
        assert(bv == b);
        assert(bv * p == p * b) by (nonlinear_arith)
            requires
                bv == b,
        ;
    }
}

/// The challenge point is the Poseidon hash of the address bytes cut to its
/// [`NUM_CHALLENGE_BITS`] low bits: no reduction in the field takes place.
pub proof fn lemma_challenge_point_is_squeeze(address: Seq<u8>)
    ensures
        challenge_point(address) == poseidon_hash(byte_values(address)) % pow2(250),
{
    let h = poseidon_hash(byte_values(address));
    let x = squeezed_value(byte_values(address), 250);
    let bits = squeezed_bits(byte_values(address), 250);
    lemma_squeezed_value_is_low_bits(byte_values(address), 250);
    assert(bits =~= Seq::new(250, |k: int| nth_bit(x, k as nat)));
    lemma_low_bits_value(x, 250);
    lemma_challenge_fits_the_field(bits);
    vstd::arithmetic::power2::lemma_pow2_pos(250);
    lemma_mod_twice(h as int, pow2(250) as int);
}

/// A number written with `n` binary digits is below `2^n`.
pub proof fn lemma_bits_value_bound(bits: Seq<bool>)
    ensures
        bits_value(bits) < pow2(bits.len()),
    decreases bits.len(),
{
    vstd::arithmetic::power2::lemma_pow2_pos(bits.len());
    if bits.len() > 0 {
        lemma_bits_value_bound(bits.drop_last());
        vstd::arithmetic::power2::lemma_pow2_unfold(bits.len());
        if bits.last() {
            assert(bit_value(bits.last()) * pow2((bits.len() - 1) as nat) == pow2(
                (bits.len() - 1) as nat,
            ));
        } else {
            assert(bit_value(bits.last()) * pow2((bits.len() - 1) as nat) == 0);
        }
    }
}

/// A number written with at most 253 binary digits is below the field
/// order, so turning its bits into a field element loses nothing.
pub proof fn lemma_challenge_fits_the_field(bits: Seq<bool>)
    requires
        bits.len() <= 253,
    ensures
        bits_value(bits) < modulus(),
        bits_value(bits) % modulus() == bits_value(bits),
{
    lemma_bits_value_bound(bits);
    lemma_pow2_253_below_modulus();
    if bits.len() < 253 {
        vstd::arithmetic::power2::lemma_pow2_strictly_increases(bits.len(), 253);
    }
    lemma_small_mod(bits_value(bits), modulus());
}

/// What an assignment that satisfies the circuit and its challenge shows of
/// the challenge: `r` is the number whose bits the sponge squeezes from the
/// private address values, the basis holds its powers times the first basis
/// value `s` (which no constraint fixes), and the private address hash is
/// `sum_i s r^i x_i` for those values `x`, in the field.
pub open spec fn shows_challenge(w: Seq<Scalar>, a0: int) -> bool {
    let x = var_values(w, address_vars(a0));
    let r = challenge_point_of(x);
    let b = scaled_powers(w[a0 + 311].value(), r as int, 10);
    &&& w[challenge_var(a0)].value() == r
    &&& var_values(w, basis_vars(a0)) == b
    &&& w[address_hash_var(a0)].value() == dot(b, x) % (modulus() as int)
}

/// Bit variables that hold the given bits weigh up to the number of those bits.
proof fn lemma_weighted_bits_value(vars: Seq<Var>, bools: Seq<bool>, w: Seq<Scalar>)
    requires
        vars.len() == bools.len(),
        forall|k: int| 0 <= k < vars.len() ==> var_value(w, #[trigger] vars[k]) == bit_value(bools[k]),
    ensures
        weighted_bits(vars, w) == bits_value(bools),
    decreases vars.len(),
{
    if vars.len() > 0 {
        let n = vars.len() - 1;
        assert(var_value(w, vars[n]) == bit_value(bools[n]));
        lemma_weighted_bits_value(vars.drop_last(), bools.drop_last(), w);
        let p = pow2(n as nat) as int;
        let b = bit_value(bools.last()) as int;
        assert(p * b == b * p) by (nonlinear_arith);
    }
}

/// Whatever the assignment, if it is canonical and every constraint and the
/// challenge of the exclusion circuit hold, the challenge, the powers and the
/// private address hash are what the circuit computes from the values that
/// the private address variables hold.
pub proof fn lemma_exclusion_challenge_sound(
    constraints: Seq<Constraint>,
    ch: Challenge,
    c0: int,
    a0: int,
    w: Seq<Scalar>,
)
    requires
        is_exclusion_layout(constraints, c0, a0),
        is_challenge_layout(ch, a0),
        0 <= c0,
        0 <= a0,
        a0 + 452 <= usize::MAX,
        c0 + 191 <= constraints.len(),
        holds_between(constraints, c0, c0 + 191, w),
        challenge_holds(ch, w),
        assignment_wf(w),
        a0 + 452 <= w.len(),
    ensures
        shows_challenge(w, a0),
{
    reveal(is_exclusion_layout);
    let m = modulus() as int;
    let x = var_values(w, address_vars(a0));
    let bools = squeezed_bits(x, 250);
    let r = challenge_point_of(x);
    // The challenge bits.
    assert(challenge_inputs(ch, w) =~= x);
    let bv = challenge_bit_vars(a0);
    assert forall|k: int| 0 <= k < 250 implies var_value(w, #[trigger] bv[k]) == bit_value(bools[k]) by {
        assert(ch.outputs@[k] == a0 + 60 + k);
    }
    lemma_weighted_bits_value(bv, bools, w);
    // The challenge itself.
    let num = Var::Aux(challenge_var(a0) as usize);
    assert(constraint_holds(constraints[c0 + 50], w));
    assert(w[challenge_var(a0)].wf());
    lemma_bits_to_num_constraint_sound(constraints[c0 + 50], bv, num, w);
    assert(w[challenge_var(a0)].value() == r);
    // The powers.
    let pw = scaled_powers(w[a0 + 311].value(), r as int, 10);
    assert(holds_between(constraints, c0 + 51, c0 + 60, w));
    assert forall|i: int| 0 <= i < 10 implies #[trigger] w[a0 + 311 + i].value() == pw[i] by {
        lemma_pow_layout_sound(constraints, c0 + 51, a0 + 311, Var::Aux(challenge_var(a0) as usize), 10, w, i);
    }
    assert(var_values(w, basis_vars(a0)) =~= pw);
    // The hash.
    assert(holds_between(constraints, c0 + 60, c0 + 81, w));
    lemma_hash_layout_sound(constraints, c0 + 60, a0 + 321, basis_vars(a0), address_vars(a0), 10, w);
    assert(basis_vars(a0).take(10) =~= basis_vars(a0));
    assert(address_vars(a0).take(10) =~= address_vars(a0));
}

/// The shape of the exclusion circuit does not depend on the private
/// address: two systems laid out as [`ExclusionCircuit::synthesize`] lays
/// them out, from the same constraint and variable, have the same variables
/// and coefficients in every one of its constraints. Only the assignment can
/// differ.
pub proof fn lemma_exclusion_layout_fixes_rows(s1: Seq<Constraint>, s2: Seq<Constraint>, c0: int, a0: int)
    requires
        is_exclusion_layout(s1, c0, a0),
        is_exclusion_layout(s2, c0, a0),
    ensures
        forall|k: int|
            c0 <= k < c0 + 191 ==> #[trigger] constraint_rows(s1[k]) == constraint_rows(s2[k]),
{
    reveal(is_exclusion_layout);
    assert forall|k: int| c0 <= k < c0 + 191 implies #[trigger] constraint_rows(s1[k])
        == constraint_rows(s2[k]) by {
        let o = k - c0;
        if o < 50 {
            let j = o / 10;
            let i = o % 10;
            assert(k == c0 + 10 * j + i);
            let b = spec_public_address(j)[i];
            assert(is_constant_constraint(s1[c0 + 10 * j + i], Var::Aux((a0 + 10 + 10 * j + i) as usize), b as nat));
            assert(is_constant_constraint(s2[c0 + 10 * j + i], Var::Aux((a0 + 10 + 10 * j + i) as usize), b as nat));
        } else if o == 50 {
        } else if o < 60 {
            let i = o - 50;
            assert(k == c0 + 51 + i - 1);
            assert(is_mul_constraint(s1[c0 + 51 + i - 1], Var::Aux((a0 + 311 + i - 1) as usize), Var::Aux(challenge_var(a0) as usize), Var::Aux((a0 + 311 + i) as usize)));
            assert(is_mul_constraint(s2[c0 + 51 + i - 1], Var::Aux((a0 + 311 + i - 1) as usize), Var::Aux(challenge_var(a0) as usize), Var::Aux((a0 + 311 + i) as usize)));
        } else if o < 81 {
            lemma_hash_layout_rows(s1, s2, c0 + 60, a0 + 321, basis_vars(a0), address_vars(a0), 10, k);
        } else if o < 186 {
            let j = (o - 81) / 21;
            assert(0 <= j < 5);
            assert(is_hash_layout(s1, c0 + 81 + 21 * j, public_hash_var(a0, j) - 20, basis_vars(a0), public_address_vars(a0, j), 10));
            assert(is_hash_layout(s2, c0 + 81 + 21 * j, public_hash_var(a0, j) - 20, basis_vars(a0), public_address_vars(a0, j), 10));
            lemma_hash_layout_rows(s1, s2, c0 + 81 + 21 * j, public_hash_var(a0, j) - 20, basis_vars(a0), public_address_vars(a0, j), 10, k);
        } else {
            let j = o - 186;
            assert(k == c0 + 186 + j);
        }
        if o < 60 || o >= 186 {
            lemma_lc_rows_agree(s1[k].a@, s2[k].a@);
            lemma_lc_rows_agree(s1[k].b@, s2[k].b@);
            lemma_lc_rows_agree(s1[k].c@, s2[k].c@);
        }
    }
}

/// Two strings of bits of one length that give the same number are equal.
proof fn lemma_bits_value_injective(b1: Seq<bool>, b2: Seq<bool>)
    requires
        b1.len() == b2.len(),
        bits_value(b1) == bits_value(b2),
    ensures
        b1 == b2,
    decreases b1.len(),
{
    if b1.len() > 0 {
        let n = (b1.len() - 1) as nat;
        let p = pow2(n);
        lemma_bits_value_bound(b1.drop_last());
        lemma_bits_value_bound(b2.drop_last());
        if b1.last() != b2.last() {
            assert(bits_value(b1) != bits_value(b2));
        }
        assert(bit_value(b1.last()) * p == bit_value(b2.last()) * p);
        lemma_bits_value_injective(b1.drop_last(), b2.drop_last());
        assert(b1 =~= b2) by {
            assert forall|i: int| 0 <= i < b1.len() implies b1[i] == b2[i] by {
                if i < n {
                    assert(b1[i] == b1.drop_last()[i]);
                    assert(b2[i] == b2.drop_last()[i]);
                }
            }
        }
    }
}

/// Turning bits into a number, as [`le_bits_to_num`] does, is one to one on
/// strings of at most 253 bits: two strings of one length give the same field
/// element exactly when they are equal.
pub proof fn lemma_bits_to_num_injective(b1: Seq<bool>, b2: Seq<bool>)
    requires
        b1.len() == b2.len(),
        b1.len() <= 253,
    ensures
        bits_value(b1) % modulus() == bits_value(b2) % modulus() <==> b1 == b2,
{
    lemma_challenge_fits_the_field(b1);
    lemma_challenge_fits_the_field(b2);
    if bits_value(b1) % modulus() == bits_value(b2) % modulus() {
        lemma_bits_value_injective(b1, b2);
    }
}

} // verus!
