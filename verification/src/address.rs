//! Addresses: the public list, the polynomial hash of an address, and the
//! allocation and hashing of an address in a constraint system.
use vstd::arithmetic::div_mod::*;
use vstd::arithmetic::power::pow;
use vstd::prelude::*;
use vstd::string::StringSliceAdditionalSpecFns;

use crate::field::{is_prime, lemma_prime_divides_factor, modulus, scalar_from_u64, Scalar};
use crate::r1cs::{
    assignment_wf, constraint_holds, grows, holds_between, is_add_constraint,
    is_constant_constraint, is_mul_constraint, lemma_add_constraint_sound, lemma_aux_prefix,
    lemma_constant_constraint_sound, lemma_constraints_kept, lemma_extends_keeps,
    lemma_extension_satisfied, lemma_grows_refl, lemma_grows_trans, lemma_mul_constraint_sound,
    num_vars, num_values, var_value, var_values, AllocatedNum, Constraint, ConstraintSystem, Var,
    constraint_rows, lemma_lc_rows_agree,
};

verus! {

/// The number of bytes of an address; shorter addresses are padded with zeros.
pub const ADDRESS_SIZE: usize = 10;

/// The number of public addresses.
pub const NUM_ADDRESSES: usize = 5;

/// The public list of addresses, each padded with zero bytes to
/// [`ADDRESS_SIZE`] bytes.
pub open spec fn spec_public_address(j: int) -> Seq<u8> {
    if j == 0 {
        // "192.168.01"
        seq![49u8, 57, 50, 46, 49, 54, 56, 46, 48, 49]
    } else if j == 1 {
        // "10.0.0.1"
        seq![49u8, 48, 46, 48, 46, 48, 46, 49, 0, 0]
    } else if j == 2 {
        // "127.0.0.1"
        seq![49u8, 50, 55, 46, 48, 46, 48, 46, 49, 0]
    } else if j == 3 {
        // "8.8.8.8"
        seq![56u8, 46, 56, 46, 56, 46, 56, 0, 0, 0]
    } else {
        // "172.16.0.1"
        seq![49u8, 55, 50, 46, 49, 54, 46, 48, 46, 49]
    }
}

/// The public list of addresses.
pub fn public_addresses() -> (r: [[u8; 10]; 5])
    ensures
        forall|j: int| 0 <= j < 5 ==> (#[trigger] r[j])@ == spec_public_address(j),
{
    let r = [
        [49u8, 57, 50, 46, 49, 54, 56, 46, 48, 49],
        [49u8, 48, 46, 48, 46, 48, 46, 49, 0, 0],
        [49u8, 50, 55, 46, 48, 46, 48, 46, 49, 0],
        [56u8, 46, 56, 46, 56, 46, 56, 0, 0, 0],
        [49u8, 55, 50, 46, 49, 54, 46, 48, 46, 49],
    ];
    assert(r[0]@ =~= spec_public_address(0));
    assert(r[1]@ =~= spec_public_address(1));
    assert(r[2]@ =~= spec_public_address(2));
    assert(r[3]@ =~= spec_public_address(3));
    assert(r[4]@ =~= spec_public_address(4));
    r
}

/// The address is one of the public addresses.
pub open spec fn is_public_address(address: Seq<u8>) -> bool {
    exists|j: int| 0 <= j < 5 && address == #[trigger] spec_public_address(j)
}

/// The bytes of an address, as the numbers the circuit allocates for them.
pub open spec fn byte_values(address: Seq<u8>) -> Seq<nat> {
    address.map_values(|c: u8| c as nat)
}

/// `sum_{i < n} a[i] * b[i]` over the common length `n` of the two sequences.
pub open spec fn dot(a: Seq<nat>, b: Seq<nat>) -> int
    decreases a.len() + b.len(),
{
    if a.len() == 0 || b.len() == 0 {
        0
    } else if a.len() > b.len() {
        dot(a.subrange(0, b.len() as int), b)
    } else if b.len() > a.len() {
        dot(a, b.subrange(0, a.len() as int))
    } else {
        dot(a.drop_last(), b.drop_last()) + a.last() * b.last()
    }
}

/// The polynomial with the address bytes as coefficients, evaluated at `r`:
/// `address[0] + address[1] r + address[2] r^2 + ...`.
pub open spec fn poly_eval(address: Seq<u8>, r: int) -> int
    decreases address.len(),
{
    if address.len() == 0 {
        0
    } else {
        poly_eval(address.drop_last(), r) + pow(r, (address.len() - 1) as nat) * address.last()
    }
}

/// The hash of an address at `r`, in the field.
pub open spec fn address_hash(address: Seq<u8>, r: int) -> nat {
    (poly_eval(address, r) % (modulus() as int)) as nat
}

/// The address whose bytes are the bytes of `address`; only a string of
/// exactly [`ADDRESS_SIZE`] bytes converts.
pub fn address_from_str(address: &str) -> (r: Option<[u8; 10]>)
    ensures
        r is Some <==> address.spec_bytes().len() == 10,
        r matches Some(a) ==> a@ == address.spec_bytes(),
{
    let bytes = address.as_bytes();
    if bytes.len() != 10 {
        return None;
    }
    let mut a = [0u8; 10];
    let mut i: usize = 0;
    while i < 10
        invariant
            bytes@ == address.spec_bytes(),
            bytes.len() == 10,
            0 <= i <= 10,
            forall|j: int| 0 <= j < i ==> a[j] == bytes[j],
        decreases 10 - i,
    {
        a[i] = bytes[i];
        i = i + 1;
    }
    assert(a@ =~= bytes@);
    Some(a)
}

/// An address allocated in a constraint system, one number per byte.
#[derive(Debug)]
pub struct AllocatedAddress {
    pub value: Vec<AllocatedNum>,
}

impl AllocatedAddress {
    /// Every byte of `address` is allocated in `cs` and holds that byte.
    pub open spec fn allocates(&self, cs: ConstraintSystem, address: Seq<u8>) -> bool {
        &&& self.value.len() == address.len()
        &&& forall|i: int|
            0 <= i < self.value.len() ==> cs.holds_num(#[trigger] self.value[i])
                && self.value[i].var is Aux && self.value[i].value.value() == address[i]
    }

    /// Allocates one number per byte of `address`, without constraints.
    pub fn allocate(cs: &mut ConstraintSystem, address: &[u8; 10]) -> (r: AllocatedAddress)
        requires
            old(cs).wf(),
        ensures
            grows(*final(cs), *old(cs)),
            final(cs).aux@.len() == old(cs).aux@.len() + 10,
            final(cs).constraints@ == old(cs).constraints@,
            final(cs).challenges@ == old(cs).challenges@,
            r.allocates(*final(cs), address@),
            forall|i: int|
                0 <= i < 10 ==> (#[trigger] r.value[i]).var == Var::Aux(
                    (old(cs).aux.len() + i) as usize,
                ),
    {
        let ghost old_cs = *cs;
        proof {
            lemma_grows_refl(old_cs);
        }
        let mut value: Vec<AllocatedNum> = Vec::new();
        let mut i: usize = 0;
        while i < 10
            invariant
                old_cs.wf(),
                grows(*cs, old_cs),
                cs.aux@.len() == old_cs.aux@.len() + i,
                cs.constraints@ == old_cs.constraints@,
                cs.challenges@ == old_cs.challenges@,
                0 <= i <= 10,
                value.len() == i,
                forall|j: int|
                    0 <= j < i ==> cs.holds_num(#[trigger] value[j]) && value[j].var is Aux
                        && value[j].value.value() == address@[j] && value[j].var == Var::Aux(
                        (old_cs.aux.len() + j) as usize,
                    ),
            decreases 10 - i,
        {
            let ghost before = *cs;
            let c = scalar_from_u64(address[i] as u64);
            let n = AllocatedNum::allocate(cs, c);
            proof {
                lemma_extends_keeps(old_cs, before, *cs);
                lemma_extension_satisfied(old_cs, *cs);
                assert forall|j: int| 0 <= j < i implies #[trigger] cs.holds_num(value[j]) by {
                    assert(before.holds_num(value[j]));
                }
            }
            value.push(n);
            i = i + 1;
        }
        AllocatedAddress { value }
    }

    /// Allocates one number per byte of `address`, each fixed to its byte by
    /// a constant constraint: a satisfying assignment cannot change them.
    pub fn allocate_constant(cs: &mut ConstraintSystem, address: &[u8; 10]) -> (r: AllocatedAddress)
        requires
            old(cs).wf(),
        ensures
            grows(*final(cs), *old(cs)),
            final(cs).aux@.len() == old(cs).aux@.len() + 10,
            final(cs).constraints@.len() == old(cs).constraints@.len() + 10,
            final(cs).challenges@ == old(cs).challenges@,
            r.allocates(*final(cs), address@),
            forall|i: int|
                0 <= i < 10 ==> (#[trigger] r.value[i]).var == Var::Aux(
                    (old(cs).aux.len() + i) as usize,
                ),
            forall|i: int|
                0 <= i < 10 ==> is_constant_constraint(
                    #[trigger] final(cs).constraints@[old(cs).constraints.len() + i],
                    Var::Aux((old(cs).aux.len() + i) as usize),
                    address@[i] as nat,
                ),
    {
        let ghost old_cs = *cs;
        proof {
            lemma_grows_refl(old_cs);
        }
        let mut value: Vec<AllocatedNum> = Vec::new();
        let mut i: usize = 0;
        while i < 10
            invariant
                old_cs.wf(),
                grows(*cs, old_cs),
                cs.aux@.len() == old_cs.aux@.len() + i,
                cs.constraints@.len() == old_cs.constraints@.len() + i,
                cs.challenges@ == old_cs.challenges@,
                0 <= i <= 10,
                value.len() == i,
                forall|j: int|
                    0 <= j < i ==> cs.holds_num(#[trigger] value[j]) && value[j].var is Aux
                        && value[j].value.value() == address@[j] && value[j].var == Var::Aux(
                        (old_cs.aux.len() + j) as usize,
                    ),
                forall|j: int|
                    0 <= j < i ==> is_constant_constraint(
                        #[trigger] cs.constraints@[old_cs.constraints.len() + j],
                        Var::Aux((old_cs.aux.len() + j) as usize),
                        address@[j] as nat,
                    ),
            decreases 10 - i,
        {
            let ghost before = *cs;
            let c = scalar_from_u64(address[i] as u64);
            let n = AllocatedNum::allocate_constant(cs, c);
            proof {
                lemma_extends_keeps(old_cs, before, *cs);
                lemma_grows_trans(old_cs, before, *cs);
                assert forall|j: int| 0 <= j < i implies #[trigger] cs.holds_num(value[j]) by {
                    assert(before.holds_num(value[j]));
                }
                assert forall|j: int|
                    0 <= j < i + 1 implies is_constant_constraint(
                    #[trigger] cs.constraints@[old_cs.constraints.len() + j],
                    Var::Aux((old_cs.aux.len() + j) as usize),
                    address@[j] as nat,
                ) by {
                    let k = old_cs.constraints.len() + j;
                    if j < i {
                        assert(cs.constraints@.subrange(0, before.constraints@.len() as int)[k]
                            == cs.constraints@[k]);
                    }
                }
            }
            value.push(n);
            i = i + 1;
        }
        AllocatedAddress { value }
    }
}

/// From constraint `c0` on, the constraints hash the variables `chars` with
/// the variables `basis` as [`AllocatedAddress::hash`] lays them out, the
/// running sums starting at auxiliary variable `a0`: first `s_0 * 1 == 0`,
/// then for each `i < n`, `basis[i] * chars[i] == t_i` and
/// `(s_i + t_i) * 1 == s_(i+1)`, where `s_i` is variable `a0 + 2i` and `t_i`
/// is variable `a0 + 2i + 1`.
#[verifier::opaque]
pub open spec fn is_hash_layout(
    constraints: Seq<Constraint>,
    c0: int,
    a0: int,
    basis: Seq<Var>,
    chars: Seq<Var>,
    n: int,
) -> bool {
    &&& is_constant_constraint(constraints[c0], Var::Aux(a0 as usize), 0)
    &&& forall|i: int|
        0 <= i < n ==> {
            &&& is_mul_constraint(
                #[trigger] constraints[c0 + 1 + 2 * i],
                basis[i],
                chars[i],
                Var::Aux((a0 + 1 + 2 * i) as usize),
            )
            &&& is_add_constraint(
                constraints[c0 + 2 + 2 * i],
                Var::Aux((a0 + 2 * i) as usize),
                Var::Aux((a0 + 1 + 2 * i) as usize),
                Var::Aux((a0 + 2 + 2 * i) as usize),
            )
        }
}

impl AllocatedAddress {
    /// Hashes the address with the given powers: allocates zero, fixed by a
    /// constant constraint, then for each byte `c` paired with a power `b`
    /// allocates `b * c` and the running sum, each with its multiplication or
    /// addition constraint.
    #[verifier::spinoff_prover]
    #[verifier::rlimit(30)]
    pub fn hash(&self, cs: &mut ConstraintSystem, basis: &Vec<AllocatedNum>) -> (h: AllocatedNum)
        requires
            old(cs).wf(),
            forall|i: int| 0 <= i < self.value.len() ==> old(cs).holds_num(#[trigger] self.value[i]),
            forall|i: int| 0 <= i < basis.len() ==> old(cs).holds_num(#[trigger] basis[i]),
            old(cs).aux.len() + 2 * basis.len() + 1 <= usize::MAX,
        ensures
            grows(*final(cs), *old(cs)),
            final(cs).challenges@ == old(cs).challenges@,
            final(cs).holds_num(h),
            h.value.value() == dot(num_values(basis@), num_values(self.value@)) % (
            modulus() as int),
            final(cs).aux@.len() == old(cs).aux@.len() + 1 + 2 * min_len(basis@.len(), self.value@.len()),
            final(cs).constraints@.len() == old(cs).constraints@.len() + 1 + 2 * min_len(basis@.len(), self.value@.len()),
            h.var == Var::Aux((old(cs).aux.len() + 2 * min_len(basis@.len(), self.value@.len())) as usize),
            is_hash_layout(
                final(cs).constraints@,
                old(cs).constraints.len() as int,
                old(cs).aux.len() as int,
                num_vars(basis@),
                num_vars(self.value@),
                min_len(basis@.len(), self.value@.len()) as int,
            ),
    {
        let ghost old_cs = *cs;
        let ghost m = modulus() as int;
        let ghost a = num_values(basis@);
        let ghost b = num_values(self.value@);
        let ghost c0 = old_cs.constraints.len() as int;
        let ghost a0 = old_cs.aux.len() as int;
        let n = if basis.len() < self.value.len() {
            basis.len()
        } else {
            self.value.len()
        };
        let mut result = AllocatedNum::allocate_constant(cs, Scalar::zero());
        let ghost first = *cs;
        proof {
            assert(a.take(0) =~= Seq::<nat>::empty());
            assert(b.take(0) =~= Seq::<nat>::empty());
            lemma_small_mod(0, modulus());
            assert(cs.constraints@[c0] == cs.constraints@.last());
        }
        let mut i: usize = 0;
        while i < n
            invariant
                old_cs.wf(),
                m == modulus() as int,
                a == num_values(basis@),
                b == num_values(self.value@),
                c0 == old_cs.constraints.len() as int,
                a0 == old_cs.aux.len() as int,
                n <= basis.len(),
                n <= self.value.len(),
                old_cs.aux.len() + 2 * basis.len() + 1 <= usize::MAX,
                forall|j: int| 0 <= j < self.value.len() ==> old_cs.holds_num(#[trigger] self.value[j]),
                forall|j: int| 0 <= j < basis.len() ==> old_cs.holds_num(#[trigger] basis[j]),
                grows(*cs, old_cs),
                cs.challenges@ == old_cs.challenges@,
                0 <= i <= n,
                cs.aux@.len() == old_cs.aux@.len() + 1 + 2 * i,
                cs.constraints@.len() == old_cs.constraints@.len() + 1 + 2 * i,
                cs.holds_num(result),
                result.value.value() == dot(a.take(i as int), b.take(i as int)) % m,
                result.var == Var::Aux((a0 + 2 * i) as usize),
                is_constant_constraint(cs.constraints@[c0], Var::Aux(a0 as usize), 0),
                forall|j: int|
                    0 <= j < i ==> {
                        &&& is_mul_constraint(
                            #[trigger] cs.constraints@[c0 + 1 + 2 * j],
                            basis[j].var,
                            self.value[j].var,
                            Var::Aux((a0 + 1 + 2 * j) as usize),
                        )
                        &&& is_add_constraint(
                            cs.constraints@[c0 + 2 + 2 * j],
                            Var::Aux((a0 + 2 * j) as usize),
                            Var::Aux((a0 + 1 + 2 * j) as usize),
                            Var::Aux((a0 + 2 + 2 * j) as usize),
                        )
                    },
            decreases n - i,
        {
            let ghost before = *cs;
            proof {
                lemma_grows_refl(old_cs);
                lemma_extends_keeps(old_cs, old_cs, before);
                assert(before.holds_num(basis[i as int]));
                assert(before.holds_num(self.value[i as int]));
            }
            let term = basis[i].mul(cs, &self.value[i]);
            let ghost mid = *cs;
            proof {
                lemma_grows_refl(before);
                lemma_extends_keeps(before, before, mid);
            }
            let next = result.add(cs, &term);
            proof {
                lemma_grows_trans(before, mid, *cs);
                lemma_grows_trans(old_cs, before, *cs);
                let d = dot(a.take(i as int), b.take(i as int));
                let t = (a[i as int] * b[i as int]) as int;
                assert(a.take(i as int + 1).drop_last() =~= a.take(i as int));
                assert(b.take(i as int + 1).drop_last() =~= b.take(i as int));
                assert(dot(a.take(i as int + 1), b.take(i as int + 1)) == d + t);
                assert(term.value.value() == t % m);
                lemma_add_mod_noop(d, t, m);
                lemma_mod_twice(d, m);
                lemma_mod_twice(t, m);
                lemma_constraints_kept(before.constraints@, cs.constraints@);
                lemma_constraints_kept(mid.constraints@, cs.constraints@);
                assert(cs.constraints@[c0] == before.constraints@[c0]);
                assert forall|j: int|
                    0 <= j < i + 1 implies {
                        &&& is_mul_constraint(
                            #[trigger] cs.constraints@[c0 + 1 + 2 * j],
                            basis[j].var,
                            self.value[j].var,
                            Var::Aux((a0 + 1 + 2 * j) as usize),
                        )
                        &&& is_add_constraint(
                            cs.constraints@[c0 + 2 + 2 * j],
                            Var::Aux((a0 + 2 * j) as usize),
                            Var::Aux((a0 + 1 + 2 * j) as usize),
                            Var::Aux((a0 + 2 + 2 * j) as usize),
                        )
                    } by {
                    if j < i {
                        assert(cs.constraints@[c0 + 1 + 2 * j] == before.constraints@[c0 + 1 + 2 * j]);
                        assert(cs.constraints@[c0 + 2 + 2 * j] == before.constraints@[c0 + 2 + 2 * j]);
                    } else {
                        assert(cs.constraints@[c0 + 1 + 2 * j] == mid.constraints@[c0 + 1 + 2 * j]);
                    }
                }
            }
            result = next;
            i = i + 1;
        }
        proof {
            lemma_dot_common_prefix(a, b);
            assert(n == min_len(basis@.len(), self.value@.len()));
            reveal(is_hash_layout);
            assert forall|j: int|
                0 <= j < n implies {
                    &&& is_mul_constraint(
                        #[trigger] cs.constraints@[c0 + 1 + 2 * j],
                        num_vars(basis@)[j],
                        num_vars(self.value@)[j],
                        Var::Aux((a0 + 1 + 2 * j) as usize),
                    )
                    &&& is_add_constraint(
                        cs.constraints@[c0 + 2 + 2 * j],
                        Var::Aux((a0 + 2 * j) as usize),
                        Var::Aux((a0 + 1 + 2 * j) as usize),
                        Var::Aux((a0 + 2 + 2 * j) as usize),
                    )
                } by {
                assert(num_vars(basis@)[j] == basis[j].var);
                assert(num_vars(self.value@)[j] == self.value[j].var);
                assert(is_mul_constraint(
                    cs.constraints@[c0 + 1 + 2 * j],
                    basis[j].var,
                    self.value[j].var,
                    Var::Aux((a0 + 1 + 2 * j) as usize),
                ));
                assert(is_add_constraint(
                    cs.constraints@[c0 + 2 + 2 * j],
                    Var::Aux((a0 + 2 * j) as usize),
                    Var::Aux((a0 + 1 + 2 * j) as usize),
                    Var::Aux((a0 + 2 + 2 * j) as usize),
                ));
            }
            assert(is_hash_layout(cs.constraints@, c0, a0, num_vars(basis@), num_vars(self.value@), n as int));
        }
        result
    }
}

/// Whatever the assignment, hash constraints laid out as by
/// [`AllocatedAddress::hash`] that all hold, over canonical values, give the
/// last running sum the dot product of the basis values with the byte values,
/// in the field.
pub proof fn lemma_hash_layout_sound(
    constraints: Seq<Constraint>,
    c0: int,
    a0: int,
    basis: Seq<Var>,
    chars: Seq<Var>,
    n: int,
    w: Seq<Scalar>,
)
    requires
        is_hash_layout(constraints, c0, a0, basis, chars, n),
        0 <= c0,
        0 <= a0,
        0 <= n <= basis.len(),
        n <= chars.len(),
        c0 + 2 * n < constraints.len(),
        holds_between(constraints, c0, c0 + 2 * n + 1, w),
        assignment_wf(w),
        a0 + 2 * n < w.len(),
    ensures
        var_value(w, Var::Aux((a0 + 2 * n) as usize)) == dot(
            var_values(w, basis.take(n)),
            var_values(w, chars.take(n)),
        ) % (modulus() as int),
    decreases n,
{
    reveal(is_hash_layout);
    let m = modulus() as int;
    if n == 0 {
        assert(constraint_holds(constraints[c0], w));
        assert(w[a0].wf());
        lemma_constant_constraint_sound(constraints[c0], Var::Aux(a0 as usize), 0, w);
        assert(var_values(w, basis.take(0)).len() == 0);
        lemma_small_mod(0, modulus());
    } else {
        let i = n - 1;
        lemma_hash_layout_sound(constraints, c0, a0, basis, chars, i, w);
        let s = Var::Aux((a0 + 2 * i) as usize);
        let t = Var::Aux((a0 + 1 + 2 * i) as usize);
        let s2 = Var::Aux((a0 + 2 + 2 * i) as usize);
        let km = constraints[c0 + 1 + 2 * i];
        let ka = constraints[c0 + 2 + 2 * i];
        assert(constraint_holds(km, w));
        assert(constraint_holds(ka, w));
        lemma_mul_constraint_sound(km, basis[i], chars[i], t, w);
        lemma_add_constraint_sound(ka, s, t, s2, w);
        let vb = var_values(w, basis.take(n));
        let vc = var_values(w, chars.take(n));
        assert(vb.drop_last() =~= var_values(w, basis.take(i)));
        assert(vc.drop_last() =~= var_values(w, chars.take(i)));
        let d = dot(var_values(w, basis.take(i)), var_values(w, chars.take(i)));
        let p = (var_value(w, basis[i]) * var_value(w, chars[i])) as int;
        assert(dot(vb, vc) == d + p);
        assert(w[a0 + 1 + 2 * i].wf());
        assert(w[a0 + 2 + 2 * i].wf());
        lemma_small_mod(var_value(w, t), modulus());
        lemma_small_mod(var_value(w, s2), modulus());
        lemma_add_mod_noop(var_value(w, s) as int, var_value(w, t) as int, m);
        lemma_add_mod_noop(d, p, m);
        lemma_mod_twice(d, m);
        lemma_mod_twice(p, m);
    }
}

/// Hash constraints keep their layout in a system that keeps them.
pub proof fn lemma_hash_layout_kept(
    s1: Seq<Constraint>,
    s2: Seq<Constraint>,
    c0: int,
    a0: int,
    basis: Seq<Var>,
    chars: Seq<Var>,
    n: int,
)
    requires
        is_hash_layout(s1, c0, a0, basis, chars, n),
        0 <= c0,
        0 <= n,
        c0 + 2 * n < s1.len(),
        s1.len() <= s2.len(),
        s2.subrange(0, s1.len() as int) == s1,
    ensures
        is_hash_layout(s2, c0, a0, basis, chars, n),
{
    reveal(is_hash_layout);
    lemma_constraints_kept(s1, s2);
    assert forall|i: int| 0 <= i < n implies #[trigger] s2[c0 + 1 + 2 * i] == s1[c0 + 1 + 2 * i]
        && s2[c0 + 2 + 2 * i] == s1[c0 + 2 + 2 * i] by {}
}

/// The smaller of two lengths.
pub open spec fn min_len(a: nat, b: nat) -> nat {
    if a < b {
        a
    } else {
        b
    }
}

/// A dot product only reads the common prefix of its arguments.
pub proof fn lemma_dot_common_prefix(a: Seq<nat>, b: Seq<nat>)
    ensures
        dot(a, b) == dot(
            a.take(min_len(a.len(), b.len()) as int),
            b.take(min_len(a.len(), b.len()) as int),
        ),
{
    let n = min_len(a.len(), b.len()) as int;
    if a.len() == 0 || b.len() == 0 {
        assert(a.take(n).len() == 0);
    } else if a.len() > b.len() {
        assert(b.take(n) =~= b);
        assert(a.take(n) =~= a.subrange(0, b.len() as int));
    } else if b.len() > a.len() {
        assert(a.take(n) =~= a);
        assert(b.take(n) =~= b.subrange(0, a.len() as int));
    } else {
        assert(a.take(n) =~= a);
        assert(b.take(n) =~= b);
    }
}

/// Dotting the powers `r^i` (in the field) with the bytes of an address gives
/// the polynomial hash of the address, in the field.
pub proof fn lemma_dot_powers(basis: Seq<nat>, address: Seq<u8>, r: int)
    requires
        basis.len() == address.len(),
        forall|i: int| 0 <= i < basis.len() ==> #[trigger] basis[i] == pow(r, i as nat) % (modulus() as int),
    ensures
        dot(basis, byte_values(address)) % (modulus() as int) == poly_eval(address, r) % (
        modulus() as int),
    decreases address.len(),
{
    let m = modulus() as int;
    if address.len() > 0 {
        let n = address.len() - 1;
        let bv = byte_values(address);
        assert(bv.drop_last() =~= byte_values(address.drop_last()));
        lemma_dot_powers(basis.drop_last(), address.drop_last(), r);
        let d = dot(basis.drop_last(), bv.drop_last());
        let q = poly_eval(address.drop_last(), r);
        let p = pow(r, n as nat);
        let c = address.last() as int;
        assert(basis.last() == p % m);
        assert(bv.last() == c);
        assert(dot(basis, bv) == d + (p % m) * c);
        assert(poly_eval(address, r) == q + p * c);
        lemma_mul_mod_noop_left(p, c, m);
        lemma_add_mod_noop(d, (p % m) * c, m);
        lemma_add_mod_noop(q, p * c, m);
    }
}

/// An allocated address stays allocated in an extension.
pub proof fn lemma_keeps_address(
    old: ConstraintSystem,
    new: ConstraintSystem,
    a: AllocatedAddress,
    address: Seq<u8>,
)
    requires
        new.extends(&old),
        a.allocates(old, address),
    ensures
        a.allocates(new, address),
{
    lemma_aux_prefix(old.aux@, new.aux@);
    assert forall|i: int| 0 <= i < a.value.len() implies new.holds_num(#[trigger] a.value[i]) by {
        assert(old.holds_num(a.value[i]));
    }
}

/// Two systems with the same hash layout at the same place have the same
/// rows in each of its constraints.
pub proof fn lemma_hash_layout_rows(
    s1: Seq<Constraint>,
    s2: Seq<Constraint>,
    c0: int,
    a0: int,
    basis: Seq<Var>,
    chars: Seq<Var>,
    n: int,
    k: int,
)
    requires
        is_hash_layout(s1, c0, a0, basis, chars, n),
        is_hash_layout(s2, c0, a0, basis, chars, n),
        c0 <= k <= c0 + 2 * n,
    ensures
        constraint_rows(s1[k]) == constraint_rows(s2[k]),
{
    reveal(is_hash_layout);
    let o = k - c0;
    if o == 0 {
        lemma_lc_rows_agree(s1[k].a@, s2[k].a@);
        lemma_lc_rows_agree(s1[k].b@, s2[k].b@);
        lemma_lc_rows_agree(s1[k].c@, s2[k].c@);
    } else {
        let i = (o - 1) / 2;
        if o - 1 == 2 * i {
            assert(k == c0 + 1 + 2 * i);
            assert(is_mul_constraint(s1[c0 + 1 + 2 * i], basis[i], chars[i], Var::Aux((a0 + 1 + 2 * i) as usize)));
            assert(is_mul_constraint(s2[c0 + 1 + 2 * i], basis[i], chars[i], Var::Aux((a0 + 1 + 2 * i) as usize)));
        } else {
            assert(k == c0 + 2 + 2 * i);
            assert(is_mul_constraint(s1[c0 + 1 + 2 * i], basis[i], chars[i], Var::Aux((a0 + 1 + 2 * i) as usize)));
            assert(is_mul_constraint(s2[c0 + 1 + 2 * i], basis[i], chars[i], Var::Aux((a0 + 1 + 2 * i) as usize)));
        }
        lemma_lc_rows_agree(s1[k].a@, s2[k].a@);
        lemma_lc_rows_agree(s1[k].b@, s2[k].b@);
        lemma_lc_rows_agree(s1[k].c@, s2[k].c@);
    }
}

/// `sum_i r^i * (x[i] - y[i])` over addresses of one length.
pub open spec fn poly_diff(x: Seq<u8>, y: Seq<u8>, r: int) -> int
    decreases x.len(),
{
    if x.len() == 0 {
        0
    } else {
        poly_diff(x.drop_last(), y.drop_last(), r) + pow(r, (x.len() - 1) as nat) * (x.last()
            - y.last())
    }
}

/// The hash of the difference of two addresses of one length is the
/// difference of their hashes, `sum_i r^i * (x[i] - y[i])`, in the field:
/// equal addresses hash alike at every point, and two addresses hash alike
/// at `r` exactly when that sum vanishes in the field.
pub proof fn lemma_hash_difference(x: Seq<u8>, y: Seq<u8>, r: int)
    requires
        x.len() == y.len(),
    ensures
        poly_eval(x, r) - poly_eval(y, r) == poly_diff(x, y, r),
        (address_hash(x, r) - address_hash(y, r)) % (modulus() as int) == poly_diff(x, y, r) % (
        modulus() as int),
        address_hash(x, r) == address_hash(y, r) <==> poly_diff(x, y, r) % (modulus() as int)
            == 0,
    decreases x.len(),
{
    let m = modulus() as int;
    if x.len() > 0 {
        lemma_hash_difference(x.drop_last(), y.drop_last(), r);
        let p = pow(r, (x.len() - 1) as nat);
        let a = x.last() as int;
        let b = y.last() as int;
        assert(p * (a - b) == p * a - p * b) by (nonlinear_arith);
    }
    lemma_sub_mod_noop(poly_eval(x, r), poly_eval(y, r), m);
    let hx = address_hash(x, r) as int;
    let hy = address_hash(y, r) as int;
    lemma_mod_bound(poly_eval(x, r), m);
    lemma_mod_bound(poly_eval(y, r), m);
    lemma_mod_twice(poly_eval(x, r), m);
    lemma_mod_twice(poly_eval(y, r), m);
    if hx == hy {
        assert((hx - hy) % m == 0);
    }
    if (hx - hy) % m == 0 {
        if hx > hy {
            lemma_small_mod((hx - hy) as nat, m as nat);
        } else if hx < hy {
            lemma_mod_add_multiples_vanish(hx - hy, m);
            lemma_small_mod((hx - hy + m) as nat, m as nat);
        }
    }
}

/// The polynomial with coefficients `c` (constant term first) at `v`, in
/// Horner's form.
pub open spec fn horner(c: Seq<int>, v: int) -> int
    decreases c.len(),
{
    if c.len() == 0 {
        0
    } else {
        c[0] + v * horner(c.drop_first(), v)
    }
}

/// The coefficients of `c` divided by `X - a`, the remainder dropped.
pub open spec fn quotient(c: Seq<int>, a: int) -> Seq<int>
    decreases c.len(),
{
    if c.len() <= 1 {
        Seq::empty()
    } else {
        seq![horner(c.drop_first(), a)] + quotient(c.drop_first(), a)
    }
}

/// Every coefficient is zero in the field.
pub open spec fn all_zero_mod(c: Seq<int>) -> bool {
    forall|i: int| 0 <= i < c.len() ==> #[trigger] c[i] % (modulus() as int) == 0
}

/// The coefficients `x[i] - y[i]` of the difference of two addresses.
pub open spec fn diff_coeffs(x: Seq<u8>, y: Seq<u8>) -> Seq<int> {
    Seq::new(x.len(), |i: int| x[i] - y[i])
}

/// `c(v) == c(a) + (v - a) q(v)` for the quotient `q` of `c` by `X - a`.
proof fn lemma_factor(c: Seq<int>, a: int, v: int)
    requires
        c.len() >= 1,
    ensures
        quotient(c, a).len() == c.len() - 1,
        horner(c, v) == horner(c, a) + (v - a) * horner(quotient(c, a), v),
    decreases c.len(),
{
    let d = c.drop_first();
    assert(horner(c, v) == c[0] + v * horner(d, v));
    assert(horner(c, a) == c[0] + a * horner(d, a));
    if c.len() == 1 {
        assert(d.len() == 0);
        assert(horner(d, v) == 0);
        assert(horner(d, a) == 0);
        assert(quotient(c, a).len() == 0);
        assert(horner(quotient(c, a), v) == 0);
        assert(v * 0 == 0 && a * 0 == 0 && (v - a) * 0 == 0);
    } else {
        lemma_factor(d, a, v);
        let q = quotient(c, a);
        let qd = quotient(d, a);
        assert(q.drop_first() =~= qd);
        assert(q[0] == horner(d, a));
        let hda = horner(d, a);
        let hqv = horner(qd, v);
        assert(horner(d, v) == hda + (v - a) * hqv);
        assert(horner(q, v) == hda + v * hqv);
        assert(c[0] + v * (hda + (v - a) * hqv) == c[0] + a * hda + (v - a) * (hda + v * hqv))
            by (nonlinear_arith);
    }
}

/// A polynomial that vanishes at `a` and whose quotient by `X - a` is zero
/// is zero.
proof fn lemma_zero_quotient(c: Seq<int>, a: int)
    requires
        c.len() >= 1,
        horner(c, a) % (modulus() as int) == 0,
        all_zero_mod(quotient(c, a)),
    ensures
        all_zero_mod(c),
    decreases c.len(),
{
    let m = modulus() as int;
    let d = c.drop_first();
    if c.len() == 1 {
        assert(horner(d, a) == 0);
        assert(c[0] == horner(c, a));
    } else {
        let q = quotient(c, a);
        assert(q.drop_first() =~= quotient(d, a));
        assert(q[0] == horner(d, a));
        assert(horner(d, a) % m == 0);
        assert(all_zero_mod(quotient(d, a))) by {
            assert forall|i: int| 0 <= i < quotient(d, a).len() implies #[trigger] quotient(
                d,
                a,
            )[i] % m == 0 by {
                assert(quotient(d, a)[i] == q[i + 1]);
            }
        }
        lemma_zero_quotient(d, a);
        let hd = horner(d, a);
        lemma_mul_mod_noop_right(a, hd, m);
        assert(a * 0 == 0);
        assert(c[0] == horner(c, a) - a * hd);
        lemma_sub_mod_noop(horner(c, a), a * hd, m);
        assert forall|i: int| 0 <= i < c.len() implies #[trigger] c[i] % m == 0 by {
            if i > 0 {
                assert(c[i] == d[i - 1]);
            }
        }
    }
}

/// Over a prime modulus, a polynomial with a coefficient that is not zero in
/// the field has fewer distinct roots in the field than coefficients.
pub proof fn lemma_root_bound(c: Seq<int>, roots: Seq<int>)
    requires
        is_prime(modulus()),
        !all_zero_mod(c),
        forall|i: int| 0 <= i < roots.len() ==> 0 <= #[trigger] roots[i] < modulus(),
        forall|i: int, j: int| 0 <= i < j < roots.len() ==> roots[i] != roots[j],
        forall|i: int| 0 <= i < roots.len() ==> #[trigger] horner(c, roots[i]) % (modulus() as int) == 0,
    ensures
        roots.len() < c.len(),
    decreases c.len(),
{
    let m = modulus() as int;
    if roots.len() > 0 {
        let a = roots[0];
        let q = quotient(c, a);
        lemma_factor(c, a, a);
        if all_zero_mod(q) {
            lemma_zero_quotient(c, a);
        }
        let rest = roots.drop_first();
        assert forall|i: int| 0 <= i < rest.len() implies #[trigger] horner(q, rest[i]) % m == 0 by {
            let b = rest[i];
            assert(b == roots[i + 1]);
            lemma_factor(c, a, b);
            assert(horner(c, b) % m == 0);
            assert(horner(c, a) % m == 0);
            lemma_sub_mod_noop(horner(c, b), horner(c, a), m);
            assert(((b - a) * horner(q, b)) % m == 0);
            lemma_prime_divides_factor(modulus(), b - a, horner(q, b));
            if b > a {
                lemma_small_mod((b - a) as nat, m as nat);
            } else {
                lemma_mod_add_multiples_vanish(b - a, m);
                lemma_small_mod((b - a + m) as nat, m as nat);
            }
        }
        assert forall|i: int, j: int| 0 <= i < j < rest.len() implies rest[i] != rest[j] by {
            assert(rest[i] == roots[i + 1]);
            assert(rest[j] == roots[j + 1]);
        }
        lemma_root_bound(q, rest);
    }
}

/// Horner's form of the difference coefficients is the difference polynomial.
proof fn lemma_horner_diff(x: Seq<u8>, y: Seq<u8>, r: int)
    requires
        x.len() == y.len(),
    ensures
        horner(diff_coeffs(x, y), r) == poly_diff(x, y, r),
    decreases x.len(),
{
    if x.len() > 0 {
        let c = diff_coeffs(x.drop_last(), y.drop_last());
        lemma_horner_diff(x.drop_last(), y.drop_last(), r);
        assert(diff_coeffs(x, y) =~= c.push(x.last() - y.last()));
        let e = x.last() - y.last();
        lemma_horner_push(c, e, r);
        let p = pow(r, (x.len() - 1) as nat);
        assert(c.len() == x.len() - 1);
        assert(e * p == p * e) by (nonlinear_arith);
        assert(poly_diff(x, y, r) == poly_diff(x.drop_last(), y.drop_last(), r) + p * e);
    }
}

/// Appending a coefficient adds it times the next power.
proof fn lemma_horner_push(c: Seq<int>, e: int, v: int)
    ensures
        horner(c.push(e), v) == horner(c, v) + e * pow(v, c.len()),
    decreases c.len(),
{
    reveal(pow);
    if c.len() == 0 {
        assert(c.push(e).drop_first() =~= Seq::<int>::empty());
        assert(horner(Seq::<int>::empty(), v) == 0);
        assert(c.push(e)[0] == e);
        assert(horner(c.push(e), v) == e + v * horner(c.push(e).drop_first(), v));
        assert(v * 0 == 0);
        assert(pow(v, 0) == 1);
        assert(e * 1 == e);
    } else {
        let d = c.drop_first();
        assert(c.push(e).drop_first() =~= d.push(e));
        assert(c.push(e)[0] == c[0]);
        assert(horner(c.push(e), v) == c[0] + v * horner(d.push(e), v));
        assert(horner(c, v) == c[0] + v * horner(d, v));
        lemma_horner_push(d, e, v);
        let pd = pow(v, d.len());
        assert(pow(v, c.len()) == v * pd);
        assert(c[0] + v * (horner(d, v) + e * pd) == c[0] + v * horner(d, v) + e * (v * pd))
            by (nonlinear_arith);
    }
}

/// If the field order is prime, two different addresses of one length `n`
/// hash alike at fewer than `n` challenge points in the field: at most 9 for
/// addresses of ten bytes.
pub proof fn lemma_hash_collisions_bounded(x: Seq<u8>, y: Seq<u8>, points: Seq<int>)
    requires
        is_prime(modulus()),
        x.len() == y.len(),
        x != y,
        forall|i: int| 0 <= i < points.len() ==> 0 <= #[trigger] points[i] < modulus(),
        forall|i: int, j: int| 0 <= i < j < points.len() ==> points[i] != points[j],
        forall|i: int|
            0 <= i < points.len() ==> address_hash(x, #[trigger] points[i]) == address_hash(
                y,
                points[i],
            ),
    ensures
        points.len() < x.len(),
{
    let m = modulus() as int;
    let c = diff_coeffs(x, y);
    assert forall|i: int| 0 <= i < points.len() implies #[trigger] horner(c, points[i]) % m == 0 by {
        lemma_hash_difference(x, y, points[i]);
        lemma_horner_diff(x, y, points[i]);
    }
    assert(!all_zero_mod(c)) by {
        if !(exists|k: int| 0 <= k < x.len() && x[k] != y[k]) {
            assert(x =~= y);
        }
        let k = choose|k: int| 0 <= k < x.len() && x[k] != y[k];
        let d = x[k] - y[k];
        if d > 0 {
            lemma_small_mod(d as nat, m as nat);
        } else {
            lemma_mod_add_multiples_vanish(d, m);
            lemma_small_mod((d + m) as nat, m as nat);
        }
        assert(c[k] % m != 0);
    }
    lemma_root_bound(c, points);
}

} // verus!
