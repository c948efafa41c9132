//! Elements of the scalar field of the BN254 curve, the field over which the
//! exclusion circuit is written.
//!
//! A [`Scalar`] holds the canonical little-endian encoding of a field element.
//! The arithmetic itself is done by `halo2curves`; each operation below is a
//! thin trusted wrapper whose contract is the plain modular arithmetic that a
//! prime field performs.
use ff::Field;
use halo2curves::bn256::Fr;
use vstd::arithmetic::div_mod::*;
use vstd::arithmetic::power2::pow2;
use vstd::prelude::*;

verus! {

/// The order of the BN254 scalar field.
pub open spec fn modulus() -> nat {
    21888242871839275222246405745257275088548364400416034343698204186575808495617nat
}

/// The number encoded by a little-endian sequence of bytes.
pub open spec fn le_value(bytes: Seq<u8>) -> nat
    decreases bytes.len(),
{
    if bytes.len() == 0 {
        0
    } else {
        (bytes[0] + 256 * le_value(bytes.drop_first())) as nat
    }
}

/// Bit `k` of `x`.
pub open spec fn nth_bit(x: nat, k: nat) -> bool {
    (x / pow2(k)) % 2 == 1
}

/// A field element, as the 32 bytes of its canonical little-endian encoding.
#[derive(Clone, Copy, Debug)]
pub struct Scalar {
    pub bytes: [u8; 32],
}

impl Scalar {
    /// The number that this element stands for.
    pub open spec fn value(self) -> nat {
        le_value(self.bytes@)
    }

    /// The encoding is canonical: it names a number below the modulus.
    pub open spec fn wf(self) -> bool {
        self.value() < modulus()
    }

    /// The additive identity.
    pub fn zero() -> (r: Scalar)
        ensures
            r.wf(),
            r.value() == 0,
    {
        let r = Scalar { bytes: [0u8; 32] };
        proof {
            lemma_le_value_zeros(r.bytes@);
        }
        r
    }

    /// The multiplicative identity.
    pub fn one() -> (r: Scalar)
        ensures
            r.wf(),
            r.value() == 1,
    {
        let mut bytes = [0u8; 32];
        bytes[0] = 1;
        let r = Scalar { bytes };
        proof {
            lemma_le_value_zeros(r.bytes@.drop_first());
        }
        r
    }

    /// Whether two elements are the same field element.
    pub fn equals(&self, other: &Scalar) -> (r: bool)
        ensures
            r == (self.value() == other.value()),
    {
        let mut i: usize = 0;
        while i < 32
            invariant
                0 <= i <= 32,
                forall|j: int| 0 <= j < i ==> self.bytes@[j] == other.bytes@[j],
            decreases 32 - i,
        {
            if self.bytes[i] != other.bytes[i] {
                proof {
                    if self.value() == other.value() {
                        lemma_le_value_injective(self.bytes@, other.bytes@);
                        assert(self.bytes@[i as int] == other.bytes@[i as int]);
                    }
                }
                return false;
            }
            i = i + 1;
        }
        assert(self.bytes@ =~= other.bytes@);
        true
    }
}

/// An element that stands for one is canonical.
pub proof fn lemma_value_one_wf(s: Scalar)
    requires
        s.value() == 1,
    ensures
        s.wf(),
{
}
/// A sequence of zero bytes encodes zero.
pub proof fn lemma_le_value_zeros(bytes: Seq<u8>)
    requires
        forall|i: int| 0 <= i < bytes.len() ==> bytes[i] == 0,
    ensures
        le_value(bytes) == 0,
    decreases bytes.len(),
{
    if bytes.len() > 0 {
        lemma_le_value_zeros(bytes.drop_first());
    }
}

/// Two byte sequences of one length that encode the same number are equal.
pub proof fn lemma_le_value_injective(a: Seq<u8>, b: Seq<u8>)
    requires
        a.len() == b.len(),
        le_value(a) == le_value(b),
    ensures
        a == b,
    decreases a.len(),
{
    if a.len() > 0 {
        let qa = le_value(a.drop_first()) as int;
        let qb = le_value(b.drop_first()) as int;
        lemma_fundamental_div_mod_converse(le_value(a) as int, 256, qa, a[0] as int);
        lemma_fundamental_div_mod_converse(le_value(b) as int, 256, qb, b[0] as int);
        lemma_le_value_injective(a.drop_first(), b.drop_first());
        assert(a =~= b) by {
            assert forall|i: int| 0 <= i < a.len() implies a[i] == b[i] by {
                if i > 0 {
                    assert(a[i] == a.drop_first()[i - 1]);
                    assert(b[i] == b.drop_first()[i - 1]);
                }
            }
        }
    }
}

/// `p` is a prime number.
pub open spec fn is_prime(p: nat) -> bool {
    p > 1 && forall|d: nat| 1 < d < p ==> #[trigger] (p % d) != 0
}

/// A prime divides no product of two numbers between zero and itself.
proof fn lemma_prime_no_zero_divisors(p: nat, a: int, b: int)
    requires
        is_prime(p),
        0 < a < p,
        0 < b < p,
    ensures
        (a * b) % (p as int) != 0,
    decreases a,
{
    let pi = p as int;
    if a == 1 {
        assert(a * b == b);
        lemma_small_mod(b as nat, p);
    } else {
        assert(p % (a as nat) != 0);
        lemma_fundamental_div_mod(pi, a);
        let q = pi / a;
        let r = pi % a;
        lemma_mod_pos_bound(pi, a);
        assert(0 < r < a);
        if (a * b) % pi == 0 {
            lemma_fundamental_div_mod(a * b, pi);
            let k = (a * b) / pi;
            assert(a * b == pi * k);
            assert(r * b == (b - q * k) * pi) by (nonlinear_arith)
                requires
                    pi == a * q + r,
                    a * b == pi * k,
            ;
            lemma_mod_multiples_basic(b - q * k, pi);
            lemma_prime_no_zero_divisors(p, r, b);
        }
    }
}

/// A prime that divides a product divides one of its factors.
pub proof fn lemma_prime_divides_factor(p: nat, x: int, y: int)
    requires
        is_prime(p),
        (x * y) % (p as int) == 0,
    ensures
        x % (p as int) == 0 || y % (p as int) == 0,
{
    let pi = p as int;
    lemma_mul_mod_noop(x, y, pi);
    lemma_mod_bound(x, pi);
    lemma_mod_bound(y, pi);
    if x % pi != 0 && y % pi != 0 {
        lemma_prime_no_zero_divisors(p, x % pi, y % pi);
    }
}

/// Every number of at most 253 bits is below the field order.
pub proof fn lemma_pow2_253_below_modulus()
    ensures
        pow2(253) < modulus(),
{
    vstd::arithmetic::power2::lemma2_to64();
    vstd::arithmetic::power2::lemma2_to64_rest();
    vstd::arithmetic::power2::lemma_pow2_adds(64, 64);
    vstd::arithmetic::power2::lemma_pow2_adds(128, 64);
    vstd::arithmetic::power2::lemma_pow2_adds(192, 61);
    let p61 = pow2(61);
    let p64 = pow2(64);
    let p128 = pow2(128);
    let p192 = pow2(192);
    let p253 = pow2(253);
    assert(p61 == 2305843009213693952);
    assert(p64 == 18446744073709551616);
    assert(p128 == 340282366920938463463374607431768211456) by (nonlinear_arith)
        requires
            p128 == p64 * p64,
            p64 == 18446744073709551616,
    ;
    assert(p192 == 6277101735386680763835789423207666416102355444464034512896) by (nonlinear_arith)
        requires
            p192 == p128 * p64,
            p128 == 340282366920938463463374607431768211456,
            p64 == 18446744073709551616,
    ;
    assert(p253 == 14474011154664524427946373126085988481658748083205070504932198000989141204992)
        by (nonlinear_arith)
        requires
            p253 == p192 * p61,
            p192 == 6277101735386680763835789423207666416102355444464034512896,
            p61 == 2305843009213693952,
    ;
}

/// The field element `x`, by `From<u64>` of `halo2curves`' `Fr`.
/// Claims that the element stands for `x` itself, which holds because every
/// `u64` is below the modulus.
#[verifier::external_body]
pub(crate) fn scalar_from_u64(x: u64) -> (r: Scalar)
    ensures
        r.wf(),
        r.value() == x,
{
    Scalar { bytes: Fr::from(x).to_bytes() }
}

/// Field addition, by `Fr`'s `+` in `halo2curves`.
/// Claims the canonical sum modulo the field order.
#[verifier::external_body]
pub(crate) fn scalar_add(a: &Scalar, b: &Scalar) -> (r: Scalar)
    requires
        a.wf(),
        b.wf(),
    ensures
        r.wf(),
        r.value() == (a.value() + b.value()) % modulus(),
{
    let s = Fr::from_bytes(&a.bytes).unwrap() + Fr::from_bytes(&b.bytes).unwrap();
    Scalar { bytes: s.to_bytes() }
}

/// Field subtraction, by `Fr`'s `-` in `halo2curves`.
/// Claims the canonical difference modulo the field order.
#[verifier::external_body]
pub(crate) fn scalar_sub(a: &Scalar, b: &Scalar) -> (r: Scalar)
    requires
        a.wf(),
        b.wf(),
    ensures
        r.wf(),
        r.value() as int == (a.value() - b.value()) % (modulus() as int),
{
    let s = Fr::from_bytes(&a.bytes).unwrap() - Fr::from_bytes(&b.bytes).unwrap();
    Scalar { bytes: s.to_bytes() }
}

/// Field multiplication, by `Fr`'s `*` in `halo2curves`.
/// Claims the canonical product modulo the field order.
#[verifier::external_body]
pub(crate) fn scalar_mul(a: &Scalar, b: &Scalar) -> (r: Scalar)
    requires
        a.wf(),
        b.wf(),
    ensures
        r.wf(),
        r.value() == (a.value() * b.value()) % modulus(),
{
    let s = Fr::from_bytes(&a.bytes).unwrap() * Fr::from_bytes(&b.bytes).unwrap();
    Scalar { bytes: s.to_bytes() }
}

/// Doubling, by `Fr::double` in `halo2curves`.
/// Claims twice the element modulo the field order.
#[verifier::external_body]
pub(crate) fn scalar_double(a: &Scalar) -> (r: Scalar)
    requires
        a.wf(),
    ensures
        r.wf(),
        r.value() == (2 * a.value()) % modulus(),
{
    Scalar { bytes: Fr::from_bytes(&a.bytes).unwrap().double().to_bytes() }
}

/// The multiplicative inverse, by `ff::Field::invert` on `Fr`.
/// Claims that it fails exactly on zero and otherwise gives a canonical
/// element whose product with the input is one.
#[verifier::external_body]
pub(crate) fn scalar_invert(a: &Scalar) -> (r: Option<Scalar>)
    requires
        a.wf(),
    ensures
        r.is_none() <==> a.value() == 0,
        r matches Some(x) ==> x.wf() && (a.value() * x.value()) % modulus() == 1,
{
    let inv: Option<Fr> = Fr::from_bytes(&a.bytes).unwrap().invert().into();
    inv.map(|x| Scalar { bytes: x.to_bytes() })
}

} // verus!
