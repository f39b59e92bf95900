//! The scalar field of Curve25519: integers modulo the prime group order.
//!
//! A [`Scalar`] holds the canonical representative of a residue as four
//! 64-bit limbs. Its view is that representative as an integer, and
//! every contract in this crate speaks about residues through [`reduce`].

use ark_curve25519::Fr;
use ark_ff::{BigInt, Field, PrimeField};
use ark_serialize::CanonicalSerialize;
use vstd::arithmetic::div_mod::*;
use vstd::prelude::*;

verus! {

/// The order of the field, `2^252 + 27742317777372353535851937790883648493`,
/// spelled by its four 64-bit limbs.
pub closed spec fn modulus() -> int {
    limbs_value(0x5812_631a_5cf5_d3ed, 0x14de_f9de_a2f7_9cd6, 0, 0x1000_0000_0000_0000)
}

/// The canonical representative of the residue class of `x`.
pub open spec fn reduce(x: int) -> int {
    x % modulus()
}

/// `b` is a multiplicative inverse of `a` in the field.
pub open spec fn is_inverse(a: int, b: int) -> bool {
    reduce(a * b) == 1
}

/// `a` has a multiplicative inverse in the field.
pub open spec fn invertible(a: int) -> bool {
    exists|b: int| 0 <= b < modulus() && is_inverse(a, b)
}

/// The canonical multiplicative inverse of `a`, where `a` is invertible.
pub open spec fn inverse_of(a: int) -> int {
    choose|b: int| 0 <= b < modulus() && is_inverse(a, b)
}

/// The number whose little-endian base-256 digits are `bytes`.
pub open spec fn le_value(bytes: Seq<u8>) -> int
    decreases bytes.len(),
{
    if bytes.len() == 0 {
        0
    } else {
        bytes[0] + 256 * le_value(bytes.drop_first())
    }
}

/// The `n` lowest little-endian base-256 digits of `value`.
pub open spec fn le_bytes(value: int, n: nat) -> Seq<u8>
    decreases n,
{
    if n == 0 {
        Seq::empty()
    } else {
        seq![(value % 256) as u8] + le_bytes(value / 256, (n - 1) as nat)
    }
}

/// The value of four little-endian 64-bit limbs.
pub open spec fn limbs_value(l0: u64, l1: u64, l2: u64, l3: u64) -> int {
    l0 + 0x1_0000_0000_0000_0000int * (l1 + 0x1_0000_0000_0000_0000int * (l2
        + 0x1_0000_0000_0000_0000int * l3))
}

/// An element of the field, held as its canonical representative.
#[derive(Clone, Copy, Debug, PartialEq, Eq, Structural)]
pub struct Scalar {
    l0: u64,
    l1: u64,
    l2: u64,
    l3: u64,
}

impl View for Scalar {
    type V = int;

    closed spec fn view(&self) -> int {
        limbs_value(self.l0, self.l1, self.l2, self.l3)
    }
}

impl DeepView for Scalar {
    type V = int;

    open spec fn deep_view(&self) -> int {
        self@
    }
}

/// The order of the field is above `2^128`.
pub proof fn lemma_modulus_large()
    ensures
        modulus() > 0x1_0000_0000_0000_0000_0000_0000_0000_0000,
{
}

/// A representative is canonical, and reducing it again changes nothing.
pub proof fn lemma_reduce_range(x: int)
    ensures
        0 <= reduce(x) < modulus(),
        reduce(reduce(x)) == reduce(x),
{
    lemma_mod_bound(x, modulus());
    lemma_mod_twice(x, modulus());
}

/// A canonical number is its own representative.
pub proof fn lemma_reduce_small(x: int)
    requires
        0 <= x < modulus(),
    ensures
        reduce(x) == x,
{
    lemma_small_mod(x as nat, modulus() as nat);
}

/// Zero and one are canonical.
pub proof fn lemma_reduce_zero_one()
    ensures
        reduce(0) == 0,
        reduce(1) == 1,
{
    lemma_reduce_small(0);
    lemma_reduce_small(1);
}

/// Reducing the terms of a sum does not change the sum in the field.
pub proof fn lemma_reduce_add(x: int, y: int)
    ensures
        reduce(reduce(x) + reduce(y)) == reduce(x + y),
        reduce(reduce(x) + y) == reduce(x + y),
        reduce(x + reduce(y)) == reduce(x + y),
{
    let m = modulus();
    lemma_add_mod_noop(x, y, m);
    lemma_add_mod_noop(x % m, y, m);
    lemma_add_mod_noop(x, y % m, m);
    lemma_mod_twice(x, m);
    lemma_mod_twice(y, m);
}

/// Reducing the terms of a difference does not change the difference in the
/// field.
pub proof fn lemma_reduce_sub(x: int, y: int)
    ensures
        reduce(reduce(x) - reduce(y)) == reduce(x - y),
        reduce(reduce(x) - y) == reduce(x - y),
        reduce(x - reduce(y)) == reduce(x - y),
{
    let m = modulus();
    lemma_sub_mod_noop(x, y, m);
    lemma_sub_mod_noop(x % m, y, m);
    lemma_sub_mod_noop(x, y % m, m);
    lemma_mod_twice(x, m);
    lemma_mod_twice(y, m);
}

/// Reducing the factors of a product does not change the product in the
/// field.
pub proof fn lemma_reduce_mul(x: int, y: int)
    ensures
        reduce(reduce(x) * reduce(y)) == reduce(x * y),
        reduce(reduce(x) * y) == reduce(x * y),
        reduce(x * reduce(y)) == reduce(x * y),
{
    let m = modulus();
    lemma_mul_mod_noop_general(x, y, m);
}

/// Congruent factors give congruent products.
pub proof fn lemma_congruent_mul(x: int, x2: int, y: int, y2: int)
    requires
        reduce(x) == reduce(x2),
        reduce(y) == reduce(y2),
    ensures
        reduce(x * y) == reduce(x2 * y2),
{
    lemma_reduce_mul(x, y);
    lemma_reduce_mul(x2, y2);
}

/// Congruent terms give congruent sums and differences.
pub proof fn lemma_congruent_add(x: int, x2: int, y: int, y2: int)
    requires
        reduce(x) == reduce(x2),
        reduce(y) == reduce(y2),
    ensures
        reduce(x + y) == reduce(x2 + y2),
        reduce(x - y) == reduce(x2 - y2),
{
    lemma_reduce_add(x, y);
    lemma_reduce_add(x2, y2);
    lemma_reduce_sub(x, y);
    lemma_reduce_sub(x2, y2);
}

/// Inverses are unique up to congruence.
pub proof fn lemma_inverse_unique(a: int, x: int, y: int)
    requires
        is_inverse(a, x),
        is_inverse(a, y),
    ensures
        reduce(x) == reduce(y),
{
    assert(x * (a * y) == (a * x) * y) by (nonlinear_arith);
    lemma_reduce_mul(x, a * y);
    lemma_reduce_mul(a * x, y);
    assert(x * 1 == x && 1 * y == y);
}

/// A witness of invertibility is the canonical inverse.
pub proof fn lemma_inverse_witness(a: int, x: int)
    requires
        0 <= x < modulus(),
        is_inverse(a, x),
    ensures
        invertible(a),
        inverse_of(a) == x,
        is_inverse(a, inverse_of(a)),
{
    let y = inverse_of(a);
    lemma_inverse_unique(a, x, y);
    lemma_reduce_small(x);
    lemma_reduce_small(y);
}

/// The product of two invertible elements is invertible, by the product of
/// the inverses.
pub proof fn lemma_inverse_mul(a: int, x: int, b: int, y: int)
    requires
        is_inverse(a, x),
        is_inverse(b, y),
    ensures
        is_inverse(a * b, x * y),
{
    assert((a * b) * (x * y) == (a * x) * (b * y)) by (nonlinear_arith);
    lemma_reduce_mul(a * x, b * y);
    lemma_reduce_small(1);
    lemma_modulus_large();
}

/// Every integer from one to `n` has a multiplicative inverse in the field.
///
/// The order of the field is prime, so this holds of every `n` below it;
/// this crate proves it for `n` up to sixteen and takes it as a hypothesis
/// beyond.
pub open spec fn units_upto(n: nat) -> bool {
    forall|k: int| 1 <= k <= n ==> #[trigger] invertible(k)
}

/// One, two and three have inverses.
pub proof fn lemma_units_three()
    ensures
        units_upto(3),
{
    lemma_units_sixteen();
    assert forall|k: int| 1 <= k <= 3 implies #[trigger] invertible(k) by {
        assert(1 <= k <= 16);
    }
}

/// A number with a product that is one more than a multiple of the order is
/// invertible.
proof fn lemma_invertible_by(k: int, inverse: int, multiple: int)
    requires
        0 <= inverse < modulus(),
        k * inverse == multiple * modulus() + 1,
    ensures
        invertible(k),
{
    lemma_modulus_large();
    lemma_fundamental_div_mod_converse(k * inverse, modulus(), multiple, 1);
    assert(is_inverse(k, inverse));
}

/// Every integer from one to sixteen has an inverse.
pub proof fn lemma_units_sixteen()
    ensures
        units_upto(16),
{
    lemma_invertible_one();
    lemma_invertible_by(
        2,
        limbs_value(0x2c09318d2e7ae9f7, 0xa6f7cef517bce6b, 0, 0x800000000000000),
        1,
    );
    lemma_invertible_by(
        3,
        limbs_value(
            0x900c4211934e8d49,
            0xb894a6946ca51339,
            0xaaaaaaaaaaaaaaaa,
            0xaaaaaaaaaaaaaaa,
        ),
        2,
    );
    lemma_invertible_by(
        5,
        limbs_value(
            0xab36e09edf645d96,
            0x375fcb92ed64b8f7,
            0x3333333333333333,
            0x333333333333333,
        ),
        1,
    );
    lemma_invertible_by(
        7,
        limbs_value(
            0x312732ba9f90d522,
            0x4c1fda8d84fecd43,
            0x2492492492492492,
            0x249249249249249,
        ),
        1,
    );
    lemma_invertible_by(
        11,
        limbs_value(
            0xa3f42d225f6c0a9,
            0x9e9c28f8f13e317d,
            0xe8ba2e8ba2e8ba2e,
            0xe8ba2e8ba2e8ba2,
        ),
        10,
    );
    lemma_invertible_by(
        13,
        limbs_value(
            0x50087c82524a130b,
            0x6c18248e23d4be8a,
            0x7627627627627627,
            0x762762762762762,
        ),
        6,
    );
    lemma_invertible_mul(2, 2);
    lemma_invertible_mul(2, 3);
    lemma_invertible_mul(2, 4);
    lemma_invertible_mul(3, 3);
    lemma_invertible_mul(2, 5);
    lemma_invertible_mul(3, 4);
    lemma_invertible_mul(2, 7);
    lemma_invertible_mul(3, 5);
    lemma_invertible_mul(2, 8);
    assert forall|k: int| 1 <= k <= 16 implies #[trigger] invertible(k) by {
        assert(2 * 2 == 4 && 2 * 3 == 6 && 2 * 4 == 8 && 3 * 3 == 9 && 2 * 5 == 10 && 3 * 4 == 12
            && 2 * 7 == 14 && 3 * 5 == 15 && 2 * 8 == 16);
    }
}

/// The negative of an invertible element is invertible.
pub proof fn lemma_invertible_neg(a: int)
    requires
        invertible(a),
    ensures
        invertible(-a),
{
    let x = inverse_of(a);
    assert((-a) * (-x) == a * x) by (nonlinear_arith);
    lemma_reduce_mul(-a, -x);
    lemma_reduce_range(-x);
    assert(is_inverse(-a, reduce(-x)));
}

/// The product of two invertible elements is invertible.
pub proof fn lemma_invertible_mul(a: int, b: int)
    requires
        invertible(a),
        invertible(b),
    ensures
        invertible(a * b),
{
    let x = inverse_of(a);
    let y = inverse_of(b);
    lemma_inverse_mul(a, x, b, y);
    lemma_reduce_mul(a * b, x * y);
    lemma_reduce_range(x * y);
    assert(is_inverse(a * b, reduce(x * y)));
}

/// One is invertible.
pub proof fn lemma_invertible_one()
    ensures
        invertible(1),
{
    lemma_reduce_small(1);
    lemma_modulus_large();
    assert(0 <= 1 < modulus() && is_inverse(1, 1));
}

/// Numbers that differ by a multiple of the order are equal in the field.
pub proof fn lemma_reduce_equal(a: int, b: int)
    requires
        reduce(a - b) == 0,
    ensures
        reduce(a) == reduce(b),
{
    lemma_reduce_add(a - b, b);
    lemma_reduce_add(0, b);
}

/// Limbs spell a number of 64 bits where all but the lowest are zero.
proof fn lemma_limbs_small(l0: u64, l1: u64, l2: u64, l3: u64)
    ensures
        limbs_value(l0, l1, l2, l3) >= 0,
        limbs_value(l0, l1, l2, l3) <= u64::MAX <==> l1 == 0 && l2 == 0 && l3 == 0,
        l1 == 0 && l2 == 0 && l3 == 0 ==> limbs_value(l0, l1, l2, l3) == l0,
{
}

/// The order of limbs against the order of the field, limb by limb from the
/// highest.
proof fn lemma_limbs_below_modulus(l0: u64, l1: u64, l2: u64, l3: u64)
    ensures
        limbs_value(l0, l1, l2, l3) < modulus() <==> l3 < 0x1000_0000_0000_0000 || (l3
            == 0x1000_0000_0000_0000 && l2 == 0 && (l1 < 0x14de_f9de_a2f7_9cd6 || (l1
            == 0x14de_f9de_a2f7_9cd6 && l0 < 0x5812_631a_5cf5_d3ed))),
{
}

/// Scalars with the same value have the same limbs.
proof fn lemma_limbs_injective(a: Scalar, b: Scalar)
    ensures
        a@ == b@ <==> a == b,
{
    if a@ == b@ {
        let w: int = 0x1_0000_0000_0000_0000;
        let a2: int = a.l2 + w * a.l3;
        let b2: int = b.l2 + w * b.l3;
        let a1: int = a.l1 + w * a2;
        let b1: int = b.l1 + w * b2;
        assert(w * a1 == a1 * w && w * b1 == b1 * w && w * a2 == a2 * w && w * b2 == b2 * w);
        assert(w * a.l3 == a.l3 * w && w * b.l3 == b.l3 * w);
        lemma_fundamental_div_mod_converse(a@, w, a1, a.l0 as int);
        lemma_fundamental_div_mod_converse(b@, w, b1, b.l0 as int);
        lemma_fundamental_div_mod_converse(a1, w, a2, a.l1 as int);
        lemma_fundamental_div_mod_converse(b1, w, b2, b.l1 as int);
        lemma_fundamental_div_mod_converse(a2, w, a.l3 as int, a.l2 as int);
        lemma_fundamental_div_mod_converse(b2, w, b.l3 as int, b.l2 as int);
    }
}

impl Scalar {
    #[verifier::type_invariant]
    closed spec fn canonical(self) -> bool {
        0 <= self@ < modulus()
    }

    /// Every scalar is canonical. The call does nothing; it lets a caller
    /// know what the type keeps true.
    pub fn check_canonical(&self)
        ensures
            0 <= self@ < modulus(),
    {
        proof {
            use_type_invariant(self);
        }
    }

    /// The zero of the field.
    pub fn zero() -> (r: Scalar)
        ensures
            r@ == 0,
    {
        Scalar { l0: 0, l1: 0, l2: 0, l3: 0 }
    }

    /// The one of the field.
    pub fn one() -> (r: Scalar)
        ensures
            r@ == 1,
    {
        Scalar { l0: 1, l1: 0, l2: 0, l3: 0 }
    }

    /// The residue of a 64-bit integer.
    pub fn from_u64(x: u64) -> (r: Scalar)
        ensures
            r@ == x,
    {
        Scalar { l0: x, l1: 0, l2: 0, l3: 0 }
    }

    /// The scalar with the given little-endian limbs, if they are canonical.
    pub fn from_limbs(limbs: [u64; 4]) -> (r: Option<Scalar>)
        ensures
            r.is_some() <==> limbs_value(limbs[0], limbs[1], limbs[2], limbs[3]) < modulus(),
            r matches Some(s) ==> s@ == limbs_value(limbs[0], limbs[1], limbs[2], limbs[3]),
    {
        let l0 = limbs[0];
        let l1 = limbs[1];
        let l2 = limbs[2];
        let l3 = limbs[3];
        proof {
            lemma_limbs_below_modulus(l0, l1, l2, l3);
            lemma_limbs_small(l0, l1, l2, l3);
        }
        let below = l3 < 0x1000_0000_0000_0000 || (l3 == 0x1000_0000_0000_0000 && l2 == 0 && (l1
            < 0x14de_f9de_a2f7_9cd6 || (l1 == 0x14de_f9de_a2f7_9cd6 && l0
            < 0x5812_631a_5cf5_d3ed)));
        if below {
            Some(Scalar { l0, l1, l2, l3 })
        } else {
            None
        }
    }

    /// The little-endian limbs of the canonical representative.
    pub fn to_limbs(&self) -> (limbs: [u64; 4])
        ensures
            limbs_value(limbs[0], limbs[1], limbs[2], limbs[3]) == self@,
    {
        [self.l0, self.l1, self.l2, self.l3]
    }

    /// The representative as a 64-bit integer, if it is that small.
    pub fn as_u64(&self) -> (r: Option<u64>)
        ensures
            r.is_some() <==> self@ <= u64::MAX,
            r matches Some(x) ==> x == self@,
    {
        proof {
            lemma_limbs_small(self.l0, self.l1, self.l2, self.l3);
        }
        if self.l1 == 0 && self.l2 == 0 && self.l3 == 0 {
            Some(self.l0)
        } else {
            None
        }
    }

    /// Equality of field elements.
    pub fn equals(&self, other: &Scalar) -> (r: bool)
        ensures
            r <==> self@ == other@,
    {
        proof {
            lemma_limbs_injective(*self, *other);
        }
        *self == *other
    }

    /// Whether the scalar is the zero of the field.
    pub fn is_zero(&self) -> (r: bool)
        ensures
            r <==> self@ == 0,
    {
        proof {
            lemma_limbs_small(self.l0, self.l1, self.l2, self.l3);
        }
        self.l0 == 0 && self.l1 == 0 && self.l2 == 0 && self.l3 == 0
    }

    /// The sum in the field.
    pub fn add(&self, rhs: &Scalar) -> (r: Scalar)
        ensures
            r@ == reduce(self@ + rhs@),
    {
        proof {
            use_type_invariant(self);
            use_type_invariant(rhs);
        }
        fr_add(self, rhs)
    }

    /// The difference in the field.
    pub fn sub(&self, rhs: &Scalar) -> (r: Scalar)
        ensures
            r@ == reduce(self@ - rhs@),
    {
        proof {
            use_type_invariant(self);
            use_type_invariant(rhs);
        }
        fr_sub(self, rhs)
    }

    /// The product in the field.
    pub fn mul(&self, rhs: &Scalar) -> (r: Scalar)
        ensures
            r@ == reduce(self@ * rhs@),
    {
        proof {
            use_type_invariant(self);
            use_type_invariant(rhs);
        }
        fr_mul(self, rhs)
    }

    /// The negative in the field.
    pub fn neg(&self) -> (r: Scalar)
        ensures
            r@ == reduce(-self@),
    {
        let zero = Scalar::zero();
        zero.sub(self)
    }

    /// The multiplicative inverse, which exists for every scalar but zero.
    pub fn inverse(&self) -> (r: Option<Scalar>)
        ensures
            r.is_none() <==> self@ == 0,
            r matches Some(x) ==> is_inverse(self@, x@) && x@ == inverse_of(self@),
    {
        proof {
            use_type_invariant(self);
        }
        let r = fr_inverse(self);
        proof {
            if let Some(x) = r {
                lemma_inverse_witness(self@, x@);
            }
        }
        r
    }

    /// The canonical encoding: the 32 little-endian bytes of the
    /// representative.
    pub fn to_bytes(&self) -> (bytes: Vec<u8>)
        ensures
            bytes@ == le_bytes(self@, 32),
    {
        proof {
            use_type_invariant(self);
        }
        fr_to_bytes(self)
    }

    /// The residue of the number that `bytes` spell in little-endian order.
    pub fn from_le_bytes_mod_order(bytes: &[u8]) -> (r: Scalar)
        ensures
            r@ == reduce(le_value(bytes@)),
    {
        fr_from_le_bytes(bytes)
    }
}

/// Whether two lists hold the same field elements.
pub fn same_scalars(a: &[Scalar], b: &[Scalar]) -> (same: bool)
    ensures
        same <==> a.deep_view() == b.deep_view(),
{
    if a.len() != b.len() {
        assert(a.deep_view().len() != b.deep_view().len());
        return false;
    }
    let mut i: usize = 0;
    while i < a.len()
        invariant
            i <= a.len() == b.len(),
            forall|j: int| 0 <= j < i ==> a.deep_view()[j] == b.deep_view()[j],
        decreases a.len() - i,
    {
        if !a[i].equals(&b[i]) {
            assert(a.deep_view()[i as int] != b.deep_view()[i as int]);
            return false;
        }
        i += 1;
    }
    assert(a.deep_view() =~= b.deep_view());
    true
}

/// Field addition, `+` on `ark_curve25519::Fr`: the sum of the two
/// representatives, reduced.
#[verifier::external_body]
fn fr_add(a: &Scalar, b: &Scalar) -> (r: Scalar)
    requires
        0 <= a@ < modulus(),
        0 <= b@ < modulus(),
    ensures
        r@ == reduce(a@ + b@),
        0 <= r@ < modulus(),
{
    let x = Fr::from_bigint(BigInt::new([a.l0, a.l1, a.l2, a.l3])).unwrap();
    let y = Fr::from_bigint(BigInt::new([b.l0, b.l1, b.l2, b.l3])).unwrap();
    let z = (x + y).into_bigint().0;
    Scalar { l0: z[0], l1: z[1], l2: z[2], l3: z[3] }
}

/// Field subtraction, `-` on `ark_curve25519::Fr`: the difference of the two
/// representatives, reduced.
#[verifier::external_body]
fn fr_sub(a: &Scalar, b: &Scalar) -> (r: Scalar)
    requires
        0 <= a@ < modulus(),
        0 <= b@ < modulus(),
    ensures
        r@ == reduce(a@ - b@),
        0 <= r@ < modulus(),
{
    let x = Fr::from_bigint(BigInt::new([a.l0, a.l1, a.l2, a.l3])).unwrap();
    let y = Fr::from_bigint(BigInt::new([b.l0, b.l1, b.l2, b.l3])).unwrap();
    let z = (x - y).into_bigint().0;
    Scalar { l0: z[0], l1: z[1], l2: z[2], l3: z[3] }
}

/// Field multiplication, `*` on `ark_curve25519::Fr`: the product of the two
/// representatives, reduced.
#[verifier::external_body]
fn fr_mul(a: &Scalar, b: &Scalar) -> (r: Scalar)
    requires
        0 <= a@ < modulus(),
        0 <= b@ < modulus(),
    ensures
        r@ == reduce(a@ * b@),
        0 <= r@ < modulus(),
{
    let x = Fr::from_bigint(BigInt::new([a.l0, a.l1, a.l2, a.l3])).unwrap();
    let y = Fr::from_bigint(BigInt::new([b.l0, b.l1, b.l2, b.l3])).unwrap();
    let z = (x * y).into_bigint().0;
    Scalar { l0: z[0], l1: z[1], l2: z[2], l3: z[3] }
}

/// `Field::inverse` on `ark_curve25519::Fr`: nothing for zero, and for any
/// other element the one whose product with it is one.
#[verifier::external_body]
fn fr_inverse(a: &Scalar) -> (r: Option<Scalar>)
    requires
        0 <= a@ < modulus(),
    ensures
        r.is_none() <==> a@ == 0,
        r matches Some(x) ==> 0 <= x@ < modulus() && is_inverse(a@, x@),
{
    let x = Fr::from_bigint(BigInt::new([a.l0, a.l1, a.l2, a.l3])).unwrap();
    match x.inverse() {
        Some(y) => {
            let z = y.into_bigint().0;
            Some(Scalar { l0: z[0], l1: z[1], l2: z[2], l3: z[3] })
        },
        None => None,
    }
}

/// `CanonicalSerialize::serialize_compressed` on `ark_curve25519::Fr`: the
/// representative written as 32 little-endian bytes.
#[verifier::external_body]
fn fr_to_bytes(a: &Scalar) -> (bytes: Vec<u8>)
    requires
        0 <= a@ < modulus(),
    ensures
        bytes@ == le_bytes(a@, 32),
{
    let x = Fr::from_bigint(BigInt::new([a.l0, a.l1, a.l2, a.l3])).unwrap();
    let mut bytes: Vec<u8> = Vec::new();
    x.serialize_compressed(&mut bytes).unwrap();
    bytes
}

/// `PrimeField::from_le_bytes_mod_order` on `ark_curve25519::Fr`: the bytes
/// read as a little-endian number, reduced.
#[verifier::external_body]
fn fr_from_le_bytes(bytes: &[u8]) -> (r: Scalar)
    ensures
        r@ == reduce(le_value(bytes@)),
        0 <= r@ < modulus(),
{
    let z = Fr::from_le_bytes_mod_order(bytes).into_bigint().0;
    Scalar { l0: z[0], l1: z[1], l2: z[2], l3: z[3] }
}

} // verus!
