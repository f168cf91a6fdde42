use vstd::prelude::*;
use vstd::arithmetic::power::*;
use vstd::arithmetic::div_mod::*;
use ff::PrimeField;
use bls12_381::Scalar;

verus! {

/// The prime order of the BLS12-381 scalar field.
pub open spec fn field_order() -> int {
    0x73eda753299d7d483339d80809a1d80553bda402fffe5bfeffffffff00000001int
}

/// Canonical value of `Scalar::ROOT_OF_UNITY`: the generator 7 raised
/// to the odd cofactor of 2^32 in the group order, a 2^32-th root of
/// unity of the field.
pub open spec fn root_of_unity_val() -> int {
    0x16a2a19edfe81f20d09b681922c813b4b63683508c2280b93829971f439f0d2bint
}

/// Canonical value of `Scalar::ROOT_OF_UNITY_INV`, the inverse of the
/// root of unity above.
pub open spec fn root_of_unity_inv_val() -> int {
    0x538a6f66e19c653ed4f2f74a35d01686f67d4a2b566f8330fb4d6e13cf19a78int
}

#[verifier::external_type_specification]
#[verifier::external_body]
pub struct ExScalar(Scalar);

/// The canonical residue a field element stands for, in [0, field_order).
pub uninterp spec fn scalar_val(s: Scalar) -> int;

/// The two fixed root-of-unity values are field inverses of each
/// other, as the field crate states of its two constants.
pub proof fn lemma_roots_are_inverse()
    ensures
        (root_of_unity_val() * root_of_unity_inv_val()) % field_order() == 1,
{
}

/// Some integer is the field inverse of another.
pub open spec fn field_inverse_of(a: int, b: int) -> bool {
    0 <= b < field_order() && (a * b) % field_order() == 1
}

/// Relies on bls12_381::Scalar::zero: the additive identity.
#[verifier::external_body]
fn scalar_zero() -> (r: Scalar)
    ensures
        scalar_val(r) == 0,
{
    Scalar::zero()
}

/// Relies on bls12_381::Scalar's field addition: residues add modulo
/// the field order.
#[verifier::external_body]
fn scalar_add(a: &Scalar, b: &Scalar) -> (r: Scalar)
    ensures
        scalar_val(r) == (scalar_val(*a) + scalar_val(*b)) % field_order(),
{
    a + b
}

/// Relies on bls12_381::Scalar's field multiplication: residues
/// multiply modulo the field order.
#[verifier::external_body]
fn scalar_mul(a: &Scalar, b: &Scalar) -> (r: Scalar)
    ensures
        scalar_val(r) == (scalar_val(*a) * scalar_val(*b)) % field_order(),
{
    a * b
}

/// Relies on bls12_381::Scalar::from: a 64-bit integer embeds as its
/// own residue, the field order being far above 2^64.
#[verifier::external_body]
fn scalar_from_u64(x: u64) -> (r: Scalar)
    ensures
        scalar_val(r) == x as int,
{
    Scalar::from(x)
}

/// Relies on the ROOT_OF_UNITY constant ff::PrimeField gives
/// bls12_381::Scalar.
#[verifier::external_body]
fn scalar_root_of_unity() -> (r: Scalar)
    ensures
        scalar_val(r) == root_of_unity_val(),
{
    Scalar::ROOT_OF_UNITY
}

/// Relies on the ROOT_OF_UNITY_INV constant ff::PrimeField gives
/// bls12_381::Scalar.
#[verifier::external_body]
fn scalar_root_of_unity_inv() -> (r: Scalar)
    ensures
        scalar_val(r) == root_of_unity_inv_val(),
{
    Scalar::ROOT_OF_UNITY_INV
}

/// Relies on bls12_381::Scalar::pow: field exponentiation by a 64-bit
/// little-endian exponent.
#[verifier::external_body]
fn scalar_pow(b: &Scalar, e: u64) -> (r: Scalar)
    ensures
        scalar_val(r) == pow(scalar_val(*b), e as nat) % field_order(),
{
    b.pow(&[e, 0, 0, 0])
}

/// Relies on bls12_381::Scalar::invert: defined exactly on the nonzero
/// elements, where it yields the multiplicative inverse.
#[verifier::external_body]
fn scalar_invert(a: &Scalar) -> (r: Option<Scalar>)
    ensures
        r is Some <==> scalar_val(*a) != 0,
        r is Some ==> field_inverse_of(scalar_val(*a), scalar_val(r->Some_0)),
{
    Option::from(a.invert())
}

/// Partial fixed-field transform sum: the first k terms of
/// `sum_j val(s[j]) * root^(i*j*scale)`, before any reduction.
pub open spec fn field_dft_sum(s: Seq<Scalar>, root: int, scale: int, i: int, k: int) -> int
    decreases k,
{
    if k <= 0 {
        0
    } else {
        field_dft_sum(s, root, scale, i, k - 1) + scalar_val(s[k - 1]) * pow(
            root,
            (i * (k - 1) * scale) as nat,
        )
    }
}

/// The per-size exponent step: the fixed group order 2^32 divided by
/// the transform size.
pub open spec fn exponent_scale(n: int) -> int {
    0x1_0000_0000int / n
}

/// The products of positions and the scale stay within 64 bits when
/// the size divides the fixed group order.
proof fn lemma_exponent_fits(n: int, scale: int, i: int, j: int)
    requires
        1 <= n,
        scale == 0x1_0000_0000int / n,
        0x1_0000_0000int % n == 0,
        0 <= i < n,
        0 <= j < n,
    ensures
        0 <= i * j < 0x1_0000_0000_0000_0000,
        0 <= i * j * scale < 0x1_0000_0000_0000_0000,
{
    lemma_fundamental_div_mod(0x1_0000_0000int, n);
    assert(n * scale == 0x1_0000_0000);
    assert(n <= 0x1_0000_0000 && 1 <= scale <= 0x1_0000_0000) by (nonlinear_arith)
        requires
            n * scale == 0x1_0000_0000,
            1 <= n,
            0 <= scale;
    assert(0 <= i * j && i * j <= (n - 1) * (n - 1)) by (nonlinear_arith)
        requires
            0 <= i <= n - 1,
            0 <= j <= n - 1;
    assert((n - 1) * (n - 1) < 0x1_0000_0000_0000_0000) by (nonlinear_arith)
        requires
            1 <= n,
            n <= 0x1_0000_0000;
    assert((n - 1) * (n - 1) * scale < n * (n * scale)) by (nonlinear_arith)
        requires
            1 <= n,
            1 <= scale;
    assert(i * j * scale <= (n - 1) * (n - 1) * scale) by (nonlinear_arith)
        requires
            0 <= i * j,
            i * j <= (n - 1) * (n - 1),
            1 <= scale;
    assert(n * (n * scale) <= 0x1_0000_0000_0000_0000) by (nonlinear_arith)
        requires
            n * scale == 0x1_0000_0000,
            n <= 0x1_0000_0000;
    assert(0 <= i * j * scale) by (nonlinear_arith)
        requires
            0 <= i * j,
            1 <= scale;
}

/// One output position of the fixed-field transform: the row sum
/// `sum_j elements[j] * root^(i*j*scale)` in field arithmetic, with
/// the root chosen by the caller.
#[verifier::loop_isolation(false)]
fn field_dft_row(elements: &Vec<Scalar>, inverse: bool, scale: u64, i: usize) -> (acc: Scalar)
    requires
        1 <= elements@.len() <= 0x1_0000_0000,
        scale as int == exponent_scale(elements@.len() as int),
        0x1_0000_0000int % (elements@.len() as int) == 0,
        i < elements@.len(),
    ensures
        scalar_val(acc) == field_dft_sum(
            elements@,
            if inverse { root_of_unity_inv_val() } else { root_of_unity_val() },
            scale as int,
            i as int,
            elements@.len() as int,
        ) % field_order(),
{
    let ghost s = elements@;
    let ghost root: int = if inverse { root_of_unity_inv_val() } else { root_of_unity_val() };
    let root_elem: Scalar = if inverse {
        scalar_root_of_unity_inv()
    } else {
        scalar_root_of_unity()
    };
    let n: usize = elements.len();
    let mut acc = scalar_zero();
    let mut j: usize = 0;
    while j < n
        invariant
            0 <= j <= n,
            scalar_val(acc) == field_dft_sum(s, root, scale as int, i as int, j as int)
                % field_order(),
        decreases n - j,
    {
        proof {
            lemma_exponent_fits(n as int, scale as int, i as int, j as int);
        }
        let e1: u64 = (i as u64) * (j as u64);
        let e: u64 = e1 * scale;
        let p: Scalar = scalar_pow(&root_elem, e);
        let t = scalar_mul(&elements[j], &p);
        let acc2 = scalar_add(&acc, &t);
        proof {
            let q = field_order();
            let vs = scalar_val(s[j as int]);
            let pw = pow(root, ((i as int) * (j as int) * (scale as int)) as nat);
            lemma_mul_mod_noop_right(vs, pw, q);
            assert(scalar_val(t) == (vs * pw) % q);
            lemma_add_mod_noop(
                field_dft_sum(s, root, scale as int, i as int, j as int),
                vs * pw,
                q,
            );
            assert(scalar_val(acc2) == field_dft_sum(s, root, scale as int, i as int, j as int + 1)
                % q);
        }
        acc = acc2;
        j = j + 1;
    }
    acc
}

/// Forward transform over the fixed field: each output position is the
/// row sum of the exponent matrix against the input, taken at the
/// precomputed root of unity scaled to the transform size. The size
/// must divide the fixed group order 2^32.
#[verifier::loop_isolation(false)]
pub fn ntt_381(elements: &Vec<Scalar>) -> (r: Vec<Scalar>)
    requires
        1 <= elements@.len(),
        0x1_0000_0000int % (elements@.len() as int) == 0,
    ensures
        r@.len() == elements@.len(),
        forall|i: int| 0 <= i < r@.len() ==> scalar_val(#[trigger] r@[i]) == field_dft_sum(
            elements@,
            root_of_unity_val(),
            exponent_scale(elements@.len() as int),
            i,
            elements@.len() as int,
        ) % field_order(),
{
    let ghost s = elements@;
    let n: usize = elements.len();
    proof {
        lemma_div_size_bound(n as int);
    }
    let scale: u64 = 0x1_0000_0000u64 / (n as u64);
    let mut out: Vec<Scalar> = Vec::new();
    let mut i: usize = 0;
    while i < n
        invariant
            0 <= i <= n,
            out@.len() == i as int,
            forall|i2: int| 0 <= i2 < i as int ==> scalar_val(#[trigger] out@[i2])
                == field_dft_sum(s, root_of_unity_val(), scale as int, i2, n as int)
                    % field_order(),
        decreases n - i,
    {
        let acc = field_dft_row(elements, false, scale, i);
        out.push(acc);
        i = i + 1;
    }
    out
}

/// A size that divides the fixed group order lies between 1 and 2^32.
proof fn lemma_div_size_bound(n: int)
    requires
        1 <= n,
        0x1_0000_0000int % n == 0,
    ensures
        n <= 0x1_0000_0000,
{
    if n > 0x1_0000_0000 {
        lemma_small_mod(0x1_0000_0000nat, n as nat);
    }
}

/// Inverse transform over the fixed field: the same row sums taken at
/// the inverse root, each scaled by the field inverse of the size.
#[verifier::loop_isolation(false)]
pub fn i_ntt_381(elements: &Vec<Scalar>) -> (r: Vec<Scalar>)
    requires
        1 <= elements@.len(),
        0x1_0000_0000int % (elements@.len() as int) == 0,
    ensures
        r@.len() == elements@.len(),
        exists|ni: int| #[trigger] field_inverse_of(elements@.len() as int, ni)
            && forall|i: int| 0 <= i < r@.len() ==> scalar_val(#[trigger] r@[i]) == (field_dft_sum(
                elements@,
                root_of_unity_inv_val(),
                exponent_scale(elements@.len() as int),
                i,
                elements@.len() as int,
            ) * ni) % field_order(),
{
    let ghost s = elements@;
    let n: usize = elements.len();
    proof {
        lemma_div_size_bound(n as int);
    }
    let scale: u64 = 0x1_0000_0000u64 / (n as u64);
    let n_elem = scalar_from_u64(n as u64);
    let n_inv = scalar_invert(&n_elem).unwrap();
    let ghost ni: int = scalar_val(n_inv);
    let mut out: Vec<Scalar> = Vec::new();
    let mut i: usize = 0;
    while i < n
        invariant
            0 <= i <= n,
            out@.len() == i as int,
            forall|i2: int| 0 <= i2 < i as int ==> scalar_val(#[trigger] out@[i2]) == (
            field_dft_sum(s, root_of_unity_inv_val(), scale as int, i2, n as int) * ni)
                % field_order(),
        decreases n - i,
    {
        let acc = field_dft_row(elements, true, scale, i);
        let scaled = scalar_mul(&acc, &n_inv);
        proof {
            lemma_mul_mod_noop_left(
                field_dft_sum(s, root_of_unity_inv_val(), scale as int, i as int, n as int),
                ni,
                field_order(),
            );
        }
        out.push(scaled);
        i = i + 1;
    }
    proof {
        assert(field_inverse_of(n as int, ni));
    }
    out
}

} // verus!
