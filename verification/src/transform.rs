use vstd::prelude::*;
use vstd::arithmetic::power::*;
use vstd::arithmetic::div_mod::*;
use crate::NttError;
use crate::num_theory::{pow_mod, inv_mod, mul_mod, add_mod};
use crate::discovery::{
    seq_max, modulus_valid, found_modulus, generator_valid, found_generator, omega, find_modulus,
    find_primitive_root,
};

verus! {

/// Partial transform sum: the first k terms of
/// `sum_j s[j] * w^(i*j)`, before any reduction.
pub open spec fn dft_sum(s: Seq<u64>, w: int, i: int, k: int) -> int
    decreases k,
{
    if k <= 0 {
        0
    } else {
        dft_sum(s, w, i, k - 1) + s[k - 1] * pow(w, (i * (k - 1)) as nat)
    }
}

/// The least multiplicative inverse of a modulo m, as the linear scan
/// finds it.
pub open spec fn least_inverse(a: int, b: int, m: int) -> bool {
    &&& 0 <= b < m
    &&& (a * b) % m == 1
    &&& forall|b2: int| 0 <= b2 < b ==> #[trigger] ((a * b2) % m) != 1
}

/// Round trip for single-element inputs: whatever moduli, generator
/// and inverses the two discoveries settle on, a forward output that
/// meets the forward contract equals the input, and an inverse output
/// that meets the inverse contract on it reproduces the input. For
/// longer inputs the inverse transform re-discovers its modulus from
/// its own input, which can differ from the forward one, so the round
/// trip is not a law of all inputs.
pub proof fn lemma_round_trip_single(s: Seq<u64>, out: Seq<u64>, back: Seq<u64>)
    requires
        s.len() == 1,
        out.len() == 1,
        back.len() == 1,
        exists|m: int, g: int|
            #![trigger found_modulus(s, m), found_generator(m, g)]
            {
                &&& found_modulus(s, m)
                &&& found_generator(m, g)
                &&& forall|i: int| 0 <= i < out.len()
                    ==> #[trigger] (out[i]) as int == dft_sum(s, omega(m, g, s.len() as int), i, s.len() as int) % m
            },
        exists|m: int, g: int, wi: int, ni: int|
            #![trigger found_modulus(out, m), found_generator(m, g),
                least_inverse(omega(m, g, out.len() as int), wi, m),
                least_inverse(out.len() as int, ni, m)]
            {
                &&& found_modulus(out, m)
                &&& found_generator(m, g)
                &&& least_inverse(omega(m, g, out.len() as int), wi, m)
                &&& least_inverse(out.len() as int, ni, m)
                &&& forall|i: int| 0 <= i < back.len()
                    ==> #[trigger] (back[i]) as int == (dft_sum(out, wi, i, out.len() as int) * ni) % m
            },
    ensures
        back == s,
{
    let (m1, g1): (int, int) = choose|m: int, g: int|
        #![trigger found_modulus(s, m), found_generator(m, g)]
        {
            &&& found_modulus(s, m)
            &&& found_generator(m, g)
            &&& forall|i: int| 0 <= i < out.len()
                ==> #[trigger] (out[i]) as int == dft_sum(s, omega(m, g, s.len() as int), i, s.len() as int) % m
        };
    let w1 = omega(m1, g1, 1);
    assert(dft_sum(s, w1, 0, 1) == dft_sum(s, w1, 0, 0) + s[0] * pow(w1, 0));
    lemma_pow0(w1);
    assert(dft_sum(s, w1, 0, 1) == s[0] as int);
    assert(seq_max(s) == s[0] as int) by {
        assert(s.drop_last().len() == 0);
        assert(seq_max(s.drop_last()) == 0);
        assert(s.last() == s[0]);
    }
    assert(s[0] < m1);
    lemma_small_mod(s[0] as nat, m1 as nat);
    assert(out[0] == s[0]);
    assert(out =~= s);

    let (m2, g2, wi, ni): (int, int, int, int) = choose|m: int, g: int, wi: int, ni: int|
        #![trigger found_modulus(out, m), found_generator(m, g),
            least_inverse(omega(m, g, out.len() as int), wi, m),
            least_inverse(out.len() as int, ni, m)]
        {
            &&& found_modulus(out, m)
            &&& found_generator(m, g)
            &&& least_inverse(omega(m, g, out.len() as int), wi, m)
            &&& least_inverse(out.len() as int, ni, m)
            &&& forall|i: int| 0 <= i < back.len()
                ==> #[trigger] (back[i]) as int == (dft_sum(out, wi, i, out.len() as int) * ni) % m
        };
    assert(ni == 1) by {
        assert((1 * ni) % m2 == 1);
        assert(1 * ni == ni);
        lemma_small_mod(ni as nat, m2 as nat);
    }
    assert(dft_sum(out, wi, 0, 1) == dft_sum(out, wi, 0, 0) + out[0] * pow(wi, 0));
    lemma_pow0(wi);
    assert(dft_sum(out, wi, 0, 1) == out[0] as int);
    assert(seq_max(out) == out[0] as int) by {
        assert(out.drop_last().len() == 0);
        assert(seq_max(out.drop_last()) == 0);
        assert(out.last() == out[0]);
    }
    assert(out[0] < m2);
    assert(back[0] as int == (out[0] as int * 1) % m2);
    lemma_small_mod(out[0] as nat, m2 as nat);
    assert(back[0] == s[0]);
    assert(back =~= s);
}

/// Forward transform over a discovered modulus: discovers the modulus
/// and a primitive n-th root of unity, then reduces each row sum of
/// the exponent matrix applied to the input.
#[verifier::loop_isolation(false)]
pub fn ntt(elements: &Vec<u64>) -> (r: Result<Vec<u64>, NttError>)
    requires
        elements@.len() < 0x1_0000_0000,
    ensures
        match r {
            Ok(out) => {
                &&& elements@.len() > 0
                &&& out@.len() == elements@.len()
                &&& exists|m: int, g: int|
                    #![trigger found_modulus(elements@, m), found_generator(m, g)]
                    {
                        &&& found_modulus(elements@, m)
                        &&& found_generator(m, g)
                        &&& forall|i: int| 0 <= i < out@.len()
                            ==> #[trigger] (out@[i]) as int == dft_sum(
                                elements@,
                                omega(m, g, elements@.len() as int),
                                i,
                                elements@.len() as int,
                            ) % m
                    }
            },
            Err(e) => {
                &&& (e == NttError::EmptyInput <==> elements@.len() == 0)
                &&& (e == NttError::ModulusNotFound ==> forall|m2: int|
                    2 <= m2 <= u64::MAX ==> !modulus_valid(elements@, m2))
                &&& (e == NttError::NoGeneratorExists ==> exists|m: int|
                    #[trigger] found_modulus(elements@, m)
                    && forall|g2: int| 1 <= g2 < m ==> !generator_valid(m, g2))
                &&& (e == NttError::EmptyInput || e == NttError::ModulusNotFound
                    || e == NttError::NoGeneratorExists)
            },
        },
{
    let ghost s = elements@;
    if elements.len() == 0 {
        return Err(NttError::EmptyInput);
    }
    let n: usize = elements.len();
    let m: u64 = match find_modulus(elements) {
        Ok(v) => v,
        Err(e) => {
            return Err(e);
        },
    };
    let w: u64 = match find_primitive_root(n as u64, m) {
        Ok(v) => v,
        Err(e) => {
            return Err(e);
        },
    };
    let ghost g0: int = choose|g: int|
        found_generator(m as int, g) && w as int == omega(m as int, g, n as int);
    let mut out: Vec<u64> = Vec::new();
    let mut i: usize = 0;
    while i < n
        invariant
            0 <= i <= n,
            out@.len() == i as int,
            forall|i2: int| 0 <= i2 < i as int
                ==> #[trigger] (out@[i2]) as int == dft_sum(s, w as int, i2, n as int) % (
                m as int),
        decreases n - i,
    {
        let acc = dft_row(elements, w, m, i);
        out.push(acc);
        i = i + 1;
    }
    proof {
        assert(found_modulus(s, m as int) && found_generator(m as int, g0));
        assert(forall|i2: int| 0 <= i2 < out@.len()
            ==> #[trigger] (out@[i2]) as int == dft_sum(s, omega(m as int, g0, n as int), i2, n as int) % (m as int));
    }
    Ok(out)
}

/// One output position of the matrix transform: the row sum
/// `sum_j elements[j] * w^(i*j)`, reduced modulo m.
#[verifier::loop_isolation(false)]
fn dft_row(elements: &Vec<u64>, w: u64, m: u64, i: usize) -> (acc: u64)
    requires
        m >= 2,
        elements@.len() < 0x1_0000_0000,
        i < elements@.len(),
    ensures
        acc as int == dft_sum(elements@, w as int, i as int, elements@.len() as int) % (m as int),
{
    let ghost s = elements@;
    let n: usize = elements.len();
    let mut acc: u64 = 0;
    let mut j: usize = 0;
    proof {
        lemma_small_mod(0, m as nat);
    }
    while j < n
        invariant
            0 <= j <= n,
            acc as int == dft_sum(s, w as int, i as int, j as int) % (m as int),
        decreases n - j,
    {
        proof {
            assert((i as int) * (j as int) < 0x1_0000_0000_0000_0000) by (nonlinear_arith)
                requires
                    0 <= (i as int),
                    (i as int) < 0x1_0000_0000,
                    0 <= (j as int),
                    (j as int) < 0x1_0000_0000;
        }
        let e: u64 = (i as u64) * (j as u64);
        let p: u64 = pow_mod(w, e, m);
        let t: u64 = mul_mod(elements[j], p, m);
        let acc2: u64 = add_mod(acc, t, m);
        proof {
            let mi = m as int;
            let sj = s[j as int] as int;
            let pw = pow(w as int, ((i as int) * (j as int)) as nat);
            lemma_mul_mod_noop_right(sj, pw, mi);
            assert(t as int == (sj * pw) % mi);
            lemma_add_mod_noop(dft_sum(s, w as int, i as int, j as int), sj * pw, mi);
            assert(acc2 as int == dft_sum(s, w as int, i as int, j as int + 1) % mi);
        }
        acc = acc2;
        j = j + 1;
    }
    acc
}

/// Inverse transform over a re-discovered modulus: the same matrix
/// applied with the inverse root, then a final scale by the inverse
/// of the length.
#[verifier::loop_isolation(false)]
pub fn i_ntt(elements: &Vec<u64>) -> (r: Result<Vec<u64>, NttError>)
    requires
        elements@.len() < 0x1_0000_0000,
    ensures
        match r {
            Ok(out) => {
                &&& elements@.len() > 0
                &&& out@.len() == elements@.len()
                &&& exists|m: int, g: int, wi: int, ni: int|
                    #![trigger found_modulus(elements@, m), found_generator(m, g),
                        least_inverse(omega(m, g, elements@.len() as int), wi, m),
                        least_inverse(elements@.len() as int, ni, m)]
                    {
                        &&& found_modulus(elements@, m)
                        &&& found_generator(m, g)
                        &&& least_inverse(omega(m, g, elements@.len() as int), wi, m)
                        &&& least_inverse(elements@.len() as int, ni, m)
                        &&& forall|i: int| 0 <= i < out@.len()
                            ==> #[trigger] (out@[i]) as int == (dft_sum(
                                elements@,
                                wi,
                                i,
                                elements@.len() as int,
                            ) * ni) % m
                    }
            },
            Err(e) => {
                &&& (e == NttError::EmptyInput <==> elements@.len() == 0)
                &&& (e == NttError::ModulusNotFound ==> forall|m2: int|
                    2 <= m2 <= u64::MAX ==> !modulus_valid(elements@, m2))
                &&& (e == NttError::NoGeneratorExists ==> exists|m: int|
                    #[trigger] found_modulus(elements@, m)
                    && forall|g2: int| 1 <= g2 < m ==> !generator_valid(m, g2))
                &&& (e == NttError::NoInverseExists ==> exists|m: int, g: int|
                    #![trigger found_modulus(elements@, m), found_generator(m, g)]
                    found_modulus(elements@, m) && found_generator(m, g)
                    && ((forall|b: int| 0 <= b < m
                            ==> #[trigger] ((omega(m, g, elements@.len() as int) * b) % m) != 1)
                        || (forall|b: int| 0 <= b < m
                            ==> #[trigger] (((elements@.len() as int) * b) % m) != 1)))
                &&& (e == NttError::EmptyInput || e == NttError::ModulusNotFound
                    || e == NttError::NoGeneratorExists || e == NttError::NoInverseExists)
            },
        },
{
    let ghost s = elements@;
    if elements.len() == 0 {
        return Err(NttError::EmptyInput);
    }
    let n: usize = elements.len();
    let m: u64 = match find_modulus(elements) {
        Ok(v) => v,
        Err(e) => {
            return Err(e);
        },
    };
    let w: u64 = match find_primitive_root(n as u64, m) {
        Ok(v) => v,
        Err(e) => {
            return Err(e);
        },
    };
    let ghost g0: int = choose|g: int|
        found_generator(m as int, g) && w as int == omega(m as int, g, n as int);
    proof {
        lemma_pow1(w as int);
        lemma_small_mod(w as nat, m as nat);
    }
    let w_inv: u64 = match inv_mod(w, 1, m) {
        Some(v) => v,
        None => {
            return Err(NttError::NoInverseExists);
        },
    };
    proof {
        lemma_pow1(n as int);
        lemma_small_mod(n as nat, m as nat);
    }
    let n_inv: u64 = match inv_mod(n as u64, 1, m) {
        Some(v) => v,
        None => {
            return Err(NttError::NoInverseExists);
        },
    };
    proof {
        assert(least_inverse(omega(m as int, g0, n as int), w_inv as int, m as int));
        assert(least_inverse(n as int, n_inv as int, m as int));
    }
    let mut out: Vec<u64> = Vec::new();
    let mut i: usize = 0;
    while i < n
        invariant
            0 <= i <= n,
            out@.len() == i as int,
            forall|i2: int| 0 <= i2 < i as int
                ==> #[trigger] (out@[i2]) as int == (dft_sum(s, w_inv as int, i2, n as int) * (
                n_inv as int)) % (m as int),
        decreases n - i,
    {
        let row = dft_row(elements, w_inv, m, i);
        let scaled = mul_mod(row, n_inv, m);
        proof {
            lemma_mul_mod_noop_left(dft_sum(s, w_inv as int, i as int, n as int), n_inv as int, m as int);
        }
        out.push(scaled);
        i = i + 1;
    }
    Ok(out)
}

} // verus!
