use vstd::prelude::*;
use vstd::arithmetic::power::*;
use vstd::arithmetic::div_mod::*;
use vstd::arithmetic::mul::*;

verus! {

/// A number is prime when it is at least 2 and no smaller number
/// from 2 upward divides it.
pub open spec fn prime(n: int) -> bool {
    n >= 2 && forall|d: int| 2 <= d < n ==> #[trigger] (n % d) != 0
}

/// Product of a sequence of integers; 1 for the empty sequence.
pub open spec fn product(s: Seq<int>) -> int
    decreases s.len(),
{
    if s.len() == 0 {
        1
    } else {
        product(s.drop_last()) * s.last()
    }
}

proof fn lemma_product_push(s: Seq<int>, x: int)
    ensures
        product(s.push(x)) == product(s) * x,
{
    assert(s.push(x).drop_last() =~= s);
    assert(s.push(x).last() == x);
}

/// If d divides x and e divides d, then e divides x.
proof fn lemma_divides_transitive(x: int, d: int, e: int)
    requires
        d >= 1,
        e >= 1,
        x >= 0,
        x % d == 0,
        d % e == 0,
    ensures
        x % e == 0,
{
    lemma_fundamental_div_mod(x, d);
    lemma_fundamental_div_mod(d, e);
    let k = x / d;
    let m = d / e;
    assert(x == (e * m) * k);
    assert((e * m) * k == (m * k) * e) by (nonlinear_arith);
    lemma_mod_multiples_basic(m * k, e);
}

/// A number with no divisor in [2, d) and d * d > x has no divisor at all:
/// any factorization x == e * f with e >= d forces the cofactor f below d.
proof fn lemma_no_small_divisor(x: int, d: int)
    requires
        x >= 2,
        d >= 2,
        d * d > x,
        forall|e: int| 2 <= e < d ==> #[trigger] (x % e) != 0,
    ensures
        prime(x),
{
    assert forall|e: int| 2 <= e < x implies #[trigger] (x % e) != 0 by {
        if x % e == 0 && e >= d {
            lemma_fundamental_div_mod(x, e);
            let f = x / e;
            assert(x == e * f);
            assert(f >= 2) by {
                if f <= 0 {
                    assert(e * f <= 0) by (nonlinear_arith)
                        requires e >= 2 && f <= 0;
                }
                if f == 1 {
                    assert(e * 1 == e);
                }
            }
            assert(f < d) by {
                if f >= d {
                    assert(e * f >= d * d) by (nonlinear_arith)
                        requires e >= d && f >= d && d >= 2;
                }
            }
            lemma_mod_multiples_basic(e, f);
            assert((f * e) % f == 0);
            assert(e * f == f * e) by (nonlinear_arith);
            assert(x % f == 0);
        }
    }
}

/// Comparing a candidate divisor with the quotient is the same as
/// comparing its square with the dividend.
proof fn lemma_div_bound_square(x: int, d: int)
    requires
        x >= 0,
        d >= 1,
    ensures
        (d <= x / d) <==> (d * d <= x),
{
    lemma_fundamental_div_mod(x, d);
    let q = x / d;
    let r = x % d;
    if d <= q {
        assert(d * d <= d * q) by (nonlinear_arith)
            requires d >= 1 && d <= q;
    }
    if d * d <= x && q < d {
        assert(d * q + r < d * d) by (nonlinear_arith)
            requires q <= d - 1 && 0 <= r < d && d >= 1;
    }
}

/// Decides primality by trial division: no divisor up to the square
/// root means no divisor at all.
pub fn is_prime(x: u64) -> (r: bool)
    ensures
        r == prime(x as int),
{
    if x < 2 {
        return false;
    }
    let mut d: u64 = 2;
    while d <= x / d
        invariant
            2 <= d,
            x >= 2,
            forall|e: int| 2 <= e < d ==> #[trigger] ((x as int) % e) != 0,
        decreases x - d,
    {
        proof {
            lemma_div_bound_square(x as int, d as int);
            assert(2 * d <= x) by (nonlinear_arith)
                requires (d as int) * (d as int) <= x as int && d >= 2;
        }
        if x % d == 0 {
            proof {
                assert(d < x);
                assert(!prime(x as int));
            }
            return false;
        }
        d = d + 1;
    }
    proof {
        lemma_div_bound_square(x as int, d as int);
        lemma_no_small_divisor(x as int, d as int);
    }
    true
}

/// Decomposes a positive number into an ordered list of prime factors
/// with multiplicity, by trial division with an ever-growing divisor.
pub fn prime_factors(x: u64) -> (r: Vec<u64>)
    requires
        x >= 1,
    ensures
        product(r@.map_values(|v: u64| v as int)) == x as int,
        forall|i: int| 0 <= i < r@.len() ==> prime(#[trigger] r@[i] as int),
        forall|i: int, j: int| 0 <= i <= j < r@.len() ==> r@[i] <= r@[j],
{
    if is_prime(x) {
        let r = vec![x];
        proof {
            let m = r@.map_values(|v: u64| v as int);
            assert(m.len() == 1);
            assert(m.drop_last() =~= Seq::<int>::empty());
            assert(product(m) == product(m.drop_last()) * m.last());
        }
        return r;
    }
    let mut rem: u64 = x;
    let mut d: u64 = 2;
    let mut fs: Vec<u64> = Vec::new();
    proof {
        assert(fs@.map_values(|v: u64| v as int) =~= Seq::<int>::empty());
    }
    while rem > 1
        invariant
            1 <= rem <= x,
            2 <= d,
            rem > 1 ==> d <= rem,
            product(fs@.map_values(|v: u64| v as int)) * rem == x as int,
            forall|i: int| 0 <= i < fs@.len() ==> prime(#[trigger] fs@[i] as int),
            forall|i: int, j: int| 0 <= i <= j < fs@.len() ==> fs@[i] <= fs@[j],
            forall|i: int| 0 <= i < fs@.len() ==> #[trigger] fs@[i] <= d,
            forall|e: int| 2 <= e < d ==> #[trigger] ((rem as int) % e) != 0,
        decreases rem, rem - d,
    {
        if rem % d == 0 {
            let ghost old_fs = fs@;
            let ghost old_rem = rem as int;
            proof {
                // the pushed divisor is prime: a smaller divisor of d
                // would also divide the remainder
                assert forall|e: int| 2 <= e < d implies #[trigger] ((d as int) % e) != 0 by {
                    if (d as int) % e == 0 {
                        lemma_divides_transitive(rem as int, d as int, e);
                    }
                }
                assert(prime(d as int));
            }
            fs.push(d);
            rem = rem / d;
            proof {
                lemma_fundamental_div_mod(old_rem, d as int);
                assert(old_rem == d * (rem as int));
                assert(1 <= rem && (rem as int) < old_rem) by (nonlinear_arith)
                    requires old_rem == d * (rem as int) && d >= 2 && old_rem >= 2;
                let f = |v: u64| v as int;
                assert(fs@ == old_fs.push(d));
                assert(fs@.map_values(f) =~= old_fs.map_values(f).push(d as int));
                lemma_product_push(old_fs.map_values(f), d as int);
                assert(product(fs@.map_values(f)) * rem == x as int) by {
                    assert((product(old_fs.map_values(f)) * (d as int)) * (rem as int)
                        == product(old_fs.map_values(f)) * ((d as int) * (rem as int)))
                        by (nonlinear_arith);
                }
                // no divisor below d divides the new remainder either
                assert forall|e: int| 2 <= e < d implies #[trigger] ((rem as int) % e) != 0 by {
                    if (rem as int) % e == 0 {
                        lemma_mod_multiples_basic(rem as int, d as int);
                        assert((old_rem) % (d as int) == 0);
                        lemma_fundamental_div_mod(rem as int, e);
                        let k = (rem as int) / e;
                        assert(old_rem == d * (e * k));
                        assert(d * (e * k) == (d * k) * e) by (nonlinear_arith);
                        lemma_mod_multiples_basic(d * k, e);
                        assert(old_rem % e == 0);
                    }
                }
                // the new remainder, when above 1, is at least d: a smaller
                // one would be a small divisor of the old remainder
                if rem > 1 && rem < d {
                    assert((d as int) * (rem as int) == (rem as int) * (d as int))
                        by (nonlinear_arith);
                    lemma_mod_multiples_basic(d as int, rem as int);
                    assert(old_rem % (rem as int) == 0);
                }
            }
        } else {
            proof {
                assert(d < rem) by {
                    if d == rem {
                        lemma_mod_self_0(d as int);
                    }
                }
            }
            d = d + 1;
        }
    }
    proof {
        assert(product(fs@.map_values(|v: u64| v as int)) * 1 == x as int);
    }
    fs
}

/// Reduces then multiplies in 128-bit space, so the product never
/// overflows before the reduction.
pub fn mul_mod(a: u64, b: u64, m: u64) -> (r: u64)
    requires
        m >= 1,
    ensures
        r as int == ((a as int) * (b as int)) % (m as int),
{
    proof {
        lemma_mul_upper_bound(a as int, 0xffff_ffff_ffff_ffff, b as int, 0xffff_ffff_ffff_ffff);
        lemma_mod_bound((a as int) * (b as int), m as int);
    }
    let r128: u128 = ((a as u128) * (b as u128)) % (m as u128);
    r128 as u64
}

/// Adds in 128-bit space, then reduces.
pub fn add_mod(a: u64, b: u64, m: u64) -> (r: u64)
    requires
        m >= 1,
    ensures
        r as int == ((a as int) + (b as int)) % (m as int),
{
    let r128: u128 = ((a as u128) + (b as u128)) % (m as u128);
    r128 as u64
}

/// Modular exponentiation by repeated squaring; intermediates are
/// widened to 128 bits so 64-bit inputs never overflow.
pub fn pow_mod(base: u64, exponent: u64, modulus: u64) -> (r: u64)
    requires
        modulus >= 1,
    ensures
        r as int == pow(base as int, exponent as nat) % (modulus as int),
        r < modulus,
{
    let m = modulus;
    let mut result: u64 = 1 % m;
    let mut b: u64 = base % m;
    let mut e: u64 = exponent;
    proof {
        lemma_pow_mod_noop(base as int, exponent as nat, m as int);
        lemma_mul_mod_noop_left(1, pow(b as int, e as nat), m as int);
        assert(1 * pow(b as int, e as nat) == pow(b as int, e as nat));
        lemma_mod_twice(pow(b as int, e as nat), m as int);
    }
    while e > 0
        invariant
            m >= 1,
            b < m,
            result < m,
            ((result as int) * pow(b as int, e as nat)) % (m as int)
                == pow(base as int, exponent as nat) % (m as int),
        decreases e,
    {
        let ghost r0 = result as int;
        let ghost b0 = b as int;
        let ghost e0 = e as nat;
        let ghost mi = m as int;
        if e % 2 == 1 {
            result = mul_mod(result, b, m);
        }
        b = mul_mod(b, b, m);
        e = e / 2;
        proof {
            let k = e as nat;
            lemma_pow_multiplies(b0, 2, k);
            lemma_square_is_pow2(b0);
            // pow(b0, 2k) == pow(b0*b0, k)
            assert(pow(b0, (2 * k) as nat) == pow(b0 * b0, k));
            lemma_pow_mod_noop(b0 * b0, k, mi);
            assert(b as int == (b0 * b0) % mi);
            assert(pow(b as int, k) % mi == pow(b0 * b0, k) % mi);
            if e0 % 2 == 1 {
                assert(e0 == 2 * k + 1);
                lemma_pow_adds(b0, 1, (2 * k) as nat);
                lemma_pow1(b0);
                assert(pow(b0, e0) == b0 * pow(b0 * b0, k));
                // fold both reductions back into one product mod m
                assert(((result as int) * pow(b as int, k)) % mi
                    == (r0 * (b0 * pow(b0 * b0, k))) % mi) by {
                    lemma_mul_mod_noop_general(r0 * b0, pow(b0 * b0, k), mi);
                    lemma_mul_mod_noop_general(r0 * b0, pow(b as int, k), mi);
                    assert(result as int == (r0 * b0) % mi);
                    assert((r0 * b0) * pow(b0 * b0, k) == r0 * (b0 * pow(b0 * b0, k)))
                        by (nonlinear_arith);
                }
            } else {
                assert(e0 == 2 * k);
                assert(pow(b0, e0) == pow(b0 * b0, k));
                assert(((result as int) * pow(b as int, k)) % mi
                    == (r0 * pow(b0 * b0, k)) % mi) by {
                    lemma_mul_mod_noop_right(r0, pow(b0 * b0, k), mi);
                    lemma_mul_mod_noop_right(r0, pow(b as int, k), mi);
                }
            }
        }
    }
    proof {
        lemma_pow0(b as int);
        assert((result as int) * 1 == result as int);
        lemma_small_mod(result as nat, m as nat);
    }
    result
}

/// Computes `base^exponent mod modulus`, then searches [0, modulus)
/// for its multiplicative inverse by linear scan; the least inverse,
/// if any, is returned.
pub fn inv_mod(base: u64, exponent: u64, modulus: u64) -> (r: Option<u64>)
    requires
        modulus >= 1,
    ensures
        ({
            let v = pow(base as int, exponent as nat) % (modulus as int);
            match r {
                Some(i) => {
                    &&& i < modulus
                    &&& (v * (i as int)) % (modulus as int) == 1
                    &&& forall|j: int| 0 <= j < i ==> #[trigger] ((v * j) % (modulus as int)) != 1
                },
                None => forall|j: int| 0 <= j < modulus
                    ==> #[trigger] ((v * j) % (modulus as int)) != 1,
            }
        }),
{
    let v = pow_mod(base, exponent, modulus);
    let mut i: u64 = 0;
    while i < modulus
        invariant
            modulus >= 1,
            v as int == pow(base as int, exponent as nat) % (modulus as int),
            i <= modulus,
            forall|j: int| 0 <= j < i
                ==> #[trigger] (((v as int) * j) % (modulus as int)) != 1,
        decreases modulus - i,
    {
        let c = mul_mod(v, i, modulus);
        if c == 1 {
            return Some(i);
        }
        i = i + 1;
    }
    None
}

} // verus!
