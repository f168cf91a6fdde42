use vstd::prelude::*;
use vstd::arithmetic::power::*;
use vstd::arithmetic::div_mod::*;
use crate::NttError;
use crate::num_theory::{prime, is_prime, pow_mod};

verus! {

/// Largest element of a sequence; 0 for the empty sequence.
pub open spec fn seq_max(s: Seq<u64>) -> int
    decreases s.len(),
{
    if s.len() == 0 {
        0
    } else if s.last() as int >= seq_max(s.drop_last()) {
        s.last() as int
    } else {
        seq_max(s.drop_last())
    }
}

/// A valid transform modulus for an input: a prime above both the
/// length and every element, leaving an n-th root of unity possible
/// because the modulus is 1 more than a multiple of the length.
pub open spec fn modulus_valid(s: Seq<u64>, m: int) -> bool {
    &&& prime(m)
    &&& m > s.len()
    &&& m > seq_max(s)
    &&& (m - 1) % (s.len() as int) == 0
}

/// The modulus the search settles on: the least valid one.
pub open spec fn found_modulus(s: Seq<u64>, m: int) -> bool {
    &&& modulus_valid(s, m)
    &&& forall|m2: int| 2 <= m2 < m ==> !modulus_valid(s, m2)
}

/// The exponent check a generator candidate must pass for one prime
/// factor of the group order.
pub open spec fn generator_valid(m: int, g: int) -> bool {
    &&& 1 <= g < m
    &&& pow(g, (m - 1) as nat) % m == 1
    &&& forall|f: int| #[trigger] prime(f) && (m - 1) % f == 0
        ==> pow(g, (((m - 1) / f) as nat)) % m != 1
}

/// The generator the search settles on: the least valid one.
pub open spec fn found_generator(m: int, g: int) -> bool {
    &&& generator_valid(m, g)
    &&& forall|g2: int| 1 <= g2 < g ==> !generator_valid(m, g2)
}

/// The primitive n-th root of unity derived from a generator.
pub open spec fn omega(m: int, g: int, n: int) -> int {
    pow(g, (((m - 1) / n) as nat)) % m
}

/// Finds the least prime of the form `x * n + 1` that exceeds both the
/// input length and every input element.
pub fn find_modulus(elements: &Vec<u64>) -> (r: Result<u64, NttError>)
    ensures
        match r {
            Ok(m) => elements@.len() > 0 && found_modulus(elements@, m as int),
            Err(e) => {
                &&& (e == NttError::EmptyInput <==> elements@.len() == 0)
                &&& e == NttError::ModulusNotFound ==> forall|m2: int|
                    2 <= m2 <= u64::MAX ==> !modulus_valid(elements@, m2)
                &&& (e == NttError::EmptyInput || e == NttError::ModulusNotFound)
            },
        },
{
    let ghost s = elements@;
    if elements.len() == 0 {
        return Err(NttError::EmptyInput);
    }
    let n: u64 = elements.len() as u64;
    let mut max_elem: u64 = 0;
    let mut k: usize = 0;
    while k < elements.len()
        invariant
            0 <= k <= elements.len(),
            elements@ == s,
            max_elem as int == seq_max(s.take(k as int)),
        decreases elements.len() - k,
    {
        proof {
            assert(s.take(k as int + 1).drop_last() =~= s.take(k as int));
        }
        if elements[k] > max_elem {
            max_elem = elements[k];
        }
        k = k + 1;
    }
    proof {
        assert(s.take(s.len() as int) =~= s);
    }
    let largest: u64 = if n > max_elem { n } else { max_elem };
    let start: u64 = (largest - 1) / n;
    let bound: u64 = (u64::MAX - 1) / n;
    let mut x: u64 = start;
    proof {
        lemma_no_valid_below_scan(s, largest as int, start as int);
    }
    while x <= bound
        invariant
            elements@ == s,
            s.len() == n,
            1 <= n,
            largest as int == if n as int >= seq_max(s) { n as int } else { seq_max(s) },
            start as int == (largest - 1) as int / (n as int),
            bound as int == (u64::MAX - 1) as int / (n as int),
            start <= x,
            forall|m2: int| 2 <= m2 < (x as int) * (n as int) + 1
                ==> !modulus_valid(s, m2),
        decreases bound - x + 1,
    {
        proof {
            lemma_mul_div_bound(x as int, n as int, (u64::MAX - 1) as int);
        }
        let m: u64 = x * n + 1;
        if m > largest && is_prime(m) {
            proof {
                lemma_mod_multiples_basic(x as int, n as int);
                assert((m - 1) as int % (n as int) == 0);
            }
            return Ok(m);
        }
        proof {
            lemma_scan_step(s, largest as int, start as int, x as int);
        }
        x = x + 1;
    }
    proof {
        lemma_mul_div_cover(n as int, bound as int);
        assert((x as int) * (n as int) >= ((bound as int) + 1) * (n as int))
            by (nonlinear_arith)
            requires n >= 1 && x as int >= bound as int + 1;
        assert(forall|m2: int| 2 <= m2 <= u64::MAX ==> !modulus_valid(s, m2));
    }
    Err(NttError::ModulusNotFound)
}

/// A product bounded by its factor's division bound stays below the cap.
proof fn lemma_mul_div_bound(x: int, n: int, cap: int)
    requires
        n >= 1,
        cap >= 0,
        0 <= x <= cap / n,
    ensures
        x * n <= cap,
{
    lemma_fundamental_div_mod(cap, n);
    assert(x * n <= (cap / n) * n) by (nonlinear_arith)
        requires n >= 1 && x <= cap / n;
    assert((cap / n) * n <= cap) by (nonlinear_arith)
        requires cap == n * (cap / n) + cap % n && cap % n >= 0;
}

/// Once the scan has passed the cap, every 64-bit candidate is covered.
proof fn lemma_mul_div_cover(n: int, bound: int)
    requires
        n >= 1,
        bound == (u64::MAX - 1) as int / n,
    ensures
        (bound + 1) * n + 1 > u64::MAX,
{
    let cap = (u64::MAX - 1) as int;
    lemma_fundamental_div_mod(cap, n);
    assert((bound + 1) * n == bound * n + n) by (nonlinear_arith);
    assert(bound * n + n > cap) by (nonlinear_arith)
        requires cap == n * bound + cap % n && cap % n < n;
}

/// Below the scan's starting candidate no modulus is valid: a valid
/// one exceeds `largest`, and its predecessor is a multiple of n.
proof fn lemma_no_valid_below_scan(s: Seq<u64>, largest: int, start: int)
    requires
        s.len() >= 1,
        largest == if s.len() as int >= seq_max(s) { s.len() as int } else { seq_max(s) },
        start == (largest - 1) / (s.len() as int),
    ensures
        forall|m2: int| 2 <= m2 < start * (s.len() as int) + 1 ==> !modulus_valid(s, m2),
{
    let n = s.len() as int;
    assert forall|m2: int| 2 <= m2 < start * n + 1 implies !modulus_valid(s, m2) by {
        if modulus_valid(s, m2) {
            let x2 = (m2 - 1) / n;
            lemma_fundamental_div_mod(m2 - 1, n);
            assert(m2 - 1 == x2 * n) by {
                assert(m2 - 1 == n * x2 + (m2 - 1) % n);
                assert(n * x2 == x2 * n) by (nonlinear_arith);
            }
            // the candidate index of m2 is at least the starting one
            assert(x2 >= start) by {
                assert(m2 > largest);
                assert(m2 - 1 >= largest - 1);
                lemma_div_is_ordered(largest - 1, m2 - 1, n);
            }
            assert(m2 - 1 >= start * n) by {
                assert(x2 * n >= start * n) by (nonlinear_arith)
                    requires n >= 1 && x2 >= start;
            }
        }
    }
}

/// One more scanned candidate extends the coverage by one block of n.
proof fn lemma_scan_step(s: Seq<u64>, largest: int, start: int, x: int)
    requires
        s.len() >= 1,
        largest == if s.len() as int >= seq_max(s) { s.len() as int } else { seq_max(s) },
        start == (largest - 1) / (s.len() as int),
        start <= x,
        forall|m2: int| 2 <= m2 < x * (s.len() as int) + 1 ==> !modulus_valid(s, m2),
        !(x * (s.len() as int) + 1 > largest && prime(x * (s.len() as int) + 1)),
    ensures
        forall|m2: int| 2 <= m2 < (x + 1) * (s.len() as int) + 1 ==> !modulus_valid(s, m2),
{
    let n = s.len() as int;
    assert((x + 1) * n == x * n + n) by (nonlinear_arith);
    assert forall|m2: int| 2 <= m2 < (x + 1) * n + 1 implies !modulus_valid(s, m2) by {
        if modulus_valid(s, m2) {
            assert(m2 >= x * n + 1);
            let x2 = (m2 - 1) / n;
            lemma_fundamental_div_mod(m2 - 1, n);
            assert(m2 - 1 == x2 * n) by {
                assert(m2 - 1 == n * x2 + (m2 - 1) % n);
                assert(n * x2 == x2 * n) by (nonlinear_arith);
            }
            // the only candidate index in this block is x itself
            assert(x2 == x) by {
                assert(x * n <= x2 * n < x * n + n);
                assert(x2 == x) by (nonlinear_arith)
                    requires n >= 1 && x * n <= x2 * n < x * n + n;
            }
            assert(m2 > largest);
        }
    }
}

/// Tests one generator candidate: the Fermat identity must hold at the
/// full group order, and no maximal proper divisor of that order may
/// already bring the power back to 1.
fn check_generator(g: u64, m: u64) -> (r: bool)
    requires
        m >= 2,
        1 <= g < m,
    ensures
        r == generator_valid(m as int, g as int),
{
    if pow_mod(g, m - 1, m) != 1 {
        return false;
    }
    let mut f: u64 = 2;
    while f < m
        invariant
            m >= 2,
            1 <= g < m,
            2 <= f,
            pow(g as int, (m - 1) as nat) % (m as int) == 1,
            forall|f2: int| 2 <= f2 < f && #[trigger] prime(f2) && (m - 1) as int % f2 == 0
                ==> pow(g as int, (((m - 1) as int / f2) as nat)) % (m as int) != 1,
        decreases m - f,
    {
        if (m - 1) % f == 0 && is_prime(f) {
            if pow_mod(g, (m - 1) / f, m) == 1 {
                proof {
                    assert(prime(f as int));
                    assert(!generator_valid(m as int, g as int));
                }
                return false;
            }
        }
        f = f + 1;
    }
    proof {
        // a prime factor of m - 1 cannot reach m or beyond
        assert forall|f2: int| #[trigger] prime(f2) && (m - 1) as int % f2 == 0
            implies pow(g as int, (((m - 1) as int / f2) as nat)) % (m as int) != 1 by {
            if f2 >= m as int {
                lemma_small_mod((m - 1) as nat, f2 as nat);
                assert((m - 1) as int % f2 == (m - 1) as int);
                assert(m >= 2);
            } else {
                assert(2 <= f2 < m as int);
            }
        }
    }
    true
}

/// Scans candidates from 1 upward and returns the first generator of
/// the full multiplicative group.
pub fn find_generator(modulus: u64) -> (r: Result<u64, NttError>)
    requires
        modulus >= 2,
    ensures
        match r {
            Ok(g) => found_generator(modulus as int, g as int),
            Err(e) => e == NttError::NoGeneratorExists && forall|g2: int|
                1 <= g2 < modulus ==> !generator_valid(modulus as int, g2),
        },
{
    let mut g: u64 = 1;
    while g < modulus
        invariant
            modulus >= 2,
            1 <= g,
            forall|g2: int| 1 <= g2 < g ==> !generator_valid(modulus as int, g2),
        decreases modulus - g,
    {
        if check_generator(g, modulus) {
            return Ok(g);
        }
        g = g + 1;
    }
    Err(NttError::NoGeneratorExists)
}

/// Derives the primitive n-th root of unity: the discovered generator
/// raised to the cofactor of n in the group order. Its n-th power is 1.
pub fn find_primitive_root(n: u64, modulus: u64) -> (r: Result<u64, NttError>)
    requires
        modulus >= 2,
        n >= 1,
        (modulus - 1) as int % (n as int) == 0,
    ensures
        match r {
            Ok(w) => {
                &&& exists|g: int| found_generator(modulus as int, g)
                    && w as int == omega(modulus as int, g, n as int)
                &&& pow(w as int, n as nat) % (modulus as int) == 1
                &&& w < modulus
            },
            Err(e) => e == NttError::NoGeneratorExists && forall|g2: int|
                1 <= g2 < modulus ==> !generator_valid(modulus as int, g2),
        },
{
    let g = match find_generator(modulus) {
        Ok(g) => g,
        Err(e) => {
            return Err(e);
        },
    };
    let k: u64 = (modulus - 1) / n;
    let w = pow_mod(g, k, modulus);
    proof {
        let mi = modulus as int;
        let gi = g as int;
        let ni = n as int;
        let ki = k as int;
        lemma_fundamental_div_mod(mi - 1, ni);
        assert(mi - 1 == ni * ki);
        assert(ki * ni == mi - 1) by (nonlinear_arith)
            requires mi - 1 == ni * ki;
        lemma_pow_multiplies(gi, k as nat, n as nat);
        assert((k as nat) * (n as nat) == (mi - 1) as nat);
        assert(pow(pow(gi, k as nat), n as nat) == pow(gi, (mi - 1) as nat));
        lemma_pow_mod_noop(pow(gi, k as nat), n as nat, mi);
        assert(w as int == pow(gi, k as nat) % mi);
        assert(pow(w as int, n as nat) % mi == pow(pow(gi, k as nat), n as nat) % mi);
        assert(generator_valid(mi, gi));
        assert(pow(gi, (mi - 1) as nat) % mi == 1);
        assert(pow(w as int, n as nat) % mi == 1);
        assert(found_generator(mi, gi) && w as int == omega(mi, gi, ni));
    }
    Ok(w)
}

} // verus!
