//! Number-theoretic transforms in modular arithmetic: a generic
//! engine that discovers a prime modulus and a primitive n-th root of
//! unity for each input, and a fixed-field engine over the BLS12-381
//! scalar field with its precomputed root of unity. Both compute the
//! transform in its explicit matrix form.

pub mod num_theory;
pub mod discovery;
pub mod transform;
pub mod field381;

use vstd::prelude::*;

verus! {

/// Errors of the generic transform path.
#[derive(Clone, Copy, PartialEq, Eq, Structural, Debug)]
pub enum NttError {
    /// A transform was requested on a zero-length sequence.
    EmptyInput,
    /// The modulus search exhausted its range without finding a valid prime.
    ModulusNotFound,
    /// The generator search exhausted all candidates below the modulus.
    NoGeneratorExists,
    /// The linear-scan inverse search found no multiplicative inverse.
    NoInverseExists,
}

impl NttError {
    /// The descriptive message the error carries to its caller.
    pub fn describe(&self) -> (r: String)
        ensures
            r@ == (match self {
                NttError::EmptyInput => "transform requested on an empty sequence"@,
                NttError::ModulusNotFound => "no valid transform modulus was found"@,
                NttError::NoGeneratorExists => "no generator exists below the modulus"@,
                NttError::NoInverseExists => "no modular inverse was found"@,
            }),
    {
        match self {
            NttError::EmptyInput => "transform requested on an empty sequence".to_owned(),
            NttError::ModulusNotFound => "no valid transform modulus was found".to_owned(),
            NttError::NoGeneratorExists => "no generator exists below the modulus".to_owned(),
            NttError::NoInverseExists => "no modular inverse was found".to_owned(),
        }
    }
}

} // verus!
