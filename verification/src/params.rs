//! The three ML-KEM parameter sets and the sizes they imply.

use vstd::prelude::*;

verus! {

/// The parameters of one ML-KEM parameter set.
#[derive(Clone, Copy, Debug, PartialEq, Eq)]
pub struct ParamSet {
    /// Rank of the module: the number of polynomials in a vector.
    pub k: usize,
    /// Width of the centered binomial distribution for secrets.
    pub eta1: usize,
    /// Width of the centered binomial distribution for errors.
    pub eta2: usize,
    /// Bits per coefficient of the compressed `u` part of a ciphertext.
    pub du: usize,
    /// Bits per coefficient of the compressed `v` part of a ciphertext.
    pub dv: usize,
}

impl ParamSet {
    /// One of ML-KEM-512, ML-KEM-768 and ML-KEM-1024.
    pub open spec fn valid(self) -> bool {
        ||| self == (ParamSet { k: 2, eta1: 3, eta2: 2, du: 10, dv: 4 })
        ||| self == (ParamSet { k: 3, eta1: 2, eta2: 2, du: 10, dv: 4 })
        ||| self == (ParamSet { k: 4, eta1: 2, eta2: 2, du: 11, dv: 5 })
    }

    /// Bytes of an encoded vector of `k` polynomials at 12 bits per coefficient.
    pub open spec fn polyvec_bytes(self) -> nat {
        384 * self.k as nat
    }

    /// Bytes of an encapsulation key: `ByteEncode_12(t_hat) || rho`.
    pub open spec fn ek_bytes(self) -> nat {
        384 * self.k as nat + 32
    }

    /// Bytes of a ciphertext: `c1 || c2`.
    pub open spec fn ct_bytes(self) -> nat {
        32 * (self.du as nat * self.k as nat + self.dv as nat)
    }

    /// Bytes of the `c1` part of a ciphertext.
    pub open spec fn c1_bytes(self) -> nat {
        32 * (self.du as nat * self.k as nat)
    }

    /// Bytes of an expanded decapsulation key: `dk_pke || ek || H(ek) || z`.
    pub open spec fn dk_bytes(self) -> nat {
        768 * self.k as nat + 96
    }

    /// The length of a ciphertext, `32 * (du * k + dv)` bytes.
    pub fn ciphertext_len(&self) -> (r: usize)
        requires
            self.valid(),
        ensures
            r == self.ct_bytes(),
    {
        proof {
            self.lemma_sizes();
        }
        32 * (self.du * self.k + self.dv)
    }

    /// The sizes of the three parameter sets are small.
    pub proof fn lemma_sizes(self)
        requires
            self.valid(),
        ensures
            self.ct_bytes() <= 1568,
            self.c1_bytes() + 32 * self.dv == self.ct_bytes(),
            self.dk_bytes() <= 3168,
            self.ek_bytes() <= 1568,
            2 <= self.k <= 4,
    {
        if self.k == 2 {
            assert(self.du == 10 && self.dv == 4);
            assert(self.ct_bytes() == 32 * (10 * 2 + 4));
            assert(self.c1_bytes() == 32 * (10 * 2));
        } else if self.k == 3 {
            assert(self.du == 10 && self.dv == 4);
            assert(self.ct_bytes() == 32 * (10 * 3 + 4));
            assert(self.c1_bytes() == 32 * (10 * 3));
        } else {
            assert(self.du == 11 && self.dv == 5);
            assert(self.ct_bytes() == 32 * (11 * 4 + 5));
            assert(self.c1_bytes() == 32 * (11 * 4));
        }
    }
}

/// A parameter set, chosen at the type level.
pub trait KemParams {
    /// The parameters that this type stands for.
    spec fn param_set() -> ParamSet;

    /// The parameters that this type stands for.
    fn params() -> (p: ParamSet)
        ensures
            p == Self::param_set(),
            p.valid(),
    ;
}

/// ML-KEM-512 (security category 1).
#[derive(Clone, Copy, Debug, PartialEq, Eq)]
pub struct MlKem512Params;

/// ML-KEM-768 (security category 3).
#[derive(Clone, Copy, Debug, PartialEq, Eq)]
pub struct MlKem768Params;

/// ML-KEM-1024 (security category 5).
#[derive(Clone, Copy, Debug, PartialEq, Eq)]
pub struct MlKem1024Params;

impl KemParams for MlKem512Params {
    open spec fn param_set() -> ParamSet {
        ParamSet { k: 2, eta1: 3, eta2: 2, du: 10, dv: 4 }
    }

    fn params() -> (p: ParamSet) {
        ParamSet { k: 2, eta1: 3, eta2: 2, du: 10, dv: 4 }
    }
}

impl KemParams for MlKem768Params {
    open spec fn param_set() -> ParamSet {
        ParamSet { k: 3, eta1: 2, eta2: 2, du: 10, dv: 4 }
    }

    fn params() -> (p: ParamSet) {
        ParamSet { k: 3, eta1: 2, eta2: 2, du: 10, dv: 4 }
    }
}

impl KemParams for MlKem1024Params {
    open spec fn param_set() -> ParamSet {
        ParamSet { k: 4, eta1: 2, eta2: 2, du: 11, dv: 5 }
    }

    fn params() -> (p: ParamSet) {
        ParamSet { k: 4, eta1: 2, eta2: 2, du: 11, dv: 5 }
    }
}

} // verus!
