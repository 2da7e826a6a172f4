//! The ML-KEM key encapsulation mechanism: key generation from seeds,
//! encapsulation, decapsulation with implicit rejection, and the byte
//! encodings of keys.

use core::marker::PhantomData;
use vstd::prelude::*;
use crate::crypto::{
    concat, g_spec, hash_g, hash_h, hash_j, j_spec, random_b32, sha3_256, sha3_512, shake256, take32,
};
use crate::params::{KemParams, ParamSet};
use crate::pke::{pke_decrypt, pke_decrypt_spec, pke_encrypt, pke_encrypt_spec, pke_keygen, pke_keygen_spec, sub_bytes};

verus! {

/// A shared key resulting from an ML-KEM transaction.
pub type SharedKey = [u8; 32];

/// `ML-KEM.KeyGen_internal(d, z)`: the parts `(dk_pke, ek, H(ek), z)` of
/// the decapsulation key; the second is the encapsulation key.
pub open spec fn kem_keygen_spec(p: ParamSet, d: Seq<u8>, z: Seq<u8>) -> (Seq<u8>, Seq<u8>, Seq<u8>, Seq<u8>) {
    let ek = pke_keygen_spec(p, d).0;
    (pke_keygen_spec(p, d).1, ek, sha3_256(ek), z)
}

/// `ML-KEM.Encaps_internal(ek, m)`, given `h = H(ek)`: the ciphertext and
/// the shared key.
pub open spec fn encaps_spec(p: ParamSet, ek: Seq<u8>, h: Seq<u8>, m: Seq<u8>) -> (Seq<u8>, Seq<u8>) {
    let kr = g_spec(m + h);
    (pke_encrypt_spec(p, ek, m, kr.1), kr.0)
}

/// `ML-KEM.Decaps_internal(dk, c)`, for `dk = dk_pke || ek || h || z`: the
/// key derived from the decrypted message if re-encrypting it gives `c`
/// back, else the rejection key `J(z || c)`.
pub open spec fn decaps_spec(
    p: ParamSet,
    dk_pke: Seq<u8>,
    ek: Seq<u8>,
    h: Seq<u8>,
    z: Seq<u8>,
    c: Seq<u8>,
) -> Seq<u8> {
    let m = pke_decrypt_spec(p, dk_pke, c);
    let kr = g_spec(m + h);
    if pke_encrypt_spec(p, ek, m, kr.1) == c {
        kr.0
    } else {
        j_spec(z, c)
    }
}

/// The last step of decapsulation: `k_prime` if the re-encryption `c_prime`
/// equals the ciphertext `c`, else the rejection key `k_bar`, compared and
/// chosen without branching on the bytes.
pub fn choose_shared_key(c_prime: &[u8], c: &[u8], k_prime: &[u8; 32], k_bar: &[u8; 32]) -> (r: SharedKey)
    requires
        c_prime@.len() == c@.len(),
    ensures
        r@ == (if c_prime@ == c@ { k_prime@ } else { k_bar@ }),
{
    let equal = ct_eq_bytes(c_prime, c);
    ct_select(equal, k_prime, k_bar)
}

/// The hash kept beside an encapsulation key `(ek, h)` is `H(ek)`.
pub open spec fn ek_consistent(v: (Seq<u8>, Seq<u8>)) -> bool {
    v.1 == sha3_256(v.0)
}

/// Returns `0xff` if `x == y` and `0x00` otherwise, without branching on the inputs.
pub fn constant_time_eq(x: u8, y: u8) -> (r: u8)
    ensures
        r == (if x == y { 0xffu8 } else { 0u8 }),
{
    let diff = x ^ y;
    let is_zero = !diff & diff.wrapping_sub(1);
    let r = 0u8.wrapping_sub(is_zero >> 7);
    assert(r == (if x == y { 0xffu8 } else { 0u8 })) by (bit_vector)
        requires
            diff == x ^ y,
            is_zero == !diff & (if diff == 0 { 255u8 } else { (diff - 1) as u8 }),
            r == (if (is_zero >> 7) == 0 { 0u8 } else { (256 - (is_zero >> 7)) as u8 }),
    ;
    r
}

/// `0xff` if the two byte strings are equal, `0x00` otherwise, comparing
/// every byte whatever the earlier ones were.
fn ct_eq_bytes(a: &[u8], b: &[u8]) -> (r: u8)
    requires
        a@.len() == b@.len(),
    ensures
        r == (if a@ == b@ { 0xffu8 } else { 0u8 }),
{
    let n = a.len();
    let mut equal: u8 = 0xff;
    let mut i: usize = 0;
    assert(a@.take(0) =~= b@.take(0));
    while i < n
        invariant
            n == a@.len() == b@.len(),
            i <= n,
            equal == (if a@.take(i as int) == b@.take(i as int) { 0xffu8 } else { 0u8 }),
        decreases n - i,
    {
        let e = constant_time_eq(a[i], b[i]);
        let ghost old_equal = equal;
        equal = equal & e;
        proof {
            assert(equal == (if old_equal == 0xff && e == 0xff { 0xffu8 } else { 0u8 })) by (bit_vector)
                requires
                    old_equal == 0xff || old_equal == 0,
                    e == 0xff || e == 0,
                    equal == old_equal & e,
            ;
            if a@.take(i as int) == b@.take(i as int) && a@[i as int] == b@[i as int] {
                assert(a@.take(i + 1) =~= b@.take(i + 1)) by {
                    assert forall|t: int| 0 <= t < i + 1 implies #[trigger] a@.take(i + 1)[t] == b@.take(i + 1)[t] by {
                        if t < i {
                            assert(a@.take(i as int)[t] == b@.take(i as int)[t]);
                        }
                    }
                }
            } else if a@.take(i as int) != b@.take(i as int) {
                if a@.take(i + 1) == b@.take(i + 1) {
                    assert(a@.take(i as int) =~= a@.take(i + 1).take(i as int));
                    assert(b@.take(i as int) =~= b@.take(i + 1).take(i as int));
                }
            } else {
                assert(a@.take(i + 1)[i as int] != b@.take(i + 1)[i as int]);
            }
        }
        i = i + 1;
    }
    assert(a@.take(n as int) =~= a@);
    assert(b@.take(n as int) =~= b@);
    equal
}

/// Chooses `x` if `mask == 0xff` and `y` if `mask == 0`, byte by byte with
/// masks rather than a branch.
fn ct_select(mask: u8, x: &[u8; 32], y: &[u8; 32]) -> (r: [u8; 32])
    requires
        mask == 0xff || mask == 0,
    ensures
        r@ == (if mask == 0xff { x@ } else { y@ }),
{
    let mut r = [0u8; 32];
    let mut i: usize = 0;
    while i < 32
        invariant
            i <= 32,
            mask == 0xff || mask == 0,
            r@.len() == 32,
            forall|t: int| 0 <= t < i ==> #[trigger] r@[t] == (if mask == 0xff { x@[t] } else { y@[t] }),
        decreases 32 - i,
    {
        let xi = x[i];
        let yi = y[i];
        let v = (mask & xi) | (!mask & yi);
        assert(v == (if mask == 0xff { xi } else { yi })) by (bit_vector)
            requires
                mask == 0xff || mask == 0,
                v == (mask & xi) | (!mask & yi),
        ;
        r[i] = v;
        i = i + 1;
    }
    assert(r@ =~= (if mask == 0xff { x@ } else { y@ }));
    r
}


/// An `EncapsulationKey` provides the ability to encapsulate a shared key so
/// that it can only be decapsulated by the holder of the corresponding
/// decapsulation key.
#[derive(Debug, PartialEq)]
pub struct EncapsulationKey<P> where P: KemParams {
    ek_pke: Vec<u8>,
    h: [u8; 32],
    _phantom: PhantomData<P>,
}

impl<P: KemParams> Clone for EncapsulationKey<P> {
    fn clone(&self) -> (r: Self)
        ensures
            r@ == self@,
    {
        self.copy()
    }
}

impl<P: KemParams> View for EncapsulationKey<P> {
    /// The encoded key `ek` and the hash `h` kept beside it.
    type V = (Seq<u8>, Seq<u8>);

    closed spec fn view(&self) -> (Seq<u8>, Seq<u8>) {
        (self.ek_pke@, self.h@)
    }
}

impl<P: KemParams> EncapsulationKey<P> {
    /// The encoded key has the length of the parameter set.
    #[verifier::type_invariant]
    closed spec fn inv(self) -> bool {
        self.ek_pke@.len() == P::param_set().ek_bytes()
    }

    /// A copy with the same view.
    fn copy(&self) -> (r: Self)
        ensures
            r@ == self@,
    {
        proof {
            use_type_invariant(self);
        }
        let ek_pke = self.ek_pke.clone();
        assert(ek_pke@ =~= self.ek_pke@);
        EncapsulationKey { ek_pke, h: self.h, _phantom: PhantomData }
    }

    /// Wraps an encoded key with its hash `H(ek)`.
    fn new(ek_pke: Vec<u8>) -> (r: Self)
        requires
            ek_pke@.len() == P::param_set().ek_bytes(),
        ensures
            r@ == (ek_pke@, sha3_256(ek_pke@)),
    {
        let h = hash_h(ek_pke.as_slice());
        EncapsulationKey { ek_pke, h, _phantom: PhantomData }
    }

    /// `ML-KEM.Encaps_internal(ek, m)`: the ciphertext and the shared key.
    fn encapsulate_deterministic_inner(&self, m: &[u8; 32]) -> (r: (Vec<u8>, SharedKey))
        ensures
            (r.0@, r.1@) == encaps_spec(P::param_set(), self@.0, self@.1, m@),
            r.1@ == sha3_512(m@ + self@.1).take(32),
            r.0@ == pke_encrypt_spec(P::param_set(), self@.0, m@, sha3_512(m@ + self@.1).skip(32)),
            r.0@.len() == P::param_set().ct_bytes(),
    {
        proof {
            use_type_invariant(self);
        }
        let p = P::params();
        let (k, r) = hash_g(m, &self.h);
        let c = pke_encrypt(p, self.ek_pke.as_slice(), m, &r);
        (c, k)
    }

    /// Decodes an encapsulation key, computing its hash `H(ek)`.
    pub fn from_bytes(enc: &[u8]) -> (r: Self)
        requires
            enc@.len() == P::param_set().ek_bytes(),
        ensures
            r@ == (enc@, sha3_256(enc@)),
    {
        let n = enc.len();
        Self::new(sub_bytes(enc, 0, n))
    }

    /// The encoded key `ek`.
    pub fn as_bytes(&self) -> (r: Vec<u8>)
        ensures
            r@ == self@.0,
            r@.len() == P::param_set().ek_bytes(),
            self@.1.len() == 32,
    {
        proof {
            use_type_invariant(self);
        }
        let r = self.ek_pke.clone();
        assert(r@ =~= self.ek_pke@);
        r
    }

    /// Encapsulates a fresh shared key under this key, with a message `m`
    /// drawn from `rng`: the ciphertext and the shared key.
    pub fn encapsulate<R: rand_core::CryptoRngCore>(&self, rng: &mut R) -> (r: Result<
        (Vec<u8>, SharedKey),
        core::convert::Infallible,
    >)
        ensures
            r is Ok,
            r matches Ok(ck) ==> ck.0@.len() == P::param_set().ct_bytes(),
            r matches Ok(ck) ==> exists|m: Seq<u8>|
                m.len() == 32 && #[trigger] encaps_spec(P::param_set(), self@.0, self@.1, m) == (
                ck.0@,
                ck.1@,
            ),
    {
        let m = random_b32(rng);
        let ck = self.encapsulate_deterministic_inner(&m);
        assert(encaps_spec(P::param_set(), self@.0, self@.1, m@) == (ck.0@, ck.1@));
        Ok(ck)
    }

    /// Encapsulates under this key with the given message `m`.
    pub fn encapsulate_deterministic(&self, m: &[u8; 32]) -> (r: Result<
        (Vec<u8>, SharedKey),
        core::convert::Infallible,
    >)
        ensures
            r matches Ok(ck) && encaps_spec(P::param_set(), self@.0, self@.1, m@) == (ck.0@, ck.1@)
                && ck.0@.len() == P::param_set().ct_bytes() && ck.1@ == sha3_512(m@ + self@.1).take(32)
                && ck.0@ == pke_encrypt_spec(
                P::param_set(),
                self@.0,
                m@,
                sha3_512(m@ + self@.1).skip(32),
            ),
    {
        Ok(self.encapsulate_deterministic_inner(m))
    }
}


/// Overwrites the bytes of `v` with zeros, through `zeroize::Zeroize::zeroize`
/// on its slice. Trusted: afterwards `v` holds as many bytes as before, all
/// zero, and the call does not panic (its one check, that the length fits an
/// `isize`, holds of every `Vec`).
#[verifier::external_body]
fn zeroize_bytes(v: &mut Vec<u8>)
    ensures
        final(v)@ == Seq::new(old(v)@.len(), |i: int| 0u8),
    no_unwind
{
    zeroize::Zeroize::zeroize(v.as_mut_slice());
}

/// Overwrites the 32 bytes of `b` with zeros, through `zeroize::Zeroize::zeroize`.
/// Trusted: afterwards every byte of `b` is zero, and the call does not panic.
#[verifier::external_body]
fn zeroize_b32(b: &mut [u8; 32])
    ensures
        final(b)@ == Seq::new(32, |i: int| 0u8),
    no_unwind
{
    zeroize::Zeroize::zeroize(b);
}

/// The parts `(dk_pke, ek, h, z)` of an encoded decapsulation key.
pub open spec fn split_dk(p: ParamSet, enc: Seq<u8>) -> (Seq<u8>, Seq<u8>, Seq<u8>, Seq<u8>) {
    let k = p.k as int;
    (
        enc.subrange(0, 384 * k),
        enc.subrange(384 * k, 768 * k + 32),
        enc.subrange(768 * k + 32, 768 * k + 64),
        enc.subrange(768 * k + 64, 768 * k + 96),
    )
}

/// The encoding `dk_pke || ek || h || z` of a decapsulation key.
pub open spec fn concat_dk(v: (Seq<u8>, Seq<u8>, Seq<u8>, Seq<u8>)) -> Seq<u8> {
    v.0 + v.1 + v.2 + v.3
}

/// An expanded decapsulation key: `dk_pke`, the encapsulation key and its
/// hash, and the rejection seed `z`.
#[derive(Debug, PartialEq)]
pub struct DecapsulationKeyInner<P> where P: KemParams {
    dk_pke: Vec<u8>,
    ek: EncapsulationKey<P>,
    z: [u8; 32],
}

impl<P: KemParams> View for DecapsulationKeyInner<P> {
    /// `(dk_pke, ek, h, z)`.
    type V = (Seq<u8>, Seq<u8>, Seq<u8>, Seq<u8>);

    closed spec fn view(&self) -> (Seq<u8>, Seq<u8>, Seq<u8>, Seq<u8>) {
        (self.dk_pke@, self.ek@.0, self.ek@.1, self.z@)
    }
}

impl<P: KemParams> Clone for DecapsulationKeyInner<P> {
    fn clone(&self) -> (r: Self)
        ensures
            r@ == self@,
    {
        proof {
            use_type_invariant(self);
        }
        let dk_pke = self.dk_pke.clone();
        assert(dk_pke@ =~= self.dk_pke@);
        DecapsulationKeyInner { dk_pke, ek: self.ek.copy(), z: self.z }
    }
}

impl<P: KemParams> DecapsulationKeyInner<P> {
    /// The decryption key has the length of the parameter set.
    #[verifier::type_invariant]
    closed spec fn inv(self) -> bool {
        self.dk_pke@.len() == P::param_set().polyvec_bytes()
    }

    /// Get the [`EncapsulationKey`] which corresponds to this [`DecapsulationKeyInner`].
    pub fn encapsulation_key(&self) -> (r: EncapsulationKey<P>)
        ensures
            r@ == (self@.1, self@.2),
            self@.0.len() == P::param_set().polyvec_bytes(),
            self@.1.len() == P::param_set().ek_bytes(),
            self@.2.len() == 32,
            self@.3.len() == 32,
    {
        proof {
            use_type_invariant(self);
            use_type_invariant(&self.ek);
        }
        self.ek.copy()
    }

    /// Generates a key pair from 64 bytes drawn from `rng`.
    pub fn generate<R: rand_core::CryptoRngCore>(rng: &mut R) -> (r: Self)
        ensures
            exists|d: Seq<u8>, z: Seq<u8>|
                d.len() == 32 && z.len() == 32 && #[trigger] kem_keygen_spec(P::param_set(), d, z) == r@,
    {
        let d = random_b32(rng);
        let z = random_b32(rng);
        let r = Self::generate_deterministic(&d, &z);
        assert(kem_keygen_spec(P::param_set(), d@, z@) == r@);
        r
    }

    /// `ML-KEM.KeyGen_internal(d, z)`.
    pub fn generate_deterministic(d: &[u8; 32], z: &[u8; 32]) -> (r: Self)
        ensures
            r@ == kem_keygen_spec(P::param_set(), d@, z@),
    {
        let p = P::params();
        let (ek_pke, dk_pke) = pke_keygen(p, d);
        let ek = EncapsulationKey::new(ek_pke);
        DecapsulationKeyInner { dk_pke, ek, z: *z }
    }

    /// Decodes `dk_pke || ek || h || z`; `h` is taken as it stands.
    pub fn from_bytes(enc: &[u8]) -> (r: Self)
        requires
            enc@.len() == P::param_set().dk_bytes(),
        ensures
            r@ == split_dk(P::param_set(), enc@),
            r@.0 + r@.1 + r@.2 + r@.3 == enc@,
            r@.3 == enc@.subrange(enc@.len() - 32, enc@.len() as int),
            r@.2 == enc@.subrange(enc@.len() - 64, enc@.len() - 32),
    {
        let p = P::params();
        let k = p.k;
        let dk_pke = sub_bytes(enc, 0, 384 * k);
        let ek_pke = sub_bytes(enc, 384 * k, 384 * k + 32);
        let h = take32(enc, 768 * k + 32);
        let z = take32(enc, 768 * k + 64);
        let ek = EncapsulationKey { ek_pke, h, _phantom: PhantomData };
        DecapsulationKeyInner { dk_pke, ek, z }
    }

    /// The encoding `dk_pke || ek || h || z`.
    pub fn as_bytes(&self) -> (r: Vec<u8>)
        ensures
            r@ == concat_dk(self@),
            r@ == self@.0 + self@.1 + self@.2 + self@.3,
            r@.len() == P::param_set().dk_bytes(),
            self@.0.len() == P::param_set().polyvec_bytes(),
            self@.1.len() == P::param_set().ek_bytes(),
            self@.2.len() == 32,
            self@.3.len() == 32,
    {
        proof {
            use_type_invariant(self);
            use_type_invariant(&self.ek);
        }
        let p = P::params();
        let a = concat(self.dk_pke.as_slice(), self.ek.ek_pke.as_slice());
        let b = concat(a.as_slice(), &self.ek.h);
        concat(b.as_slice(), &self.z)
    }

    /// `ML-KEM.Decaps_internal(dk, c)`, choosing between the derived key and
    /// the rejection key in constant time.
    pub fn decapsulate(&self, encapsulated_key: &[u8]) -> (r: Result<SharedKey, core::convert::Infallible>)
        requires
            encapsulated_key@.len() == P::param_set().ct_bytes(),
        ensures
            r matches Ok(k) && k@ == decaps_spec(
                P::param_set(),
                self@.0,
                self@.1,
                self@.2,
                self@.3,
                encapsulated_key@,
            ),
            r matches Ok(k) && {
                let m = pke_decrypt_spec(P::param_set(), self@.0, encapsulated_key@);
                let g = sha3_512(m + self@.2);
                &&& pke_encrypt_spec(P::param_set(), self@.1, m, g.skip(32)) == encapsulated_key@
                    ==> k@ == g.take(32)
                &&& pke_encrypt_spec(P::param_set(), self@.1, m, g.skip(32)) != encapsulated_key@
                    ==> k@ == shake256(self@.3 + encapsulated_key@, 32)
            },
    {
        proof {
            use_type_invariant(self);
            use_type_invariant(&self.ek);
        }
        let p = P::params();
        proof {
            p.lemma_sizes();
        }
        let mp = pke_decrypt(p, self.dk_pke.as_slice(), encapsulated_key);
        let (kp, rp) = hash_g(mp.as_slice(), &self.ek.h);
        let kbar = hash_j(&self.z, encapsulated_key);
        let cp = pke_encrypt(p, self.ek.ek_pke.as_slice(), mp.as_slice(), &rp);
        Ok(choose_shared_key(cp.as_slice(), encapsulated_key, &kp, &kbar))
    }

    /// Overwrites the secret parts `dk_pke` and `z` with zeros.
    pub fn zeroize(&mut self)
        ensures
            final(self)@.0 == Seq::new(old(self)@.0.len(), |i: int| 0u8),
            final(self)@.1 == old(self)@.1,
            final(self)@.2 == old(self)@.2,
            final(self)@.3 == Seq::new(32, |i: int| 0u8),
    {
        proof {
            use_type_invariant(&*self);
        }
        zeroize_bytes(&mut self.dk_pke);
        zeroize_b32(&mut self.z);
    }
}


/// The 64-byte seed `(d, z)` from which a decapsulation key is expanded.
#[derive(Debug, PartialEq)]
pub struct DecapsulationSeed<P> where P: KemParams {
    d: [u8; 32],
    z: [u8; 32],
    _phantom: PhantomData<P>,
}

impl<P: KemParams> View for DecapsulationSeed<P> {
    /// `(d, z)`.
    type V = (Seq<u8>, Seq<u8>);

    closed spec fn view(&self) -> (Seq<u8>, Seq<u8>) {
        (self.d@, self.z@)
    }
}

impl<P: KemParams> Clone for DecapsulationSeed<P> {
    fn clone(&self) -> (r: Self)
        ensures
            r@ == self@,
    {
        DecapsulationSeed { d: self.d, z: self.z, _phantom: PhantomData }
    }
}

impl<P: KemParams> DecapsulationSeed<P> {
    /// Get the [`EncapsulationKey`] which corresponds to this [`DecapsulationSeed`].
    pub fn encapsulation_key(&self) -> (r: EncapsulationKey<P>)
        ensures
            r@ == (
                kem_keygen_spec(P::param_set(), self@.0, self@.1).1,
                kem_keygen_spec(P::param_set(), self@.0, self@.1).2,
            ),
    {
        DecapsulationKeyInner::<P>::generate_deterministic(&self.d, &self.z).encapsulation_key().clone()
    }

    /// A seed of 64 bytes drawn from `rng`.
    pub fn generate<R: rand_core::CryptoRngCore>(rng: &mut R) -> (r: Self)
        ensures
            r@.0.len() == 32,
            r@.1.len() == 32,
    {
        let d = random_b32(rng);
        let z = random_b32(rng);
        Self::generate_deterministic(&d, &z)
    }

    /// The seed `(d, z)`.
    pub fn generate_deterministic(d: &[u8; 32], z: &[u8; 32]) -> (r: Self)
        ensures
            r@ == (d@, z@),
    {
        DecapsulationSeed { d: *d, z: *z, _phantom: PhantomData }
    }

    /// Decodes `d || z`.
    pub fn from_bytes(enc: &[u8]) -> (r: Self)
        requires
            enc@.len() == 64,
        ensures
            r@ == (enc@.subrange(0, 32), enc@.subrange(32, 64)),
    {
        let d = take32(enc, 0);
        let z = take32(enc, 32);
        DecapsulationSeed { d, z, _phantom: PhantomData }
    }

    /// The encoding `d || z`.
    pub fn as_bytes(&self) -> (r: Vec<u8>)
        ensures
            r@ == self@.0 + self@.1,
            r@.len() == 64,
            self@.0.len() == 32,
            self@.1.len() == 32,
    {
        concat(&self.d, &self.z)
    }

    /// Expands the seed and decapsulates with the expanded key.
    pub fn decapsulate(&self, encapsulated_key: &[u8]) -> (r: Result<SharedKey, core::convert::Infallible>)
        requires
            encapsulated_key@.len() == P::param_set().ct_bytes(),
        ensures
            r matches Ok(k) && {
                let dk = kem_keygen_spec(P::param_set(), self@.0, self@.1);
                k@ == decaps_spec(P::param_set(), dk.0, dk.1, dk.2, dk.3, encapsulated_key@)
            },
    {
        DecapsulationKeyInner::<P>::generate_deterministic(&self.d, &self.z).decapsulate(encapsulated_key)
    }

    /// Overwrites the seed with zeros.
    pub fn zeroize(&mut self)
        ensures
            final(self)@.0 == Seq::new(32, |i: int| 0u8),
            final(self)@.1 == Seq::new(32, |i: int| 0u8),
    {
        zeroize_b32(&mut self.d);
        zeroize_b32(&mut self.z);
    }
}

/// A `DecapsulationKey` provides the ability to generate a new key pair, and
/// decapsulate an encapsulated shared key. It is held as its 64-byte seed.
#[derive(Debug, PartialEq)]
pub struct DecapsulationKey<P> where P: KemParams {
    key: DecapsulationSeed<P>,
}

impl<P: KemParams> View for DecapsulationKey<P> {
    /// The seed `(d, z)`.
    type V = (Seq<u8>, Seq<u8>);

    closed spec fn view(&self) -> (Seq<u8>, Seq<u8>) {
        self.key@
    }
}

impl<P: KemParams> Clone for DecapsulationKey<P> {
    fn clone(&self) -> (r: Self)
        ensures
            r@ == self@,
    {
        DecapsulationKey { key: self.key.clone() }
    }
}

impl<P: KemParams> DecapsulationKey<P> {
    /// Get the [`EncapsulationKey`] which corresponds to this [`DecapsulationKey`].
    pub fn encapsulation_key(&self) -> (r: EncapsulationKey<P>)
        ensures
            r@ == (
                kem_keygen_spec(P::param_set(), self@.0, self@.1).1,
                kem_keygen_spec(P::param_set(), self@.0, self@.1).2,
            ),
    {
        self.key.encapsulation_key()
    }

    /// A key from a seed of 64 bytes drawn from `rng`.
    pub fn generate<R: rand_core::CryptoRngCore>(rng: &mut R) -> (r: Self)
        ensures
            r@.0.len() == 32,
            r@.1.len() == 32,
    {
        DecapsulationKey { key: DecapsulationSeed::<P>::generate(rng) }
    }

    /// The key with seed `(d, z)`.
    pub fn generate_deterministic(d: &[u8; 32], z: &[u8; 32]) -> (r: Self)
        ensures
            r@ == (d@, z@),
    {
        DecapsulationKey { key: DecapsulationSeed::<P>::generate_deterministic(d, z) }
    }

    /// Decodes the 64-byte seed `d || z`.
    pub fn from_bytes(enc: &[u8]) -> (r: Self)
        requires
            enc@.len() == 64,
        ensures
            r@ == (enc@.subrange(0, 32), enc@.subrange(32, 64)),
    {
        DecapsulationKey { key: DecapsulationSeed::<P>::from_bytes(enc) }
    }

    /// The encoding `d || z` of the seed.
    pub fn as_bytes(&self) -> (r: Vec<u8>)
        ensures
            r@ == self@.0 + self@.1,
            r@.len() == 64,
            self@.0.len() == 32,
            self@.1.len() == 32,
    {
        self.key.as_bytes()
    }

    /// Decapsulates `encapsulated_key`.
    pub fn decapsulate(&self, encapsulated_key: &[u8]) -> (r: Result<SharedKey, core::convert::Infallible>)
        requires
            encapsulated_key@.len() == P::param_set().ct_bytes(),
        ensures
            r matches Ok(k) && {
                let dk = kem_keygen_spec(P::param_set(), self@.0, self@.1);
                k@ == decaps_spec(P::param_set(), dk.0, dk.1, dk.2, dk.3, encapsulated_key@)
            },
    {
        self.key.decapsulate(encapsulated_key)
    }

    /// Overwrites the seed with zeros.
    pub fn zeroize(&mut self)
        ensures
            final(self)@.0 == Seq::new(32, |i: int| 0u8),
            final(self)@.1 == Seq::new(32, |i: int| 0u8),
    {
        self.key.zeroize();
    }
}

/// An implementation of overall ML-KEM functionality. Generic over parameter
/// sets, but then ties together all of the other related types and sizes.
pub struct Kem<P> where P: KemParams {
    _phantom: PhantomData<P>,
}

impl<P: KemParams> Kem<P> {
    /// Generate a new (decapsulation, encapsulation) key pair.
    pub fn generate<R: rand_core::CryptoRngCore>(rng: &mut R) -> (r: (DecapsulationKey<P>, EncapsulationKey<P>))
        ensures
            r.0@.0.len() == 32,
            r.0@.1.len() == 32,
            r.1@ == (
                kem_keygen_spec(P::param_set(), r.0@.0, r.0@.1).1,
                kem_keygen_spec(P::param_set(), r.0@.0, r.0@.1).2,
            ),
    {
        let dk = DecapsulationKey::<P>::generate(rng);
        let ek = dk.encapsulation_key().clone();
        (dk, ek)
    }

    /// The key pair of the seed `(d, z)`.
    pub fn generate_deterministic(d: &[u8; 32], z: &[u8; 32]) -> (r: (DecapsulationKey<P>, EncapsulationKey<P>))
        ensures
            r.0@ == (d@, z@),
            r.1@ == (
                kem_keygen_spec(P::param_set(), d@, z@).1,
                kem_keygen_spec(P::param_set(), d@, z@).2,
            ),
    {
        let dk = DecapsulationKey::<P>::generate_deterministic(d, z);
        let ek = dk.encapsulation_key().clone();
        (dk, ek)
    }
}


/// Decapsulation recovers the encapsulated key: for a key pair generated from
/// any seed `(d, z)` and any message `m`, decapsulating the ciphertext of `m`
/// gives the shared key of `m`, whenever `K-PKE.Decrypt` returns `m` for that
/// ciphertext (a decryption failure, which ML-KEM makes very rare but does
/// not exclude, is the one exception).
pub proof fn lemma_decapsulate_recovers_key(p: ParamSet, d: Seq<u8>, z: Seq<u8>, m: Seq<u8>)
    requires
        p.valid(),
        d.len() == 32,
        z.len() == 32,
        m.len() == 32,
        ({
            let dk = kem_keygen_spec(p, d, z);
            pke_decrypt_spec(p, dk.0, encaps_spec(p, dk.1, dk.2, m).0) == m
        }),
    ensures
        ({
            let dk = kem_keygen_spec(p, d, z);
            let ck = encaps_spec(p, dk.1, dk.2, m);
            decaps_spec(p, dk.0, dk.1, dk.2, dk.3, ck.0) == ck.1
        }),
{
}

/// Decapsulation with an expanded key recovers what its encapsulation key
/// encapsulated: for any expanded key `(dk_pke, ek, h, z)` and message `m`,
/// decapsulating the ciphertext of `m` under `(ek, h)` gives the shared key
/// of `m`, whenever `K-PKE.Decrypt` with `dk_pke` returns `m` for it.
pub proof fn lemma_expanded_decapsulate_recovers_key(
    p: ParamSet,
    dk: (Seq<u8>, Seq<u8>, Seq<u8>, Seq<u8>),
    m: Seq<u8>,
)
    requires
        pke_decrypt_spec(p, dk.0, encaps_spec(p, dk.1, dk.2, m).0) == m,
    ensures
        decaps_spec(p, dk.0, dk.1, dk.2, dk.3, encaps_spec(p, dk.1, dk.2, m).0) == encaps_spec(
            p,
            dk.1,
            dk.2,
            m,
        ).1,
{
}

/// Implicit rejection: whatever the ciphertext, decapsulation answers either
/// the key derived from the decrypted message, when re-encrypting that
/// message gives the ciphertext back, or else the rejection key `J(z || c)`.
pub proof fn lemma_decapsulate_rejects(
    p: ParamSet,
    dk_pke: Seq<u8>,
    ek: Seq<u8>,
    h: Seq<u8>,
    z: Seq<u8>,
    c: Seq<u8>,
)
    ensures
        ({
            let m = pke_decrypt_spec(p, dk_pke, c);
            let ck = encaps_spec(p, ek, h, m);
            &&& ck.0 == c ==> decaps_spec(p, dk_pke, ek, h, z, c) == ck.1
            &&& ck.0 != c ==> decaps_spec(p, dk_pke, ek, h, z, c) == j_spec(z, c)
        }),
{
}

/// The encapsulation key of every generated key pair is consistent: the hash
/// kept beside it is `H(ek)`, as `EncapsulationKey::from_bytes` recomputes it.
pub proof fn lemma_generated_key_consistent(p: ParamSet, d: Seq<u8>, z: Seq<u8>)
    ensures
        ek_consistent((kem_keygen_spec(p, d, z).1, kem_keygen_spec(p, d, z).2)),
{
}

/// Decoding the encoding of a seed gives the seed back, and encoding a
/// decoded 64-byte string gives the string back.
pub proof fn lemma_seed_codec(v: (Seq<u8>, Seq<u8>), enc: Seq<u8>)
    requires
        v.0.len() == 32,
        v.1.len() == 32,
        enc.len() == 64,
    ensures
        ((v.0 + v.1).subrange(0, 32), (v.0 + v.1).subrange(32, 64)) == v,
        enc.subrange(0, 32) + enc.subrange(32, 64) == enc,
{
    assert((v.0 + v.1).subrange(0, 32) =~= v.0);
    assert((v.0 + v.1).subrange(32, 64) =~= v.1);
    assert(enc.subrange(0, 32) + enc.subrange(32, 64) =~= enc);
}

/// Decoding the encoding of an expanded decapsulation key gives its parts
/// back, and encoding the parts of a decoded string gives the string back.
pub proof fn lemma_expanded_key_codec(
    p: ParamSet,
    v: (Seq<u8>, Seq<u8>, Seq<u8>, Seq<u8>),
    enc: Seq<u8>,
)
    requires
        p.valid(),
        v.0.len() == p.polyvec_bytes(),
        v.1.len() == p.ek_bytes(),
        v.2.len() == 32,
        v.3.len() == 32,
        enc.len() == p.dk_bytes(),
    ensures
        split_dk(p, concat_dk(v)) == v,
        concat_dk(split_dk(p, enc)) == enc,
{
    let c = concat_dk(v);
    let k = p.k as int;
    assert(c.subrange(0, 384 * k) =~= v.0);
    assert(c.subrange(384 * k, 768 * k + 32) =~= v.1);
    assert(c.subrange(768 * k + 32, 768 * k + 64) =~= v.2);
    assert(c.subrange(768 * k + 64, 768 * k + 96) =~= v.3);
    assert(concat_dk(split_dk(p, enc)) =~= enc);
}

/// Decoding the encoding of a consistent encapsulation key gives the key back.
pub proof fn lemma_encapsulation_key_codec(v: (Seq<u8>, Seq<u8>))
    requires
        ek_consistent(v),
    ensures
        (v.0, sha3_256(v.0)) == v,
{
}

/// The shared key of an encapsulation is the first half of
/// `SHA3-512(m || h)`, and the ciphertext is `K-PKE.Encrypt(ek, m, r)` with
/// the second half `r` as the encryption randomness, for every message.
pub proof fn lemma_encapsulation_uses_g_halves(p: ParamSet, ek: Seq<u8>, h: Seq<u8>, m: Seq<u8>)
    ensures
        encaps_spec(p, ek, h, m).1 == sha3_512(m + h).take(32),
        encaps_spec(p, ek, h, m).0 == pke_encrypt_spec(p, ek, m, sha3_512(m + h).skip(32)),
{
}

/// Decapsulation of `c` decrypts it to `m'`, accepts exactly when
/// re-encrypting `m'` with the second half of `SHA3-512(m' || h)` gives `c`,
/// and then answers the first half; otherwise it answers the first 32 bytes
/// of `SHAKE256(z || c)`.
pub proof fn lemma_decapsulation_uses_g_halves(
    p: ParamSet,
    dk_pke: Seq<u8>,
    ek: Seq<u8>,
    h: Seq<u8>,
    z: Seq<u8>,
    c: Seq<u8>,
)
    ensures
        ({
            let m = pke_decrypt_spec(p, dk_pke, c);
            let g = sha3_512(m + h);
            &&& pke_encrypt_spec(p, ek, m, g.skip(32)) == c ==> decaps_spec(p, dk_pke, ek, h, z, c)
                == g.take(32)
            &&& pke_encrypt_spec(p, ek, m, g.skip(32)) != c ==> decaps_spec(p, dk_pke, ek, h, z, c)
                == shake256(z + c, 32)
        }),
{
}

/// Decapsulation accepts a ciphertext exactly when it is the encapsulation,
/// under the same `(ek, h)`, of the message it decrypts to, and then answers
/// that encapsulation's shared key.
pub proof fn lemma_decapsulation_accepts_own_encapsulations(
    p: ParamSet,
    dk_pke: Seq<u8>,
    ek: Seq<u8>,
    h: Seq<u8>,
    z: Seq<u8>,
    c: Seq<u8>,
)
    ensures
        ({
            let m = pke_decrypt_spec(p, dk_pke, c);
            decaps_spec(p, dk_pke, ek, h, z, c) == if encaps_spec(p, ek, h, m).0 == c {
                encaps_spec(p, ek, h, m).1
            } else {
                shake256(z + c, 32)
            }
        }),
{
}

/// The layout of an expanded decapsulation key, for every parameter set:
/// `dk_pke` in the first `384k` bytes, `ek` in the next `384k + 32`, then the
/// hash `h`, then `z` in the last 32 bytes. Encoding puts each part there, and
/// decoding reads each part from there.
pub proof fn lemma_expanded_key_layout(
    p: ParamSet,
    v: (Seq<u8>, Seq<u8>, Seq<u8>, Seq<u8>),
    enc: Seq<u8>,
)
    requires
        p.valid(),
        v.0.len() == p.polyvec_bytes(),
        v.1.len() == p.ek_bytes(),
        v.2.len() == 32,
        v.3.len() == 32,
        enc.len() == p.dk_bytes(),
    ensures
        ({
            let k = p.k as int;
            let c = concat_dk(v);
            &&& c.len() == 768 * k + 96
            &&& c.subrange(0, 384 * k) == v.0
            &&& c.subrange(384 * k, 768 * k + 32) == v.1
            &&& c.subrange(768 * k + 32, 768 * k + 64) == v.2
            &&& c.subrange(768 * k + 64, 768 * k + 96) == v.3
        }),
        ({
            let k = p.k as int;
            let parts = split_dk(p, enc);
            &&& parts.0 + parts.1 + parts.2 + parts.3 == enc
            &&& parts.0.len() == 384 * k
            &&& parts.1.len() == 384 * k + 32
            &&& parts.2.len() == 32
            &&& parts.3 == enc.subrange(enc.len() - 32, enc.len() as int)
        }),
{
    let k = p.k as int;
    let c = concat_dk(v);
    assert(c.subrange(0, 384 * k) =~= v.0);
    assert(c.subrange(384 * k, 768 * k + 32) =~= v.1);
    assert(c.subrange(768 * k + 32, 768 * k + 64) =~= v.2);
    assert(c.subrange(768 * k + 64, 768 * k + 96) =~= v.3);
    let parts = split_dk(p, enc);
    assert(parts.0 + parts.1 + parts.2 + parts.3 =~= enc);
}

/// In the encoding of the expanded key generated from any seed `(d, z)`, the
/// first `384k` bytes are the decryption key, the last 32 bytes are `z`, and
/// between them stand the generated encapsulation key followed by its hash
/// `H(ek)`.
pub proof fn lemma_generated_expanded_encoding(p: ParamSet, d: Seq<u8>, z: Seq<u8>)
    requires
        p.valid(),
        z.len() == 32,
    ensures
        ({
            let k = p.k as int;
            let v = kem_keygen_spec(p, d, z);
            let ek = v.1;
            let enc = concat_dk(v);
            &&& enc.subrange(0, 384 * k) == v.0
            &&& enc.subrange(384 * k, enc.len() - 32) == ek + sha3_256(ek)
            &&& enc.subrange(enc.len() - 32, enc.len() as int) == z
        }),
{
    let k = p.k as int;
    let v = kem_keygen_spec(p, d, z);
    crate::pke::lemma_pke_keygen_lengths(p, d);
    let enc = concat_dk(v);
    assert(enc.subrange(0, 384 * k) =~= v.0);
    assert(enc.subrange(384 * k, enc.len() - 32) =~= v.1 + v.2);
    assert(enc.subrange(enc.len() - 32, enc.len() as int) =~= z);
}

} // verus!
