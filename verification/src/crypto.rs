//! The symmetric primitives of ML-KEM: the hash functions `G`, `H`, `J`, the
//! pseudorandom function `PRF` and the extendable-output function `XOF`, all
//! built on SHA-3 from the `sha3` crate, and fresh randomness from an RNG.

use vstd::prelude::*;

verus! {

/// The SHA3-256 digest of `input`.
pub uninterp spec fn sha3_256(input: Seq<u8>) -> Seq<u8>;

/// The SHA3-512 digest of `input`.
pub uninterp spec fn sha3_512(input: Seq<u8>) -> Seq<u8>;

/// The first `len` bytes of the SHAKE128 output stream on `input`.
pub uninterp spec fn shake128(input: Seq<u8>, len: nat) -> Seq<u8>;

/// The first `len` bytes of the SHAKE256 output stream on `input`.
pub uninterp spec fn shake256(input: Seq<u8>, len: nat) -> Seq<u8>;

/// Calls `sha3::Sha3_256::digest` (through the `Digest` trait) on `data`.
/// Trusted: the 32 returned bytes are the SHA3-256 digest of `data`.
#[verifier::external_body]
pub(crate) fn sha3_256_digest(data: &[u8]) -> (out: [u8; 32])
    ensures
        out@ == sha3_256(data@),
{
    let d = <sha3::Sha3_256 as sha3::Digest>::digest(data);
    let mut out = [0u8; 32];
    out.copy_from_slice(&d);
    out
}

/// Calls `sha3::Sha3_512::digest` (through the `Digest` trait) on `data`.
/// Trusted: the 64 returned bytes are the SHA3-512 digest of `data`.
#[verifier::external_body]
pub(crate) fn sha3_512_digest(data: &[u8]) -> (out: [u8; 64])
    ensures
        out@ == sha3_512(data@),
{
    let d = <sha3::Sha3_512 as sha3::Digest>::digest(data);
    let mut out = [0u8; 64];
    out.copy_from_slice(&d);
    out
}

/// Absorbs `data` into `sha3::Shake128` and reads `len` bytes from its XOF
/// reader. Trusted: the result is the SHAKE128 stream's first `len` bytes,
/// so it has length `len`.
#[verifier::external_body]
pub(crate) fn shake128_read(data: &[u8], len: usize) -> (out: Vec<u8>)
    ensures
        out@ == shake128(data@, len as nat),
        out@.len() == len,
{
    let mut hasher = sha3::Shake128::default();
    sha3::digest::Update::update(&mut hasher, data);
    let mut reader = sha3::digest::ExtendableOutput::finalize_xof(hasher);
    let mut out = vec![0u8; len];
    sha3::digest::XofReader::read(&mut reader, &mut out);
    out
}

/// Absorbs `data` into `sha3::Shake256` and reads `len` bytes from its XOF
/// reader. Trusted: the result is the SHAKE256 stream's first `len` bytes,
/// so it has length `len`.
#[verifier::external_body]
pub(crate) fn shake256_read(data: &[u8], len: usize) -> (out: Vec<u8>)
    ensures
        out@ == shake256(data@, len as nat),
        out@.len() == len,
{
    let mut hasher = sha3::Shake256::default();
    sha3::digest::Update::update(&mut hasher, data);
    let mut reader = sha3::digest::ExtendableOutput::finalize_xof(hasher);
    let mut out = vec![0u8; len];
    sha3::digest::XofReader::read(&mut reader, &mut out);
    out
}

/// Fills 32 bytes with `rand_core::RngCore::fill_bytes` of `rng`.
/// Nothing is stated of the bytes: they come from the generator.
#[verifier::external_body]
pub(crate) fn random_b32<R: rand_core::CryptoRngCore>(rng: &mut R) -> (out: [u8; 32]) {
    let mut out = [0u8; 32];
    rng.fill_bytes(&mut out);
    out
}


/// `G`: SHA3-512 of its input, split into two 32-byte halves.
pub open spec fn g_spec(input: Seq<u8>) -> (Seq<u8>, Seq<u8>) {
    (sha3_512(input).take(32), sha3_512(input).skip(32))
}

/// `J`: the first 32 bytes of SHAKE256 on `z || c`.
pub open spec fn j_spec(z: Seq<u8>, c: Seq<u8>) -> Seq<u8> {
    shake256(z + c, 32)
}

/// `PRF_eta(s, b)`: the first `64 * eta` bytes of SHAKE256 on `s || b`.
pub open spec fn prf_spec(eta: nat, s: Seq<u8>, b: u8) -> Seq<u8> {
    shake256(s.push(b), 64 * eta)
}

/// The concatenation of two byte strings.
pub fn concat(a: &[u8], b: &[u8]) -> (out: Vec<u8>)
    requires
        a@.len() + b@.len() <= usize::MAX,
    ensures
        out@ == a@ + b@,
{
    let mut out: Vec<u8> = Vec::new();
    let mut i: usize = 0;
    while i < a.len()
        invariant
            i <= a@.len(),
            out@ == a@.take(i as int),
        decreases a@.len() - i,
    {
        out.push(a[i]);
        i = i + 1;
        assert(out@ =~= a@.take(i as int));
    }
    let mut j: usize = 0;
    while j < b.len()
        invariant
            j <= b@.len(),
            out@ == a@ + b@.take(j as int),
        decreases b@.len() - j,
    {
        out.push(b[j]);
        j = j + 1;
        assert(out@ =~= a@ + b@.take(j as int));
    }
    assert(a@.take(a@.len() as int) =~= a@);
    assert(b@.take(b@.len() as int) =~= b@);
    out
}

/// Copies the 32 bytes of `src` that start at `start` into an array.
pub fn take32(src: &[u8], start: usize) -> (out: [u8; 32])
    requires
        start + 32 <= src@.len(),
    ensures
        out@ == src@.subrange(start as int, start + 32),
{
    let n = src.len();
    let mut out = [0u8; 32];
    let mut i: usize = 0;
    while i < 32
        invariant
            i <= 32,
            n == src@.len(),
            start + 32 <= src@.len(),
            out@.len() == 32,
            forall|t: int| 0 <= t < i ==> out@[t] == src@[start + t],
        decreases 32 - i,
    {
        out[i] = src[start + i];
        i = i + 1;
    }
    assert(out@ =~= src@.subrange(start as int, start + 32));
    out
}

/// `H(data)`: SHA3-256.
pub fn hash_h(data: &[u8]) -> (out: [u8; 32])
    ensures
        out@ == sha3_256(data@),
{
    sha3_256_digest(data)
}

/// `G(a || b)`: SHA3-512 of the concatenation, split into two 32-byte halves.
pub fn hash_g(a: &[u8], b: &[u8]) -> (out: ([u8; 32], [u8; 32]))
    requires
        a@.len() + b@.len() <= usize::MAX,
    ensures
        out.0@ == g_spec(a@ + b@).0,
        out.1@ == g_spec(a@ + b@).1,
{
    let input = concat(a, b);
    let d = sha3_512_digest(input.as_slice());
    let first = take32(&d, 0);
    let second = take32(&d, 32);
    assert(first@ =~= g_spec(a@ + b@).0);
    assert(second@ =~= g_spec(a@ + b@).1);
    (first, second)
}

/// `J(z || c)`: 32 bytes of SHAKE256.
pub fn hash_j(z: &[u8], c: &[u8]) -> (out: [u8; 32])
    requires
        z@.len() + c@.len() <= usize::MAX,
    ensures
        out@ == j_spec(z@, c@),
{
    let input = concat(z, c);
    let v = shake256_read(input.as_slice(), 32);
    take32(v.as_slice(), 0)
}

/// `PRF_eta(s, b)`: `64 * eta` bytes of SHAKE256 on `s || b`.
pub fn prf(eta: usize, s: &[u8], b: u8) -> (out: Vec<u8>)
    requires
        64 * eta <= usize::MAX,
        s@.len() < usize::MAX,
    ensures
        out@ == prf_spec(eta as nat, s@, b),
        out@.len() == 64 * eta,
{
    let one = [b];
    let input = concat(s, &one);
    assert(input@ =~= s@.push(b));
    shake256_read(input.as_slice(), 64 * eta)
}

} // verus!
