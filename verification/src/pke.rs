//! The public-key encryption scheme K-PKE underneath ML-KEM: key
//! generation, encryption and decryption.

use vstd::prelude::*;
use crate::crypto::{concat, g_spec, hash_g, prf, prf_spec, sha3_512, shake256};
use crate::encode::{
    byte_decode, byte_decode_spec, byte_encode, byte_encode_spec, compress_poly,
    compress_poly_spec, decompress_poly, decompress_poly_spec, fits, lemma_byte_decode_encode,
    lemma_byte_encode_len,
};
use crate::params::ParamSet;
use crate::poly::{
    gamma, gamma_table, intt, intt_spec, is_poly, multiply_ntts, multiply_ntts_spec, ntt, ntt_spec,
    poly_add, poly_add_spec, poly_sub, poly_sub_spec, poly_zero, zero_poly, lemma_ntt_is_poly,
};
use crate::sample::{cbd_spec, sample_cbd, sample_ntt, sample_ntt_spec, xof_seed};

verus! {

/// The polynomials held by a vector of coefficient vectors.
pub open spec fn polys(v: Seq<Vec<u16>>) -> Seq<Seq<u16>> {
    Seq::new(v.len(), |i: int| v[i]@)
}

/// Every entry is a polynomial.
pub open spec fn all_polys(v: Seq<Seq<u16>>) -> bool {
    forall|i: int| 0 <= i < v.len() ==> #[trigger] is_poly(v[i])
}

/// The matrix entry `A_hat[i][j] = SampleNTT(rho || j || i)`.
pub open spec fn a_hat(rho: Seq<u8>, i: nat, j: nat) -> Seq<u16> {
    sample_ntt_spec(rho.push(j as u8).push(i as u8))
}

/// `k` polynomials sampled with `SamplePolyCBD_eta(PRF_eta(seed, n0 + i))`.
pub open spec fn cbd_vec(eta: nat, seed: Seq<u8>, n0: nat, k: nat) -> Seq<Seq<u16>> {
    Seq::new(k, |i: int| cbd_spec(prf_spec(eta, seed, (n0 + i) as u8), eta))
}

/// The transform of each polynomial.
pub open spec fn ntt_vec(v: Seq<Seq<u16>>) -> Seq<Seq<u16>> {
    Seq::new(v.len(), |i: int| ntt_spec(v[i]))
}

/// The sum over `j < n` of `A_hat[i][j] * s[j]` (or of `A_hat[j][i] * s[j]`
/// when `transpose`), in the transform domain.
pub open spec fn matrix_row(rho: Seq<u8>, s: Seq<Seq<u16>>, i: nat, n: nat, transpose: bool) -> Seq<
    u16,
>
    decreases n,
{
    if n == 0 {
        poly_zero()
    } else {
        let a = if transpose {
            a_hat(rho, (n - 1) as nat, i)
        } else {
            a_hat(rho, i, (n - 1) as nat)
        };
        poly_add_spec(
            matrix_row(rho, s, i, (n - 1) as nat, transpose),
            multiply_ntts_spec(a, s[n - 1]),
        )
    }
}

/// The sum over `j < n` of `t[j] * y[j]`, in the transform domain.
pub open spec fn inner_product(t: Seq<Seq<u16>>, y: Seq<Seq<u16>>, n: nat) -> Seq<u16>
    decreases n,
{
    if n == 0 {
        poly_zero()
    } else {
        poly_add_spec(
            inner_product(t, y, (n - 1) as nat),
            multiply_ntts_spec(t[n - 1], y[n - 1]),
        )
    }
}

/// `ByteEncode_d` of each polynomial, concatenated.
pub open spec fn encode_vec(v: Seq<Seq<u16>>, d: nat) -> Seq<u8>
    decreases v.len(),
{
    if v.len() == 0 {
        Seq::empty()
    } else {
        encode_vec(v.drop_last(), d) + byte_encode_spec(v.last(), d)
    }
}

/// `ByteDecode_d` of each of the `k` consecutive chunks of `32 * d` bytes.
pub open spec fn decode_vec(bytes: Seq<u8>, d: nat, k: nat) -> Seq<Seq<u16>> {
    Seq::new(k, |i: int| byte_decode_spec(bytes.subrange(32 * d * i, 32 * d * (i + 1)), d))
}

/// `K-PKE.KeyGen(d)`: the pair `(ek_pke, dk_pke)`.
pub open spec fn pke_keygen_spec(p: ParamSet, d: Seq<u8>) -> (Seq<u8>, Seq<u8>) {
    let k = p.k as nat;
    let rho = g_spec(d.push(p.k as u8)).0;
    let sigma = g_spec(d.push(p.k as u8)).1;
    let s_hat = ntt_vec(cbd_vec(p.eta1 as nat, sigma, 0, k));
    let e_hat = ntt_vec(cbd_vec(p.eta1 as nat, sigma, k, k));
    let t_hat = Seq::new(k, |i: int| poly_add_spec(matrix_row(rho, s_hat, i as nat, k, false), e_hat[i]));
    (encode_vec(t_hat, 12) + rho, encode_vec(s_hat, 12))
}

/// The vector `u` of `K-PKE.Encrypt`, before compression.
pub open spec fn encrypt_u(p: ParamSet, rho: Seq<u8>, r: Seq<u8>) -> Seq<Seq<u16>> {
    let k = p.k as nat;
    let y_hat = ntt_vec(cbd_vec(p.eta1 as nat, r, 0, k));
    let e1 = cbd_vec(p.eta2 as nat, r, k, k);
    Seq::new(k, |i: int| poly_add_spec(intt_spec(matrix_row(rho, y_hat, i as nat, k, true)), e1[i]))
}

/// The polynomial `v` of `K-PKE.Encrypt`, before compression.
pub open spec fn encrypt_v(p: ParamSet, t_hat: Seq<Seq<u16>>, m: Seq<u8>, r: Seq<u8>) -> Seq<u16> {
    let k = p.k as nat;
    let y_hat = ntt_vec(cbd_vec(p.eta1 as nat, r, 0, k));
    let e2 = cbd_spec(prf_spec(p.eta2 as nat, r, (2 * k) as u8), p.eta2 as nat);
    let mu = decompress_poly_spec(byte_decode_spec(m, 1), 1);
    poly_add_spec(poly_add_spec(intt_spec(inner_product(t_hat, y_hat, k)), e2), mu)
}

/// `K-PKE.Encrypt(ek_pke, m, r)`: `c1 || c2`.
pub open spec fn pke_encrypt_spec(p: ParamSet, ek: Seq<u8>, m: Seq<u8>, r: Seq<u8>) -> Seq<u8> {
    let k = p.k as nat;
    let t_hat = decode_vec(ek, 12, k);
    let rho = ek.subrange(384 * k as int, 384 * k as int + 32);
    let u = encrypt_u(p, rho, r);
    let v = encrypt_v(p, t_hat, m, r);
    let c1 = encode_vec(Seq::new(k, |i: int| compress_poly_spec(u[i], p.du as nat)), p.du as nat);
    let c2 = byte_encode_spec(compress_poly_spec(v, p.dv as nat), p.dv as nat);
    c1 + c2
}

/// `K-PKE.Decrypt(dk_pke, c)`: the 32-byte message.
pub open spec fn pke_decrypt_spec(p: ParamSet, dk: Seq<u8>, c: Seq<u8>) -> Seq<u8> {
    let k = p.k as nat;
    let du = p.du as nat;
    let dv = p.dv as nat;
    let u = Seq::new(k, |i: int| decompress_poly_spec(byte_decode_spec(c.subrange(32 * du * i, 32 * du * (i + 1)), du), du));
    let v = decompress_poly_spec(byte_decode_spec(c.subrange((32 * du * k) as int, (32 * du * k + 32 * dv) as int), dv), dv);
    let s_hat = decode_vec(dk, 12, k);
    let w = poly_sub_spec(v, intt_spec(inner_product(s_hat, ntt_vec(u), k)));
    byte_encode_spec(compress_poly_spec(w, 1), 1)
}

/// The `len` bytes of `src` that start at `start`.
pub fn sub_bytes(src: &[u8], start: usize, len: usize) -> (out: Vec<u8>)
    requires
        start + len <= src@.len(),
    ensures
        out@ == src@.subrange(start as int, start + len),
{
    let n = src.len();
    let mut out: Vec<u8> = Vec::new();
    let mut i: usize = 0;
    while i < len
        invariant
            i <= len,
            n == src@.len(),
            start + len <= n,
            out@ == src@.subrange(start as int, start + i),
        decreases len - i,
    {
        out.push(src[start + i]);
        i = i + 1;
        assert(out@ =~= src@.subrange(start as int, start + i));
    }
    out
}


/// `k` polynomials `SamplePolyCBD_eta(PRF_eta(seed, n0 + i))`, `i < k`.
fn sample_cbd_vec(eta: usize, seed: &[u8], n0: usize, k: usize) -> (v: Vec<Vec<u16>>)
    requires
        eta == 2 || eta == 3,
        seed@.len() == 32,
        n0 + k <= 8,
    ensures
        polys(v@) == cbd_vec(eta as nat, seed@, n0 as nat, k as nat),
        all_polys(polys(v@)),
        v@.len() == k,
{
    let mut v: Vec<Vec<u16>> = Vec::new();
    let mut i: usize = 0;
    while i < k
        invariant
            i <= k,
            eta == 2 || eta == 3,
            seed@.len() == 32,
            n0 + k <= 8,
            v@.len() == i,
            forall|j: int|
                0 <= j < i ==> #[trigger] v@[j]@ == cbd_vec(eta as nat, seed@, n0 as nat, k as nat)[j]
                    && is_poly(v@[j]@),
        decreases k - i,
    {
        let bytes = prf(eta, seed, (n0 + i) as u8);
        let f = sample_cbd(bytes.as_slice(), eta);
        v.push(f);
        i = i + 1;
    }
    assert(polys(v@) =~= cbd_vec(eta as nat, seed@, n0 as nat, k as nat));
    v
}

/// The transform of each polynomial.
fn ntt_vec_exec(v: &Vec<Vec<u16>>) -> (w: Vec<Vec<u16>>)
    requires
        all_polys(polys(v@)),
    ensures
        polys(w@) == ntt_vec(polys(v@)),
        all_polys(polys(w@)),
        w@.len() == v@.len(),
{
    let mut w: Vec<Vec<u16>> = Vec::new();
    let mut i: usize = 0;
    while i < v.len()
        invariant
            i <= v@.len(),
            all_polys(polys(v@)),
            w@.len() == i,
            forall|j: int|
                0 <= j < i ==> #[trigger] w@[j]@ == ntt_spec(v@[j]@) && is_poly(w@[j]@),
        decreases v@.len() - i,
    {
        assert(is_poly(polys(v@)[i as int]));
        w.push(ntt(&v[i]));
        i = i + 1;
    }
    assert(polys(w@) =~= ntt_vec(polys(v@)));
    w
}

/// Row `i` of `A_hat * s` (or of `A_hat^T * s` when `transpose`), sampling
/// each matrix entry from `rho`.
fn matrix_row_exec(
    rho: &[u8],
    s: &Vec<Vec<u16>>,
    i: usize,
    transpose: bool,
    gammas: &Vec<u16>,
) -> (r: Vec<u16>)
    requires
        rho@.len() == 32,
        all_polys(polys(s@)),
        s@.len() <= 4,
        i < 4,
        gammas@.len() == 128,
        forall|t: int| 0 <= t < 128 ==> #[trigger] gammas@[t] == gamma(t as nat) && gammas@[t] < 3329,
    ensures
        r@ == matrix_row(rho@, polys(s@), i as nat, s@.len() as nat, transpose),
        is_poly(r@),
{
    let mut acc = zero_poly();
    let mut j: usize = 0;
    while j < s.len()
        invariant
            j <= s@.len() <= 4,
            i < 4,
            rho@.len() == 32,
            all_polys(polys(s@)),
            gammas@.len() == 128,
            forall|t: int| 0 <= t < 128 ==> #[trigger] gammas@[t] == gamma(t as nat) && gammas@[t] < 3329,
            acc@ == matrix_row(rho@, polys(s@), i as nat, j as nat, transpose),
            is_poly(acc@),
        decreases s@.len() - j,
    {
        let seed = if transpose {
            xof_seed(rho, i as u8, j as u8)
        } else {
            xof_seed(rho, j as u8, i as u8)
        };
        let a = sample_ntt(seed.as_slice());
        assert(is_poly(polys(s@)[j as int]));
        let prod = multiply_ntts(&a, &s[j], gammas);
        acc = poly_add(&acc, &prod);
        j = j + 1;
    }
    acc
}

/// The sum over `j < k` of `t[j] * y[j]`, in the transform domain.
fn inner_product_exec(t: &Vec<Vec<u16>>, y: &Vec<Vec<u16>>, gammas: &Vec<u16>) -> (r: Vec<u16>)
    requires
        all_polys(polys(t@)),
        all_polys(polys(y@)),
        t@.len() == y@.len(),
        gammas@.len() == 128,
        forall|i: int| 0 <= i < 128 ==> #[trigger] gammas@[i] == gamma(i as nat) && gammas@[i] < 3329,
    ensures
        r@ == inner_product(polys(t@), polys(y@), t@.len() as nat),
        is_poly(r@),
{
    let mut acc = zero_poly();
    let mut j: usize = 0;
    while j < t.len()
        invariant
            j <= t@.len(),
            t@.len() == y@.len(),
            all_polys(polys(t@)),
            all_polys(polys(y@)),
            gammas@.len() == 128,
            forall|i: int| 0 <= i < 128 ==> #[trigger] gammas@[i] == gamma(i as nat) && gammas@[i] < 3329,
            acc@ == inner_product(polys(t@), polys(y@), j as nat),
            is_poly(acc@),
        decreases t@.len() - j,
    {
        assert(is_poly(polys(t@)[j as int]));
        assert(is_poly(polys(y@)[j as int]));
        let prod = multiply_ntts(&t[j], &y[j], gammas);
        acc = poly_add(&acc, &prod);
        j = j + 1;
    }
    acc
}

/// `ByteEncode_d` of each polynomial, concatenated.
fn encode_vec_exec(v: &Vec<Vec<u16>>, d: usize) -> (out: Vec<u8>)
    requires
        forall|i: int| 0 <= i < v@.len() ==> #[trigger] v@[i]@.len() == 256,
        v@.len() <= 4,
        1 <= d <= 12,
    ensures
        out@ == encode_vec(polys(v@), d as nat),
        out@.len() == 32 * d * v@.len(),
{
    let mut out: Vec<u8> = Vec::new();
    let mut i: usize = 0;
    assert(polys(v@).take(0) =~= Seq::<Seq<u16>>::empty());
    while i < v.len()
        invariant
            i <= v@.len() <= 4,
            1 <= d <= 12,
            forall|j: int| 0 <= j < v@.len() ==> #[trigger] v@[j]@.len() == 256,
            out@ == encode_vec(polys(v@).take(i as int), d as nat),
            out@.len() == 32 * d * i,
        decreases v@.len() - i,
    {
        let enc = byte_encode(&v[i], d);
        proof {
            let pre = polys(v@).take(i + 1);
            assert(pre.drop_last() =~= polys(v@).take(i as int));
            assert(pre.last() == v@[i as int]@);
            assert(32 * d * i + 32 * d == 32 * d * (i + 1)) by (nonlinear_arith);
            assert(32 * d * (i + 1) <= 32 * 12 * 4) by (nonlinear_arith)
                requires
                    d <= 12,
                    i + 1 <= 4,
            ;
        }
        out = concat(out.as_slice(), enc.as_slice());
        i = i + 1;
    }
    assert(polys(v@).take(v@.len() as int) =~= polys(v@));
    out
}

/// `ByteDecode_d` of each of the first `k` chunks of `32 * d` bytes.
fn decode_vec_exec(bytes: &[u8], d: usize, k: usize) -> (v: Vec<Vec<u16>>)
    requires
        32 * d * k <= bytes@.len(),
        1 <= d <= 12,
        k <= 4,
    ensures
        polys(v@) == decode_vec(bytes@, d as nat, k as nat),
        v@.len() == k,
        forall|i: int| 0 <= i < k ==> #[trigger] fits(v@[i]@, d as nat) && v@[i]@.len() == 256,
{
    let n = bytes.len();
    let mut v: Vec<Vec<u16>> = Vec::new();
    let mut i: usize = 0;
    let mut off: usize = 0;
    while i < k
        invariant
            n == bytes@.len(),
            i <= k <= 4,
            1 <= d <= 12,
            32 * d * k <= bytes@.len(),
            off == 32 * d * i,
            v@.len() == i,
            forall|j: int|
                0 <= j < i ==> #[trigger] v@[j]@ == decode_vec(bytes@, d as nat, k as nat)[j]
                    && fits(v@[j]@, d as nat) && v@[j]@.len() == 256,
        decreases k - i,
    {
        assert(32 * d * i + 32 * d == 32 * d * (i + 1)) by (nonlinear_arith);
        assert(32 * d * (i + 1) <= 32 * d * k) by (nonlinear_arith)
            requires
                i + 1 <= k,
        ;
        let chunk = sub_bytes(bytes, off, 32 * d);
        let f = byte_decode(chunk.as_slice(), d);
        v.push(f);
        off = off + 32 * d;
        i = i + 1;
    }
    assert(polys(v@) =~= decode_vec(bytes@, d as nat, k as nat));
    v
}


/// `Compress_d` of each polynomial.
fn compress_vec(v: &Vec<Vec<u16>>, d: usize) -> (w: Vec<Vec<u16>>)
    requires
        all_polys(polys(v@)),
        1 <= d <= 11,
    ensures
        polys(w@) == Seq::new(v@.len(), |i: int| compress_poly_spec(polys(v@)[i], d as nat)),
        forall|i: int| 0 <= i < w@.len() ==> #[trigger] w@[i]@.len() == 256,
        w@.len() == v@.len(),
{
    let mut w: Vec<Vec<u16>> = Vec::new();
    let mut i: usize = 0;
    while i < v.len()
        invariant
            i <= v@.len(),
            1 <= d <= 11,
            all_polys(polys(v@)),
            w@.len() == i,
            forall|j: int|
                0 <= j < i ==> #[trigger] w@[j]@ == compress_poly_spec(v@[j]@, d as nat)
                    && w@[j]@.len() == 256,
        decreases v@.len() - i,
    {
        assert(is_poly(polys(v@)[i as int]));
        w.push(compress_poly(&v[i], d));
        i = i + 1;
    }
    assert(polys(w@) =~= Seq::new(v@.len(), |i: int| compress_poly_spec(polys(v@)[i], d as nat)));
    w
}

/// `K-PKE.KeyGen(d)`: returns `(ek_pke, dk_pke)`.
pub fn pke_keygen(p: ParamSet, d: &[u8; 32]) -> (out: (Vec<u8>, Vec<u8>))
    requires
        p.valid(),
    ensures
        out.0@ == pke_keygen_spec(p, d@).0,
        out.1@ == pke_keygen_spec(p, d@).1,
        out.0@.len() == p.ek_bytes(),
        out.1@.len() == p.polyvec_bytes(),
        ({
            let k = p.k as nat;
            let eta = p.eta1 as nat;
            let sigma = sha3_512(d@.push(p.k as u8)).skip(32);
            &&& forall|i: int|
                0 <= i < k ==> #[trigger] decode_vec(out.1@, 12, k)[i] == ntt_spec(
                    cbd_spec(shake256(sigma.push(i as u8), 64 * eta), eta),
                )
            &&& forall|i: int|
                0 <= i < k ==> #[trigger] decode_vec(out.0@, 12, k)[i] == poly_add_spec(
                    matrix_row(
                        sha3_512(d@.push(p.k as u8)).take(32),
                        Seq::new(
                            k,
                            |j: int| ntt_spec(cbd_spec(shake256(sigma.push(j as u8), 64 * eta), eta)),
                        ),
                        i as nat,
                        k,
                        false,
                    ),
                    ntt_spec(cbd_spec(shake256(sigma.push((k + i) as u8), 64 * eta), eta)),
                )
        }),
{
    proof {
        lemma_pke_keygen_secret_and_error(p, d@);
    }
    let k = p.k;
    let kb = [k as u8];
    let (rho, sigma) = hash_g(d, &kb);
    assert(d@ + kb@ =~= d@.push(p.k as u8));
    let s = sample_cbd_vec(p.eta1, &sigma, 0, k);
    let e = sample_cbd_vec(p.eta1, &sigma, k, k);
    let s_hat = ntt_vec_exec(&s);
    let e_hat = ntt_vec_exec(&e);
    let gammas = gamma_table();
    let ghost sh = polys(s_hat@);
    let ghost eh = polys(e_hat@);
    let ghost t_spec = Seq::new(
        k as nat,
        |i: int| poly_add_spec(matrix_row(rho@, sh, i as nat, k as nat, false), eh[i]),
    );
    let mut t_hat: Vec<Vec<u16>> = Vec::new();
    let mut i: usize = 0;
    while i < k
        invariant
            i <= k <= 4,
            rho@.len() == 32,
            s_hat@.len() == k,
            e_hat@.len() == k,
            sh == polys(s_hat@),
            eh == polys(e_hat@),
            all_polys(sh),
            all_polys(eh),
            gammas@.len() == 128,
            forall|t: int| 0 <= t < 128 ==> #[trigger] gammas@[t] == gamma(t as nat) && gammas@[t] < 3329,
            t_spec == Seq::new(
                k as nat,
                |i: int| poly_add_spec(matrix_row(rho@, sh, i as nat, k as nat, false), eh[i]),
            ),
            t_hat@.len() == i,
            forall|j: int| 0 <= j < i ==> #[trigger] t_hat@[j]@ == t_spec[j] && is_poly(t_hat@[j]@),
        decreases k - i,
    {
        let row = matrix_row_exec(&rho, &s_hat, i, false, &gammas);
        assert(is_poly(eh[i as int]));
        let t = poly_add(&row, &e_hat[i]);
        t_hat.push(t);
        i = i + 1;
    }
    assert(polys(t_hat@) =~= t_spec);
    let t_enc = encode_vec_exec(&t_hat, 12);
    let ek = concat(t_enc.as_slice(), &rho);
    assert forall|j: int| 0 <= j < s_hat@.len() implies #[trigger] s_hat@[j]@.len() == 256 by {
        assert(is_poly(sh[j]));
    }
    let dk = encode_vec_exec(&s_hat, 12);
    (ek, dk)
}

/// `K-PKE.Encrypt(ek_pke, m, r)`.
pub fn pke_encrypt(p: ParamSet, ek: &[u8], m: &[u8], r: &[u8]) -> (c: Vec<u8>)
    requires
        p.valid(),
        ek@.len() == p.ek_bytes(),
        m@.len() == 32,
        r@.len() == 32,
    ensures
        c@ == pke_encrypt_spec(p, ek@, m@, r@),
        c@.len() == p.ct_bytes(),
{
    let k = p.k;
    let t_hat = decode_vec_exec(ek, 12, k);
    let rho = sub_bytes(ek, 384 * k, 32);
    let y = sample_cbd_vec(p.eta1, r, 0, k);
    let e1 = sample_cbd_vec(p.eta2, r, k, k);
    let e2_bytes = prf(p.eta2, r, (2 * k) as u8);
    let e2 = sample_cbd(e2_bytes.as_slice(), p.eta2);
    let y_hat = ntt_vec_exec(&y);
    let gammas = gamma_table();
    let ghost yh = polys(y_hat@);
    let ghost e1s = polys(e1@);
    let ghost u_spec = encrypt_u(p, rho@, r@);
    assert(u_spec == Seq::new(
        k as nat,
        |i: int| poly_add_spec(intt_spec(matrix_row(rho@, yh, i as nat, k as nat, true)), e1s[i]),
    ));
    let mut u: Vec<Vec<u16>> = Vec::new();
    let mut i: usize = 0;
    while i < k
        invariant
            i <= k <= 4,
            rho@.len() == 32,
            y_hat@.len() == k,
            e1@.len() == k,
            yh == polys(y_hat@),
            e1s == polys(e1@),
            all_polys(yh),
            all_polys(e1s),
            gammas@.len() == 128,
            forall|t: int| 0 <= t < 128 ==> #[trigger] gammas@[t] == gamma(t as nat) && gammas@[t] < 3329,
            u_spec == Seq::new(
                k as nat,
                |i: int| poly_add_spec(intt_spec(matrix_row(rho@, yh, i as nat, k as nat, true)), e1s[i]),
            ),
            u@.len() == i,
            forall|j: int| 0 <= j < i ==> #[trigger] u@[j]@ == u_spec[j] && is_poly(u@[j]@),
        decreases k - i,
    {
        let row = matrix_row_exec(&rho, &y_hat, i, true, &gammas);
        let row_inv = intt(&row);
        assert(is_poly(e1s[i as int]));
        let ui = poly_add(&row_inv, &e1[i]);
        u.push(ui);
        i = i + 1;
    }
    assert(polys(u@) =~= u_spec);
    assert forall|j: int| 0 <= j < t_hat@.len() implies #[trigger] is_poly(polys(t_hat@)[j]) by {
        assert(fits(t_hat@[j]@, 12));
    }
    let tv = inner_product_exec(&t_hat, &y_hat, &gammas);
    let tv_inv = intt(&tv);
    let m_poly = byte_decode(m, 1);
    let mu = decompress_poly(&m_poly, 1);
    let v0 = poly_add(&tv_inv, &e2);
    let v = poly_add(&v0, &mu);
    assert(v@ == encrypt_v(p, polys(t_hat@), m@, r@));
    let cu = compress_vec(&u, p.du);
    let c1 = encode_vec_exec(&cu, p.du);
    let cv = compress_poly(&v, p.dv);
    let c2 = byte_encode(&cv, p.dv);
    assert(polys(cu@) == Seq::new(k as nat, |i: int| compress_poly_spec(u_spec[i], p.du as nat)));
    assert(32 * p.du * k <= 32 * 11 * 4) by (nonlinear_arith)
        requires
            p.du <= 11,
            k <= 4,
    ;
    let c = concat(c1.as_slice(), c2.as_slice());
    assert(32 * p.du * k + 32 * p.dv == 32 * (p.du * k + p.dv)) by (nonlinear_arith);
    c
}


/// `K-PKE.Decrypt(dk_pke, c)`.
pub fn pke_decrypt(p: ParamSet, dk: &[u8], c: &[u8]) -> (m: Vec<u8>)
    requires
        p.valid(),
        dk@.len() == p.polyvec_bytes(),
        c@.len() == p.ct_bytes(),
    ensures
        m@ == pke_decrypt_spec(p, dk@, c@),
        m@.len() == 32,
{
    let k = p.k;
    let du = p.du;
    let dv = p.dv;
    let n = c.len();
    let ghost u_spec = Seq::new(
        k as nat,
        |i: int|
            decompress_poly_spec(
                byte_decode_spec(c@.subrange(32 * du * i, 32 * du * (i + 1)), du as nat),
                du as nat,
            ),
    );
    let mut u: Vec<Vec<u16>> = Vec::new();
    let mut i: usize = 0;
    let mut off: usize = 0;
    assert(32 * du * k + 32 * dv == 32 * (du * k + dv)) by (nonlinear_arith);
    while i < k
        invariant
            i <= k <= 4,
            p.valid(),
            du == p.du,
            dv == p.dv,
            n == c@.len() == 32 * du * k + 32 * dv,
            off == 32 * du * i,
            u_spec == Seq::new(
                k as nat,
                |i: int|
                    decompress_poly_spec(
                        byte_decode_spec(c@.subrange(32 * du * i, 32 * du * (i + 1)), du as nat),
                        du as nat,
                    ),
            ),
            u@.len() == i,
            forall|j: int| 0 <= j < i ==> #[trigger] u@[j]@ == u_spec[j] && is_poly(u@[j]@),
        decreases k - i,
    {
        assert(32 * du * i + 32 * du == 32 * du * (i + 1)) by (nonlinear_arith);
        assert(32 * du * (i + 1) <= 32 * du * k) by (nonlinear_arith)
            requires
                i + 1 <= k,
        ;
        let chunk = sub_bytes(c, off, 32 * du);
        let f = byte_decode(chunk.as_slice(), du);
        let g = decompress_poly(&f, du);
        u.push(g);
        off = off + 32 * du;
        i = i + 1;
    }
    assert(polys(u@) =~= u_spec);
    let v_bytes = sub_bytes(c, off, 32 * dv);
    let v_enc = byte_decode(v_bytes.as_slice(), dv);
    let v = decompress_poly(&v_enc, dv);
    let s_hat = decode_vec_exec(dk, 12, k);
    assert forall|j: int| 0 <= j < s_hat@.len() implies #[trigger] is_poly(polys(s_hat@)[j]) by {
        assert(fits(s_hat@[j]@, 12));
    }
    let u_hat = ntt_vec_exec(&u);
    let gammas = gamma_table();
    let su = inner_product_exec(&s_hat, &u_hat, &gammas);
    let su_inv = intt(&su);
    let w = poly_sub(&v, &su_inv);
    let cw = compress_poly(&w, 1);
    byte_encode(&cw, 1)
}

/// `ByteEncode_12` of a vector has 384 bytes per polynomial, and the `i`-th
/// 384 bytes are the encoding of the `i`-th polynomial.
pub proof fn lemma_encode_vec_12(v: Seq<Seq<u16>>)
    requires
        forall|i: int| 0 <= i < v.len() ==> #[trigger] v[i].len() == 256,
    ensures
        encode_vec(v, 12).len() == 384 * v.len(),
        forall|i: int|
            0 <= i < v.len() ==> #[trigger] encode_vec(v, 12).subrange(384 * i, 384 * i + 384)
                == byte_encode_spec(v[i], 12),
    decreases v.len(),
{
    if v.len() > 0 {
        let init = v.drop_last();
        lemma_encode_vec_12(init);
        lemma_byte_encode_len(v.last(), 12);
        let e = encode_vec(v, 12);
        let a = encode_vec(init, 12);
        let b = byte_encode_spec(v.last(), 12);
        assert(e == a + b);
        assert forall|i: int| 0 <= i < v.len() implies #[trigger] e.subrange(384 * i, 384 * i + 384)
            == byte_encode_spec(v[i], 12) by {
            if i < v.len() - 1 {
                assert(init[i] == v[i]);
                assert(e.subrange(384 * i, 384 * i + 384) =~= a.subrange(384 * i, 384 * i + 384));
            } else {
                assert(e.subrange(384 * i, 384 * i + 384) =~= b);
            }
        }
    }
}

/// Decoding the first `384 k` bytes of anything that starts with
/// `ByteEncode_12` of a vector of `k` polynomials gives the vector back.
pub proof fn lemma_decode_encode_vec_12(v: Seq<Seq<u16>>, rest: Seq<u8>)
    requires
        all_polys(v),
    ensures
        decode_vec(encode_vec(v, 12) + rest, 12, v.len()) == v,
{
    assert forall|i: int| 0 <= i < v.len() implies #[trigger] v[i].len() == 256 by {
        assert(is_poly(v[i]));
    }
    lemma_encode_vec_12(v);
    let bytes = encode_vec(v, 12) + rest;
    let dv = decode_vec(bytes, 12, v.len());
    assert forall|i: int| 0 <= i < v.len() implies #[trigger] dv[i] == v[i] by {
        assert(is_poly(v[i]));
        assert(bytes.subrange(32 * 12 * i, 32 * 12 * (i + 1)) =~= encode_vec(v, 12).subrange(384 * i, 384 * i + 384));
        assert(fits(v[i], 12));
        lemma_byte_decode_encode(v[i], 12);
    }
    assert(dv =~= v);
}

/// The lengths of the keys of `K-PKE.KeyGen`'s decryption key.
pub proof fn lemma_pke_keygen_lengths(p: ParamSet, d: Seq<u8>)
    requires
        p.valid(),
    ensures
        pke_keygen_spec(p, d).1.len() == p.polyvec_bytes(),
{
    let k = p.k as nat;
    let sigma = g_spec(d.push(p.k as u8)).1;
    let s_hat = ntt_vec(cbd_vec(p.eta1 as nat, sigma, 0, k));
    assert forall|i: int| 0 <= i < s_hat.len() implies #[trigger] s_hat[i].len() == 256 by {
        lemma_ntt_is_poly(cbd_vec(p.eta1 as nat, sigma, 0, k)[i]);
    }
    lemma_encode_vec_12(s_hat);
}

/// What `K-PKE.KeyGen(d)` holds, for every seed `d`: with
/// `(rho, sigma) = SHA3-512(d || k)` split in halves, the decryption key
/// decodes to `NTT(s)` for the secret `s_i = CBD_eta1(SHAKE256(sigma || i))`
/// (PRF indices `0..k`), and the encryption key decodes to
/// `A_hat * NTT(s) + NTT(e)` for the error `e_i = CBD_eta1(SHAKE256(sigma || k + i))`
/// (PRF indices `k..2k`), followed by `rho`.
pub proof fn lemma_pke_keygen_secret_and_error(p: ParamSet, d: Seq<u8>)
    requires
        p.valid(),
    ensures
        ({
            let k = p.k as nat;
            let eta = p.eta1 as nat;
            let g = sha3_512(d.push(p.k as u8));
            let rho = g.take(32);
            let sigma = g.skip(32);
            let s_hat = Seq::new(
                k,
                |i: int| ntt_spec(cbd_spec(shake256(sigma.push(i as u8), 64 * eta), eta)),
            );
            let keys = pke_keygen_spec(p, d);
            &&& decode_vec(keys.1, 12, k) == s_hat
            &&& forall|i: int|
                0 <= i < k ==> #[trigger] decode_vec(keys.0, 12, k)[i] == poly_add_spec(
                    matrix_row(rho, s_hat, i as nat, k, false),
                    ntt_spec(cbd_spec(shake256(sigma.push((k + i) as u8), 64 * eta), eta)),
                )
            &&& keys.0.skip(384 * k as int) == rho
        }),
{
    let k = p.k as nat;
    let eta = p.eta1 as nat;
    let g = sha3_512(d.push(p.k as u8));
    let rho = g.take(32);
    let sigma = g.skip(32);
    let s_vec = cbd_vec(eta, sigma, 0, k);
    let e_vec = cbd_vec(eta, sigma, k, k);
    let s_hat = ntt_vec(s_vec);
    let e_hat = ntt_vec(e_vec);
    let t_hat = Seq::new(k, |i: int| poly_add_spec(matrix_row(rho, s_hat, i as nat, k, false), e_hat[i]));
    assert forall|i: int| 0 <= i < k implies #[trigger] is_poly(s_hat[i]) by {
        lemma_ntt_is_poly(s_vec[i]);
    }
    assert forall|i: int| 0 <= i < k implies #[trigger] is_poly(t_hat[i]) by {
        let a = matrix_row(rho, s_hat, i as nat, k, false);
        let b = e_hat[i];
        assert(t_hat[i] == poly_add_spec(a, b));
    }
    lemma_decode_encode_vec_12(s_hat, Seq::empty());
    assert(encode_vec(s_hat, 12) + Seq::<u8>::empty() =~= encode_vec(s_hat, 12));
    lemma_decode_encode_vec_12(t_hat, rho);
    assert forall|i: int| 0 <= i < t_hat.len() implies #[trigger] t_hat[i].len() == 256 by {
        assert(is_poly(t_hat[i]));
    }
    lemma_encode_vec_12(t_hat);
    let ek = encode_vec(t_hat, 12) + rho;
    assert(ek.skip(384 * k as int) =~= rho);
    let s_hat2 = Seq::new(k, |i: int| ntt_spec(cbd_spec(shake256(sigma.push(i as u8), 64 * eta), eta)));
    assert(s_hat =~= s_hat2);
}

} // verus!
