//! Sampling of polynomials: uniformly in the transform domain from the XOF
//! (`SampleNTT`) and from the centered binomial distribution
//! (`SamplePolyCBD`).

use vstd::prelude::*;
use crate::crypto::{concat, shake128, shake128_read};
use crate::encode::{bytes_to_bits, is_bits, unpack_bytes};
use crate::poly::{fq, is_poly, sub_mod};

verus! {

/// The XOF bytes that `SampleNTT` reads first: three SHAKE128 blocks.
pub open spec fn xof_first_len() -> nat {
    504
}

/// The XOF bytes that `SampleNTT` reads when the first read is not enough.
pub open spec fn xof_full_len() -> nat {
    32256
}

/// The coefficients that `SampleNTT` accepts from the first `t` triples of bytes of `b`.
pub open spec fn sample_candidates(b: Seq<u8>, t: nat) -> Seq<u16>
    decreases t,
{
    if t == 0 {
        Seq::empty()
    } else {
        let prev = sample_candidates(b, (t - 1) as nat);
        let c0 = b[3 * (t - 1)] as int;
        let c1 = b[3 * (t - 1) + 1] as int;
        let c2 = b[3 * (t - 1) + 2] as int;
        let d1 = c0 + 256 * (c1 % 16);
        let d2 = c1 / 16 + 16 * c2;
        prev + (if d1 < 3329 {
            seq![d1 as u16]
        } else {
            Seq::empty()
        }) + (if d2 < 3329 {
            seq![d2 as u16]
        } else {
            Seq::empty()
        })
    }
}

/// At most the first 256 entries.
pub open spec fn truncate256(c: Seq<u16>) -> Seq<u16> {
    if c.len() >= 256 {
        c.take(256)
    } else {
        c
    }
}

/// The first (at most) 256 coefficients accepted from the whole of `b`.
pub open spec fn first_samples(b: Seq<u8>) -> Seq<u16> {
    truncate256(sample_candidates(b, b.len() / 3))
}

/// `c`, filled up with zero coefficients to 256 entries.
pub open spec fn pad_poly(c: Seq<u16>) -> Seq<u16> {
    Seq::new(256, |i: int| if i < c.len() { c[i] } else { 0u16 })
}

/// `SampleNTT(seed)`: the first 256 coefficients below `q` read from the
/// SHAKE128 stream on `seed`, three bytes giving two candidates. The stream
/// is read up to `xof_full_len()` bytes; were that ever not enough, the
/// missing coefficients would be zero.
pub open spec fn sample_ntt_spec(seed: Seq<u8>) -> Seq<u16> {
    let first = first_samples(shake128(seed, xof_first_len()));
    if first.len() == 256 {
        first
    } else {
        pad_poly(first_samples(shake128(seed, xof_full_len())))
    }
}

/// The sum of the `n` bits of `b` that start at `start`.
pub open spec fn bit_sum(b: Seq<u8>, start: int, n: nat) -> int
    decreases n,
{
    if n == 0 {
        0
    } else {
        b[start + n - 1] + bit_sum(b, start, (n - 1) as nat)
    }
}

/// `SamplePolyCBD_eta(bytes)`: each coefficient is the number of ones among
/// `eta` bits minus the number among the next `eta` bits, modulo `q`.
pub open spec fn cbd_spec(bytes: Seq<u8>, eta: nat) -> Seq<u16> {
    let bits = bytes_to_bits(bytes);
    Seq::new(
        256,
        |i: int|
            fq(bit_sum(bits, 2 * i * eta, eta) - bit_sum(bits, 2 * i * eta + eta, eta)),
    )
}

/// Every candidate is below `q`.
proof fn lemma_candidates_reduced(b: Seq<u8>, t: nat)
    requires
        3 * t <= b.len(),
    ensures
        forall|i: int|
            0 <= i < sample_candidates(b, t).len() ==> #[trigger] sample_candidates(b, t)[i] < 3329,
    decreases t,
{
    if t > 0 {
        lemma_candidates_reduced(b, (t - 1) as nat);
        let prev = sample_candidates(b, (t - 1) as nat);
        let c0 = b[3 * (t - 1)] as int;
        let c1 = b[3 * (t - 1) + 1] as int;
        let c2 = b[3 * (t - 1) + 2] as int;
        let d1 = c0 + 256 * (c1 % 16);
        let d2 = c1 / 16 + 16 * c2;
        let x1 = if d1 < 3329 { seq![d1 as u16] } else { Seq::<u16>::empty() };
        let x2 = if d2 < 3329 { seq![d2 as u16] } else { Seq::<u16>::empty() };
        let c = prev + x1 + x2;
        assert(sample_candidates(b, t) == c);
        assert forall|i: int| 0 <= i < c.len() implies #[trigger] c[i] < 3329 by {
            if i < prev.len() {
                assert(c[i] == prev[i]);
            } else if i < prev.len() + x1.len() {
                assert(c[i] == x1[i - prev.len()]);
            } else {
                assert(c[i] == x2[i - prev.len() - x1.len()]);
            }
        }
    }
}

/// The first (at most) 256 coefficients that the triples of `b` give.
pub fn sample_from_stream(b: &Vec<u8>) -> (out: Vec<u16>)
    ensures
        out@ == first_samples(b@),
        out@.len() <= 256,
        forall|i: int| 0 <= i < out@.len() ==> #[trigger] out@[i] < 3329,
{
    let n = b.len();
    let triples = n / 3;
    let mut out: Vec<u16> = Vec::new();
    let mut t: usize = 0;
    while t < triples
        invariant
            n == b@.len(),
            triples == n / 3,
            t <= triples,
            out@ == truncate256(sample_candidates(b@, t as nat)),
        decreases triples - t,
    {
        let c0 = b[3 * t] as u16;
        let c1 = b[3 * t + 1] as u16;
        let c2 = b[3 * t + 2] as u16;
        let d1 = c0 + 256 * (c1 % 16);
        let d2 = c1 / 16 + 16 * c2;
        let ghost prev = sample_candidates(b@, t as nat);
        let ghost x1 = if d1 < 3329 { seq![d1] } else { Seq::<u16>::empty() };
        let ghost x2 = if d2 < 3329 { seq![d2] } else { Seq::<u16>::empty() };
        assert(sample_candidates(b@, (t + 1) as nat) == prev + x1 + x2);
        if out.len() < 256 && d1 < 3329 {
            out.push(d1);
        }
        if out.len() < 256 && d2 < 3329 {
            out.push(d2);
        }
        proof {
            let c = prev + x1 + x2;
            if prev.len() >= 256 {
                assert(c.take(256) =~= prev.take(256));
            } else {
                assert(out@ =~= truncate256(c));
            }
        }
        t = t + 1;
    }
    proof {
        lemma_candidates_reduced(b@, triples as nat);
    }
    out
}

/// Fills `c` up with zero coefficients to 256 entries.
pub fn pad_to_poly(c: Vec<u16>) -> (out: Vec<u16>)
    requires
        c@.len() <= 256,
        forall|i: int| 0 <= i < c@.len() ==> #[trigger] c@[i] < 3329,
    ensures
        out@ == pad_poly(c@),
        is_poly(out@),
{
    let mut out = c;
    while out.len() < 256
        invariant
            c@.len() <= out@.len() <= 256,
            forall|i: int| 0 <= i < out@.len() ==> #[trigger] out@[i] == pad_poly(c@)[i],
        decreases 256 - out@.len(),
    {
        out.push(0);
    }
    assert(out@ =~= pad_poly(c@));
    out
}

/// `SampleNTT(seed)`, reading the SHAKE128 stream on `seed`.
pub fn sample_ntt(seed: &[u8]) -> (f: Vec<u16>)
    ensures
        f@ == sample_ntt_spec(seed@),
        is_poly(f@),
{
    let stream = shake128_read(seed, 504);
    let first = sample_from_stream(&stream);
    if first.len() == 256 {
        first
    } else {
        let full = shake128_read(seed, 32256);
        let more = sample_from_stream(&full);
        pad_to_poly(more)
    }
}

/// The XOF input `rho || j || i` of the matrix entry in row `i`, column `j`.
pub fn xof_seed(rho: &[u8], j: u8, i: u8) -> (out: Vec<u8>)
    requires
        rho@.len() + 2 <= usize::MAX,
    ensures
        out@ == rho@.push(j).push(i),
{
    let idx = [j, i];
    let out = concat(rho, &idx);
    assert(out@ =~= rho@.push(j).push(i));
    out
}

/// `SamplePolyCBD_eta(bytes)`.
pub fn sample_cbd(bytes: &[u8], eta: usize) -> (f: Vec<u16>)
    requires
        bytes@.len() == 64 * eta,
        eta == 2 || eta == 3,
    ensures
        f@ == cbd_spec(bytes@, eta as nat),
        is_poly(f@),
{
    let bits = unpack_bytes(bytes);
    let nb = bits.len();
    let mut f: Vec<u16> = Vec::new();
    let mut i: usize = 0;
    let mut base: usize = 0;
    while i < 256
        invariant
            i <= 256,
            eta == 2 || eta == 3,
            bits@ == bytes_to_bits(bytes@),
            bits@.len() == 512 * eta,
            nb == bits@.len(),
            is_bits(bits@),
            base == 2 * i * eta,
            f@.len() == i,
            forall|j: int| 0 <= j < i ==> #[trigger] f@[j] == cbd_spec(bytes@, eta as nat)[j] && f@[j] < 3329,
        decreases 256 - i,
    {
        assert(base + 2 * eta <= 512 * eta) by (nonlinear_arith)
            requires
                base == 2 * i * eta,
                i < 256,
        ;
        let mut x: u16 = 0;
        let mut y: u16 = 0;
        let mut j: usize = 0;
        while j < eta
            invariant
                j <= eta <= 3,
                base + 2 * eta <= bits@.len(),
                nb == bits@.len(),
                is_bits(bits@),
                x == bit_sum(bits@, base as int, j as nat),
                y == bit_sum(bits@, base + eta, j as nat),
                x <= j,
                y <= j,
            decreases eta - j,
        {
            assert(bits@[base + j] <= 1);
            assert(bits@[base + eta + j] <= 1);
            x = x + bits[base + j] as u16;
            y = y + bits[base + eta + j] as u16;
            j = j + 1;
        }
        f.push(sub_mod(x, y));
        assert(2 * (i + 1) * eta == 2 * i * eta + 2 * eta) by (nonlinear_arith);
        i = i + 1;
        base = base + 2 * eta;
    }
    assert(f@ =~= cbd_spec(bytes@, eta as nat));
    f
}

} // verus!
