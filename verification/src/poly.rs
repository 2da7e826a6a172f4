//! Arithmetic on polynomials of `Z_q[X]/(X^256 + 1)`, `q = 3329`: the field
//! operations, the number-theoretic transform and its inverse, and products
//! in the transform domain.

use vstd::prelude::*;

verus! {

/// The prime modulus `q`.
pub const Q: u16 = 3329;

/// Reduction of an integer into `[0, q)`.
pub open spec fn fq(x: int) -> u16 {
    (x % 3329) as u16
}

/// Addition in `Z_q`.
pub open spec fn add_q(a: u16, b: u16) -> u16 {
    fq(a + b)
}

/// Subtraction in `Z_q`.
pub open spec fn sub_q(a: u16, b: u16) -> u16 {
    fq(a - b)
}

/// Multiplication in `Z_q`.
pub open spec fn mul_q(a: u16, b: u16) -> u16 {
    fq(a * b)
}

/// A polynomial: 256 coefficients, each in `[0, q)`.
pub open spec fn is_poly(f: Seq<u16>) -> bool {
    f.len() == 256 && forall|i: int| 0 <= i < 256 ==> #[trigger] f[i] < 3329
}

/// `17^e mod q`; 17 is a primitive 256-th root of unity modulo `q`.
pub open spec fn pow17(e: nat) -> u16
    decreases e,
{
    if e == 0 {
        1
    } else {
        mul_q(pow17((e - 1) as nat), 17)
    }
}

/// Reverses the `n` low bits of `x` onto the bits already in `acc`.
pub open spec fn bit_reverse(x: nat, n: nat, acc: nat) -> nat
    decreases n,
{
    if n == 0 {
        acc
    } else {
        bit_reverse(x / 2, (n - 1) as nat, 2 * acc + x % 2)
    }
}

/// `BitRev_7(i)`: the 7-bit reversal of `i`.
pub open spec fn bitrev7(i: nat) -> nat {
    bit_reverse(i, 7, 0)
}

/// `zeta^BitRev_7(i) mod q`, the twiddle factors of the transform.
pub open spec fn zeta(i: nat) -> u16 {
    pow17(bitrev7(i))
}

/// `zeta^(2 BitRev_7(i) + 1) mod q`, the moduli of the base-case products.
pub open spec fn gamma(i: nat) -> u16 {
    pow17(2 * bitrev7(i) + 1)
}

/// The half-lengths of the butterfly layers: 2, 4, ..., 128.
pub open spec fn layer_len(len: nat) -> bool {
    len == 2 || len == 4 || len == 8 || len == 16 || len == 32 || len == 64 || len == 128
}

/// One layer of the forward transform with half-length `len`.
pub open spec fn ntt_layer_spec(f: Seq<u16>, len: nat) -> Seq<u16> {
    Seq::new(
        256,
        |i: int|
            {
                let blk = i / (2 * len as int);
                let z = zeta((128int / (len as int) + blk) as nat);
                if i % (2 * len as int) < len {
                    add_q(f[i], mul_q(z, f[i + len]))
                } else {
                    sub_q(f[i - len], mul_q(z, f[i]))
                }
            },
    )
}

/// The layers of the forward transform from half-length `len` down to 2.
pub open spec fn ntt_from(f: Seq<u16>, len: nat) -> Seq<u16>
    decreases len,
{
    if len < 2 {
        f
    } else {
        ntt_from(ntt_layer_spec(f, len), len / 2)
    }
}

/// `NTT(f)`.
pub open spec fn ntt_spec(f: Seq<u16>) -> Seq<u16> {
    ntt_from(f, 128)
}

/// One layer of the inverse transform with half-length `len`.
pub open spec fn intt_layer_spec(f: Seq<u16>, len: nat) -> Seq<u16> {
    Seq::new(
        256,
        |i: int|
            {
                let blk = i / (2 * len as int);
                let z = zeta((256int / (len as int) - 1 - blk) as nat);
                if i % (2 * len as int) < len {
                    add_q(f[i], f[i + len])
                } else {
                    mul_q(z, sub_q(f[i], f[i - len]))
                }
            },
    )
}

/// The layers of the inverse transform from half-length `len` up to 128.
pub open spec fn intt_from(f: Seq<u16>, len: nat) -> Seq<u16>
    decreases 256 - len,
{
    if len == 0 || len > 128 {
        f
    } else {
        intt_from(intt_layer_spec(f, len), 2 * len)
    }
}

/// `NTT^-1(f)`: the layers, then a scaling by `3303 = 128^-1 mod q`.
pub open spec fn intt_spec(f: Seq<u16>) -> Seq<u16> {
    Seq::new(256, |i: int| mul_q(intt_from(f, 2)[i], 3303))
}

/// `MultiplyNTTs(f, g)`: 128 products of
/// degree-one polynomials modulo `X^2 - gamma(i)`.
pub open spec fn multiply_ntts_spec(f: Seq<u16>, g: Seq<u16>) -> Seq<u16> {
    Seq::new(
        256,
        |i: int|
            if i % 2 == 0 {
                add_q(mul_q(f[i], g[i]), mul_q(mul_q(f[i + 1], g[i + 1]), gamma((i / 2) as nat)))
            } else {
                add_q(mul_q(f[i - 1], g[i]), mul_q(f[i], g[i - 1]))
            },
    )
}

/// Coefficient-wise sum.
pub open spec fn poly_add_spec(f: Seq<u16>, g: Seq<u16>) -> Seq<u16> {
    Seq::new(256, |i: int| add_q(f[i], g[i]))
}

/// Coefficient-wise difference.
pub open spec fn poly_sub_spec(f: Seq<u16>, g: Seq<u16>) -> Seq<u16> {
    Seq::new(256, |i: int| sub_q(f[i], g[i]))
}

/// The zero polynomial.
pub open spec fn poly_zero() -> Seq<u16> {
    Seq::new(256, |i: int| 0u16)
}

/// `a + b mod q`.
pub fn add_mod(a: u16, b: u16) -> (r: u16)
    requires
        a < 3329,
        b < 3329,
    ensures
        r == add_q(a, b),
        r < 3329,
{
    let s = a + b;
    if s >= 3329 {
        s - 3329
    } else {
        s
    }
}

/// `a - b mod q`.
pub fn sub_mod(a: u16, b: u16) -> (r: u16)
    requires
        a < 3329,
        b < 3329,
    ensures
        r == sub_q(a, b),
        r < 3329,
{
    let s = a + 3329 - b;
    if s >= 3329 {
        s - 3329
    } else {
        s
    }
}

/// `a * b mod q`.
pub fn mul_mod(a: u16, b: u16) -> (r: u16)
    requires
        a < 3329,
        b < 3329,
    ensures
        r == mul_q(a, b),
        r < 3329,
{
    assert((a as u32) * (b as u32) < 3329 * 3329) by (nonlinear_arith)
        requires
            a < 3329,
            b < 3329,
    ;
    let p = (a as u32) * (b as u32);
    (p % 3329) as u16
}


/// `2^n`, for small exponents.
pub open spec fn p2(n: nat) -> nat
    decreases n,
{
    if n == 0 {
        1
    } else {
        2 * p2((n - 1) as nat)
    }
}

/// Every power of 17 is reduced.
pub proof fn lemma_pow17_reduced(e: nat)
    ensures
        pow17(e) < 3329,
    decreases e,
{
    if e > 0 {
        lemma_pow17_reduced((e - 1) as nat);
    }
}

/// `17^e mod q` for every `e < 256`.
fn pow17_table() -> (t: Vec<u16>)
    ensures
        t@.len() == 256,
        forall|e: int| 0 <= e < 256 ==> #[trigger] t@[e] == pow17(e as nat),
{
    let mut t: Vec<u16> = Vec::new();
    let mut cur: u16 = 1;
    let mut e: usize = 0;
    while e < 256
        invariant
            e <= 256,
            t@.len() == e,
            cur == pow17(e as nat),
            cur < 3329,
            forall|j: int| 0 <= j < e ==> #[trigger] t@[j] == pow17(j as nat),
        decreases 256 - e,
    {
        t.push(cur);
        cur = mul_mod(cur, 17);
        e = e + 1;
    }
    t
}

/// `BitRev_7(i)`.
fn bitrev7_exec(i: usize) -> (r: usize)
    requires
        i < 128,
    ensures
        r == bitrev7(i as nat),
        r < 128,
{
    let mut x: usize = i;
    let mut acc: usize = 0;
    let mut n: usize = 7;
    let mut bound: usize = 1;
    while n > 0
        invariant
            n <= 7,
            bit_reverse(x as nat, n as nat, acc as nat) == bitrev7(i as nat),
            acc < bound,
            bound == p2((7 - n) as nat),
            n > 0 ==> bound <= 64,
        decreases n,
    {
        assert(p2((7 - n + 1) as nat) == 2 * p2((7 - n) as nat));
        assert(n > 1 ==> p2((7 - n + 1) as nat) <= 64) by {
            reveal_with_fuel(p2, 8);
        }
        acc = 2 * acc + x % 2;
        x = x / 2;
        n = n - 1;
        bound = 2 * bound;
    }
    assert(p2(7) == 128) by {
        reveal_with_fuel(p2, 8);
    }
    acc
}

/// The twiddle factors `zeta(i)` for `i < 128`.
pub fn zeta_table() -> (z: Vec<u16>)
    ensures
        z@.len() == 128,
        forall|i: int| 0 <= i < 128 ==> #[trigger] z@[i] == zeta(i as nat) && z@[i] < 3329,
{
    let t = pow17_table();
    let mut z: Vec<u16> = Vec::new();
    let mut i: usize = 0;
    while i < 128
        invariant
            i <= 128,
            t@.len() == 256,
            forall|e: int| 0 <= e < 256 ==> #[trigger] t@[e] == pow17(e as nat),
            z@.len() == i,
            forall|j: int| 0 <= j < i ==> #[trigger] z@[j] == zeta(j as nat) && z@[j] < 3329,
        decreases 128 - i,
    {
        let b = bitrev7_exec(i);
        proof {
            lemma_pow17_reduced(b as nat);
        }
        z.push(t[b]);
        i = i + 1;
    }
    z
}

/// The base-case moduli `gamma(i)` for `i < 128`.
pub fn gamma_table() -> (g: Vec<u16>)
    ensures
        g@.len() == 128,
        forall|i: int| 0 <= i < 128 ==> #[trigger] g@[i] == gamma(i as nat) && g@[i] < 3329,
{
    let t = pow17_table();
    let mut g: Vec<u16> = Vec::new();
    let mut i: usize = 0;
    while i < 128
        invariant
            i <= 128,
            t@.len() == 256,
            forall|e: int| 0 <= e < 256 ==> #[trigger] t@[e] == pow17(e as nat),
            g@.len() == i,
            forall|j: int| 0 <= j < i ==> #[trigger] g@[j] == gamma(j as nat) && g@[j] < 3329,
        decreases 128 - i,
    {
        let b = bitrev7_exec(i);
        proof {
            lemma_pow17_reduced((2 * b + 1) as nat);
        }
        g.push(t[2 * b + 1]);
        i = i + 1;
    }
    g
}

/// Index facts of a butterfly layer with half-length `len`.
proof fn lemma_layer_index(i: int, len: nat)
    requires
        layer_len(len),
        0 <= i < 256,
    ensures
        i % (2 * len as int) < len ==> i + len < 256,
        i % (2 * len as int) >= len ==> i - len >= 0,
        0 <= 128int / (len as int) + i / (2 * len as int) < 128,
        0 <= 256int / (len as int) - 1 - i / (2 * len as int) < 128,
{
    if len == 2 {
        assert(2 * len as int == 4);
        assert(i % 4 < 2 ==> i + 2 < 256);
        assert(0 <= 128int / 2 + i / 4 < 128);
        assert(0 <= 256int / 2 - 1 - i / 4 < 128);
    } else if len == 4 {
        assert(2 * len as int == 8);
        assert(i % 8 < 4 ==> i + 4 < 256);
        assert(0 <= 128int / 4 + i / 8 < 128);
        assert(0 <= 256int / 4 - 1 - i / 8 < 128);
    } else if len == 8 {
        assert(2 * len as int == 16);
        assert(i % 16 < 8 ==> i + 8 < 256);
        assert(0 <= 128int / 8 + i / 16 < 128);
        assert(0 <= 256int / 8 - 1 - i / 16 < 128);
    } else if len == 16 {
        assert(2 * len as int == 32);
        assert(i % 32 < 16 ==> i + 16 < 256);
        assert(0 <= 128int / 16 + i / 32 < 128);
        assert(0 <= 256int / 16 - 1 - i / 32 < 128);
    } else if len == 32 {
        assert(2 * len as int == 64);
        assert(i % 64 < 32 ==> i + 32 < 256);
        assert(0 <= 128int / 32 + i / 64 < 128);
        assert(0 <= 256int / 32 - 1 - i / 64 < 128);
    } else if len == 64 {
        assert(2 * len as int == 128);
        assert(i % 128 < 64 ==> i + 64 < 256);
        assert(0 <= 128int / 64 + i / 128 < 128);
        assert(0 <= 256int / 64 - 1 - i / 128 < 128);
    } else if len == 128 {
        assert(2 * len as int == 256);
        assert(i % 256 < 128 ==> i + 128 < 256);
        assert(0 <= 128int / 128 + i / 256 < 128);
        assert(0 <= 256int / 128 - 1 - i / 256 < 128);
    }
}


/// One forward butterfly layer.
fn ntt_layer(f: &Vec<u16>, len: usize, zetas: &Vec<u16>) -> (g: Vec<u16>)
    requires
        is_poly(f@),
        layer_len(len as nat),
        zetas@.len() == 128,
        forall|i: int| 0 <= i < 128 ==> #[trigger] zetas@[i] == zeta(i as nat) && zetas@[i] < 3329,
    ensures
        g@ == ntt_layer_spec(f@, len as nat),
        is_poly(g@),
{
    let mut g: Vec<u16> = Vec::new();
    let mut i: usize = 0;
    while i < 256
        invariant
            i <= 256,
            is_poly(f@),
            layer_len(len as nat),
            zetas@.len() == 128,
            forall|j: int| 0 <= j < 128 ==> #[trigger] zetas@[j] == zeta(j as nat) && zetas@[j] < 3329,
            g@.len() == i,
            forall|j: int| 0 <= j < i ==> #[trigger] g@[j] == ntt_layer_spec(f@, len as nat)[j] && g@[j] < 3329,
        decreases 256 - i,
    {
        proof {
            lemma_layer_index(i as int, len as nat);
        }
        let blk = i / (2 * len);
        let z = zetas[128 / len + blk];
        let c = if i % (2 * len) < len {
            add_mod(f[i], mul_mod(z, f[i + len]))
        } else {
            sub_mod(f[i - len], mul_mod(z, f[i]))
        };
        g.push(c);
        i = i + 1;
    }
    assert(g@ =~= ntt_layer_spec(f@, len as nat));
    g
}

/// One inverse butterfly layer.
fn intt_layer(f: &Vec<u16>, len: usize, zetas: &Vec<u16>) -> (g: Vec<u16>)
    requires
        is_poly(f@),
        layer_len(len as nat),
        zetas@.len() == 128,
        forall|i: int| 0 <= i < 128 ==> #[trigger] zetas@[i] == zeta(i as nat) && zetas@[i] < 3329,
    ensures
        g@ == intt_layer_spec(f@, len as nat),
        is_poly(g@),
{
    let mut g: Vec<u16> = Vec::new();
    let mut i: usize = 0;
    while i < 256
        invariant
            i <= 256,
            is_poly(f@),
            layer_len(len as nat),
            zetas@.len() == 128,
            forall|j: int| 0 <= j < 128 ==> #[trigger] zetas@[j] == zeta(j as nat) && zetas@[j] < 3329,
            g@.len() == i,
            forall|j: int| 0 <= j < i ==> #[trigger] g@[j] == intt_layer_spec(f@, len as nat)[j] && g@[j] < 3329,
        decreases 256 - i,
    {
        proof {
            lemma_layer_index(i as int, len as nat);
        }
        let blk = i / (2 * len);
        let z = zetas[256 / len - 1 - blk];
        let c = if i % (2 * len) < len {
            add_mod(f[i], f[i + len])
        } else {
            mul_mod(z, sub_mod(f[i], f[i - len]))
        };
        g.push(c);
        i = i + 1;
    }
    assert(g@ =~= intt_layer_spec(f@, len as nat));
    g
}

/// `NTT(f)`.
pub fn ntt(f: &Vec<u16>) -> (g: Vec<u16>)
    requires
        is_poly(f@),
    ensures
        g@ == ntt_spec(f@),
        is_poly(g@),
{
    let zetas = zeta_table();
    let mut g = f.clone();
    assert(g@ =~= f@);
    let mut len: usize = 128;
    while len >= 2
        invariant
            layer_len(len as nat) || len == 1,
            is_poly(g@),
            ntt_from(g@, len as nat) == ntt_spec(f@),
            zetas@.len() == 128,
            forall|j: int| 0 <= j < 128 ==> #[trigger] zetas@[j] == zeta(j as nat) && zetas@[j] < 3329,
        decreases len,
    {
        g = ntt_layer(&g, len, &zetas);
        len = len / 2;
    }
    g
}

/// `NTT^-1(f)`.
pub fn intt(f: &Vec<u16>) -> (g: Vec<u16>)
    requires
        is_poly(f@),
    ensures
        g@ == intt_spec(f@),
        is_poly(g@),
{
    let zetas = zeta_table();
    let mut h = f.clone();
    assert(h@ =~= f@);
    let mut len: usize = 2;
    while len <= 128
        invariant
            layer_len(len as nat) || len == 256,
            is_poly(h@),
            intt_from(h@, len as nat) == intt_from(f@, 2),
            zetas@.len() == 128,
            forall|j: int| 0 <= j < 128 ==> #[trigger] zetas@[j] == zeta(j as nat) && zetas@[j] < 3329,
        decreases 256 - len,
    {
        h = intt_layer(&h, len, &zetas);
        len = len * 2;
    }
    let mut g: Vec<u16> = Vec::new();
    let mut i: usize = 0;
    while i < 256
        invariant
            i <= 256,
            is_poly(h@),
            h@ == intt_from(f@, 2),
            g@.len() == i,
            forall|j: int| 0 <= j < i ==> #[trigger] g@[j] == intt_spec(f@)[j] && g@[j] < 3329,
        decreases 256 - i,
    {
        g.push(mul_mod(h[i], 3303));
        i = i + 1;
    }
    assert(g@ =~= intt_spec(f@));
    g
}

/// `MultiplyNTTs(f, g)`.
pub fn multiply_ntts(f: &Vec<u16>, g: &Vec<u16>, gammas: &Vec<u16>) -> (h: Vec<u16>)
    requires
        is_poly(f@),
        is_poly(g@),
        gammas@.len() == 128,
        forall|i: int| 0 <= i < 128 ==> #[trigger] gammas@[i] == gamma(i as nat) && gammas@[i] < 3329,
    ensures
        h@ == multiply_ntts_spec(f@, g@),
        is_poly(h@),
{
    let mut h: Vec<u16> = Vec::new();
    let mut i: usize = 0;
    while i < 256
        invariant
            i <= 256,
            is_poly(f@),
            is_poly(g@),
            gammas@.len() == 128,
            forall|j: int| 0 <= j < 128 ==> #[trigger] gammas@[j] == gamma(j as nat) && gammas@[j] < 3329,
            h@.len() == i,
            forall|j: int| 0 <= j < i ==> #[trigger] h@[j] == multiply_ntts_spec(f@, g@)[j] && h@[j] < 3329,
        decreases 256 - i,
    {
        let c = if i % 2 == 0 {
            add_mod(mul_mod(f[i], g[i]), mul_mod(mul_mod(f[i + 1], g[i + 1]), gammas[i / 2]))
        } else {
            add_mod(mul_mod(f[i - 1], g[i]), mul_mod(f[i], g[i - 1]))
        };
        h.push(c);
        i = i + 1;
    }
    assert(h@ =~= multiply_ntts_spec(f@, g@));
    h
}

/// Coefficient-wise sum of two polynomials.
pub fn poly_add(f: &Vec<u16>, g: &Vec<u16>) -> (h: Vec<u16>)
    requires
        is_poly(f@),
        is_poly(g@),
    ensures
        h@ == poly_add_spec(f@, g@),
        is_poly(h@),
{
    let mut h: Vec<u16> = Vec::new();
    let mut i: usize = 0;
    while i < 256
        invariant
            i <= 256,
            is_poly(f@),
            is_poly(g@),
            h@.len() == i,
            forall|j: int| 0 <= j < i ==> #[trigger] h@[j] == poly_add_spec(f@, g@)[j] && h@[j] < 3329,
        decreases 256 - i,
    {
        h.push(add_mod(f[i], g[i]));
        i = i + 1;
    }
    assert(h@ =~= poly_add_spec(f@, g@));
    h
}

/// Coefficient-wise difference of two polynomials.
pub fn poly_sub(f: &Vec<u16>, g: &Vec<u16>) -> (h: Vec<u16>)
    requires
        is_poly(f@),
        is_poly(g@),
    ensures
        h@ == poly_sub_spec(f@, g@),
        is_poly(h@),
{
    let mut h: Vec<u16> = Vec::new();
    let mut i: usize = 0;
    while i < 256
        invariant
            i <= 256,
            is_poly(f@),
            is_poly(g@),
            h@.len() == i,
            forall|j: int| 0 <= j < i ==> #[trigger] h@[j] == poly_sub_spec(f@, g@)[j] && h@[j] < 3329,
        decreases 256 - i,
    {
        h.push(sub_mod(f[i], g[i]));
        i = i + 1;
    }
    assert(h@ =~= poly_sub_spec(f@, g@));
    h
}

/// The zero polynomial.
pub fn zero_poly() -> (h: Vec<u16>)
    ensures
        h@ == poly_zero(),
        is_poly(h@),
{
    let mut h: Vec<u16> = Vec::new();
    let mut i: usize = 0;
    while i < 256
        invariant
            i <= 256,
            h@.len() == i,
            forall|j: int| 0 <= j < i ==> #[trigger] h@[j] == 0,
        decreases 256 - i,
    {
        h.push(0);
        i = i + 1;
    }
    assert(h@ =~= poly_zero());
    h
}

} // verus!
verus! {

/// The twiddle exponents of the blocks of the layer with half-length 2.
proof fn lemma_twiddle_exponents_2(blk: int)
    requires
        0 <= blk < 64,
    ensures
        bitrev7((64 + blk) as nat) + bitrev7((127 - blk) as nat) == 128,
{
    if blk == 0 {
        assert(bitrev7(64) + bitrev7(127) == 128) by {
            reveal_with_fuel(bit_reverse, 8);
        }
    } else if blk == 1 {
        assert(bitrev7(65) + bitrev7(126) == 128) by {
            reveal_with_fuel(bit_reverse, 8);
        }
    } else if blk == 2 {
        assert(bitrev7(66) + bitrev7(125) == 128) by {
            reveal_with_fuel(bit_reverse, 8);
        }
    } else if blk == 3 {
        assert(bitrev7(67) + bitrev7(124) == 128) by {
            reveal_with_fuel(bit_reverse, 8);
        }
    } else if blk == 4 {
        assert(bitrev7(68) + bitrev7(123) == 128) by {
            reveal_with_fuel(bit_reverse, 8);
        }
    } else if blk == 5 {
        assert(bitrev7(69) + bitrev7(122) == 128) by {
            reveal_with_fuel(bit_reverse, 8);
        }
    } else if blk == 6 {
        assert(bitrev7(70) + bitrev7(121) == 128) by {
            reveal_with_fuel(bit_reverse, 8);
        }
    } else if blk == 7 {
        assert(bitrev7(71) + bitrev7(120) == 128) by {
            reveal_with_fuel(bit_reverse, 8);
        }
    } else if blk == 8 {
        assert(bitrev7(72) + bitrev7(119) == 128) by {
            reveal_with_fuel(bit_reverse, 8);
        }
    } else if blk == 9 {
        assert(bitrev7(73) + bitrev7(118) == 128) by {
            reveal_with_fuel(bit_reverse, 8);
        }
    } else if blk == 10 {
        assert(bitrev7(74) + bitrev7(117) == 128) by {
            reveal_with_fuel(bit_reverse, 8);
        }
    } else if blk == 11 {
        assert(bitrev7(75) + bitrev7(116) == 128) by {
            reveal_with_fuel(bit_reverse, 8);
        }
    } else if blk == 12 {
        assert(bitrev7(76) + bitrev7(115) == 128) by {
            reveal_with_fuel(bit_reverse, 8);
        }
    } else if blk == 13 {
        assert(bitrev7(77) + bitrev7(114) == 128) by {
            reveal_with_fuel(bit_reverse, 8);
        }
    } else if blk == 14 {
        assert(bitrev7(78) + bitrev7(113) == 128) by {
            reveal_with_fuel(bit_reverse, 8);
        }
    } else if blk == 15 {
        assert(bitrev7(79) + bitrev7(112) == 128) by {
            reveal_with_fuel(bit_reverse, 8);
        }
    } else if blk == 16 {
        assert(bitrev7(80) + bitrev7(111) == 128) by {
            reveal_with_fuel(bit_reverse, 8);
        }
    } else if blk == 17 {
        assert(bitrev7(81) + bitrev7(110) == 128) by {
            reveal_with_fuel(bit_reverse, 8);
        }
    } else if blk == 18 {
        assert(bitrev7(82) + bitrev7(109) == 128) by {
            reveal_with_fuel(bit_reverse, 8);
        }
    } else if blk == 19 {
        assert(bitrev7(83) + bitrev7(108) == 128) by {
            reveal_with_fuel(bit_reverse, 8);
        }
    } else if blk == 20 {
        assert(bitrev7(84) + bitrev7(107) == 128) by {
            reveal_with_fuel(bit_reverse, 8);
        }
    } else if blk == 21 {
        assert(bitrev7(85) + bitrev7(106) == 128) by {
            reveal_with_fuel(bit_reverse, 8);
        }
    } else if blk == 22 {
        assert(bitrev7(86) + bitrev7(105) == 128) by {
            reveal_with_fuel(bit_reverse, 8);
        }
    } else if blk == 23 {
        assert(bitrev7(87) + bitrev7(104) == 128) by {
            reveal_with_fuel(bit_reverse, 8);
        }
    } else if blk == 24 {
        assert(bitrev7(88) + bitrev7(103) == 128) by {
            reveal_with_fuel(bit_reverse, 8);
        }
    } else if blk == 25 {
        assert(bitrev7(89) + bitrev7(102) == 128) by {
            reveal_with_fuel(bit_reverse, 8);
        }
    } else if blk == 26 {
        assert(bitrev7(90) + bitrev7(101) == 128) by {
            reveal_with_fuel(bit_reverse, 8);
        }
    } else if blk == 27 {
        assert(bitrev7(91) + bitrev7(100) == 128) by {
            reveal_with_fuel(bit_reverse, 8);
        }
    } else if blk == 28 {
        assert(bitrev7(92) + bitrev7(99) == 128) by {
            reveal_with_fuel(bit_reverse, 8);
        }
    } else if blk == 29 {
        assert(bitrev7(93) + bitrev7(98) == 128) by {
            reveal_with_fuel(bit_reverse, 8);
        }
    } else if blk == 30 {
        assert(bitrev7(94) + bitrev7(97) == 128) by {
            reveal_with_fuel(bit_reverse, 8);
        }
    } else if blk == 31 {
        assert(bitrev7(95) + bitrev7(96) == 128) by {
            reveal_with_fuel(bit_reverse, 8);
        }
    } else if blk == 32 {
        assert(bitrev7(96) + bitrev7(95) == 128) by {
            reveal_with_fuel(bit_reverse, 8);
        }
    } else if blk == 33 {
        assert(bitrev7(97) + bitrev7(94) == 128) by {
            reveal_with_fuel(bit_reverse, 8);
        }
    } else if blk == 34 {
        assert(bitrev7(98) + bitrev7(93) == 128) by {
            reveal_with_fuel(bit_reverse, 8);
        }
    } else if blk == 35 {
        assert(bitrev7(99) + bitrev7(92) == 128) by {
            reveal_with_fuel(bit_reverse, 8);
        }
    } else if blk == 36 {
        assert(bitrev7(100) + bitrev7(91) == 128) by {
            reveal_with_fuel(bit_reverse, 8);
        }
    } else if blk == 37 {
        assert(bitrev7(101) + bitrev7(90) == 128) by {
            reveal_with_fuel(bit_reverse, 8);
        }
    } else if blk == 38 {
        assert(bitrev7(102) + bitrev7(89) == 128) by {
            reveal_with_fuel(bit_reverse, 8);
        }
    } else if blk == 39 {
        assert(bitrev7(103) + bitrev7(88) == 128) by {
            reveal_with_fuel(bit_reverse, 8);
        }
    } else if blk == 40 {
        assert(bitrev7(104) + bitrev7(87) == 128) by {
            reveal_with_fuel(bit_reverse, 8);
        }
    } else if blk == 41 {
        assert(bitrev7(105) + bitrev7(86) == 128) by {
            reveal_with_fuel(bit_reverse, 8);
        }
    } else if blk == 42 {
        assert(bitrev7(106) + bitrev7(85) == 128) by {
            reveal_with_fuel(bit_reverse, 8);
        }
    } else if blk == 43 {
        assert(bitrev7(107) + bitrev7(84) == 128) by {
            reveal_with_fuel(bit_reverse, 8);
        }
    } else if blk == 44 {
        assert(bitrev7(108) + bitrev7(83) == 128) by {
            reveal_with_fuel(bit_reverse, 8);
        }
    } else if blk == 45 {
        assert(bitrev7(109) + bitrev7(82) == 128) by {
            reveal_with_fuel(bit_reverse, 8);
        }
    } else if blk == 46 {
        assert(bitrev7(110) + bitrev7(81) == 128) by {
            reveal_with_fuel(bit_reverse, 8);
        }
    } else if blk == 47 {
        assert(bitrev7(111) + bitrev7(80) == 128) by {
            reveal_with_fuel(bit_reverse, 8);
        }
    } else if blk == 48 {
        assert(bitrev7(112) + bitrev7(79) == 128) by {
            reveal_with_fuel(bit_reverse, 8);
        }
    } else if blk == 49 {
        assert(bitrev7(113) + bitrev7(78) == 128) by {
            reveal_with_fuel(bit_reverse, 8);
        }
    } else if blk == 50 {
        assert(bitrev7(114) + bitrev7(77) == 128) by {
            reveal_with_fuel(bit_reverse, 8);
        }
    } else if blk == 51 {
        assert(bitrev7(115) + bitrev7(76) == 128) by {
            reveal_with_fuel(bit_reverse, 8);
        }
    } else if blk == 52 {
        assert(bitrev7(116) + bitrev7(75) == 128) by {
            reveal_with_fuel(bit_reverse, 8);
        }
    } else if blk == 53 {
        assert(bitrev7(117) + bitrev7(74) == 128) by {
            reveal_with_fuel(bit_reverse, 8);
        }
    } else if blk == 54 {
        assert(bitrev7(118) + bitrev7(73) == 128) by {
            reveal_with_fuel(bit_reverse, 8);
        }
    } else if blk == 55 {
        assert(bitrev7(119) + bitrev7(72) == 128) by {
            reveal_with_fuel(bit_reverse, 8);
        }
    } else if blk == 56 {
        assert(bitrev7(120) + bitrev7(71) == 128) by {
            reveal_with_fuel(bit_reverse, 8);
        }
    } else if blk == 57 {
        assert(bitrev7(121) + bitrev7(70) == 128) by {
            reveal_with_fuel(bit_reverse, 8);
        }
    } else if blk == 58 {
        assert(bitrev7(122) + bitrev7(69) == 128) by {
            reveal_with_fuel(bit_reverse, 8);
        }
    } else if blk == 59 {
        assert(bitrev7(123) + bitrev7(68) == 128) by {
            reveal_with_fuel(bit_reverse, 8);
        }
    } else if blk == 60 {
        assert(bitrev7(124) + bitrev7(67) == 128) by {
            reveal_with_fuel(bit_reverse, 8);
        }
    } else if blk == 61 {
        assert(bitrev7(125) + bitrev7(66) == 128) by {
            reveal_with_fuel(bit_reverse, 8);
        }
    } else if blk == 62 {
        assert(bitrev7(126) + bitrev7(65) == 128) by {
            reveal_with_fuel(bit_reverse, 8);
        }
    } else if blk == 63 {
        assert(bitrev7(127) + bitrev7(64) == 128) by {
            reveal_with_fuel(bit_reverse, 8);
        }
    }
}

/// The twiddle exponents of the blocks of the layer with half-length 4.
proof fn lemma_twiddle_exponents_4(blk: int)
    requires
        0 <= blk < 32,
    ensures
        bitrev7((32 + blk) as nat) + bitrev7((63 - blk) as nat) == 128,
{
    if blk == 0 {
        assert(bitrev7(32) + bitrev7(63) == 128) by {
            reveal_with_fuel(bit_reverse, 8);
        }
    } else if blk == 1 {
        assert(bitrev7(33) + bitrev7(62) == 128) by {
            reveal_with_fuel(bit_reverse, 8);
        }
    } else if blk == 2 {
        assert(bitrev7(34) + bitrev7(61) == 128) by {
            reveal_with_fuel(bit_reverse, 8);
        }
    } else if blk == 3 {
        assert(bitrev7(35) + bitrev7(60) == 128) by {
            reveal_with_fuel(bit_reverse, 8);
        }
    } else if blk == 4 {
        assert(bitrev7(36) + bitrev7(59) == 128) by {
            reveal_with_fuel(bit_reverse, 8);
        }
    } else if blk == 5 {
        assert(bitrev7(37) + bitrev7(58) == 128) by {
            reveal_with_fuel(bit_reverse, 8);
        }
    } else if blk == 6 {
        assert(bitrev7(38) + bitrev7(57) == 128) by {
            reveal_with_fuel(bit_reverse, 8);
        }
    } else if blk == 7 {
        assert(bitrev7(39) + bitrev7(56) == 128) by {
            reveal_with_fuel(bit_reverse, 8);
        }
    } else if blk == 8 {
        assert(bitrev7(40) + bitrev7(55) == 128) by {
            reveal_with_fuel(bit_reverse, 8);
        }
    } else if blk == 9 {
        assert(bitrev7(41) + bitrev7(54) == 128) by {
            reveal_with_fuel(bit_reverse, 8);
        }
    } else if blk == 10 {
        assert(bitrev7(42) + bitrev7(53) == 128) by {
            reveal_with_fuel(bit_reverse, 8);
        }
    } else if blk == 11 {
        assert(bitrev7(43) + bitrev7(52) == 128) by {
            reveal_with_fuel(bit_reverse, 8);
        }
    } else if blk == 12 {
        assert(bitrev7(44) + bitrev7(51) == 128) by {
            reveal_with_fuel(bit_reverse, 8);
        }
    } else if blk == 13 {
        assert(bitrev7(45) + bitrev7(50) == 128) by {
            reveal_with_fuel(bit_reverse, 8);
        }
    } else if blk == 14 {
        assert(bitrev7(46) + bitrev7(49) == 128) by {
            reveal_with_fuel(bit_reverse, 8);
        }
    } else if blk == 15 {
        assert(bitrev7(47) + bitrev7(48) == 128) by {
            reveal_with_fuel(bit_reverse, 8);
        }
    } else if blk == 16 {
        assert(bitrev7(48) + bitrev7(47) == 128) by {
            reveal_with_fuel(bit_reverse, 8);
        }
    } else if blk == 17 {
        assert(bitrev7(49) + bitrev7(46) == 128) by {
            reveal_with_fuel(bit_reverse, 8);
        }
    } else if blk == 18 {
        assert(bitrev7(50) + bitrev7(45) == 128) by {
            reveal_with_fuel(bit_reverse, 8);
        }
    } else if blk == 19 {
        assert(bitrev7(51) + bitrev7(44) == 128) by {
            reveal_with_fuel(bit_reverse, 8);
        }
    } else if blk == 20 {
        assert(bitrev7(52) + bitrev7(43) == 128) by {
            reveal_with_fuel(bit_reverse, 8);
        }
    } else if blk == 21 {
        assert(bitrev7(53) + bitrev7(42) == 128) by {
            reveal_with_fuel(bit_reverse, 8);
        }
    } else if blk == 22 {
        assert(bitrev7(54) + bitrev7(41) == 128) by {
            reveal_with_fuel(bit_reverse, 8);
        }
    } else if blk == 23 {
        assert(bitrev7(55) + bitrev7(40) == 128) by {
            reveal_with_fuel(bit_reverse, 8);
        }
    } else if blk == 24 {
        assert(bitrev7(56) + bitrev7(39) == 128) by {
            reveal_with_fuel(bit_reverse, 8);
        }
    } else if blk == 25 {
        assert(bitrev7(57) + bitrev7(38) == 128) by {
            reveal_with_fuel(bit_reverse, 8);
        }
    } else if blk == 26 {
        assert(bitrev7(58) + bitrev7(37) == 128) by {
            reveal_with_fuel(bit_reverse, 8);
        }
    } else if blk == 27 {
        assert(bitrev7(59) + bitrev7(36) == 128) by {
            reveal_with_fuel(bit_reverse, 8);
        }
    } else if blk == 28 {
        assert(bitrev7(60) + bitrev7(35) == 128) by {
            reveal_with_fuel(bit_reverse, 8);
        }
    } else if blk == 29 {
        assert(bitrev7(61) + bitrev7(34) == 128) by {
            reveal_with_fuel(bit_reverse, 8);
        }
    } else if blk == 30 {
        assert(bitrev7(62) + bitrev7(33) == 128) by {
            reveal_with_fuel(bit_reverse, 8);
        }
    } else if blk == 31 {
        assert(bitrev7(63) + bitrev7(32) == 128) by {
            reveal_with_fuel(bit_reverse, 8);
        }
    }
}

/// The twiddle exponents of the blocks of the layer with half-length 8.
proof fn lemma_twiddle_exponents_8(blk: int)
    requires
        0 <= blk < 16,
    ensures
        bitrev7((16 + blk) as nat) + bitrev7((31 - blk) as nat) == 128,
{
    if blk == 0 {
        assert(bitrev7(16) + bitrev7(31) == 128) by {
            reveal_with_fuel(bit_reverse, 8);
        }
    } else if blk == 1 {
        assert(bitrev7(17) + bitrev7(30) == 128) by {
            reveal_with_fuel(bit_reverse, 8);
        }
    } else if blk == 2 {
        assert(bitrev7(18) + bitrev7(29) == 128) by {
            reveal_with_fuel(bit_reverse, 8);
        }
    } else if blk == 3 {
        assert(bitrev7(19) + bitrev7(28) == 128) by {
            reveal_with_fuel(bit_reverse, 8);
        }
    } else if blk == 4 {
        assert(bitrev7(20) + bitrev7(27) == 128) by {
            reveal_with_fuel(bit_reverse, 8);
        }
    } else if blk == 5 {
        assert(bitrev7(21) + bitrev7(26) == 128) by {
            reveal_with_fuel(bit_reverse, 8);
        }
    } else if blk == 6 {
        assert(bitrev7(22) + bitrev7(25) == 128) by {
            reveal_with_fuel(bit_reverse, 8);
        }
    } else if blk == 7 {
        assert(bitrev7(23) + bitrev7(24) == 128) by {
            reveal_with_fuel(bit_reverse, 8);
        }
    } else if blk == 8 {
        assert(bitrev7(24) + bitrev7(23) == 128) by {
            reveal_with_fuel(bit_reverse, 8);
        }
    } else if blk == 9 {
        assert(bitrev7(25) + bitrev7(22) == 128) by {
            reveal_with_fuel(bit_reverse, 8);
        }
    } else if blk == 10 {
        assert(bitrev7(26) + bitrev7(21) == 128) by {
            reveal_with_fuel(bit_reverse, 8);
        }
    } else if blk == 11 {
        assert(bitrev7(27) + bitrev7(20) == 128) by {
            reveal_with_fuel(bit_reverse, 8);
        }
    } else if blk == 12 {
        assert(bitrev7(28) + bitrev7(19) == 128) by {
            reveal_with_fuel(bit_reverse, 8);
        }
    } else if blk == 13 {
        assert(bitrev7(29) + bitrev7(18) == 128) by {
            reveal_with_fuel(bit_reverse, 8);
        }
    } else if blk == 14 {
        assert(bitrev7(30) + bitrev7(17) == 128) by {
            reveal_with_fuel(bit_reverse, 8);
        }
    } else if blk == 15 {
        assert(bitrev7(31) + bitrev7(16) == 128) by {
            reveal_with_fuel(bit_reverse, 8);
        }
    }
}

/// The twiddle exponents of the blocks of the layer with half-length 16.
proof fn lemma_twiddle_exponents_16(blk: int)
    requires
        0 <= blk < 8,
    ensures
        bitrev7((8 + blk) as nat) + bitrev7((15 - blk) as nat) == 128,
{
    if blk == 0 {
        assert(bitrev7(8) + bitrev7(15) == 128) by {
            reveal_with_fuel(bit_reverse, 8);
        }
    } else if blk == 1 {
        assert(bitrev7(9) + bitrev7(14) == 128) by {
            reveal_with_fuel(bit_reverse, 8);
        }
    } else if blk == 2 {
        assert(bitrev7(10) + bitrev7(13) == 128) by {
            reveal_with_fuel(bit_reverse, 8);
        }
    } else if blk == 3 {
        assert(bitrev7(11) + bitrev7(12) == 128) by {
            reveal_with_fuel(bit_reverse, 8);
        }
    } else if blk == 4 {
        assert(bitrev7(12) + bitrev7(11) == 128) by {
            reveal_with_fuel(bit_reverse, 8);
        }
    } else if blk == 5 {
        assert(bitrev7(13) + bitrev7(10) == 128) by {
            reveal_with_fuel(bit_reverse, 8);
        }
    } else if blk == 6 {
        assert(bitrev7(14) + bitrev7(9) == 128) by {
            reveal_with_fuel(bit_reverse, 8);
        }
    } else if blk == 7 {
        assert(bitrev7(15) + bitrev7(8) == 128) by {
            reveal_with_fuel(bit_reverse, 8);
        }
    }
}

/// The twiddle exponents of the blocks of the layer with half-length 32.
proof fn lemma_twiddle_exponents_32(blk: int)
    requires
        0 <= blk < 4,
    ensures
        bitrev7((4 + blk) as nat) + bitrev7((7 - blk) as nat) == 128,
{
    if blk == 0 {
        assert(bitrev7(4) + bitrev7(7) == 128) by {
            reveal_with_fuel(bit_reverse, 8);
        }
    } else if blk == 1 {
        assert(bitrev7(5) + bitrev7(6) == 128) by {
            reveal_with_fuel(bit_reverse, 8);
        }
    } else if blk == 2 {
        assert(bitrev7(6) + bitrev7(5) == 128) by {
            reveal_with_fuel(bit_reverse, 8);
        }
    } else if blk == 3 {
        assert(bitrev7(7) + bitrev7(4) == 128) by {
            reveal_with_fuel(bit_reverse, 8);
        }
    }
}

/// The twiddle exponents of the blocks of the layer with half-length 64.
proof fn lemma_twiddle_exponents_64(blk: int)
    requires
        0 <= blk < 2,
    ensures
        bitrev7((2 + blk) as nat) + bitrev7((3 - blk) as nat) == 128,
{
    if blk == 0 {
        assert(bitrev7(2) + bitrev7(3) == 128) by {
            reveal_with_fuel(bit_reverse, 8);
        }
    } else if blk == 1 {
        assert(bitrev7(3) + bitrev7(2) == 128) by {
            reveal_with_fuel(bit_reverse, 8);
        }
    }
}

/// The twiddle exponents of the blocks of the layer with half-length 128.
proof fn lemma_twiddle_exponents_128(blk: int)
    requires
        0 <= blk < 1,
    ensures
        bitrev7((1 + blk) as nat) + bitrev7((1 - blk) as nat) == 128,
{
    if blk == 0 {
        assert(bitrev7(1) + bitrev7(1) == 128) by {
            reveal_with_fuel(bit_reverse, 8);
        }
    }
}

/// Within the layer of half-length `len`, the twiddle exponents of block
/// `blk` in the forward and in the inverse transform add up to 128.
proof fn lemma_twiddle_exponents(len: nat, blk: int)
    requires
        layer_len(len),
        0 <= blk < 128int / (len as int),
    ensures
        bitrev7((128int / (len as int) + blk) as nat) + bitrev7((256int / (len as int) - 1 - blk) as nat)
            == 128,
{
    if len == 2 {
        assert(128int / (len as int) == 64 && 256int / (len as int) == 128);
        lemma_twiddle_exponents_2(blk);
    } else if len == 4 {
        assert(128int / (len as int) == 32 && 256int / (len as int) == 64);
        lemma_twiddle_exponents_4(blk);
    } else if len == 8 {
        assert(128int / (len as int) == 16 && 256int / (len as int) == 32);
        lemma_twiddle_exponents_8(blk);
    } else if len == 16 {
        assert(128int / (len as int) == 8 && 256int / (len as int) == 16);
        lemma_twiddle_exponents_16(blk);
    } else if len == 32 {
        assert(128int / (len as int) == 4 && 256int / (len as int) == 8);
        lemma_twiddle_exponents_32(blk);
    } else if len == 64 {
        assert(128int / (len as int) == 2 && 256int / (len as int) == 4);
        lemma_twiddle_exponents_64(blk);
    } else if len == 128 {
        assert(128int / (len as int) == 1 && 256int / (len as int) == 2);
        lemma_twiddle_exponents_128(blk);
    }
}

} // verus!

verus! {

/// Reduction absorbs reductions of the summands.
proof fn lemma_fq_add(x: int, y: int)
    ensures
        fq(fq(x) + fq(y)) == fq(x + y),
        fq(fq(x) + y) == fq(x + y),
{
    vstd::arithmetic::div_mod::lemma_add_mod_noop(x, y, 3329);
    vstd::arithmetic::div_mod::lemma_add_mod_noop(x, y % 3329, 3329);
    vstd::arithmetic::div_mod::lemma_mod_twice(y, 3329);
}

/// Reduction absorbs reductions of the operands of a difference.
proof fn lemma_fq_sub(x: int, y: int)
    ensures
        fq(fq(x) - fq(y)) == fq(x - y),
{
    vstd::arithmetic::div_mod::lemma_sub_mod_noop(x, y, 3329);
}

/// Reduction absorbs reductions of the factors.
proof fn lemma_fq_mul(x: int, y: int)
    ensures
        fq(fq(x) * fq(y)) == fq(x * y),
        fq(x * fq(y)) == fq(x * y),
        fq(fq(x) * y) == fq(x * y),
{
    vstd::arithmetic::div_mod::lemma_mul_mod_noop_general(x, y, 3329);
}

/// Multiplication in `Z_q` is associative.
proof fn lemma_mul_q_assoc(x: u16, y: u16, z: u16)
    ensures
        mul_q(mul_q(x, y), z) == mul_q(x, mul_q(y, z)),
{
    lemma_fq_mul(x * y, z as int);
    lemma_fq_mul(x as int, y * z);
    assert((x * y) * z == x * (y * z)) by (nonlinear_arith);
}

/// `17^(a + b) = 17^a * 17^b` in `Z_q`.
proof fn lemma_pow17_add(a: nat, b: nat)
    ensures
        pow17(a + b) == mul_q(pow17(a), pow17(b)),
    decreases b,
{
    lemma_pow17_reduced(a);
    if b == 0 {
        assert(pow17(a) * 1 == pow17(a) as int);
        vstd::arithmetic::div_mod::lemma_small_mod(pow17(a) as nat, 3329);
    } else {
        lemma_pow17_add(a, (b - 1) as nat);
        assert((a + b - 1) as nat == a + (b - 1) as nat);
        lemma_mul_q_assoc(pow17(a), pow17((b - 1) as nat), 17);
    }
}

/// `17^128 = -1` in `Z_q`.
proof fn lemma_pow17_128()
    ensures
        pow17(128) == 3328,
{
    assert(pow17(1) == 17) by {
        reveal_with_fuel(pow17, 2);
    }
    lemma_pow17_add(1, 1);
    assert(pow17(2) == 289);
    lemma_pow17_add(2, 2);
    assert(pow17(4) == 296);
    lemma_pow17_add(4, 4);
    assert(pow17(8) == 1062);
    lemma_pow17_add(8, 8);
    assert(pow17(16) == 2642);
    lemma_pow17_add(16, 16);
    assert(pow17(32) == 2580);
    lemma_pow17_add(32, 32);
    assert(pow17(64) == 1729);
    lemma_pow17_add(64, 64);
}

/// The twiddle factors of a block in the forward and in the inverse layer
/// multiply to `-1` in `Z_q`.
proof fn lemma_twiddle_pair(len: nat, blk: int)
    requires
        layer_len(len),
        0 <= blk < 128int / (len as int),
    ensures
        mul_q(
            zeta((128int / (len as int) + blk) as nat),
            zeta((256int / (len as int) - 1 - blk) as nat),
        ) == 3328,
{
    lemma_twiddle_exponents(len, blk);
    lemma_pow17_add(bitrev7((128int / (len as int) + blk) as nat), bitrev7((256int / (len as int) - 1 - blk) as nat));
    lemma_pow17_128();
}

/// An inverse butterfly undoes a forward butterfly, up to a factor 2.
proof fn lemma_butterfly_inverse(a: u16, b: u16, z: u16, zi: u16)
    requires
        mul_q(z, zi) == 3328,
    ensures
        add_q(add_q(a, mul_q(z, b)), sub_q(a, mul_q(z, b))) == fq(2 * a),
        mul_q(zi, sub_q(sub_q(a, mul_q(z, b)), add_q(a, mul_q(z, b)))) == fq(2 * b),
{
    let t = mul_q(z, b);
    lemma_fq_add(a + t, a - t);
    assert((a + t) + (a - t) == 2 * a);
    lemma_fq_sub(a - t, a + t);
    assert((a - t) - (a + t) == -2 * t);
    lemma_fq_mul(zi as int, -2 * t);
    lemma_fq_mul(-2 * zi, z * b);
    assert(zi * (-2 * t) == (-2 * zi) * t) by (nonlinear_arith);
    assert((-2 * zi) * (z * b) == (-2 * b) * (z * zi)) by (nonlinear_arith);
    lemma_fq_mul(-2 * b, z * zi);
    assert((-2 * b) * 3328 == 2 * b + 3329 * (-2 * b)) by (nonlinear_arith);
    vstd::arithmetic::div_mod::lemma_mod_multiples_vanish(-2 * b, 2 * b, 3329);
}

} // verus!

verus! {

/// The partner of index `i` in its butterfly lies in the same block.
proof fn lemma_layer_partner(i: int, len: nat)
    requires
        layer_len(len),
        0 <= i < 256,
    ensures
        0 <= i / (2 * len as int) < 128int / (len as int),
        i % (2 * len as int) < len ==> (i + len) / (2 * len as int) == i / (2 * len as int)
            && (i + len) % (2 * len as int) == i % (2 * len as int) + len,
        i % (2 * len as int) >= len ==> (i - len) / (2 * len as int) == i / (2 * len as int)
            && (i - len) % (2 * len as int) == i % (2 * len as int) - len,
{
    if len == 2 {
        assert(2 * len as int == 4 && 128int / (len as int) == 64);
        assert(0 <= i / 4 < 64);
        assert(i % 4 < 2 ==> (i + 2) / 4 == i / 4 && (i + 2) % 4 == i % 4 + 2);
        assert(i % 4 >= 2 ==> (i - 2) / 4 == i / 4 && (i - 2) % 4 == i % 4 - 2);
    } else if len == 4 {
        assert(2 * len as int == 8 && 128int / (len as int) == 32);
        assert(0 <= i / 8 < 32);
        assert(i % 8 < 4 ==> (i + 4) / 8 == i / 8 && (i + 4) % 8 == i % 8 + 4);
        assert(i % 8 >= 4 ==> (i - 4) / 8 == i / 8 && (i - 4) % 8 == i % 8 - 4);
    } else if len == 8 {
        assert(2 * len as int == 16 && 128int / (len as int) == 16);
        assert(0 <= i / 16 < 16);
        assert(i % 16 < 8 ==> (i + 8) / 16 == i / 16 && (i + 8) % 16 == i % 16 + 8);
        assert(i % 16 >= 8 ==> (i - 8) / 16 == i / 16 && (i - 8) % 16 == i % 16 - 8);
    } else if len == 16 {
        assert(2 * len as int == 32 && 128int / (len as int) == 8);
        assert(0 <= i / 32 < 8);
        assert(i % 32 < 16 ==> (i + 16) / 32 == i / 32 && (i + 16) % 32 == i % 32 + 16);
        assert(i % 32 >= 16 ==> (i - 16) / 32 == i / 32 && (i - 16) % 32 == i % 32 - 16);
    } else if len == 32 {
        assert(2 * len as int == 64 && 128int / (len as int) == 4);
        assert(0 <= i / 64 < 4);
        assert(i % 64 < 32 ==> (i + 32) / 64 == i / 64 && (i + 32) % 64 == i % 64 + 32);
        assert(i % 64 >= 32 ==> (i - 32) / 64 == i / 64 && (i - 32) % 64 == i % 64 - 32);
    } else if len == 64 {
        assert(2 * len as int == 128 && 128int / (len as int) == 2);
        assert(0 <= i / 128 < 2);
        assert(i % 128 < 64 ==> (i + 64) / 128 == i / 128 && (i + 64) % 128 == i % 128 + 64);
        assert(i % 128 >= 64 ==> (i - 64) / 128 == i / 128 && (i - 64) % 128 == i % 128 - 64);
    } else if len == 128 {
        assert(2 * len as int == 256 && 128int / (len as int) == 1);
        assert(0 <= i / 256 < 1);
        assert(i % 256 < 128 ==> (i + 128) / 256 == i / 256 && (i + 128) % 256 == i % 256 + 128);
        assert(i % 256 >= 128 ==> (i - 128) / 256 == i / 256 && (i - 128) % 256 == i % 256 - 128);
    }
}

/// Each coefficient multiplied by `c`, in `Z_q`.
pub open spec fn poly_scale(f: Seq<u16>, c: int) -> Seq<u16> {
    Seq::new(256, |i: int| fq(c * f[i]))
}

/// The inverse layer undoes the forward layer of the same half-length, up to a factor 2.
proof fn lemma_layer_inverse(f: Seq<u16>, len: nat)
    requires
        f.len() == 256,
        layer_len(len),
    ensures
        intt_layer_spec(ntt_layer_spec(f, len), len) == poly_scale(f, 2),
{
    let g = ntt_layer_spec(f, len);
    let h = intt_layer_spec(g, len);
    assert forall|i: int| 0 <= i < 256 implies #[trigger] h[i] == poly_scale(f, 2)[i] by {
        lemma_layer_index(i, len);
        lemma_layer_partner(i, len);
        let blk = i / (2 * len as int);
        lemma_twiddle_pair(len, blk);
        let z = zeta((128int / (len as int) + blk) as nat);
        let zi = zeta((256int / (len as int) - 1 - blk) as nat);
        if i % (2 * len as int) < len {
            lemma_butterfly_inverse(f[i], f[i + len], z, zi);
        } else {
            lemma_butterfly_inverse(f[i - len], f[i], z, zi);
        }
    }
    assert(h =~= poly_scale(f, 2));
}

/// The inverse layer commutes with scaling.
proof fn lemma_layer_scale(g: Seq<u16>, len: nat, c: int)
    requires
        g.len() == 256,
        layer_len(len),
    ensures
        intt_layer_spec(poly_scale(g, c), len) == poly_scale(intt_layer_spec(g, len), c),
{
    let s = poly_scale(g, c);
    let lhs = intt_layer_spec(s, len);
    let rhs = poly_scale(intt_layer_spec(g, len), c);
    assert forall|i: int| 0 <= i < 256 implies #[trigger] lhs[i] == rhs[i] by {
        lemma_layer_index(i, len);
        let blk = i / (2 * len as int);
        let z = zeta((256int / (len as int) - 1 - blk) as nat);
        if i % (2 * len as int) < len {
            let j = i + len;
            lemma_fq_add(c * g[i], c * g[j]);
            lemma_fq_mul(c, g[i] + g[j]);
            assert(c * g[i] + c * g[j] == c * (g[i] + g[j])) by (nonlinear_arith);
        } else {
            let j = i - len;
            lemma_fq_sub(c * g[i], c * g[j]);
            assert(c * g[i] - c * g[j] == c * (g[i] - g[j])) by (nonlinear_arith);
            lemma_fq_mul(z as int, c * (g[i] - g[j]));
            lemma_fq_mul(c, z * (g[i] - g[j]));
            lemma_fq_mul(z as int, g[i] - g[j]);
            assert(z * (c * (g[i] - g[j])) == c * (z * (g[i] - g[j]))) by (nonlinear_arith);
        }
    }
    assert(lhs =~= rhs);
}

/// Scaling twice scales by the product.
proof fn lemma_scale_scale(f: Seq<u16>, a: int, b: int)
    ensures
        poly_scale(poly_scale(f, a), b) == poly_scale(f, a * b),
{
    assert forall|i: int| 0 <= i < 256 implies #[trigger] poly_scale(poly_scale(f, a), b)[i] == poly_scale(f, a * b)[i] by {
        lemma_fq_mul(b, a * f[i]);
        assert(b * (a * f[i]) == (a * b) * f[i]) by (nonlinear_arith);
    }
    assert(poly_scale(poly_scale(f, a), b) =~= poly_scale(f, a * b));
}

} // verus!

verus! {

/// The layers of the inverse transform from half-length 2 up to `len`.
pub open spec fn intt_upto(g: Seq<u16>, len: nat) -> Seq<u16>
    decreases len,
{
    if len < 2 {
        g
    } else {
        intt_layer_spec(intt_upto(g, len / 2), len)
    }
}

/// Running the inverse layers from `len` up, after those below `len`, runs them all.
proof fn lemma_intt_from_upto(g: Seq<u16>, len: nat)
    requires
        layer_len(len) || len == 256,
    ensures
        intt_from(intt_upto(g, len / 2), len) == intt_upto(g, 128),
    decreases 256 - len,
{
    if len < 256 {
        assert((2 * len) / 2 == len);
        lemma_intt_from_upto(g, 2 * len);
    }
}

/// The inverse layers up to `len` undo the forward layers from `len` down,
/// up to a factor `len`.
proof fn lemma_upto_after_ntt(f: Seq<u16>, len: nat)
    requires
        is_poly(f),
        layer_len(len) || len == 1,
    ensures
        intt_upto(ntt_from(f, len), len) == poly_scale(f, len as int),
    decreases len,
{
    if len == 1 {
        assert forall|i: int| 0 <= i < 256 implies #[trigger] poly_scale(f, 1)[i] == f[i] by {
            vstd::arithmetic::div_mod::lemma_small_mod(f[i] as nat, 3329);
        }
        assert(poly_scale(f, 1) =~= f);
    } else {
        let g = ntt_layer_spec(f, len);
        assert(is_poly(g));
        lemma_upto_after_ntt(g, len / 2);
        lemma_layer_scale(ntt_layer_spec(f, len), len, (len / 2) as int);
        lemma_layer_inverse(f, len);
        lemma_scale_scale(f, 2, (len / 2) as int);
        assert(2 * (len / 2) == len);
    }
}

/// `NTT^-1` undoes `NTT`: the inverse transform of the transform of a
/// polynomial is the polynomial.
pub proof fn lemma_intt_ntt(f: Seq<u16>)
    requires
        is_poly(f),
    ensures
        intt_spec(ntt_spec(f)) == f,
{
    let g = ntt_spec(f);
    lemma_intt_from_upto(g, 2);
    lemma_upto_after_ntt(f, 128);
    assert forall|i: int| 0 <= i < 256 implies #[trigger] intt_spec(g)[i] == f[i] by {
        lemma_fq_mul(128 * f[i], 3303);
        assert((128 * f[i]) * 3303 == f[i] + 3329 * (127 * f[i])) by (nonlinear_arith);
        vstd::arithmetic::div_mod::lemma_mod_multiples_vanish(127 * f[i], f[i] as int, 3329);
        vstd::arithmetic::div_mod::lemma_small_mod(f[i] as nat, 3329);
    }
    assert(intt_spec(g) =~= f);
}

} // verus!

verus! {

/// A forward butterfly undoes an inverse butterfly, up to a factor 2.
proof fn lemma_butterfly_forward_inverse(a: u16, b: u16, z: u16, zi: u16)
    requires
        mul_q(z, zi) == 3328,
    ensures
        add_q(add_q(a, b), mul_q(z, mul_q(zi, sub_q(b, a)))) == fq(2 * a),
        sub_q(add_q(a, b), mul_q(z, mul_q(zi, sub_q(b, a)))) == fq(2 * b),
{
    let v = mul_q(zi, sub_q(b, a));
    lemma_mul_q_assoc(z, zi, sub_q(b, a));
    let w = mul_q(z, v);
    assert(w == mul_q(3328, sub_q(b, a)));
    lemma_fq_mul(3328, b - a);
    assert(3328 * (b - a) == (a - b) + 3329 * (b - a)) by (nonlinear_arith);
    vstd::arithmetic::div_mod::lemma_mod_multiples_vanish(b - a, a - b, 3329);
    assert(w == fq(a - b));
    lemma_fq_add(a + b, a - b);
    lemma_fq_sub(a + b, a - b);
}

/// The forward layer undoes the inverse layer of the same half-length, up to a factor 2.
proof fn lemma_layer_inverse_forward(g: Seq<u16>, len: nat)
    requires
        g.len() == 256,
        layer_len(len),
    ensures
        ntt_layer_spec(intt_layer_spec(g, len), len) == poly_scale(g, 2),
{
    let u = intt_layer_spec(g, len);
    let h = ntt_layer_spec(u, len);
    assert forall|i: int| 0 <= i < 256 implies #[trigger] h[i] == poly_scale(g, 2)[i] by {
        lemma_layer_index(i, len);
        lemma_layer_partner(i, len);
        let blk = i / (2 * len as int);
        lemma_twiddle_pair(len, blk);
        let z = zeta((128int / (len as int) + blk) as nat);
        let zi = zeta((256int / (len as int) - 1 - blk) as nat);
        if i % (2 * len as int) < len {
            lemma_butterfly_forward_inverse(g[i], g[i + len], z, zi);
        } else {
            lemma_butterfly_forward_inverse(g[i - len], g[i], z, zi);
        }
    }
    assert(h =~= poly_scale(g, 2));
}

/// A sum butterfly output commutes with scaling.
proof fn lemma_butterfly_scale_add(a: u16, b: u16, z: u16, c: int)
    ensures
        add_q(fq(c * a), mul_q(z, fq(c * b))) == fq(c * add_q(a, mul_q(z, b))),
{
    let ca = c * a;
    let cb = c * b;
    let zb = z * b;
    assert(mul_q(z, fq(cb)) == fq(z * cb)) by {
        lemma_fq_mul(z as int, cb);
    }
    assert(add_q(fq(ca), fq(z * cb)) == fq(ca + z * cb)) by {
        lemma_fq_add(ca, z * cb);
    }
    assert(ca + z * cb == c * (a + zb)) by (nonlinear_arith)
        requires
            ca == c * a,
            cb == c * b,
            zb == z * b,
    ;
    assert(add_q(a, mul_q(z, b)) == fq(zb + a)) by {
        lemma_fq_add(zb, a as int);
    }
    assert(fq(c * fq(zb + a)) == fq(c * (zb + a))) by {
        lemma_fq_mul(c, zb + a);
    }
}

/// A difference butterfly output commutes with scaling.
proof fn lemma_butterfly_scale_sub(a: u16, b: u16, z: u16, c: int)
    ensures
        sub_q(fq(c * a), mul_q(z, fq(c * b))) == fq(c * sub_q(a, mul_q(z, b))),
{
    let ca = c * a;
    let cb = c * b;
    let zb = z * b;
    assert(mul_q(z, fq(cb)) == fq(z * cb)) by {
        lemma_fq_mul(z as int, cb);
    }
    assert(sub_q(fq(ca), fq(z * cb)) == fq(ca - z * cb)) by {
        lemma_fq_sub(ca, z * cb);
    }
    assert(ca - z * cb == c * (a - zb)) by (nonlinear_arith)
        requires
            ca == c * a,
            cb == c * b,
            zb == z * b,
    ;
    assert(sub_q(a, mul_q(z, b)) == fq(a - zb)) by {
        vstd::arithmetic::div_mod::lemma_sub_mod_noop_right(a as int, zb, 3329);
    }
    assert(fq(c * fq(a - zb)) == fq(c * (a - zb))) by {
        lemma_fq_mul(c, a - zb);
    }
}

/// The forward layer commutes with scaling.
proof fn lemma_forward_layer_scale(g: Seq<u16>, len: nat, c: int)
    requires
        g.len() == 256,
        layer_len(len),
    ensures
        ntt_layer_spec(poly_scale(g, c), len) == poly_scale(ntt_layer_spec(g, len), c),
{
    let s = poly_scale(g, c);
    let lhs = ntt_layer_spec(s, len);
    let rhs = poly_scale(ntt_layer_spec(g, len), c);
    assert forall|i: int| 0 <= i < 256 implies #[trigger] lhs[i] == rhs[i] by {
        lemma_layer_index(i, len);
        let blk = i / (2 * len as int);
        let z = zeta((128int / (len as int) + blk) as nat);
        if i % (2 * len as int) < len {
            lemma_butterfly_scale_add(g[i], g[i + len], z, c);
        } else {
            lemma_butterfly_scale_sub(g[i - len], g[i], z, c);
        }
    }
    assert(lhs =~= rhs);
}

/// The forward layers from `len` down commute with scaling.
proof fn lemma_ntt_from_scale(g: Seq<u16>, len: nat, c: int)
    requires
        g.len() == 256,
        layer_len(len) || len == 1,
    ensures
        ntt_from(poly_scale(g, c), len) == poly_scale(ntt_from(g, len), c),
    decreases len,
{
    if len >= 2 {
        lemma_forward_layer_scale(g, len, c);
        lemma_ntt_from_scale(ntt_layer_spec(g, len), len / 2, c);
    }
}

/// The forward layers from `len` down undo the inverse layers up to `len`,
/// up to a factor `len`.
proof fn lemma_ntt_after_upto(g: Seq<u16>, len: nat)
    requires
        is_poly(g),
        layer_len(len) || len == 1,
    ensures
        ntt_from(intt_upto(g, len), len) == poly_scale(g, len as int),
    decreases len,
{
    if len == 1 {
        assert forall|i: int| 0 <= i < 256 implies #[trigger] poly_scale(g, 1)[i] == g[i] by {
            vstd::arithmetic::div_mod::lemma_small_mod(g[i] as nat, 3329);
        }
        assert(poly_scale(g, 1) =~= g);
    } else {
        let y = intt_upto(g, len / 2);
        lemma_ntt_after_upto(g, len / 2);
        assert(y.len() == 256) by {
            if len / 2 >= 2 {
            }
        }
        lemma_layer_inverse_forward(y, len);
        lemma_ntt_from_scale(y, len / 2, 2);
        lemma_scale_scale(g, (len / 2) as int, 2);
        assert((len / 2) * 2 == len);
    }
}

/// `NTT` undoes `NTT^-1`: the transform of the inverse transform of a
/// polynomial is the polynomial.
pub proof fn lemma_ntt_intt(g: Seq<u16>)
    requires
        is_poly(g),
    ensures
        ntt_spec(intt_spec(g)) == g,
{
    let x = intt_from(g, 2);
    lemma_intt_from_upto(g, 2);
    assert(intt_upto(g, 1) == g);
    assert(x == intt_upto(g, 128));
    assert(intt_spec(g) =~= poly_scale(x, 3303));
    lemma_ntt_after_upto(g, 128);
    lemma_ntt_from_scale(x, 128, 3303);
    lemma_scale_scale(g, 128, 3303);
    assert forall|i: int| 0 <= i < 256 implies #[trigger] poly_scale(g, 128int * 3303)[i] == g[i] by {
        assert(128 * 3303 * g[i] == g[i] + 3329 * (127 * g[i])) by (nonlinear_arith);
        vstd::arithmetic::div_mod::lemma_mod_multiples_vanish(127 * g[i], g[i] as int, 3329);
        vstd::arithmetic::div_mod::lemma_small_mod(g[i] as nat, 3329);
    }
    assert(poly_scale(g, 128int * 3303) =~= g);
}

/// The forward layers from `len` down give a polynomial.
proof fn lemma_ntt_from_is_poly(f: Seq<u16>, len: nat)
    requires
        f.len() == 256,
        layer_len(len),
    ensures
        is_poly(ntt_from(f, len)),
    decreases len,
{
    let g = ntt_layer_spec(f, len);
    assert(is_poly(g));
    if len > 2 {
        assert(layer_len(len / 2));
        lemma_ntt_from_is_poly(g, len / 2);
    } else {
        assert(ntt_from(g, len / 2) == g);
    }
}

/// `NTT(f)` of any 256 coefficients is a polynomial (every coefficient below `q`).
pub proof fn lemma_ntt_is_poly(f: Seq<u16>)
    requires
        f.len() == 256,
    ensures
        is_poly(ntt_spec(f)),
{
    lemma_ntt_from_is_poly(f, 128);
}

} // verus!
