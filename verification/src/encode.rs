//! Compression and byte encoding of polynomials: `Compress_d`,
//! `Decompress_d`, `ByteEncode_d` and `ByteDecode_d`.

use vstd::prelude::*;
use crate::poly::{is_poly, p2};

verus! {

/// The `n` low bits of `a`, least significant first.
pub open spec fn bits_of(a: int, n: nat) -> Seq<u8>
    decreases n,
{
    if n == 0 {
        Seq::empty()
    } else {
        seq![(a % 2) as u8] + bits_of(a / 2, (n - 1) as nat)
    }
}

/// The value of a little-endian bit string.
pub open spec fn bits_val(b: Seq<u8>) -> int
    decreases b.len(),
{
    if b.len() == 0 {
        0
    } else {
        b[0] + 2 * bits_val(b.drop_first())
    }
}

/// Every entry is a bit.
pub open spec fn is_bits(b: Seq<u8>) -> bool {
    forall|i: int| 0 <= i < b.len() ==> #[trigger] b[i] <= 1
}

/// The `d` low bits of each coefficient, one coefficient after another.
pub open spec fn poly_bits(f: Seq<u16>, d: nat) -> Seq<u8>
    decreases f.len(),
{
    if f.len() == 0 {
        Seq::empty()
    } else {
        bits_of(f[0] as int, d) + poly_bits(f.drop_first(), d)
    }
}

/// `BitsToBytes`: each group of 8 bits, least
/// significant first, becomes a byte.
pub open spec fn bits_to_bytes(b: Seq<u8>) -> Seq<u8>
    decreases b.len(),
{
    if b.len() < 8 {
        Seq::empty()
    } else {
        seq![bits_val(b.take(8)) as u8] + bits_to_bytes(b.skip(8))
    }
}

/// `BytesToBits`.
pub open spec fn bytes_to_bits(bytes: Seq<u8>) -> Seq<u8>
    decreases bytes.len(),
{
    if bytes.len() == 0 {
        Seq::empty()
    } else {
        bits_of(bytes[0] as int, 8) + bytes_to_bits(bytes.drop_first())
    }
}

/// The modulus of `ByteDecode_d`: `2^d`, or `q` when `d = 12`.
pub open spec fn decode_modulus(d: nat) -> int {
    if d == 12 {
        3329
    } else {
        p2(d) as int
    }
}

/// Each group of `d` bits becomes a coefficient, reduced by `decode_modulus(d)`.
pub open spec fn bits_to_coeffs(b: Seq<u8>, d: nat) -> Seq<u16>
    decreases b.len(),
{
    if d == 0 || b.len() < d {
        Seq::empty()
    } else {
        seq![(bits_val(b.take(d as int)) % decode_modulus(d)) as u16] + bits_to_coeffs(
            b.skip(d as int),
            d,
        )
    }
}

/// `ByteEncode_d(f)`.
pub open spec fn byte_encode_spec(f: Seq<u16>, d: nat) -> Seq<u8> {
    bits_to_bytes(poly_bits(f, d))
}

/// `ByteDecode_d(bytes)`.
pub open spec fn byte_decode_spec(bytes: Seq<u8>, d: nat) -> Seq<u16> {
    bits_to_coeffs(bytes_to_bits(bytes), d)
}

/// `Compress_d(x)`: `x * 2^d / q` rounded to the nearest integer, modulo `2^d`.
pub open spec fn compress_spec(x: u16, d: nat) -> u16 {
    (((x * p2(d) + 1664) / 3329) % (p2(d) as int)) as u16
}

/// `Decompress_d(y)`: `y * q / 2^d` rounded to the nearest integer (halves up).
pub open spec fn decompress_spec(y: u16, d: nat) -> u16 {
    ((y * 3329 + p2(d) / 2) / (p2(d) as int)) as u16
}

/// `Compress_d` on each coefficient.
pub open spec fn compress_poly_spec(f: Seq<u16>, d: nat) -> Seq<u16> {
    Seq::new(256, |i: int| compress_spec(f[i], d))
}

/// `Decompress_d` on each coefficient.
pub open spec fn decompress_poly_spec(f: Seq<u16>, d: nat) -> Seq<u16> {
    Seq::new(256, |i: int| decompress_spec(f[i], d))
}

/// The degrees of encoding that ML-KEM uses.
pub open spec fn encode_degree(d: nat) -> bool {
    1 <= d <= 12
}

/// Every coefficient is below `2^d` (or below `q` when `d = 12`).
pub open spec fn fits(f: Seq<u16>, d: nat) -> bool {
    forall|i: int| 0 <= i < f.len() ==> #[trigger] f[i] < decode_modulus(d)
}

/// `2^n` grows with `n`, and its small values.
pub proof fn lemma_p2_facts(n: nat)
    ensures
        p2(n) >= 1,
        n <= 12 ==> p2(n) <= 4096,
        n <= 11 ==> p2(n) <= 2048,
        p2(n + 1) == 2 * p2(n),
        p2(1) == 2,
        p2(8) == 256,
        p2(12) == 4096,
        p2(11) == 2048,
    decreases n,
{
    reveal_with_fuel(p2, 13);
    if n > 0 {
        lemma_p2_facts((n - 1) as nat);
    }
}

/// `2^d` for `d <= 12`.
pub fn p2_exec(d: usize) -> (r: u32)
    requires
        d <= 12,
    ensures
        r == p2(d as nat),
        r <= 4096,
        r >= 1,
{
    let mut r: u32 = 1;
    let mut i: usize = 0;
    while i < d
        invariant
            i <= d <= 12,
            r == p2(i as nat),
        decreases d - i,
    {
        proof {
            lemma_p2_facts(i as nat);
        }
        r = 2 * r;
        i = i + 1;
    }
    proof {
        lemma_p2_facts(d as nat);
    }
    r
}


/// `Compress_d(x)`.
pub fn compress(x: u16, d: usize) -> (r: u16)
    requires
        x < 3329,
        1 <= d <= 11,
    ensures
        r == compress_spec(x, d as nat),
        r < p2(d as nat),
{
    let pw = p2_exec(d);
    assert((x as u32) * pw <= 3328 * 4096) by (nonlinear_arith)
        requires
            x < 3329,
            pw <= 4096,
    ;
    let v = ((x as u32) * pw + 1664) / 3329 % pw;
    v as u16
}

/// `Decompress_d(y)`.
pub fn decompress(y: u16, d: usize) -> (r: u16)
    requires
        (y as int) < p2(d as nat),
        1 <= d <= 12,
    ensures
        r == decompress_spec(y, d as nat),
        r < 3329,
{
    let pw = p2_exec(d);
    assert((y as u32) * 3329 + pw / 2 < pw * 3329) by (nonlinear_arith)
        requires
            y < pw,
            pw <= 4096,
    ;
    let num = (y as u32) * 3329 + pw / 2;
    assert(num / pw < 3329) by (nonlinear_arith)
        requires
            num < pw * 3329,
            pw >= 1,
    ;
    (num / pw) as u16
}

/// `Compress_d` on each coefficient of a polynomial.
pub fn compress_poly(f: &Vec<u16>, d: usize) -> (g: Vec<u16>)
    requires
        is_poly(f@),
        1 <= d <= 11,
    ensures
        g@ == compress_poly_spec(f@, d as nat),
        g@.len() == 256,
        fits(g@, d as nat),
{
    let mut g: Vec<u16> = Vec::new();
    let mut i: usize = 0;
    while i < 256
        invariant
            i <= 256,
            is_poly(f@),
            1 <= d <= 11,
            g@.len() == i,
            forall|j: int|
                0 <= j < i ==> #[trigger] g@[j] == compress_spec(f@[j], d as nat) && g@[j] < p2(
                    d as nat,
                ),
        decreases 256 - i,
    {
        g.push(compress(f[i], d));
        i = i + 1;
    }
    assert(g@ =~= compress_poly_spec(f@, d as nat));
    g
}

/// `Decompress_d` on each coefficient of a polynomial.
pub fn decompress_poly(f: &Vec<u16>, d: usize) -> (g: Vec<u16>)
    requires
        f@.len() == 256,
        fits(f@, d as nat),
        1 <= d <= 11,
    ensures
        g@ == decompress_poly_spec(f@, d as nat),
        is_poly(g@),
{
    let mut g: Vec<u16> = Vec::new();
    let mut i: usize = 0;
    while i < 256
        invariant
            i <= 256,
            f@.len() == 256,
            fits(f@, d as nat),
            1 <= d <= 11,
            g@.len() == i,
            forall|j: int|
                0 <= j < i ==> #[trigger] g@[j] == decompress_spec(f@[j], d as nat) && g@[j] < 3329,
        decreases 256 - i,
    {
        g.push(decompress(f[i], d));
        i = i + 1;
    }
    assert(g@ =~= decompress_poly_spec(f@, d as nat));
    g
}


/// `bits_of(a, n)` has `n` entries, each a bit.
pub proof fn lemma_bits_of(a: int, n: nat)
    ensures
        bits_of(a, n).len() == n,
        is_bits(bits_of(a, n)),
    decreases n,
{
    if n > 0 {
        lemma_bits_of(a / 2, (n - 1) as nat);
    }
}

/// `poly_bits` of a suffix: the bits of its first coefficient, then the rest.
proof fn lemma_poly_bits_step(f: Seq<u16>, i: int, d: nat)
    requires
        0 <= i < f.len(),
    ensures
        poly_bits(f.skip(i), d) == bits_of(f[i] as int, d) + poly_bits(f.skip(i + 1), d),
{
    assert(f.skip(i).drop_first() =~= f.skip(i + 1));
}

/// The value of the `n` bits of `b` that start at `start`, most significant last.
fn bits_value(b: &Vec<u8>, start: usize, n: usize) -> (v: u32)
    requires
        start + n <= b@.len(),
        n <= 12,
        is_bits(b@),
    ensures
        v == bits_val(b@.subrange(start as int, start + n)),
        v < p2(n as nat),
{
    let blen = b.len();
    let mut v: u32 = 0;
    let mut j: usize = n;
    proof {
        assert(b@.subrange(start + n, start + n) =~= Seq::<u8>::empty());
    }
    while j > 0
        invariant
            j <= n <= 12,
            start + n <= b@.len(),
            blen == b@.len(),
            is_bits(b@),
            v == bits_val(b@.subrange(start + j, start + n)),
            v < p2((n - j) as nat),
        decreases j,
    {
        proof {
            lemma_p2_facts((n - j) as nat);
            let s = b@.subrange(start + j - 1, start + n);
            assert(s.drop_first() =~= b@.subrange(start + j, start + n));
            assert(s[0] == b@[start + j - 1]);
            assert(b@[start + j - 1] <= 1);
        }
        v = 2 * v + b[start + j - 1] as u32;
        j = j - 1;
    }
    v
}

/// The `d` low bits of each coefficient of `f`, one coefficient after another.
fn poly_to_bits(f: &Vec<u16>, d: usize) -> (b: Vec<u8>)
    requires
        f@.len() == 256,
        1 <= d <= 12,
    ensures
        b@ == poly_bits(f@, d as nat),
        is_bits(b@),
        b@.len() == 256 * d,
{
    let mut b: Vec<u8> = Vec::new();
    let mut i: usize = 0;
    proof {
        assert(f@.skip(0) =~= f@);
        assert(b@ + poly_bits(f@, d as nat) =~= poly_bits(f@, d as nat));
    }
    while i < 256
        invariant
            i <= 256,
            f@.len() == 256,
            1 <= d <= 12,
            b@ + poly_bits(f@.skip(i as int), d as nat) == poly_bits(f@, d as nat),
            is_bits(b@),
            b@.len() == i * d,
        decreases 256 - i,
    {
        proof {
            lemma_poly_bits_step(f@, i as int, d as nat);
        }
        let mut a: u16 = f[i];
        let mut j: usize = 0;
        let ghost rest = poly_bits(f@.skip(i + 1), d as nat);
        assert(b@ + bits_of(a as int, d as nat) + rest == poly_bits(f@, d as nat));
        while j < d
            invariant
                j <= d <= 12,
                b@ + bits_of(a as int, (d - j) as nat) + rest == poly_bits(f@, d as nat),
                is_bits(b@),
                b@.len() == i * d + j,
            decreases d - j,
        {
            let ghost old_b = b@;
            let bit = (a % 2) as u8;
            b.push(bit);
            proof {
                let tail = bits_of(a as int / 2, (d - j - 1) as nat);
                assert(bits_of(a as int, (d - j) as nat) == seq![bit] + tail);
                assert(b@ + tail + rest =~= old_b + (seq![bit] + tail) + rest);
                assert forall|t: int| 0 <= t < b@.len() implies #[trigger] b@[t] <= 1 by {
                    if t < old_b.len() {
                        assert(b@[t] == old_b[t]);
                    }
                }
            }
            a = a / 2;
            j = j + 1;
        }
        proof {
            assert(bits_of(a as int, 0) =~= Seq::<u8>::empty());
            assert(b@ + Seq::<u8>::empty() =~= b@);
            assert(i * d + d == (i + 1) * d) by (nonlinear_arith);
        }
        i = i + 1;
    }
    proof {
        assert(f@.skip(256) =~= Seq::<u16>::empty());
        assert(b@ + Seq::<u8>::empty() =~= b@);
    }
    b
}

/// `BitsToBytes`: packs each group of 8 bits into a byte.
fn pack_bits(b: &Vec<u8>) -> (out: Vec<u8>)
    requires
        is_bits(b@),
        b@.len() % 8 == 0,
    ensures
        out@ == bits_to_bytes(b@),
        out@.len() == b@.len() / 8,
{
    let n = b.len();
    let mut out: Vec<u8> = Vec::new();
    let mut pos: usize = 0;
    proof {
        assert(b@.skip(0) =~= b@);
        assert(out@ + bits_to_bytes(b@) =~= bits_to_bytes(b@));
    }
    while pos < n
        invariant
            n == b@.len(),
            n % 8 == 0,
            pos <= n,
            pos % 8 == 0,
            is_bits(b@),
            out@.len() == pos / 8,
            out@ + bits_to_bytes(b@.skip(pos as int)) == bits_to_bytes(b@),
        decreases n - pos,
    {
        let v = bits_value(b, pos, 8);
        proof {
            lemma_p2_facts(8);
            let s = b@.skip(pos as int);
            assert(s.take(8) =~= b@.subrange(pos as int, pos + 8));
            assert(s.skip(8) =~= b@.skip(pos + 8));
            assert(bits_to_bytes(s) == seq![v as u8] + bits_to_bytes(b@.skip(pos + 8)));
            assert(out@.push(v as u8) + bits_to_bytes(b@.skip(pos + 8)) =~= out@ + bits_to_bytes(s));
        }
        out.push(v as u8);
        pos = pos + 8;
    }
    proof {
        assert(b@.skip(n as int) =~= Seq::<u8>::empty());
        assert(out@ + Seq::<u8>::empty() =~= out@);
    }
    out
}

/// `BytesToBits`: the 8 bits of each byte, least significant first.
pub fn unpack_bytes(bytes: &[u8]) -> (b: Vec<u8>)
    ensures
        b@ == bytes_to_bits(bytes@),
        is_bits(b@),
        b@.len() == 8 * bytes@.len(),
{
    let n = bytes.len();
    let mut b: Vec<u8> = Vec::new();
    let mut i: usize = 0;
    proof {
        assert(bytes@.skip(0) =~= bytes@);
        assert(b@ + bytes_to_bits(bytes@) =~= bytes_to_bits(bytes@));
    }
    while i < n
        invariant
            n == bytes@.len(),
            i <= n,
            b@ + bytes_to_bits(bytes@.skip(i as int)) == bytes_to_bits(bytes@),
            is_bits(b@),
            b@.len() == 8 * i,
        decreases n - i,
    {
        let mut a: u8 = bytes[i];
        let ghost rest = bytes_to_bits(bytes@.skip(i + 1));
        proof {
            assert(bytes@.skip(i as int).drop_first() =~= bytes@.skip(i + 1));
        }
        let mut j: usize = 0;
        while j < 8
            invariant
                j <= 8,
                b@ + bits_of(a as int, (8 - j) as nat) + rest == bytes_to_bits(bytes@),
                is_bits(b@),
                b@.len() == 8 * i + j,
            decreases 8 - j,
        {
            let ghost old_b = b@;
            let bit = a % 2;
            b.push(bit);
            proof {
                let tail = bits_of(a as int / 2, (8 - j - 1) as nat);
                assert(bits_of(a as int, (8 - j) as nat) == seq![bit] + tail);
                assert(b@ + tail + rest =~= old_b + (seq![bit] + tail) + rest);
                assert forall|t: int| 0 <= t < b@.len() implies #[trigger] b@[t] <= 1 by {
                    if t < old_b.len() {
                        assert(b@[t] == old_b[t]);
                    }
                }
            }
            a = a / 2;
            j = j + 1;
        }
        proof {
            assert(bits_of(a as int, 0) =~= Seq::<u8>::empty());
            assert(b@ + Seq::<u8>::empty() =~= b@);
        }
        i = i + 1;
    }
    proof {
        assert(bytes@.skip(n as int) =~= Seq::<u8>::empty());
        assert(b@ + Seq::<u8>::empty() =~= b@);
    }
    b
}

/// Reads each group of `d` bits as a coefficient, reduced by `decode_modulus(d)`.
fn bits_to_poly(b: &Vec<u8>, d: usize) -> (f: Vec<u16>)
    requires
        is_bits(b@),
        1 <= d <= 12,
        b@.len() == 256 * d,
    ensures
        f@ == bits_to_coeffs(b@, d as nat),
        f@.len() == 256,
        fits(f@, d as nat),
{
    let n = b.len();
    let m: u32 = if d == 12 {
        3329
    } else {
        p2_exec(d)
    };
    let mut f: Vec<u16> = Vec::new();
    let mut pos: usize = 0;
    proof {
        assert(b@.skip(0) =~= b@);
        assert(f@ + bits_to_coeffs(b@, d as nat) =~= bits_to_coeffs(b@, d as nat));
    }
    while pos < n
        invariant
            n == b@.len() == 256 * d,
            1 <= d <= 12,
            m == decode_modulus(d as nat),
            is_bits(b@),
            pos <= n,
            pos == f@.len() * d,
            fits(f@, d as nat),
            f@ + bits_to_coeffs(b@.skip(pos as int), d as nat) == bits_to_coeffs(b@, d as nat),
        decreases n - pos,
    {
        proof {
            lemma_p2_facts(d as nat);
            if f@.len() >= 256 {
                assert(f@.len() * d >= 256 * d) by (nonlinear_arith)
                    requires
                        f@.len() >= 256,
                        d >= 1,
                ;
            }
            assert(f@.len() < 256);
            assert(f@.len() * d + d <= 256 * d) by (nonlinear_arith)
                requires
                    f@.len() < 256,
                    d >= 1,
            ;
        }
        let v = bits_value(b, pos, d);
        let c = (v % m) as u16;
        proof {
            let s = b@.skip(pos as int);
            assert(s.take(d as int) =~= b@.subrange(pos as int, pos + d));
            assert(s.skip(d as int) =~= b@.skip(pos + d));
            assert(bits_to_coeffs(s, d as nat) == seq![c] + bits_to_coeffs(b@.skip(pos + d), d as nat));
            assert(f@.push(c) + bits_to_coeffs(b@.skip(pos + d), d as nat) =~= f@ + bits_to_coeffs(s, d as nat));
            assert(f@.len() * d + d == (f@.len() + 1) * d) by (nonlinear_arith);
        }
        f.push(c);
        pos = pos + d;
    }
    proof {
        assert(b@.skip(n as int) =~= Seq::<u8>::empty());
        assert(f@ + Seq::<u16>::empty() =~= f@);
        if f@.len() != 256 {
            if f@.len() < 256 {
                assert(f@.len() * d < 256 * d) by (nonlinear_arith)
                    requires
                        f@.len() < 256,
                        d >= 1,
                ;
            } else {
                assert(f@.len() * d > 256 * d) by (nonlinear_arith)
                    requires
                        f@.len() > 256,
                        d >= 1,
                ;
            }
        }
    }
    f
}

/// `ByteEncode_d(f)`.
pub fn byte_encode(f: &Vec<u16>, d: usize) -> (out: Vec<u8>)
    requires
        f@.len() == 256,
        1 <= d <= 12,
    ensures
        out@ == byte_encode_spec(f@, d as nat),
        out@.len() == 32 * d,
{
    let b = poly_to_bits(f, d);
    pack_bits(&b)
}

/// `ByteDecode_d(bytes)`.
pub fn byte_decode(bytes: &[u8], d: usize) -> (f: Vec<u16>)
    requires
        bytes@.len() == 32 * d,
        1 <= d <= 12,
    ensures
        f@ == byte_decode_spec(bytes@, d as nat),
        f@.len() == 256,
        fits(f@, d as nat),
{
    let b = unpack_bytes(bytes);
    bits_to_poly(&b, d)
}


/// The bits of `a` give back `a` reduced modulo `2^n`.
pub proof fn lemma_bits_val_of_bits(a: int, n: nat)
    requires
        a >= 0,
    ensures
        bits_val(bits_of(a, n)) == a % (p2(n) as int),
    decreases n,
{
    if n > 0 {
        lemma_bits_val_of_bits(a / 2, (n - 1) as nat);
        let t = bits_of(a / 2, (n - 1) as nat);
        assert((seq![(a % 2) as u8] + t).drop_first() =~= t);
        lemma_p2_facts((n - 1) as nat);
        vstd::arithmetic::div_mod::lemma_mod_breakdown(a, 2, p2((n - 1) as nat) as int);
    }
}

/// The value of a bit string is below `2^len`.
pub proof fn lemma_bits_val_bound(b: Seq<u8>)
    requires
        is_bits(b),
    ensures
        0 <= bits_val(b) < p2(b.len()),
    decreases b.len(),
{
    if b.len() > 0 {
        assert(is_bits(b.drop_first())) by {
            assert forall|i: int| 0 <= i < b.drop_first().len() implies #[trigger] b.drop_first()[i] <= 1 by {
                assert(b.drop_first()[i] == b[i + 1]);
            }
        }
        lemma_bits_val_bound(b.drop_first());
        assert(b[0] <= 1);
        lemma_p2_facts((b.len() - 1) as nat);
    }
}

/// Taking the bits of the value of a bit string gives the bit string back.
pub proof fn lemma_bits_of_bits_val(b: Seq<u8>)
    requires
        is_bits(b),
    ensures
        bits_of(bits_val(b), b.len()) == b,
    decreases b.len(),
{
    if b.len() > 0 {
        let rest = b.drop_first();
        assert(is_bits(rest)) by {
            assert forall|i: int| 0 <= i < rest.len() implies #[trigger] rest[i] <= 1 by {
                assert(rest[i] == b[i + 1]);
            }
        }
        lemma_bits_of_bits_val(rest);
        lemma_bits_val_bound(rest);
        assert(b[0] <= 1);
        let v = bits_val(b);
        assert(v % 2 == b[0] as int);
        assert(v / 2 == bits_val(rest));
        assert(bits_of(v, b.len()) =~= b);
    }
}

/// `BytesToBits` undoes `BitsToBytes` on whole bytes.
pub proof fn lemma_bytes_bits_round_trip(b: Seq<u8>)
    requires
        is_bits(b),
        b.len() % 8 == 0,
    ensures
        bytes_to_bits(bits_to_bytes(b)) == b,
    decreases b.len(),
{
    if b.len() >= 8 {
        let head = b.take(8);
        let rest = b.skip(8);
        assert(is_bits(head)) by {
            assert forall|i: int| 0 <= i < head.len() implies #[trigger] head[i] <= 1 by {
                assert(head[i] == b[i]);
            }
        }
        assert(is_bits(rest)) by {
            assert forall|i: int| 0 <= i < rest.len() implies #[trigger] rest[i] <= 1 by {
                assert(rest[i] == b[i + 8]);
            }
        }
        lemma_bytes_bits_round_trip(rest);
        lemma_bits_val_bound(head);
        lemma_p2_facts(8);
        lemma_bits_of_bits_val(head);
        let bytes = bits_to_bytes(b);
        let byte = bits_val(head) as u8;
        assert(bytes == seq![byte] + bits_to_bytes(rest));
        assert(bytes.drop_first() =~= bits_to_bytes(rest));
        assert(bytes[0] == byte);
        assert(bytes_to_bits(bytes) == bits_of(byte as int, 8) + bytes_to_bits(bits_to_bytes(rest)));
        assert(bytes_to_bits(bytes) =~= b);
    } else {
        assert(b.len() == 0);
        assert(b =~= Seq::<u8>::empty());
    }
}

/// `poly_bits` has `d` bits per coefficient, all of them bits.
pub proof fn lemma_poly_bits_len(f: Seq<u16>, d: nat)
    ensures
        poly_bits(f, d).len() == f.len() * d,
        is_bits(poly_bits(f, d)),
    decreases f.len(),
{
    if f.len() > 0 {
        lemma_poly_bits_len(f.drop_first(), d);
        lemma_bits_of(f[0] as int, d);
        assert(f.len() * d == d + (f.len() - 1) * d) by (nonlinear_arith)
            requires
                f.len() > 0,
        ;
        let a = bits_of(f[0] as int, d);
        let r = poly_bits(f.drop_first(), d);
        assert forall|i: int| 0 <= i < (a + r).len() implies #[trigger] (a + r)[i] <= 1 by {
            if i < a.len() {
                assert((a + r)[i] == a[i]);
            } else {
                assert((a + r)[i] == r[i - a.len()]);
            }
        }
    }
}

/// Reading the coefficients back from `poly_bits` gives the coefficients
/// that fit in `d` bits unchanged.
pub proof fn lemma_coeffs_of_poly_bits(f: Seq<u16>, d: nat)
    requires
        encode_degree(d),
        fits(f, d),
    ensures
        bits_to_coeffs(poly_bits(f, d), d) == f,
    decreases f.len(),
{
    lemma_poly_bits_len(f, d);
    if f.len() == 0 {
        assert(bits_to_coeffs(poly_bits(f, d), d) =~= f);
    } else {
        let rest = f.drop_first();
        assert(fits(rest, d)) by {
            assert forall|i: int| 0 <= i < rest.len() implies #[trigger] rest[i] < decode_modulus(d) by {
                assert(rest[i] == f[i + 1]);
            }
        }
        lemma_coeffs_of_poly_bits(rest, d);
        lemma_bits_of(f[0] as int, d);
        lemma_bits_val_of_bits(f[0] as int, d);
        lemma_p2_facts(d);
        let b = poly_bits(f, d);
        let a = bits_of(f[0] as int, d);
        assert(b.take(d as int) =~= a);
        assert(b.skip(d as int) =~= poly_bits(rest, d));
        assert(f[0] < decode_modulus(d));
        assert(decode_modulus(d) <= p2(d));
        vstd::arithmetic::div_mod::lemma_small_mod(f[0] as nat, p2(d));
        vstd::arithmetic::div_mod::lemma_small_mod(f[0] as nat, decode_modulus(d) as nat);
        assert(bits_val(a) == f[0] as int);
        assert(bits_to_coeffs(b, d) =~= f);
    }
}

/// `ByteDecode_d` undoes `ByteEncode_d` on every polynomial whose
/// coefficients fit in `d` bits (below `q` when `d = 12`).
pub proof fn lemma_byte_decode_encode(f: Seq<u16>, d: nat)
    requires
        encode_degree(d),
        f.len() == 256,
        fits(f, d),
    ensures
        byte_decode_spec(byte_encode_spec(f, d), d) == f,
{
    lemma_poly_bits_len(f, d);
    assert((256 * d) % 8 == 0) by (nonlinear_arith);
    lemma_bytes_bits_round_trip(poly_bits(f, d));
    lemma_coeffs_of_poly_bits(f, d);
}

} // verus!

verus! {

/// The distance between `a` and `b` in `Z_q`: `|a - b mod± q|`.
pub open spec fn dist_q(a: int, b: int) -> int {
    let t = (a - b) % 3329;
    if t <= 1664 {
        t
    } else {
        3329 - t
    }
}

/// `Decompress_d(Compress_d(x))` is within `q / 2^(d+1)`, rounded, of `x`
/// in `Z_q`: twice the distance times `2^d` is at most `q + 2^d`.
pub proof fn lemma_compress_error(x: u16, d: nat)
    requires
        x < 3329,
        1 <= d <= 11,
    ensures
        dist_q(decompress_spec(compress_spec(x, d), d) as int, x as int) * (2 * p2(d)) <= 3329 + p2(d),
{
    lemma_p2_facts(d);
    lemma_p2_facts((d - 1) as nat);
    let pw = p2(d) as int;
    assert(pw % 2 == 0 && pw >= 2 && pw <= 2048);
    let r = x * pw + 1664;
    let c0 = r / 3329;
    let rho = r % 3329;
    vstd::arithmetic::div_mod::lemma_fundamental_div_mod(r, 3329);
    assert(0 <= rho < 3329);
    assert(r == 3329 * c0 + rho);
    assert(r < 3329 * pw + 3329) by (nonlinear_arith)
        requires
            r == x * pw + 1664,
            x < 3329,
            pw >= 2,
    ;
    assert(0 <= c0 <= pw) by (nonlinear_arith)
        requires
            r == 3329 * c0 + rho,
            0 <= rho < 3329,
            0 <= r < 3329 * pw + 3329,
    ;
    if c0 < pw {
        vstd::arithmetic::div_mod::lemma_small_mod(c0 as nat, pw as nat);
        assert(compress_spec(x, d) as int == c0);
        let s = c0 * 3329 + pw / 2;
        let y = s / pw;
        let sigma = s % pw;
        vstd::arithmetic::div_mod::lemma_fundamental_div_mod(s, pw);
        assert(0 <= sigma < pw);
        assert(s == pw * y + sigma);
        assert(0 <= y < 3329) by (nonlinear_arith)
            requires
                s == pw * y + sigma,
                0 <= sigma < pw,
                s == c0 * 3329 + pw / 2,
                0 <= c0 < pw,
                pw / 2 < 3329,
                pw >= 2,
        ;
        assert(decompress_spec(compress_spec(x, d), d) as int == y);
        let dd = y - x;
        assert(dd * pw == pw / 2 - sigma - rho + 1664) by (nonlinear_arith)
            requires
                s == pw * y + sigma,
                s == c0 * 3329 + pw / 2,
                r == 3329 * c0 + rho,
                r == x * pw + 1664,
                dd == y - x,
        ;
        assert(-1664 <= dd <= 1664) by (nonlinear_arith)
            requires
                dd * pw == pw / 2 - sigma - rho + 1664,
                0 <= sigma < pw,
                0 <= rho < 3329,
                pw >= 2,
                pw % 2 == 0,
        ;
        if dd >= 0 {
            vstd::arithmetic::div_mod::lemma_small_mod(dd as nat, 3329);
            assert(dist_q(y, x as int) == dd);
            assert(dd * (2 * pw) <= 3329 + pw) by (nonlinear_arith)
                requires
                    dd * pw == pw / 2 - sigma - rho + 1664,
                    0 <= sigma,
                    0 <= rho,
                    pw % 2 == 0,
            ;
        } else {
            vstd::arithmetic::div_mod::lemma_mod_add_multiples_vanish(dd, 3329);
            vstd::arithmetic::div_mod::lemma_small_mod((dd + 3329) as nat, 3329);
            assert(dist_q(y, x as int) == -dd);
            assert((-dd) * (2 * pw) <= 3329 + pw) by (nonlinear_arith)
                requires
                    dd * pw == pw / 2 - sigma - rho + 1664,
                    sigma < pw,
                    rho < 3329,
                    pw % 2 == 0,
            ;
        }
    } else {
        assert(c0 == pw);
        vstd::arithmetic::div_mod::lemma_mod_self_0(pw);
        assert(compress_spec(x, d) == 0);
        assert(decompress_spec(0, d) == 0) by {
            assert((0 * 3329 + pw / 2) / pw == 0) by (nonlinear_arith)
                requires
                    pw >= 2,
            ;
        }
        assert((3329 - x) * pw <= 1664) by (nonlinear_arith)
            requires
                r == 3329 * c0 + rho,
                r == x * pw + 1664,
                c0 == pw,
                rho >= 0,
        ;
        assert(x >= 1 && 3329 - x <= 832) by (nonlinear_arith)
            requires
                (3329 - x) * pw <= 1664,
                pw >= 2,
        ;
        vstd::arithmetic::div_mod::lemma_mod_add_multiples_vanish(-(x as int), 3329);
        vstd::arithmetic::div_mod::lemma_small_mod((3329 - x) as nat, 3329);
        assert(dist_q(0, x as int) == 3329 - x);
        assert((3329 - x) * (2 * pw) == 2 * ((3329 - x) * pw)) by (nonlinear_arith);
    }
}

} // verus!

verus! {

/// `BitsToBytes` undoes `BytesToBits`.
pub proof fn lemma_bits_bytes_round_trip(bytes: Seq<u8>)
    ensures
        bits_to_bytes(bytes_to_bits(bytes)) == bytes,
    decreases bytes.len(),
{
    if bytes.len() == 0 {
        assert(bits_to_bytes(bytes_to_bits(bytes)) =~= bytes);
    } else {
        let rest = bytes.drop_first();
        lemma_bits_bytes_round_trip(rest);
        let head = bits_of(bytes[0] as int, 8);
        lemma_bits_of(bytes[0] as int, 8);
        lemma_bits_val_of_bits(bytes[0] as int, 8);
        lemma_p2_facts(8);
        vstd::arithmetic::div_mod::lemma_small_mod(bytes[0] as nat, 256);
        let b = bytes_to_bits(bytes);
        assert(b == head + bytes_to_bits(rest));
        assert(b.take(8) =~= head);
        assert(b.skip(8) =~= bytes_to_bits(rest));
        assert(bits_to_bytes(b) =~= bytes);
    }
}

/// Writing back the coefficients read from a bit string gives the bit
/// string, when no reduction happens (`d < 12`).
pub proof fn lemma_poly_bits_of_coeffs(b: Seq<u8>, d: nat)
    requires
        1 <= d <= 11,
        is_bits(b),
        b.len() % d == 0,
    ensures
        poly_bits(bits_to_coeffs(b, d), d) == b,
    decreases b.len(),
{
    if b.len() == 0 {
        assert(poly_bits(bits_to_coeffs(b, d), d) =~= b);
    } else {
        assert(b.len() >= d) by {
            if b.len() < d {
                vstd::arithmetic::div_mod::lemma_small_mod(b.len(), d);
            }
        }
        let head = b.take(d as int);
        let rest = b.skip(d as int);
        assert(is_bits(head)) by {
            assert forall|i: int| 0 <= i < head.len() implies #[trigger] head[i] <= 1 by {
                assert(head[i] == b[i]);
            }
        }
        assert(is_bits(rest)) by {
            assert forall|i: int| 0 <= i < rest.len() implies #[trigger] rest[i] <= 1 by {
                assert(rest[i] == b[i + d]);
            }
        }
        vstd::arithmetic::div_mod::lemma_mod_sub_multiples_vanish(b.len() as int, d as int);
        lemma_poly_bits_of_coeffs(rest, d);
        lemma_bits_val_bound(head);
        lemma_p2_facts(d);
        let v = bits_val(head);
        vstd::arithmetic::div_mod::lemma_small_mod(v as nat, p2(d));
        lemma_bits_of_bits_val(head);
        let c = bits_to_coeffs(b, d);
        let cv = (v % decode_modulus(d)) as u16;
        assert(c == seq![cv] + bits_to_coeffs(rest, d));
        assert(c.drop_first() =~= bits_to_coeffs(rest, d));
        assert(c[0] == cv);
        assert(cv as int == v);
        assert(poly_bits(c, d) == bits_of(v, d) + poly_bits(bits_to_coeffs(rest, d), d));
        assert(poly_bits(c, d) =~= b);
    }
}

/// `ByteEncode_d` undoes `ByteDecode_d` for `d < 12`: every string of
/// `32 * d` bytes is the encoding of the polynomial it decodes to.
pub proof fn lemma_byte_encode_decode(bytes: Seq<u8>, d: nat)
    requires
        1 <= d <= 11,
        bytes.len() == 32 * d,
    ensures
        byte_encode_spec(byte_decode_spec(bytes, d), d) == bytes,
{
    let b = bytes_to_bits(bytes);
    lemma_bytes_to_bits_len(bytes);
    assert(b.len() == (256 * d as int) as nat);
    vstd::arithmetic::div_mod::lemma_mod_multiples_basic(256, d as int);
    assert((256 * d) % d == 0) by {
        assert(256 * d == d * 256);
    }
    lemma_poly_bits_of_coeffs(b, d);
    lemma_bits_bytes_round_trip(bytes);
}

/// `BytesToBits` has 8 bits per byte, all of them bits.
pub proof fn lemma_bytes_to_bits_len(bytes: Seq<u8>)
    ensures
        bytes_to_bits(bytes).len() == 8 * bytes.len(),
        is_bits(bytes_to_bits(bytes)),
    decreases bytes.len(),
{
    if bytes.len() > 0 {
        lemma_bytes_to_bits_len(bytes.drop_first());
        lemma_bits_of(bytes[0] as int, 8);
        let a = bits_of(bytes[0] as int, 8);
        let r = bytes_to_bits(bytes.drop_first());
        assert forall|i: int| 0 <= i < (a + r).len() implies #[trigger] (a + r)[i] <= 1 by {
            if i < a.len() {
                assert((a + r)[i] == a[i]);
            } else {
                assert((a + r)[i] == r[i - a.len()]);
            }
        }
    }
}

/// `BitsToBytes` makes one byte of every 8 bits.
pub proof fn lemma_bits_to_bytes_len(b: Seq<u8>)
    ensures
        bits_to_bytes(b).len() == b.len() / 8,
    decreases b.len(),
{
    if b.len() >= 8 {
        lemma_bits_to_bytes_len(b.skip(8));
    }
}

/// `ByteEncode_d` of a polynomial has `32 * d` bytes.
pub proof fn lemma_byte_encode_len(f: Seq<u16>, d: nat)
    requires
        f.len() == 256,
    ensures
        byte_encode_spec(f, d).len() == 32 * d,
{
    lemma_poly_bits_len(f, d);
    lemma_bits_to_bytes_len(poly_bits(f, d));
    assert((256 * d) / 8 == 32 * d) by {
        assert(256 * d == 8 * (32 * d)) by (nonlinear_arith);
        vstd::arithmetic::div_mod::lemma_div_multiples_vanish((32 * d) as int, 8);
    }
}

} // verus!
