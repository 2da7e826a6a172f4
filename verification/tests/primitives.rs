use ml_kem::crypto::{hash_g, hash_h, hash_j, prf};
use ml_kem::encode::{byte_decode, byte_encode, compress, decompress};
use ml_kem::kem::{choose_shared_key, constant_time_eq};
use ml_kem::poly::{gamma_table, intt, multiply_ntts, ntt, zeta_table};
use ml_kem::sample::{pad_to_poly, sample_cbd, sample_from_stream, sample_ntt};

fn hex(bytes: &[u8]) -> String {
    bytes.iter().map(|b| format!("{:02x}", b)).collect()
}

fn pseudo_poly(seed: u32) -> Vec<u16> {
    let mut x = seed;
    (0..256)
        .map(|_| {
            x = x.wrapping_mul(1103515245).wrapping_add(12345);
            ((x >> 8) % 3329) as u16
        })
        .collect()
}

fn schoolbook(f: &[u16], g: &[u16]) -> Vec<u16> {
    let mut h = vec![0i64; 256];
    for i in 0..256 {
        for j in 0..256 {
            let p = f[i] as i64 * g[j] as i64;
            if i + j < 256 {
                h[i + j] += p;
            } else {
                h[i + j - 256] -= p;
            }
        }
    }
    h.iter().map(|c| c.rem_euclid(3329) as u16).collect()
}

#[test]
fn sha3_256_of_empty_input() {
    assert_eq!(
        hex(&hash_h(&[])),
        "a7ffc6f8bf1ed76651c14756a061d662f580ff4de43b49fa82d80a4b80f8434a"
    );
}

#[test]
fn sha3_512_of_empty_input_is_split() {
    let (a, b) = hash_g(&[], &[]);
    assert_eq!(hex(&a), "a69f73cca23a9ac5c8b567dc185a756e97c982164fe25859e0d1dcc1475c80a6");
    assert_eq!(hex(&b), "15b2123af1f5f94c11e3e9402c3ac558f500199d95b6d3e301758586281dcd26");
}

#[test]
fn shake256_of_empty_input() {
    assert_eq!(
        hex(&hash_j(&[], &[])),
        "46b9dd2b0ba88d13233b3feb743eeb243fcd52ea62b81b82b50c27646ed5762f"
    );
}

#[test]
fn g_hashes_the_concatenation() {
    assert_eq!(hash_g(&[1, 2], &[3]), hash_g(&[1], &[2, 3]));
    assert_ne!(hash_g(&[1, 2], &[3]).0, hash_g(&[1, 2], &[4]).0);
}

#[test]
fn prf_lengths() {
    assert_eq!(prf(2, &[7u8; 32], 0).len(), 128);
    assert_eq!(prf(3, &[7u8; 32], 0).len(), 192);
    assert_ne!(prf(2, &[7u8; 32], 0), prf(2, &[7u8; 32], 1));
}

#[test]
fn constant_time_eq_values() {
    assert_eq!(constant_time_eq(0, 0), 0xff);
    assert_eq!(constant_time_eq(200, 200), 0xff);
    assert_eq!(constant_time_eq(0, 1), 0);
    assert_eq!(constant_time_eq(0x80, 0), 0);
    assert_eq!(constant_time_eq(255, 127), 0);
}

#[test]
fn twiddle_factors() {
    let z = zeta_table();
    assert_eq!(z[0], 1);
    assert_eq!(z[1], 1729);
    assert_eq!(z[2], 2580);
    assert_eq!(z[127], 2154);
    let g = gamma_table();
    assert_eq!(g[0], 17);
    assert_eq!(g[1], 3312);
    assert_eq!(g[127], 1175);
}

#[test]
fn ntt_inverse_round_trip() {
    for seed in 1..4 {
        let f = pseudo_poly(seed);
        assert_eq!(intt(&ntt(&f)), f);
    }
}

#[test]
fn intt_then_ntt_round_trip() {
    for seed in 5..8 {
        let f = pseudo_poly(seed);
        assert_eq!(ntt(&intt(&f)), f);
    }
}

#[test]
fn ntt_product_is_ring_product() {
    let f = pseudo_poly(11);
    let g = pseudo_poly(29);
    let gammas = gamma_table();
    let h = intt(&multiply_ntts(&ntt(&f), &ntt(&g), &gammas));
    assert_eq!(h, schoolbook(&f, &g));
}

#[test]
fn compress_values() {
    assert_eq!(compress(0, 1), 0);
    assert_eq!(compress(832, 1), 0);
    assert_eq!(compress(833, 1), 1);
    assert_eq!(compress(1664, 1), 1);
    assert_eq!(compress(2496, 1), 1);
    assert_eq!(compress(2497, 1), 0);
    assert_eq!(compress(3328, 10), 0);
    assert_eq!(compress(1000, 10), 308);
}

#[test]
fn decompress_values() {
    assert_eq!(decompress(0, 1), 0);
    assert_eq!(decompress(1, 1), 1665);
    assert_eq!(decompress(308, 10), 1001);
    assert_eq!(decompress(4095, 12), 3328);
}

#[test]
fn compress_then_decompress_is_close() {
    for d in [1usize, 4, 5, 10, 11] {
        let bound = ((3329f64 / f64::from(1u32 << (d + 1))).round()) as i32;
        for x in 0..3329u16 {
            let y = decompress(compress(x, d), d) as i32;
            let diff = (y - x as i32).rem_euclid(3329);
            let centered = if diff > 1664 { diff - 3329 } else { diff };
            assert!(centered.abs() <= bound, "d={} x={} y={}", d, x, y);
        }
    }
}

#[test]
fn byte_encode_decode_round_trip() {
    for d in [1usize, 4, 5, 10, 11, 12] {
        let m: u32 = if d == 12 { 3329 } else { 1 << d };
        let f: Vec<u16> = pseudo_poly(d as u32).iter().map(|c| (*c as u32 % m) as u16).collect();
        let bytes = byte_encode(&f, d);
        assert_eq!(bytes.len(), 32 * d);
        assert_eq!(byte_decode(&bytes, d), f);
    }
}

#[test]
fn byte_encode_bit_order() {
    let mut f = vec![0u16; 256];
    f[0] = 1;
    f[1] = 3;
    let bytes = byte_encode(&f, 4);
    assert_eq!(bytes[0], 0x31);
    assert!(bytes[1..].iter().all(|b| *b == 0));
    let ones = byte_encode(&vec![1u16; 256], 1);
    assert_eq!(ones, vec![0xffu8; 32]);
}

#[test]
fn byte_decode_12_reduces_mod_q() {
    let bytes = vec![0xffu8; 384];
    let f = byte_decode(&bytes, 12);
    assert!(f.iter().all(|c| *c == 4095 - 3329));
}

#[test]
fn sample_ntt_coefficients_are_reduced() {
    let f = sample_ntt(&[0u8; 34]);
    assert_eq!(f.len(), 256);
    assert!(f.iter().all(|c| *c < 3329));
    assert_ne!(f, sample_ntt(&[1u8; 34]));
}

#[test]
fn sample_cbd_values() {
    let zeros = sample_cbd(&[0u8; 128], 2);
    assert!(zeros.iter().all(|c| *c == 0));
    // Every byte 0x0f: for eta = 2 each coefficient reads bits 1,1 then 1,1
    // or 0,0 then 0,0, so every coefficient is 0.
    let f = sample_cbd(&[0x0fu8; 128], 2);
    assert!(f.iter().all(|c| *c == 0));
    // Every byte 0x03: coefficient 2i reads 1,1 - 0,0 = 2; coefficient 2i+1 reads 0.
    let g = sample_cbd(&[0x03u8; 128], 2);
    assert_eq!(g[0], 2);
    assert_eq!(g[1], 0);
    // Every byte 0x0c: coefficient 2i reads 0,0 - 1,1 = -2.
    let h = sample_cbd(&[0x0cu8; 128], 2);
    assert_eq!(h[0], 3327);
    let e = sample_cbd(&[0xffu8; 192], 3);
    assert!(e.iter().all(|c| *c == 0));
}

#[test]
fn sample_ntt_known_coefficients() {
    let f = sample_ntt(&[0u8; 34]);
    assert_eq!(&f[..8], &[2944, 3017, 340, 1184, 3243, 1708, 2458, 2285]);
}

#[test]
fn prf_known_bytes() {
    let out = prf(2, &[7u8; 32], 0);
    assert_eq!(hex(&out[..8]), "7ca7cf7e0bef5c26");
    let f = sample_cbd(&out, 2);
    assert_eq!(&f[..8], &[3327, 1, 1, 0, 0, 3327, 3328, 1]);
}

#[test]
fn byte_decode_encode_round_trip() {
    for d in [1usize, 4, 5, 10, 11] {
        let bytes: Vec<u8> = (0..32 * d).map(|i| (i * 37 + 11) as u8).collect();
        assert_eq!(byte_encode(&byte_decode(&bytes, d), d), bytes);
    }
}

#[test]
fn choose_shared_key_picks_by_equality() {
    let k1 = [1u8; 32];
    let k2 = [2u8; 32];
    assert_eq!(choose_shared_key(&[5, 6, 7], &[5, 6, 7], &k1, &k2), k1);
    assert_eq!(choose_shared_key(&[5, 6, 7], &[5, 6, 8], &k1, &k2), k2);
    assert_eq!(choose_shared_key(&[0, 6, 7], &[5, 6, 7], &k1, &k2), k2);
    assert_eq!(choose_shared_key(&[], &[], &k1, &k2), k1);
}

#[test]
fn sample_from_stream_triples() {
    // 0x01 0x20 0x03: d1 = 1 + 256 * 0 = 1, d2 = 2 + 16 * 3 = 50.
    // 0xff 0xff 0xff: d1 = d2 = 4095, both rejected.
    // 0x00 0x0d 0xd0: d1 = 13 * 256 = 3328, d2 = 0 + 16 * 208 = 3328.
    let stream = vec![0x01, 0x20, 0x03, 0xff, 0xff, 0xff, 0x00, 0x0d, 0xd0, 0x07];
    assert_eq!(sample_from_stream(&stream), vec![1, 50, 3328, 3328]);
    let padded = pad_to_poly(vec![1, 2]);
    assert_eq!(padded.len(), 256);
    assert_eq!(&padded[..3], &[1, 2, 0]);
}
