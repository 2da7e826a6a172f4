use ml_kem::crypto::{hash_h, hash_j};
use ml_kem::kem::DecapsulationKeyInner;
use ml_kem::{DecapsulationKey, EncapsulationKey, Kem, KemParams};
use ml_kem::{MlKem1024Params, MlKem512Params, MlKem768Params};

fn hex(bytes: &[u8]) -> String {
    bytes.iter().map(|b| format!("{:02x}", b)).collect()
}

fn seeds() -> ([u8; 32], [u8; 32], [u8; 32]) {
    let mut d = [0u8; 32];
    let mut z = [0u8; 32];
    let mut m = [0u8; 32];
    for i in 0..32 {
        d[i] = i as u8;
        z[i] = 32 + i as u8;
        m[i] = 64 + i as u8;
    }
    (d, z, m)
}

/// Hashes of the key, ciphertext and shared keys for fixed seeds, as computed
/// independently of this crate.
fn known_answer<P: KemParams>(k: usize, ek_h: &str, dk_h: &str, ct_h: &str, key: &str, rejected: &str) {
    let (d, z, m) = seeds();
    let (dk, ek) = Kem::<P>::generate_deterministic(&d, &z);
    assert_eq!(hex(&hash_h(&ek.as_bytes())), ek_h);
    let inner = DecapsulationKeyInner::<P>::generate_deterministic(&d, &z);
    let dk_bytes = inner.as_bytes();
    assert_eq!(hex(&hash_h(&dk_bytes[..384 * k])), dk_h);
    let (ct, k_send) = ek.encapsulate_deterministic(&m).unwrap();
    assert_eq!(hex(&hash_h(&ct)), ct_h);
    assert_eq!(hex(&k_send), key);
    assert_eq!(dk.decapsulate(&ct).unwrap(), k_send);
    let mut bad = ct.clone();
    bad[0] ^= 1;
    let k_bad = dk.decapsulate(&bad).unwrap();
    assert_eq!(hex(&k_bad), rejected);
    assert_eq!(k_bad, hash_j(&z, &bad));
}

#[test]
fn known_answer_512() {
    known_answer::<MlKem512Params>(
        2,
        "82f101ff648063b376e2bb6c5b7455f655a50c2feadade150efa0e0e6f365aea",
        "4e5de230bd4cb8ee7f775fdd80bd39d9f725eea7dcd9d829f0e7c2e0829ab07d",
        "e3fdddb90255869185c07cdf1c1880b2efe08b6f04da4997b693c0dea61503bd",
        "14cace3e48771b316676afad2cfcfe8488daaa4fad954e57236caa3f24a42cf7",
        "32ee1fb3f7bd2915218e9c1b2d0d2da88f0edce6804278bab3a6123c5bb64fc4",
    );
}

#[test]
fn known_answer_768() {
    known_answer::<MlKem768Params>(
        3,
        "a24e16d8f8f9383a95b77050f4d9fd2f5733eec1d63ef3c23ebf9918173669a7",
        "4c6954b8b0e3268ef19ae0eb25efdacdd504d6fa2afa6bb6f49f4a951716c96a",
        "b4cfbd24cef67afd3764276c6980e0f88f8e9ca57f59b7f12fe1a9c1e72f4710",
        "9cddd089ffe70e3996e76f7c8d06746df34d07e8657bc0fcf2bb0e1c3084aea1",
        "dcfc80c6db46ff7028e3a4398651c063ae7a42c107a6dc8cb07141861698ab92",
    );
}

#[test]
fn known_answer_1024() {
    known_answer::<MlKem1024Params>(
        4,
        "61349e5c131a7e116a0463861d7d18663c5627c38c7147ddaadfd48acd7a4535",
        "14ed40042cf38f0642595bbed9eef6a0d1b1460386e8e4cceb1153c1cf0724bc",
        "c1579fa02c614f3762b2a799b51e41cebb8f820f34fa736af02c56de2460ce3c",
        "0ad8d1ea1b8dd788979b4379581218df9321bdce5567eca42ae6be7d395f1a54",
        "8f2c880890996c587aa500cf8b6da03372de706a9f96075744bb0956ea6fbaac",
    );
}

#[test]
fn sizes_of_encodings() {
    let (d, z, m) = seeds();
    let (dk, ek) = Kem::<MlKem512Params>::generate_deterministic(&d, &z);
    assert_eq!(ek.as_bytes().len(), 800);
    assert_eq!(dk.as_bytes().len(), 64);
    assert_eq!(ek.encapsulate_deterministic(&m).unwrap().0.len(), 768);
    let (_, ek) = Kem::<MlKem768Params>::generate_deterministic(&d, &z);
    assert_eq!(ek.as_bytes().len(), 1184);
    assert_eq!(ek.encapsulate_deterministic(&m).unwrap().0.len(), 1088);
    let inner = DecapsulationKeyInner::<MlKem768Params>::generate_deterministic(&d, &z);
    assert_eq!(inner.as_bytes().len(), 2400);
    let (_, ek) = Kem::<MlKem1024Params>::generate_deterministic(&d, &z);
    assert_eq!(ek.as_bytes().len(), 1568);
    assert_eq!(ek.encapsulate_deterministic(&m).unwrap().0.len(), 1568);
}

#[test]
fn seed_encoding_is_d_then_z() {
    let (d, z, _) = seeds();
    let dk = DecapsulationKey::<MlKem768Params>::generate_deterministic(&d, &z);
    let bytes = dk.as_bytes();
    assert_eq!(&bytes[..32], &d[..]);
    assert_eq!(&bytes[32..], &z[..]);
    assert_eq!(DecapsulationKey::<MlKem768Params>::from_bytes(&bytes), dk);
}

#[test]
fn expanded_key_codec() {
    let (d, z, m) = seeds();
    let inner = DecapsulationKeyInner::<MlKem512Params>::generate_deterministic(&d, &z);
    let bytes = inner.as_bytes();
    let decoded = DecapsulationKeyInner::<MlKem512Params>::from_bytes(&bytes);
    assert_eq!(decoded, inner);
    assert_eq!(&bytes[800 + 768..800 + 768 + 32], &hash_h(&bytes[768..768 + 800])[..]);
    assert_eq!(&bytes[1632 - 32..], &z[..]);
    let ek = inner.encapsulation_key();
    let (ct, k) = ek.encapsulate_deterministic(&m).unwrap();
    assert_eq!(decoded.decapsulate(&ct).unwrap(), k);
}

#[test]
fn encapsulation_keys_agree() {
    let (d, z, _) = seeds();
    let dk = DecapsulationKey::<MlKem1024Params>::generate_deterministic(&d, &z);
    let inner = DecapsulationKeyInner::<MlKem1024Params>::generate_deterministic(&d, &z);
    assert_eq!(dk.encapsulation_key(), inner.encapsulation_key());
    let ek_bytes = dk.encapsulation_key().as_bytes();
    assert_eq!(EncapsulationKey::<MlKem1024Params>::from_bytes(&ek_bytes), inner.encapsulation_key());
}

#[test]
fn encapsulation_is_deterministic_in_the_message() {
    let (d, z, m) = seeds();
    let (_, ek) = Kem::<MlKem768Params>::generate_deterministic(&d, &z);
    let a = ek.encapsulate_deterministic(&m).unwrap();
    let b = ek.encapsulate_deterministic(&m).unwrap();
    assert_eq!(a, b);
    let mut m2 = m;
    m2[5] ^= 0x10;
    let c = ek.encapsulate_deterministic(&m2).unwrap();
    assert_ne!(a.0, c.0);
    assert_ne!(a.1, c.1);
}

#[test]
fn random_encapsulations_differ() {
    let mut rng = rand::thread_rng();
    let (dk, ek) = Kem::<MlKem512Params>::generate(&mut rng);
    assert_eq!(dk.encapsulation_key(), ek);
    let (c1, k1) = ek.encapsulate(&mut rng).unwrap();
    let (c2, k2) = ek.encapsulate(&mut rng).unwrap();
    assert_ne!(c1, c2);
    assert_ne!(k1, k2);
    assert_eq!(dk.decapsulate(&c1).unwrap(), k1);
    assert_eq!(dk.decapsulate(&c2).unwrap(), k2);
}

#[test]
fn zeroize_clears_secrets() {
    let (d, z, _) = seeds();
    let mut dk = DecapsulationKey::<MlKem512Params>::generate_deterministic(&d, &z);
    dk.zeroize();
    assert_eq!(dk.as_bytes(), vec![0u8; 64]);
    let mut inner = DecapsulationKeyInner::<MlKem512Params>::generate_deterministic(&d, &z);
    let ek_before = inner.encapsulation_key();
    inner.zeroize();
    let bytes = inner.as_bytes();
    assert!(bytes[..768].iter().all(|b| *b == 0));
    assert!(bytes[1632 - 32..].iter().all(|b| *b == 0));
    assert_eq!(inner.encapsulation_key(), ek_before);
}

#[test]
fn ciphertext_lengths_of_parameter_sets() {
    assert_eq!(MlKem512Params::params().ciphertext_len(), 768);
    assert_eq!(MlKem768Params::params().ciphertext_len(), 1088);
    assert_eq!(MlKem1024Params::params().ciphertext_len(), 1568);
}
