use core::fmt::Debug;
use ml_kem::{DecapsulationKey, EncapsulationKey, KemParams};
use ml_kem::{MlKem1024Params, MlKem512Params, MlKem768Params};

fn round_trip_test<P>()
where
    P: KemParams + PartialEq + Debug,
{
    let mut rng = rand::thread_rng();

    let dk = DecapsulationKey::<P>::generate(&mut rng);
    let ek = dk.encapsulation_key();

    let (ct, k_send) = ek.encapsulate(&mut rng).unwrap();
    let k_recv = dk.decapsulate(&ct).unwrap();
    assert_eq!(k_send, k_recv);
}

#[test]
fn round_trip() {
    round_trip_test::<MlKem512Params>();
    round_trip_test::<MlKem768Params>();
    round_trip_test::<MlKem1024Params>();
}

fn codec_test<P>()
where
    P: KemParams + PartialEq + Debug,
{
    let mut rng = rand::thread_rng();
    let dk_original = DecapsulationKey::<P>::generate(&mut rng);
    let ek_original = dk_original.encapsulation_key().clone();

    let dk_encoded = dk_original.as_bytes();
    let dk_decoded = DecapsulationKey::from_bytes(&dk_encoded);
    assert_eq!(dk_original, dk_decoded);

    let ek_encoded = ek_original.as_bytes();
    let ek_decoded = EncapsulationKey::from_bytes(&ek_encoded);
    assert_eq!(ek_original, ek_decoded);
}

#[test]
fn codec() {
    codec_test::<MlKem512Params>();
    codec_test::<MlKem768Params>();
    codec_test::<MlKem1024Params>();
}
