use lms::hss::{hss_keygen, hss_sign, hss_verify, HssPrivateKey};
use lms::lm_ots::LmotsAlgorithmType;
use lms::lms::definitions::{LmsAlgorithmType, LmsError};
use lms::lms::verify::lms_verify;
use lms::lms::{HssParameter, SeedAndI};
use lms::lms::helper::{hss_expand_aux_data, hss_extract_aux_data, hss_finalize_aux_data, MutableExpandedAuxData};

fn seed() -> SeedAndI {
    SeedAndI { seed: (50u8..82).collect(), i: (7u8..23).collect() }
}

fn two_levels() -> Vec<HssParameter> {
    vec![
        HssParameter::new(LmotsAlgorithmType::LmotsSha256N32W1, LmsAlgorithmType::LmsSha256M32H5),
        HssParameter::new(LmotsAlgorithmType::LmotsSha256N32W2, LmsAlgorithmType::LmsSha256M32H5),
    ]
}

#[test]
fn hss_single_level_matches_lms() {
    let params = vec![HssParameter::new(LmotsAlgorithmType::LmotsSha256N32W1, LmsAlgorithmType::LmsSha256M32H5)];
    let (mut sk, pk) = hss_keygen(&params, &seed(), &mut None);
    assert_eq!(pk.len(), 60);
    assert_eq!(&pk[0..4], &[0, 0, 0, 1]);
    assert_eq!(sk.levels[0].q, 0);
    let sig = hss_sign(b"hello", &mut sk, None).unwrap();
    assert_eq!(&sig[0..4], &[0, 0, 0, 0]);
    assert!(hss_verify(b"hello", &sig, &pk));
    assert!(!hss_verify(b"hellO", &sig, &pk));
    // the part after the level count is a plain LMS signature under the top key
    assert!(lms_verify(b"hello", &sig[4..], &pk[4..]));
    assert_eq!(sk.levels[0].q, 1);
}

#[test]
fn hss_two_levels_refresh_bottom_tree() {
    let (mut sk, pk) = hss_keygen(&two_levels(), &seed(), &mut None);
    assert_eq!(&pk[0..4], &[0, 0, 0, 2]);
    assert_eq!(sk.levels[0].q, 1);
    assert_eq!(sk.levels[1].q, 0);
    let first_child = sk.levels[1].I.clone();
    // skip ahead in the bottom tree; its position is not part of the chain
    sk.levels[1].q = 29;
    for n in 29u32..34 {
        let msg = format!("hss message {}", n);
        let sig = hss_sign(msg.as_bytes(), &mut sk, None).unwrap();
        assert_eq!(&sig[0..4], &[0, 0, 0, 1]);
        assert!(hss_verify(msg.as_bytes(), &sig, &pk), "signature {} does not verify", n);
        if n < 32 {
            assert_eq!(sk.levels[0].q, 1);
            assert_eq!(sk.levels[1].q, n + 1);
            assert_eq!(sk.levels[1].I, first_child);
        } else {
            // the bottom tree was used up: the top tree used its second leaf
            assert_eq!(sk.levels[0].q, 2);
            assert_eq!(sk.levels[1].q, n - 31);
            assert_ne!(sk.levels[1].I, first_child);
        }
    }
}

#[test]
fn hss_flipped_bytes_and_wrong_key() {
    let (mut sk, pk) = hss_keygen(&two_levels(), &seed(), &mut None);
    let sig = hss_sign(b"m", &mut sk, None).unwrap();
    assert!(hss_verify(b"m", &sig, &pk));
    for i in (0..sig.len()).step_by(61) {
        let mut bad = sig.clone();
        bad[i] ^= 0x40;
        assert!(!hss_verify(b"m", &bad, &pk), "byte {} flipped still verifies", i);
    }
    let mut bad_pk = pk.clone();
    bad_pk[3] = 3;
    assert!(!hss_verify(b"m", &sig, &bad_pk));
    assert!(!hss_verify(b"m", &sig[..sig.len() - 1], &pk));
    let other = SeedAndI { seed: vec![1u8; 32], i: vec![2u8; 16] };
    let (_, other_pk) = hss_keygen(&two_levels(), &other, &mut None);
    assert!(!hss_verify(b"m", &sig, &other_pk));
}

#[test]
fn hss_all_keys_used() {
    let (mut sk, _pk) = hss_keygen(&two_levels(), &seed(), &mut None);
    sk.levels[0].q = 32;
    sk.levels[1].q = 32;
    assert_eq!(hss_sign(b"late", &mut sk, None), Err(LmsError::KeyExhausted));
    assert_eq!(sk.levels[0].q, 32);
    assert_eq!(sk.levels[1].q, 32);
}

#[test]
fn hss_private_key_round_trip_and_reload() {
    let (mut sk, pk) = hss_keygen(&two_levels(), &seed(), &mut None);
    hss_sign(b"one", &mut sk, None).unwrap();
    let bytes = sk.to_binary_representation();
    assert_eq!(bytes.len(), 4 + 2 * 60);
    assert_eq!(&bytes[0..4], &[0, 0, 0, 2]);
    let mut reloaded = HssPrivateKey::from_binary_representation(&bytes).unwrap();
    assert_eq!(reloaded.to_binary_representation(), bytes);
    let a = hss_sign(b"two", &mut sk, None).unwrap();
    let b = hss_sign(b"two", &mut reloaded, None).unwrap();
    assert_eq!(a, b);
    assert!(hss_verify(b"two", &a, &pk));
}

#[test]
fn hss_private_key_corruption() {
    let (sk, _pk) = hss_keygen(&two_levels(), &seed(), &mut None);
    let bytes = sk.to_binary_representation();
    // a typecode byte of the second level
    let mut bad_type = bytes.clone();
    bad_type[4 + 60 + 1] = 1;
    assert!(HssPrivateKey::from_binary_representation(&bad_type).is_none());
    // the seed of the lower level no longer derives from the upper level
    let mut bad_child_seed = bytes.clone();
    bad_child_seed[4 + 60 + 40] ^= 1;
    assert!(HssPrivateKey::from_binary_representation(&bad_child_seed).is_none());
    // the top seed feeds the level below: the link breaks
    let mut top_seed = bytes.clone();
    top_seed[4 + 40] ^= 1;
    let loaded = HssPrivateKey::from_binary_representation(&top_seed);
    assert!(loaded.is_none());
    // a wrong level count or size
    let mut bad_count = bytes.clone();
    bad_count[3] = 3;
    assert!(HssPrivateKey::from_binary_representation(&bad_count).is_none());
    assert!(HssPrivateKey::from_binary_representation(&bytes[..bytes.len() - 1]).is_none());
    let mut zero = bytes.clone();
    zero[3] = 0;
    assert!(HssPrivateKey::from_binary_representation(&zero[..4]).is_none());
}

#[test]
fn hss_top_seed_corruption_single_level() {
    let params = vec![HssParameter::new(LmotsAlgorithmType::LmotsSha256N32W4, LmsAlgorithmType::LmsSha256M32H5)];
    let (sk, pk) = hss_keygen(&params, &seed(), &mut None);
    let mut bytes = sk.to_binary_representation();
    bytes[4 + 50] ^= 0x10;
    let mut corrupted = HssPrivateKey::from_binary_representation(&bytes).unwrap();
    let sig = hss_sign(b"x", &mut corrupted, None).unwrap();
    assert!(!hss_verify(b"x", &sig, &pk));
}

#[test]
fn hss_with_top_aux_cache() {
    let params = two_levels();
    let mut aux = Some(MutableExpandedAuxData::new(2000, LmsAlgorithmType::LmsSha256M32H5));
    let (mut sk, pk) = hss_keygen(&params, &seed(), &mut aux);
    let (mut plain, plain_pk) = hss_keygen(&params, &seed(), &mut None);
    assert_eq!(pk, plain_pk);
    let aux = aux.unwrap();
    assert_eq!(aux.levels, 5);
    // every slot is filled, the root first
    for j in 1..=31usize {
        assert_eq!(hss_extract_aux_data(&aux, j).map(|v| v.len()), Some(32));
    }
    assert_eq!(hss_extract_aux_data(&aux, 1).unwrap(), pk[28..60].to_vec());
    assert!(hss_extract_aux_data(&aux, 0).is_none());
    assert!(hss_extract_aux_data(&aux, 32).is_none());
    let bytes = hss_finalize_aux_data(&aux, &sk.levels[0]);
    let loaded = hss_expand_aux_data(&bytes, &sk.levels[0]).unwrap();
    let a = hss_sign(b"cached", &mut sk, Some(&loaded)).unwrap();
    let b = hss_sign(b"cached", &mut plain, None).unwrap();
    assert_eq!(a, b);
    assert!(hss_verify(b"cached", &a, &pk));
}

#[test]
fn aux_lookup_of_empty_slot() {
    let aux = MutableExpandedAuxData::new(300, LmsAlgorithmType::LmsSha256M32H5);
    assert_eq!(aux.levels, 3);
    assert!(hss_extract_aux_data(&aux, 1).is_none());
    let full = MutableExpandedAuxData { levels: 1, nodes: vec![vec![9u8; 32]] };
    assert_eq!(hss_extract_aux_data(&full, 1), Some(vec![9u8; 32]));
}
