use lms::hasher::Sha256Hasher;
use lms::lm_ots::LmotsAlgorithmType;
use lms::lms::definitions::{LmsAlgorithmParameter, LmsAlgorithmType, LmsError, LmsPrivateKey, LmsPublicKey};
use lms::lms::helper::{hss_expand_aux_data, hss_finalize_aux_data, MutableExpandedAuxData};
use lms::lms::signing::lms_sign;
use lms::lms::verify::lms_verify;
use lms::lms::{generate_key_pair, generate_key_pair_with_seed, generate_key_pair_with_seed_and_aux, HssParameter, LmsKeyPair, SeedAndI};

fn zero_seed() -> SeedAndI {
    SeedAndI { seed: vec![0u8; 32], i: vec![0u8; 16] }
}

fn counting_seed() -> SeedAndI {
    SeedAndI { seed: (0u8..32).collect(), i: (100u8..116).collect() }
}

fn h5(w: LmotsAlgorithmType) -> HssParameter {
    HssParameter::new(w, LmsAlgorithmType::LmsSha256M32H5)
}

fn pair(seed: &SeedAndI, w: LmotsAlgorithmType) -> LmsKeyPair {
    generate_key_pair_with_seed(seed, &h5(w))
}

#[test]
fn sha256_of_abc() {
    let mut h = Sha256Hasher::new();
    h.update(b"a");
    h.update(b"bc");
    let d = h.finalize();
    let expected: Vec<u8> = vec![
        0xba, 0x78, 0x16, 0xbf, 0x8f, 0x01, 0xcf, 0xea, 0x41, 0x41, 0x40, 0xde, 0x5d, 0xae, 0x22, 0x23, 0xb0, 0x03, 0x61,
        0xa3, 0x96, 0x17, 0x7a, 0x9c, 0xb4, 0x10, 0xff, 0x61, 0xf2, 0x00, 0x15, 0xad,
    ];
    assert_eq!(d, expected);
}

#[test]
fn typecodes_and_parameters() {
    assert_eq!(LmsAlgorithmType::from_u32(5), Some(LmsAlgorithmType::LmsSha256M32H5));
    assert_eq!(LmsAlgorithmType::from_u32(9), Some(LmsAlgorithmType::LmsSha256M32H25));
    assert_eq!(LmsAlgorithmType::from_u32(0), Some(LmsAlgorithmType::LmsReserved));
    assert_eq!(LmsAlgorithmType::from_u32(4), None);
    assert_eq!(LmsAlgorithmType::from_u32(10), None);
    assert_eq!(LmotsAlgorithmType::from_u32(1), Some(LmotsAlgorithmType::LmotsSha256N32W1));
    assert_eq!(LmotsAlgorithmType::from_u32(4), Some(LmotsAlgorithmType::LmotsSha256N32W8));
    assert_eq!(LmotsAlgorithmType::from_u32(5), None);
    let p = LmsAlgorithmType::LmsSha256M32H10.get_parameter();
    assert_eq!(p.h, 10);
    assert_eq!(p.m, 32);
    assert_eq!(p.number_of_lm_ots_keys(), 1024);
    assert_eq!(LmsAlgorithmParameter::get(LmsAlgorithmType::LmsSha256M32H25).number_of_lm_ots_keys(), 1 << 25);
    let o = LmotsAlgorithmType::LmotsSha256N32W1.get_parameter();
    assert_eq!((o.w, o.p, o.ls), (1, 265, 7));
    let o = LmotsAlgorithmType::LmotsSha256N32W2.get_parameter();
    assert_eq!((o.w, o.p, o.ls), (2, 133, 6));
    let o = LmotsAlgorithmType::LmotsSha256N32W4.get_parameter();
    assert_eq!((o.w, o.p, o.ls), (4, 67, 4));
    let o = LmotsAlgorithmType::LmotsSha256N32W8.get_parameter();
    assert_eq!((o.w, o.p, o.ls, o.n), (8, 34, 0, 32));
    let h = LmsAlgorithmType::LmsSha256M32H5.get_parameter().get_hasher();
    assert_eq!(h.finalize().len(), 32);
}

#[test]
fn codec_big_endian() {
    assert_eq!(lms::codec::u32str(0x01020304), vec![1, 2, 3, 4]);
    assert_eq!(lms::codec::u16str(0xfffd), vec![0xff, 0xfd]);
    assert_eq!(lms::codec::str32u(&[9, 0, 0, 1, 0], 1), 0x00000100);
}

#[test]
fn zero_seed_sign_and_verify() {
    let kp = pair(&zero_seed(), LmotsAlgorithmType::LmotsSha256N32W1);
    let pk = kp.public_key.to_binary_representation();
    assert_eq!(pk.len(), 56);
    assert_eq!(&pk[0..8], &[0, 0, 0, 5, 0, 0, 0, 1]);
    assert_eq!(&pk[8..24], &[0u8; 16]);
    let mut sk = kp.private_key;
    let sig = lms_sign(b"", &mut sk, None).unwrap();
    assert_eq!(sig.len(), 4 + 4 + 32 + 265 * 32 + 4 + 5 * 32);
    assert_eq!(&sig[0..8], &[0, 0, 0, 0, 0, 0, 0, 1]);
    assert_eq!(&sig[4 + 36 + 265 * 32..8 + 36 + 265 * 32], &[0, 0, 0, 5]);
    assert!(lms_verify(b"", &sig, &pk));
    assert_eq!(sk.q, 1);
    // the same seed gives the same key and the same signature
    let again = pair(&zero_seed(), LmotsAlgorithmType::LmotsSha256N32W1);
    assert_eq!(again.public_key.to_binary_representation(), pk);
    let mut again_key = again.private_key;
    assert_eq!(lms_sign(b"", &mut again_key, None).unwrap(), sig);
}

#[test]
fn sign_every_leaf_then_exhausted() {
    let kp = pair(&counting_seed(), LmotsAlgorithmType::LmotsSha256N32W4);
    let pk = kp.public_key.to_binary_representation();
    let mut sk = kp.private_key;
    for i in 0u32..32 {
        let msg = format!("message number {}", i);
        let sig = lms_sign(msg.as_bytes(), &mut sk, None).unwrap();
        assert_eq!(&sig[0..4], &i.to_be_bytes());
        assert!(lms_verify(msg.as_bytes(), &sig, &pk));
    }
    assert_eq!(sk.q, 32);
    assert_eq!(lms_sign(b"one more", &mut sk, None), Err(LmsError::KeyExhausted));
    assert_eq!(sk.q, 32);
}

#[test]
fn every_width_signs_and_verifies() {
    for w in [
        LmotsAlgorithmType::LmotsSha256N32W1,
        LmotsAlgorithmType::LmotsSha256N32W2,
        LmotsAlgorithmType::LmotsSha256N32W4,
        LmotsAlgorithmType::LmotsSha256N32W8,
    ] {
        let kp = pair(&counting_seed(), w);
        let pk = kp.public_key.to_binary_representation();
        let mut sk = kp.private_key;
        sk.q = 17;
        let sig = lms_sign(b"width", &mut sk, None).unwrap();
        assert!(lms_verify(b"width", &sig, &pk));
        assert!(!lms_verify(b"widths", &sig, &pk));
    }
}

#[test]
fn other_message_does_not_verify() {
    let kp = pair(&counting_seed(), LmotsAlgorithmType::LmotsSha256N32W2);
    let pk = kp.public_key.to_binary_representation();
    let mut sk = kp.private_key;
    let sig = lms_sign(b"first", &mut sk, None).unwrap();
    assert!(lms_verify(b"first", &sig, &pk));
    assert!(!lms_verify(b"second", &sig, &pk));
    assert!(!lms_verify(b"", &sig, &pk));
}

#[test]
fn flipped_signature_bytes_do_not_verify() {
    let kp = pair(&counting_seed(), LmotsAlgorithmType::LmotsSha256N32W1);
    let pk = kp.public_key.to_binary_representation();
    let mut sk = kp.private_key;
    sk.q = 9;
    let sig = lms_sign(b"flip", &mut sk, None).unwrap();
    assert!(lms_verify(b"flip", &sig, &pk));
    let mut positions: Vec<usize> = (0..40).collect();
    positions.extend((40..sig.len()).step_by(97));
    positions.extend(sig.len() - 170..sig.len());
    for i in positions {
        let mut bad = sig.clone();
        bad[i] ^= 0x01;
        assert!(!lms_verify(b"flip", &bad, &pk), "byte {} flipped still verifies", i);
    }
    assert!(!lms_verify(b"flip", &sig[..sig.len() - 1], &pk));
    let mut longer = sig.clone();
    longer.push(0);
    assert!(!lms_verify(b"flip", &longer, &pk));
}

#[test]
fn public_key_round_trip_and_bad_input() {
    let kp = pair(&counting_seed(), LmotsAlgorithmType::LmotsSha256N32W8);
    let bytes = kp.public_key.to_binary_representation();
    let back = LmsPublicKey::from_binary_representation(bytes.clone()).unwrap();
    assert_eq!(back.to_binary_representation(), bytes);
    assert_eq!(back.key, kp.public_key.key);
    assert_eq!(back.I, kp.public_key.I);
    assert_eq!(back.lms_type, LmsAlgorithmType::LmsSha256M32H5);
    assert_eq!(back.lm_ots_type, LmotsAlgorithmType::LmotsSha256N32W8);
    for i in [0usize, 1, 2, 4, 5, 6] {
        let mut bad = bytes.clone();
        bad[i] ^= 0x80;
        assert!(LmsPublicKey::from_binary_representation(bad).is_none());
    }
    let mut reserved = bytes.clone();
    reserved[3] = 0;
    assert!(LmsPublicKey::from_binary_representation(reserved).is_none());
    assert!(LmsPublicKey::from_binary_representation(bytes[..55].to_vec()).is_none());
    let mut longer = bytes.clone();
    longer.push(0);
    assert!(LmsPublicKey::from_binary_representation(longer).is_none());
    let built = LmsPublicKey::new(vec![7u8; 32], LmotsAlgorithmType::LmotsSha256N32W1, LmsAlgorithmType::LmsSha256M32H10, vec![1u8; 16]);
    let b = built.to_binary_representation();
    assert_eq!(&b[0..8], &[0, 0, 0, 6, 0, 0, 0, 1]);
    assert_eq!(&b[24..56], &[7u8; 32]);
}

#[test]
fn private_key_serialization_deserialisation() {
    let kp = pair(&counting_seed(), LmotsAlgorithmType::LmotsSha256N32W1);
    let private_key = kp.private_key;
    let bytes = private_key.to_binary_representation();
    assert_eq!(bytes.len(), 60);
    let private_key_from_bytes = LmsPrivateKey::from_binary_representation(&bytes).unwrap();
    assert!(private_key_from_bytes.to_binary_representation() == bytes);
    assert!(private_key_from_bytes.seed == private_key.seed);
    assert!(private_key_from_bytes.I == private_key.I);
    assert!(private_key_from_bytes.q == private_key.q);
}

#[test]
fn private_key_bad_input() {
    let sk = LmsPrivateKey::new(LmsAlgorithmType::LmsSha256M32H5, LmotsAlgorithmType::LmotsSha256N32W1, vec![3u8; 32], vec![4u8; 16]);
    assert_eq!(sk.q, 0);
    let bytes = sk.to_binary_representation();
    for i in [0usize, 1, 2, 4, 5, 6] {
        let mut bad = bytes.clone();
        bad[i] ^= 0x01;
        assert!(LmsPrivateKey::from_binary_representation(&bad).is_none());
    }
    assert!(LmsPrivateKey::from_binary_representation(&bytes[..59]).is_none());
    // q beyond the number of leaves
    let mut bad_q = bytes.clone();
    bad_q[27] = 33;
    assert!(LmsPrivateKey::from_binary_representation(&bad_q).is_none());
    let mut last_q = bytes.clone();
    last_q[27] = 32;
    assert_eq!(LmsPrivateKey::from_binary_representation(&last_q).unwrap().q, 32);
}

#[test]
fn corrupted_seed_gives_other_signatures() {
    let kp = pair(&counting_seed(), LmotsAlgorithmType::LmotsSha256N32W4);
    let pk = kp.public_key.to_binary_representation();
    let mut sk = kp.private_key;
    let mut bytes = sk.to_binary_representation();
    bytes[40] ^= 0xff;
    let mut corrupted = LmsPrivateKey::from_binary_representation(&bytes).unwrap();
    let good = lms_sign(b"seed", &mut sk, None).unwrap();
    let bad = lms_sign(b"seed", &mut corrupted, None).unwrap();
    assert_ne!(good, bad);
    assert!(lms_verify(b"seed", &good, &pk));
    assert!(!lms_verify(b"seed", &bad, &pk));
}

#[test]
fn reload_after_signing_signs_alike() {
    let kp = pair(&counting_seed(), LmotsAlgorithmType::LmotsSha256N32W2);
    let mut sk = kp.private_key;
    lms_sign(b"a", &mut sk, None).unwrap();
    lms_sign(b"b", &mut sk, None).unwrap();
    let mut reloaded = LmsPrivateKey::from_binary_representation(&sk.to_binary_representation()).unwrap();
    assert_eq!(reloaded.q, 2);
    let s1 = lms_sign(b"c", &mut sk, None).unwrap();
    let s2 = lms_sign(b"c", &mut reloaded, None).unwrap();
    assert_eq!(s1, s2);
    assert_eq!(sk.q, 3);
}

#[test]
fn use_lmots_private_key_advances() {
    let mut sk = LmsPrivateKey::new(LmsAlgorithmType::LmsSha256M32H5, LmotsAlgorithmType::LmotsSha256N32W8, vec![1u8; 32], vec![2u8; 16]);
    let k0 = sk.use_lmots_private_key().unwrap();
    assert_eq!(k0.q, 0);
    assert_eq!(k0.key.len(), 34 * 32);
    assert_eq!(sk.q, 1);
    let k1 = sk.use_lmots_private_key().unwrap();
    assert_eq!(k1.q, 1);
    assert_ne!(k0.key, k1.key);
    sk.q = 32;
    assert!(matches!(sk.use_lmots_private_key(), Err(LmsError::KeyExhausted)));
    assert_eq!(sk.q, 32);
}

#[test]
fn aux_cache_changes_nothing() {
    let param = h5(LmotsAlgorithmType::LmotsSha256N32W1);
    let seed = counting_seed();
    let plain = generate_key_pair_with_seed(&seed, &param);
    let mut none: Option<MutableExpandedAuxData> = None;
    let no_aux = generate_key_pair_with_seed_and_aux(&seed, &param, &mut none);
    let small = MutableExpandedAuxData::new(0, LmsAlgorithmType::LmsSha256M32H5);
    assert_eq!(small.levels, 0);
    assert_eq!(small.nodes.len(), 0);
    let mut aux = Some(MutableExpandedAuxData::new(2000, LmsAlgorithmType::LmsSha256M32H5));
    // 4 + 32 * 2^5 = 1028 fits in 2000 bytes, 4 + 32 * 2^6 does not
    assert_eq!(aux.as_ref().unwrap().levels, 5);
    let with_aux = generate_key_pair_with_seed_and_aux(&seed, &param, &mut aux);
    let aux = aux.unwrap();
    assert_eq!(aux.nodes.len(), 31);
    assert!(aux.nodes.iter().all(|n| n.len() == 32));
    let pk = plain.public_key.to_binary_representation();
    assert_eq!(no_aux.public_key.to_binary_representation(), pk);
    assert_eq!(with_aux.public_key.to_binary_representation(), pk);
    assert_eq!(aux.nodes[0], plain.public_key.key);
    let mut a = plain.private_key;
    let mut b = with_aux.private_key;
    for m in [b"x".as_slice(), b"y".as_slice(), b"z".as_slice()] {
        let sa = lms_sign(m, &mut a, None).unwrap();
        let sb = lms_sign(m, &mut b, Some(&aux)).unwrap();
        assert_eq!(sa, sb);
        assert!(lms_verify(m, &sb, &pk));
    }
}

#[test]
fn aux_cache_bytes_and_bad_mac() {
    let param = h5(LmotsAlgorithmType::LmotsSha256N32W1);
    let seed = counting_seed();
    let mut aux = Some(MutableExpandedAuxData::new(300, LmsAlgorithmType::LmsSha256M32H5));
    let kp = generate_key_pair_with_seed_and_aux(&seed, &param, &mut aux);
    let aux = aux.unwrap();
    // 4 + 32 * 2^3 = 260 fits in 300 bytes
    assert_eq!(aux.levels, 3);
    let bytes = hss_finalize_aux_data(&aux, &kp.private_key);
    assert_eq!(bytes.len(), 4 + 7 * 32 + 32);
    assert_eq!(&bytes[0..4], &[0, 0, 0, 7]);
    let loaded = hss_expand_aux_data(&bytes, &kp.private_key).unwrap();
    assert_eq!(loaded.levels, 3);
    assert_eq!(loaded.nodes, aux.nodes);
    let mut bad_mac = bytes.clone();
    let last = bad_mac.len() - 1;
    bad_mac[last] ^= 1;
    assert!(matches!(hss_expand_aux_data(&bad_mac, &kp.private_key), Err(LmsError::AuxInvalid)));
    let mut bad_mask = bytes.clone();
    bad_mask[3] = 6;
    assert!(matches!(hss_expand_aux_data(&bad_mask, &kp.private_key), Err(LmsError::AuxInvalid)));
    assert!(matches!(hss_expand_aux_data(&bytes[..bytes.len() - 1], &kp.private_key), Err(LmsError::AuxInvalid)));
    // a rejected cache is dropped: signing goes on from scratch and agrees
    let aux_opt = hss_expand_aux_data(&bad_mac, &kp.private_key).ok();
    let mut a = kp.private_key;
    let mut b = LmsPrivateKey::from_binary_representation(&a.to_binary_representation()).unwrap();
    let sa = lms_sign(b"m", &mut a, aux_opt.as_ref()).unwrap();
    let sb = lms_sign(b"m", &mut b, Some(&loaded)).unwrap();
    assert_eq!(sa, sb);
}

#[test]
fn random_key_pairs_differ() {
    let param = h5(LmotsAlgorithmType::LmotsSha256N32W8);
    let a = generate_key_pair(&param).unwrap();
    let b = generate_key_pair(&param).unwrap();
    assert_ne!(a.public_key.I, b.public_key.I);
    let pk = a.public_key.to_binary_representation();
    let mut sk = a.private_key;
    let sig = lms_sign(b"random", &mut sk, None).unwrap();
    assert!(lms_verify(b"random", &sig, &pk));
}
