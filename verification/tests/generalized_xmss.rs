//! Keys and signatures of several instances of the scheme.

use leansig::array::FieldArray;
use leansig::field::{NUM_BYTES, ORDER};
use leansig::generalized_xmss::{
    GeneralizedXMSSPublicKey, GeneralizedXMSSSecretKey, GeneralizedXMSSSignature,
    GeneralizedXMSSSignatureScheme, SigningError,
};
use leansig::inc_encoding::{IncomparableEncoding, TargetSumEncoding};
use leansig::message_hash::{AbortingHypercubeMessageHash, MessageHash, MESSAGE_LENGTH};
use leansig::prf::{Embed, PoseidonPRF, Pseudorandom};
use leansig::serialization::{DecodeError, Serializable};
use leansig::tweak_hash::{PoseidonTweakHash, TweakableHash};
use rand::{rng, RngExt};

/// A message hash with chunks of one bit.
type BitMessageHash<
    const PARAMETER_LEN: usize,
    const RAND_LEN: usize,
    const HASH_LEN_FE: usize,
    const DIMENSION: usize,
> = AbortingHypercubeMessageHash<PARAMETER_LEN, RAND_LEN, HASH_LEN_FE, DIMENSION, 2, 24, 127, 2, 9>;

type TestTH = PoseidonTweakHash<5, 7, 2, 9, 155>;

type PoseidonTweakW1L5 = PoseidonTweakHash<5, 7, 2, 9, 163>;

type MessageHashW1 = BitMessageHash<5, 5, 7, 163>;

type W1Encoding = TargetSumEncoding<MessageHashW1, 81>;

type W1Scheme = GeneralizedXMSSSignatureScheme<PoseidonPRF<7, 5>, W1Encoding, PoseidonTweakW1L5, 6>;

type W1Signature = GeneralizedXMSSSignature<W1Encoding, PoseidonTweakW1L5>;

type W1SecretKey = GeneralizedXMSSSecretKey<PoseidonPRF<7, 5>, W1Encoding, PoseidonTweakW1L5, 6>;

fn test_signature_scheme_correctness<
    PRF: Pseudorandom,
    IE: IncomparableEncoding,
    TH: TweakableHash,
    const LOG_LIFETIME: usize,
>(
    epoch: u32,
    activation_epoch: usize,
    num_active_epochs: usize,
) where
    PRF::Domain: Embed<TH::Domain>,
    PRF::Randomness: Embed<IE::Randomness>,
    TH::Parameter: Embed<IE::Parameter>,
{
    let mut rng = rng();
    let (pk, mut sk) = GeneralizedXMSSSignatureScheme::<PRF, IE, TH, LOG_LIFETIME>::key_gen(
        &mut rng,
        activation_epoch,
        num_active_epochs,
    );
    assert!(sk.get_activation_interval().contains(&(epoch as u64)));
    let mut iterations = 0;
    while !sk.get_prepared_interval().contains(&(epoch as u64)) && iterations < epoch {
        sk.advance_preparation();
        iterations += 1;
    }
    assert!(sk.get_prepared_interval().contains(&(epoch as u64)));
    let message: [u8; MESSAGE_LENGTH] = rng.random();
    let signature =
        GeneralizedXMSSSignatureScheme::<PRF, IE, TH, LOG_LIFETIME>::sign(&sk, epoch, &message);
    assert!(signature.is_ok());
    assert!(GeneralizedXMSSSignatureScheme::<PRF, IE, TH, LOG_LIFETIME>::verify(
        &pk,
        epoch,
        &message,
        &signature.unwrap(),
    ));
}

#[test]
fn test_target_sum_poseidon() {
    const NUM_CHUNKS: usize = MessageHashW1::DIMENSION;
    const MAX_CHUNK_VALUE: usize = MessageHashW1::BASE - 1;
    const EXPECTED_SUM: usize = NUM_CHUNKS * MAX_CHUNK_VALUE / 2;
    type IE = TargetSumEncoding<MessageHashW1, EXPECTED_SUM>;
    let lifetime = W1Scheme::lifetime() as usize;
    assert_eq!(lifetime, 1 << 6);
    test_signature_scheme_correctness::<PoseidonPRF<7, 5>, IE, PoseidonTweakW1L5, 6>(2, 0, lifetime);
    test_signature_scheme_correctness::<PoseidonPRF<7, 5>, IE, PoseidonTweakW1L5, 6>(19, 0, lifetime);
    test_signature_scheme_correctness::<PoseidonPRF<7, 5>, IE, PoseidonTweakW1L5, 6>(0, 0, lifetime);
    test_signature_scheme_correctness::<PoseidonPRF<7, 5>, IE, PoseidonTweakW1L5, 6>(11, 0, lifetime);
}

#[test]
fn test_deterministic() {
    const LOG_LIFETIME: usize = 6;
    let mut rng = rng();
    let (_pk, sk) = W1Scheme::key_gen(&mut rng, 0, 1 << LOG_LIFETIME);
    let message: [u8; MESSAGE_LENGTH] = rng.random();
    let epoch = 29;

    let sig1 = W1Scheme::sign(&sk, epoch, &message).unwrap();
    let sig2 = W1Scheme::sign(&sk, epoch, &message).unwrap();
    let rho1 = sig1.rho;
    let rho2 = sig2.rho;
    assert_eq!(rho1, rho2);
}

#[test]
fn test_large_base_poseidon() {
    type TH = PoseidonTweakHash<4, 4, 2, 8, 32>;
    type MH = AbortingHypercubeMessageHash<4, 8, 11, 32, 256, 3, 127, 2, 9>;
    const TARGET_SUM: usize = 1 << 12;
    type IE = TargetSumEncoding<MH, TARGET_SUM>;
    test_signature_scheme_correctness::<PoseidonPRF<4, 8>, IE, TH, 10>(0, 0, 1);
    test_signature_scheme_correctness::<PoseidonPRF<4, 8>, IE, TH, 10>(11, 10, 2);
}

#[test]
fn test_large_dimension_poseidon() {
    type TH = PoseidonTweakHash<4, 8, 2, 8, 256>;
    type MH = BitMessageHash<4, 8, 11, 256>;
    const TARGET_SUM: usize = 128;
    type IE = TargetSumEncoding<MH, TARGET_SUM>;
    test_signature_scheme_correctness::<PoseidonPRF<8, 8>, IE, TH, 10>(2, 0, 32);
    test_signature_scheme_correctness::<PoseidonPRF<8, 8>, IE, TH, 10>(19, 0, 32);
}

#[test]
fn test_aborting_target_sum() {
    type TH = PoseidonTweakHash<5, 7, 2, 9, 64>;
    type MH = AbortingHypercubeMessageHash<5, 5, 8, 64, 8, 8, 127, 2, 9>;
    const TARGET_SUM: usize = MH::DIMENSION * (MH::BASE - 1) / 2;
    type IE = TargetSumEncoding<MH, TARGET_SUM>;
    const LIFETIME: usize = 1 << 6;
    assert_eq!(TARGET_SUM, 224);
    test_signature_scheme_correctness::<PoseidonPRF<7, 5>, IE, TH, 6>(2, 0, LIFETIME);
    test_signature_scheme_correctness::<PoseidonPRF<7, 5>, IE, TH, 6>(19, 0, LIFETIME);
    test_signature_scheme_correctness::<PoseidonPRF<7, 5>, IE, TH, 6>(0, 0, LIFETIME);
    test_signature_scheme_correctness::<PoseidonPRF<7, 5>, IE, TH, 6>(11, 0, LIFETIME);
}

#[test]
fn test_ssz_encoding_structure() {
    const LOG_LIFETIME: usize = 6;
    let mut rng = rng();

    // Public keys.
    let root = TestTH::rand_domain(&mut rng);
    let parameter = TestTH::rand_parameter(&mut rng);
    let public_key = GeneralizedXMSSPublicKey::<TestTH> { root, parameter };
    let encoded = public_key.as_ssz_bytes();
    assert_eq!(encoded.len(), (7 + 5) * NUM_BYTES);
    let first_fe_bytes = root.as_ssz_bytes();
    assert_eq!(&encoded[0..NUM_BYTES], &first_fe_bytes[0..NUM_BYTES]);
    let decoded = GeneralizedXMSSPublicKey::<TestTH>::from_ssz_bytes(&encoded).unwrap();
    assert_eq!(public_key.root, decoded.root);
    assert_eq!(public_key.parameter, decoded.parameter);

    // Signatures.
    let (pk, sk) = W1Scheme::key_gen(&mut rng, 0, 1 << LOG_LIFETIME);
    let message: [u8; MESSAGE_LENGTH] = rng.random();
    let epoch = 5;
    let signature = W1Scheme::sign(&sk, epoch, &message).unwrap();
    let sig_encoded = signature.as_ssz_bytes();
    let rho_size = signature.rho.ssz_bytes_len();
    assert!(sig_encoded.len() >= 4 + rho_size + 4);
    let offset_path = u32::from_le_bytes(sig_encoded[0..4].try_into().unwrap()) as usize;
    assert_eq!(offset_path, 4 + rho_size + 4);
    let sig_decoded = W1Signature::from_ssz_bytes(&sig_encoded).unwrap();
    assert!(W1Scheme::verify(&pk, epoch, &message, &sig_decoded));

    // Secret keys.
    let (_pk2, sk2) = W1Scheme::key_gen(&mut rng, 0, 8);
    let sk_encoded = sk2.as_ssz_bytes();
    let prf_key_size = sk2.prf_key.ssz_bytes_len();
    let param_size = sk2.parameter.ssz_bytes_len();
    let fixed_part_size = prf_key_size + param_size + 8 + 8 + 4;
    assert!(sk_encoded.len() >= fixed_part_size);
    let activation_start = prf_key_size + param_size;
    let activation_epoch = u64::from_le_bytes(
        sk_encoded[activation_start..activation_start + 8].try_into().unwrap(),
    );
    assert_eq!(activation_epoch, sk2.activation_epoch);
    let sk_decoded = W1SecretKey::from_ssz_bytes(&sk_encoded).unwrap();
    let sk_reencoded = sk_decoded.as_ssz_bytes();
    assert_eq!(sk_encoded, sk_reencoded);
}

#[test]
fn test_ssz_decoding_errors() {
    // A public key one byte short.
    let encoded = vec![0u8; 47];
    let result = GeneralizedXMSSPublicKey::<TestTH>::from_ssz_bytes(&encoded);
    assert!(matches!(
        result,
        Err(DecodeError::InvalidByteLength {
            len: 47,
            expected: 48
        })
    ));

    // A signature without room for its fixed part.
    let encoded = vec![0u8; 8];
    let result = W1Signature::from_ssz_bytes(&encoded);
    assert!(matches!(
        result,
        Err(DecodeError::InvalidByteLength {
            len: 8,
            expected: 28
        })
    ));

    // A signature whose first offset points elsewhere.
    let mut encoded = vec![0u8; 128];
    encoded[0..4].copy_from_slice(&99u32.to_le_bytes());
    for i in 0..20 {
        encoded[4 + i] = 0;
    }
    encoded[24..28].copy_from_slice(&78u32.to_le_bytes());
    let result = W1Signature::from_ssz_bytes(&encoded);
    assert!(matches!(
        result,
        Err(DecodeError::InvalidByteLength {
            len: 99,
            expected: 28
        })
    ));
}

fn assert_bytes_invalid<T>(result: Result<T, DecodeError>, expected_msg_part: &str) {
    match result {
        Err(DecodeError::BytesInvalid(msg)) => {
            assert!(
                msg.contains(expected_msg_part),
                "Error message '{}' did not contain expected part '{}'",
                msg,
                expected_msg_part
            );
        }
        Err(e) => panic!("Wrong error type. Expected BytesInvalid, got {:?}", e),
        Ok(_) => panic!("Should have failed with BytesInvalid, but succeeded"),
    }
}

#[test]
fn test_ssz_panic_safety_malicious_offsets() {
    let mut rng = rng();
    let dummy_prf_key = PoseidonPRF::<7, 5>::key_gen(&mut rng);
    let dummy_param = PoseidonTweakW1L5::rand_parameter(&mut rng);
    let prf_key_size = dummy_prf_key.ssz_bytes_len();
    let param_size = dummy_param.ssz_bytes_len();
    let fixed_part_len = prf_key_size + param_size + 8 + 8 + 4;

    // The hashes start before the path.
    {
        let dummy_rho = W1Encoding::rand(&mut rng);
        let rho_size = dummy_rho.ssz_bytes_len();
        let sig_fixed_part_size = 4 + rho_size + 4;
        let mut encoded = vec![0u8; 200];
        encoded[0..4].copy_from_slice(&(sig_fixed_part_size as u32).to_le_bytes());
        let mut rho_buf = Vec::new();
        dummy_rho.ssz_append(&mut rho_buf);
        encoded[4..4 + rho_size].copy_from_slice(&rho_buf);
        let offset_hashes_pos = 4 + rho_size;
        encoded[offset_hashes_pos..offset_hashes_pos + 4].copy_from_slice(&10u32.to_le_bytes());
        let result = W1Signature::from_ssz_bytes(&encoded);
        assert_bytes_invalid(result, "Invalid variable offsets");
    }

    // The hashes start behind the end.
    {
        let dummy_rho = W1Encoding::rand(&mut rng);
        let rho_size = dummy_rho.ssz_bytes_len();
        let sig_fixed_part_size = 4 + rho_size + 4;
        let mut encoded = vec![0u8; 100];
        encoded[0..4].copy_from_slice(&(sig_fixed_part_size as u32).to_le_bytes());
        let mut rho_buf = Vec::new();
        dummy_rho.ssz_append(&mut rho_buf);
        encoded[4..4 + rho_size].copy_from_slice(&rho_buf);
        let offset_hashes_pos = 4 + rho_size;
        encoded[offset_hashes_pos..offset_hashes_pos + 4].copy_from_slice(&200u32.to_le_bytes());
        let result = W1Signature::from_ssz_bytes(&encoded);
        assert_bytes_invalid(result, "len=100");
    }

    // The tree of a secret key starts elsewhere.
    {
        let mut encoded = vec![0u8; fixed_part_len + 100];
        let mut pos = 0;
        let mut prf_buf = Vec::new();
        dummy_prf_key.ssz_append(&mut prf_buf);
        encoded[pos..pos + prf_key_size].copy_from_slice(&prf_buf);
        pos += prf_key_size;
        let mut param_buf = Vec::new();
        dummy_param.ssz_append(&mut param_buf);
        encoded[pos..pos + param_size].copy_from_slice(&param_buf);
        pos += param_size;
        pos += 8;
        pos += 8;
        encoded[pos..pos + 4].copy_from_slice(&10u32.to_le_bytes());
        let result = W1SecretKey::from_ssz_bytes(&encoded);
        assert!(result.is_err());
    }
}

#[test]
fn test_ssz_determinism() {
    const LOG_LIFETIME: usize = 6;
    let mut rng = rng();
    let root = TestTH::rand_domain(&mut rng);
    let parameter = TestTH::rand_parameter(&mut rng);
    let public_key = GeneralizedXMSSPublicKey::<TestTH> { root, parameter };
    let encoded1 = public_key.as_ssz_bytes();
    let encoded2 = public_key.as_ssz_bytes();
    assert_eq!(encoded1, encoded2);

    let (_pk, sk) = W1Scheme::key_gen(&mut rng, 0, 1 << LOG_LIFETIME);
    let message: [u8; MESSAGE_LENGTH] = rng.random();
    let epoch = 5;
    let signature = W1Scheme::sign(&sk, epoch, &message).unwrap();
    let sig_encoded1 = signature.as_ssz_bytes();
    let sig_encoded2 = signature.as_ssz_bytes();
    assert_eq!(sig_encoded1, sig_encoded2);

    let (_pk2, sk2) = W1Scheme::key_gen(&mut rng, 0, 8);
    let sk_encoded1 = sk2.as_ssz_bytes();
    let sk_encoded2 = sk2.as_ssz_bytes();
    assert_eq!(sk_encoded1, sk_encoded2);
}

#[test]
fn test_ssz_signature_integration() {
    const LOG_LIFETIME: usize = 6;
    let mut rng = rng();
    let (pk, sk) = W1Scheme::key_gen(&mut rng, 0, 1 << LOG_LIFETIME);
    let message: [u8; MESSAGE_LENGTH] = rng.random();
    let epoch = 7;
    let signature = W1Scheme::sign(&sk, epoch, &message).unwrap();
    assert!(W1Scheme::verify(&pk, epoch, &message, &signature));

    let pk_encoded = pk.as_ssz_bytes();
    let pk_decoded =
        GeneralizedXMSSPublicKey::<PoseidonTweakW1L5>::from_ssz_bytes(&pk_encoded).unwrap();
    assert!(W1Scheme::verify(&pk_decoded, epoch, &message, &signature));

    let sig_encoded = signature.as_ssz_bytes();
    let sig_decoded = W1Signature::from_ssz_bytes(&sig_encoded).unwrap();
    assert!(W1Scheme::verify(&pk, epoch, &message, &sig_decoded));
    assert!(W1Scheme::verify(&pk_decoded, epoch, &message, &sig_decoded));

    let sk_encoded = sk.as_ssz_bytes();
    let sk_decoded = W1SecretKey::from_ssz_bytes(&sk_encoded).unwrap();
    let sig2 = W1Scheme::sign(&sk_decoded, epoch + 1, &message).unwrap();
    assert!(W1Scheme::verify(&pk, epoch + 1, &message, &sig2));
}

#[test]
fn proptest_ssz_public_key_roundtrip_and_determinism() {
    let mut rng = rng();
    let mut cases = 0;
    while cases < 256 {
        let root_values: [u32; 7] = std::array::from_fn(|_| rng.random_range(0..ORDER));
        let param_values: [u32; 5] = std::array::from_fn(|_| rng.random_range(0..ORDER));
        let original = GeneralizedXMSSPublicKey::<TestTH> {
            root: FieldArray::new(root_values),
            parameter: FieldArray::new(param_values),
        };
        let encoded1 = original.as_ssz_bytes();
        let encoded2 = original.as_ssz_bytes();
        assert_eq!(&encoded1, &encoded2);
        let expected_size = 12 * NUM_BYTES;
        assert_eq!(encoded1.len(), expected_size);
        assert_eq!(original.ssz_bytes_len(), expected_size);
        let decoded = GeneralizedXMSSPublicKey::<TestTH>::from_ssz_bytes(&encoded1)
            .expect("valid SSZ bytes should decode");
        assert_eq!(original.root, decoded.root);
        assert_eq!(original.parameter, decoded.parameter);
        cases += 1;
    }
}

type SmallEncoding = TargetSumEncoding<BitMessageHash<5, 5, 1, 8>, 4>;

type SmallScheme = GeneralizedXMSSSignatureScheme<PoseidonPRF<7, 5>, SmallEncoding, TestTH, 5>;

#[test]
fn every_active_epoch_is_signed() {
    let mut rng = rng();
    let (pk, sk) = SmallScheme::key_gen(&mut rng, 5, 9);
    assert_eq!(sk.get_activation_interval(), 5..14);
    assert_eq!(sk.get_prepared_interval(), 5..14);
    for epoch in 5..14 {
        let message = [epoch as u8; MESSAGE_LENGTH];
        let signature = SmallScheme::sign(&sk, epoch, &message).unwrap();
        assert_eq!(signature.path().co_path.len(), 5);
        assert_eq!(signature.hashes().len(), 8);
        assert!(SmallScheme::verify(&pk, epoch, &message, &signature));
    }
}

#[test]
fn other_signatures_are_rejected() {
    let mut rng = rng();
    let (pk, sk) = SmallScheme::key_gen(&mut rng, 0, 32);
    let message = [7; MESSAGE_LENGTH];
    let epoch = 30;
    let signature = SmallScheme::sign(&sk, epoch, &message).unwrap();
    assert!(SmallScheme::verify(&pk, epoch, &message, &signature));
    // Another message or another epoch.
    assert!(!SmallScheme::verify(&pk, epoch, &[8; MESSAGE_LENGTH], &signature));
    assert!(!SmallScheme::verify(&pk, epoch + 1, &message, &signature));
    // An epoch beyond the lifetime.
    assert!(!SmallScheme::verify(&pk, 32, &message, &signature));
    // Another key.
    let (other_pk, _other_sk) = SmallScheme::key_gen(&mut rng, 0, 1);
    assert!(!SmallScheme::verify(&other_pk, epoch, &message, &signature));
    // Another node of a chain.
    let mut changed = SmallScheme::sign(&sk, epoch, &message).unwrap();
    changed.hashes[3] = TestTH::rand_domain(&mut rng);
    assert!(!SmallScheme::verify(&pk, epoch, &message, &changed));
    // Another node of the path.
    let mut changed = SmallScheme::sign(&sk, epoch, &message).unwrap();
    changed.path.co_path[4] = TestTH::rand_domain(&mut rng);
    assert!(!SmallScheme::verify(&pk, epoch, &message, &changed));
    // Too few nodes of chains.
    let mut changed = SmallScheme::sign(&sk, epoch, &message).unwrap();
    changed.hashes.pop();
    assert!(!SmallScheme::verify(&pk, epoch, &message, &changed));
    // Randomness of another attempt: the message has no codeword or another one.
    let mut changed = SmallScheme::sign(&sk, epoch, &message).unwrap();
    changed.rho = SmallEncoding::rand(&mut rng);
    assert!(!SmallScheme::verify(&pk, epoch, &message, &changed));
}

#[test]
fn keys_are_made_of_their_parts() {
    let prf_key = FieldArray::new([1, 2, 3, 4, 5, 6, 7, 8]);
    let parameter = FieldArray::new([9, 10, 11, 12, 13]);
    let padding = vec![(FieldArray::new([14; 7]), FieldArray::new([15; 7])); 5];
    let (pk, sk) = SmallScheme::key_pair_of(prf_key, parameter, &padding, 3, 4);
    let (same_pk, same_sk) = SmallScheme::key_pair_of(prf_key, parameter, &padding, 3, 4);
    assert_eq!(pk.root(), same_pk.root());
    assert_eq!(pk.parameter(), &parameter);
    assert_eq!(sk.as_ssz_bytes(), same_sk.as_ssz_bytes());
    assert_eq!(sk.activation_epoch, 3);
    assert_eq!(sk.num_active_epochs, 4);
    // The leaves 3 to 6 are completed on both sides.
    assert_eq!(sk.tree.layers.len(), 6);
    assert_eq!(sk.tree.layers[0].start_index, 2);
    assert_eq!(sk.tree.layers[0].nodes.len(), 6);
    assert_eq!(sk.tree.layers[0].nodes[0], FieldArray::new([14; 7]));
    assert_eq!(sk.tree.layers[0].nodes[5], FieldArray::new([15; 7]));
    assert_eq!(sk.tree.layers[1].start_index, 0);
    assert_eq!(sk.tree.layers[1].nodes.len(), 4);
    assert_eq!(sk.tree.layers[5].start_index, 0);
    assert_eq!(&sk.tree.layers[5].nodes, &vec![*pk.root()]);
    let signature = SmallScheme::sign(&sk, 6, &[0; MESSAGE_LENGTH]).unwrap();
    assert!(SmallScheme::verify(&pk, 6, &[0; MESSAGE_LENGTH], &signature));
}

#[test]
fn advancing_changes_nothing() {
    let mut rng = rng();
    let (_pk, mut sk) = SmallScheme::key_gen(&mut rng, 8, 8);
    let before = sk.as_ssz_bytes();
    sk.advance_preparation();
    assert_eq!(sk.as_ssz_bytes(), before);
}

#[test]
fn encodings_have_their_lengths() {
    type SmallSignature = GeneralizedXMSSSignature<SmallEncoding, TestTH>;
    type SmallSecretKey = GeneralizedXMSSSecretKey<PoseidonPRF<7, 5>, SmallEncoding, TestTH, 5>;
    let mut rng = rng();
    let (pk, sk) = SmallScheme::key_gen(&mut rng, 4, 4);
    assert!(GeneralizedXMSSPublicKey::<TestTH>::is_ssz_fixed_len());
    assert_eq!(GeneralizedXMSSPublicKey::<TestTH>::ssz_fixed_len(), 48);
    assert_eq!(pk.ssz_bytes_len(), 48);
    assert!(!SmallSignature::is_ssz_fixed_len());
    assert!(!SmallSecretKey::is_ssz_fixed_len());
    let signature = SmallScheme::sign(&sk, 4, &[1; MESSAGE_LENGTH]).unwrap();
    // Two offsets, the randomness, the path with its offset, and the hashes.
    assert_eq!(signature.ssz_bytes_len(), 4 + 20 + 4 + (4 + 5 * 28) + 8 * 28);
    assert_eq!(signature.as_ssz_bytes().len(), signature.ssz_bytes_len());
    // Layers of 4, 2, 2, 2, 2 and 1 nodes.
    let tree_len = 12 + 6 * 4 + 6 * 12 + 13 * 28;
    assert_eq!(sk.tree.ssz_bytes_len(), tree_len);
    assert_eq!(sk.ssz_bytes_len(), 32 + 20 + 8 + 8 + 4 + tree_len);
    assert_eq!(sk.as_ssz_bytes().len(), sk.ssz_bytes_len());
    let mut buf = vec![0xaa];
    signature.ssz_append(&mut buf);
    assert_eq!(buf[0], 0xaa);
    assert_eq!(&buf[1..], &signature.as_ssz_bytes()[..]);
    let mut buf = vec![0xbb];
    sk.ssz_append(&mut buf);
    assert_eq!(buf[0], 0xbb);
    assert_eq!(&buf[1..], &sk.as_ssz_bytes()[..]);
}

#[test]
fn broken_secret_keys_do_not_decode() {
    type SmallSecretKey = GeneralizedXMSSSecretKey<PoseidonPRF<7, 5>, SmallEncoding, TestTH, 5>;
    let mut rng = rng();
    let (_pk, sk) = SmallScheme::key_gen(&mut rng, 4, 4);
    let encoded = sk.as_ssz_bytes();
    assert!(matches!(
        SmallSecretKey::from_ssz_bytes(&encoded[..71]),
        Err(DecodeError::InvalidByteLength { len: 71, expected: 72 })
    ));
    let mut changed = encoded.clone();
    changed[68..72].copy_from_slice(&73u32.to_le_bytes());
    assert!(matches!(
        SmallSecretKey::from_ssz_bytes(&changed),
        Err(DecodeError::InvalidByteLength { len: 72, expected: 73 })
    ));
    // The list of layers does not start where its first offset says.
    let mut changed = encoded.clone();
    changed[84..88].copy_from_slice(&1u32.to_le_bytes());
    assert!(matches!(
        SmallSecretKey::from_ssz_bytes(&changed),
        Err(DecodeError::InvalidListFixedBytesLen(1))
    ));
    let decoded = SmallSecretKey::from_ssz_bytes(&encoded).unwrap();
    assert_eq!(decoded.prf_key, sk.prf_key);
    assert_eq!(decoded.parameter, sk.parameter);
    assert_eq!(decoded.activation_epoch, 4);
    assert_eq!(decoded.num_active_epochs, 4);
    assert_eq!(decoded.tree.depth, 5);
    assert_eq!(decoded.tree.layers.len(), 6);
    assert_eq!(decoded.tree.layers[0].start_index, 4);
    assert_eq!(decoded.tree.layers[0].nodes, sk.tree.layers[0].nodes);
}

#[test]
fn broken_signatures_do_not_decode() {
    type SmallSignature = GeneralizedXMSSSignature<SmallEncoding, TestTH>;
    let mut rng = rng();
    let (_pk, sk) = SmallScheme::key_gen(&mut rng, 4, 4);
    let encoded = SmallScheme::sign(&sk, 5, &[1; MESSAGE_LENGTH]).unwrap().as_ssz_bytes();
    // A byte is left at the end of the hashes.
    let mut changed = encoded.clone();
    changed.push(0);
    assert!(matches!(
        SmallSignature::from_ssz_bytes(&changed),
        Err(DecodeError::InvalidByteLength { len: 1, expected: 28 })
    ));
    let mut changed = encoded.clone();
    changed[24..28].copy_from_slice(&27u32.to_le_bytes());
    assert_eq!(
        SmallSignature::from_ssz_bytes(&changed).err(),
        Some(DecodeError::BytesInvalid(format!(
            "Invalid variable offsets: path=28 hashes=27 len={}",
            encoded.len()
        )))
    );
    let decoded = SmallSignature::from_ssz_bytes(&encoded).unwrap();
    assert_eq!(decoded.as_ssz_bytes(), encoded);
}

#[test]
fn signing_gives_up() {
    // No four bits have this sum.
    type IE = TargetSumEncoding<BitMessageHash<5, 5, 1, 4>, 5>;
    type Scheme = GeneralizedXMSSSignatureScheme<PoseidonPRF<7, 5>, IE, TestTH, 2>;
    let mut rng = rng();
    let (_pk, sk) = Scheme::key_gen(&mut rng, 1, 2);
    let result = Scheme::sign(&sk, 1, &[3; MESSAGE_LENGTH]);
    assert!(matches!(
        result,
        Err(SigningError::EncodingAttemptsExceeded { attempts: 100_000 })
    ));
}
