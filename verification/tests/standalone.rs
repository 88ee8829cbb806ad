//! Exported signatures and their verifier.

use leansig::array::FieldArray;
use leansig::generalized_xmss::{
    GeneralizedXMSSPublicKey, GeneralizedXMSSSignature, GeneralizedXMSSSignatureScheme,
};
use leansig::prf::PoseidonPRF;
use leansig::serialization::Serializable;
use leansig::standalone::{
    chain_walk, export_test_vector, is_test_vector, parse_test_vector, verify, VectorEncoding,
    VectorHash, HASH_LEN, PUBLIC_KEY_SIZE, RAND_LEN,
};
use leansig::tweak_hash::{chain, TweakableHash};
use rand::{rng, RngExt};

type Scheme = GeneralizedXMSSSignatureScheme<
    PoseidonPRF<HASH_LEN, RAND_LEN>,
    VectorEncoding,
    VectorHash,
    32,
>;

const MESSAGE: [u8; 32] = [0x5a; 32];

fn signed(
    epoch: u32,
) -> (
    GeneralizedXMSSPublicKey<VectorHash>,
    GeneralizedXMSSSignature<VectorEncoding, VectorHash>,
) {
    let mut rng = rng();
    let (pk, sk) = Scheme::key_gen(&mut rng, epoch as usize - 1, 3);
    let sig = Scheme::sign(&sk, epoch, &MESSAGE).unwrap();
    (pk, sig)
}

#[test]
fn exported_signatures_verify() {
    let (pk, sig) = signed(1005);
    let data = export_test_vector(1005, &MESSAGE, &pk, &sig);
    let sig_len = sig.ssz_bytes_len();
    assert_eq!(data.len(), 4 + 32 + 4 + PUBLIC_KEY_SIZE + 4 + sig_len);
    assert_eq!(pk.ssz_bytes_len(), PUBLIC_KEY_SIZE);
    assert_eq!(sig_len, 4 + 28 + 4 + (4 + 32 * 32) + 46 * 32);
    assert!(is_test_vector(&data));
    let tv = parse_test_vector(&data);
    assert_eq!(tv.epoch, 1005);
    assert_eq!(tv.message, MESSAGE);
    assert_eq!(&tv.pk_root, pk.root());
    assert_eq!(&tv.pk_parameter, pk.parameter());
    assert_eq!(&tv.rho, sig.rho());
    assert_eq!(&tv.auth_path, &sig.path().co_path);
    assert_eq!(&tv.hashes, sig.hashes());
    assert!(verify(&tv));
    assert!(Scheme::verify(&pk, 1005, &MESSAGE, &sig));
}

#[test]
fn changed_vectors_fail() {
    let (pk, sig) = signed(7);
    let data = export_test_vector(7, &MESSAGE, &pk, &sig);
    assert!(verify(&parse_test_vector(&data)));
    // The epoch, the message, the root, the parameter, the randomness, the path and
    // the hashes.
    for at in [0, 4, 40, 72, 100, 140, data.len() - 4] {
        let mut changed = data.clone();
        changed[at] ^= 1;
        assert!(is_test_vector(&changed));
        assert!(!verify(&parse_test_vector(&changed)));
    }
    let mut tv = parse_test_vector(&data);
    tv.hashes.pop();
    assert!(!verify(&tv));
    let mut tv = parse_test_vector(&data);
    tv.auth_path.pop();
    assert!(!verify(&tv));
    // A node that is cut short is passed over.
    let mut longer = data.clone();
    longer.extend_from_slice(&[0; 5]);
    let sig_len = sig.ssz_bytes_len() as u32 + 5;
    longer[92..96].copy_from_slice(&sig_len.to_le_bytes());
    assert!(is_test_vector(&longer));
    assert!(verify(&parse_test_vector(&longer)));
}

#[test]
fn broken_vectors_are_told() {
    let (pk, sig) = signed(9);
    let data = export_test_vector(9, &MESSAGE, &pk, &sig);
    assert!(!is_test_vector(&[]));
    assert!(!is_test_vector(&data[..39]));
    assert!(!is_test_vector(&data[..95]));
    assert!(!is_test_vector(&data[..data.len() - 1]));
    // A public key that is too short.
    let mut changed = data.clone();
    changed[36..40].copy_from_slice(&51u32.to_le_bytes());
    assert!(!is_test_vector(&changed));
    // Hashes that start in the offset of the path, and behind the end.
    for offset in [39u32, u32::MAX] {
        let mut changed = data.clone();
        changed[128..132].copy_from_slice(&offset.to_le_bytes());
        assert!(!is_test_vector(&changed));
    }
    let mut changed = data.clone();
    changed[128..132].copy_from_slice(&40u32.to_le_bytes());
    assert!(is_test_vector(&changed));
    assert!(parse_test_vector(&changed).auth_path.is_empty());
}

#[test]
fn chains_agree() {
    let mut rng = rng();
    let engine = VectorHash::engine();
    let parameter = VectorHash::rand_parameter(&mut rng);
    let start: FieldArray<8> = VectorHash::rand_domain(&mut rng);
    let epoch: u32 = rng.random();
    let walked = chain_walk(&engine.perm16, &parameter, epoch, 45, 3, 4, &start);
    assert_eq!(walked, chain::<VectorHash>(&engine, &parameter, epoch, 45, 3, 4, &start));
    assert_eq!(chain_walk(&engine.perm16, &parameter, epoch, 45, 3, 0, &start), start);
}
