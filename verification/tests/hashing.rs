//! Field elements, tweaks, hashes, chains and encodings of messages.

use leansig::array::FieldArray;
use leansig::field::{digits_of_u128, ORDER};
use leansig::inc_encoding::{
    check_sum, sum_of_chunks, IncomparableEncoding, TargetSumEncoding, TargetSumError,
};
use leansig::message_hash::{
    aborting_hypercube_hash, encode_message, hypercube_chunks, AbortingHypercubeMessageHash,
    MessageHash,
};
use leansig::poseidon::{
    feed_forward, poseidon_compress_16, poseidon_compress_24, poseidon_replacement_t_sponge,
    poseidon_safe_domain_separator,
};
use leansig::prf::{PoseidonPRF, Pseudorandom};
use leansig::tweak::{chain_tweak_fe, encode_epoch, tree_tweak_fe};
use leansig::tweak_hash::{
    chain, chain_hash, leaf_hash, tree_merge, PoseidonEngine, PoseidonTweakHash, TweakableHash,
};
use p3_field::PrimeField32;
use p3_koala_bear::{default_koalabear_poseidon1_24, KoalaBear};
use p3_symmetric::Permutation;
use rand::rng;

type TH = PoseidonTweakHash<5, 8, 2, 9, 46>;

const PERMUTED_16: [u32; 16] = [
    610090613, 935319874, 1893335292, 796792199, 356405232, 552237741, 55134556, 1215104204,
    1823723405, 1133298033, 1780633798, 1453946561, 710069176, 1128629550, 1917333254, 1175481618,
];

const PERMUTED_24: [u32; 24] = [
    511672087, 215882318, 237782537, 740528428, 712760904, 54615367, 751514671, 110231969,
    1905276435, 992525666, 918312360, 18628693, 749929200, 1916418953, 691276896, 1112901727,
    1163558623, 882867603, 673396520, 1480278156, 1402044758, 1693467175, 1766273044, 433841551,
];

fn engine() -> PoseidonEngine {
    TH::engine()
}

/// The compression of a full state, from the outside permutation.
fn compressed_directly(input: &[u32]) -> Vec<u32> {
    let mut state = [KoalaBear::new(0); 24];
    for (i, x) in input.iter().enumerate() {
        state[i] = KoalaBear::new(*x);
    }
    let permuted = default_koalabear_poseidon1_24().permute(state);
    (0..24).map(|i| (permuted[i] + state[i]).as_canonical_u32()).collect()
}

#[test]
fn field_elements_are_reduced() {
    let array = FieldArray::new([0, 1, ORDER - 1, ORDER, ORDER + 5, u32::MAX]);
    assert_eq!(
        array.elements(),
        &[0, 1, ORDER - 1, 0, 5, (u32::MAX as u64 % ORDER as u64) as u32]
    );
    assert!(array.equals(&FieldArray::new([0, 1, ORDER - 1, 0, 5, u32::MAX])));
    assert!(!array.equals(&FieldArray::new([0, 1, ORDER - 1, 0, 6, u32::MAX])));
}

#[test]
fn random_arrays_differ() {
    let mut rng = rng();
    let a = FieldArray::<8>::random(&mut rng);
    let b = FieldArray::<8>::random(&mut rng);
    assert_ne!(a, b);
    assert!(a.elements().iter().all(|x| *x < ORDER));
}

#[test]
fn digits_to_the_order() {
    assert_eq!(digits_of_u128::<3>(0), [0, 0, 0]);
    assert_eq!(digits_of_u128::<3>(ORDER as u128), [0, 1, 0]);
    assert_eq!(
        digits_of_u128::<3>(7 + 8 * (ORDER as u128) + 9 * (ORDER as u128) * (ORDER as u128)),
        [7, 8, 9]
    );
    // Digits beyond the last are dropped.
    assert_eq!(digits_of_u128::<1>(3 + ORDER as u128), [3]);
}

#[test]
fn states_are_added() {
    let output: [u32; 2] = feed_forward(&[ORDER - 1, 5, 6], &[3, 7, 8]);
    assert_eq!(output, [2, 12]);
}

#[test]
fn compression_of_width_16() {
    let engine = engine();
    let input: [u32; 16] = std::array::from_fn(|i| i as u32);
    let output: [u32; 16] = poseidon_compress_16(&engine.perm16, &input);
    for i in 0..16 {
        assert_eq!(output[i], (PERMUTED_16[i] + i as u32) % ORDER);
    }
    let truncated: [u32; 3] = poseidon_compress_16(&engine.perm16, &input);
    assert_eq!(truncated, output[..3]);
    let short: [u32; 16] = poseidon_compress_16(&engine.perm16, &[1, 2]);
    let mut filled = [0; 16];
    filled[0] = 1;
    filled[1] = 2;
    assert_eq!(short, poseidon_compress_16::<16>(&engine.perm16, &filled));
}

#[test]
fn compression_of_width_24() {
    let engine = engine();
    let input: [u32; 24] = std::array::from_fn(|i| i as u32);
    let output: [u32; 24] = poseidon_compress_24(&engine.perm24, &input);
    for i in 0..24 {
        assert_eq!(output[i], (PERMUTED_24[i] + i as u32) % ORDER);
    }
    let large: [u32; 24] = [ORDER - 1; 24];
    assert_eq!(
        poseidon_compress_24::<24>(&engine.perm24, &large).to_vec(),
        compressed_directly(&large)
    );
}

#[test]
fn separators_and_sponges() {
    let engine = engine();
    let separator: [u32; 9] = poseidon_safe_domain_separator(&engine.perm24, &[5, 2, 46, 8]);
    let packed = (5u128 << 96) | (2u128 << 64) | (46u128 << 32) | 8;
    assert_eq!(separator.to_vec(), compressed_directly(&digits_of_u128::<24>(packed))[..9]);
    // Two pieces, of 15 and of 3 elements.
    let input: Vec<u32> = (100..118).collect();
    let output: [u32; 8] = poseidon_replacement_t_sponge(&engine.perm24, &separator, &input);
    let mut state = separator.to_vec();
    state.extend_from_slice(&input[..15]);
    state = compressed_directly(&state);
    state.truncate(9);
    state.extend_from_slice(&input[15..]);
    assert_eq!(output.to_vec(), compressed_directly(&state)[9..17]);
    // Nothing to take in.
    let empty: [u32; 8] = poseidon_replacement_t_sponge(&engine.perm24, &separator, &[]);
    assert_eq!(empty, [0; 8]);
}

#[test]
fn tweaks() {
    assert_eq!(chain_tweak_fe::<2>(1, 2, 3), [16909056, 0]);
    assert_eq!(tree_tweak_fe::<2>(1, 5), [67109629, 516]);
    assert_eq!(encode_epoch::<2>(7), [1794, 0]);
    assert_eq!(encode_epoch::<2>(u32::MAX), [67108094, 516]);
    // The separators tell the tweaks apart.
    assert_ne!(chain_tweak_fe::<2>(0, 0, 0), tree_tweak_fe::<2>(0, 0));
    assert_ne!(chain_tweak_fe::<2>(0, 0, 0), encode_epoch::<2>(0));
    assert_ne!(tree_tweak_fe::<2>(0, 0), encode_epoch::<2>(0));
}

#[test]
fn messages_as_elements() {
    assert_eq!(
        encode_message::<9>(&[0xff; 32]),
        [
            1539525976, 1261153412, 1969546126, 1544481308, 1871195519, 936857536, 333911385,
            1230415057, 272
        ]
    );
    let mut message = [0; 32];
    message[..4].copy_from_slice(&ORDER.to_le_bytes());
    assert_eq!(encode_message::<9>(&message), [0, 1, 0, 0, 0, 0, 0, 0, 0]);
    assert_eq!(encode_message::<9>(&[0; 32]), [0; 9]);
    let mut other = [0xff; 32];
    other[31] = 0xfe;
    assert_ne!(encode_message::<9>(&[0xff; 32]), encode_message::<9>(&other));
}

#[test]
fn chunks_of_hash_elements() {
    // 127 * 123456 + 5, of which the quotient by 127 has these digits.
    let chunks = hypercube_chunks::<2, 11, 8, 8, 127>(&[15678917, 127 * 83]).unwrap();
    assert_eq!(chunks, vec![0, 0, 1, 1, 6, 3, 0, 0, 3, 2, 1]);
    // The bound is the largest element, which is rejected.
    assert_eq!(hypercube_chunks::<2, 11, 8, 8, 127>(&[15678917, ORDER - 1]), None);
    let chunks = hypercube_chunks::<2, 11, 8, 8, 127>(&[15678917, ORDER - 2]).unwrap();
    assert_eq!(&chunks[8..], &[7, 7, 7]);
    // An element that gives no chunk is not looked at.
    assert!(hypercube_chunks::<2, 8, 8, 8, 127>(&[0, ORDER - 1]).is_some());
    assert_eq!(hypercube_chunks::<1, 0, 8, 8, 127>(&[ORDER - 1]), Some(vec![]));
}

#[test]
fn hashes_of_messages() {
    let engine = engine();
    let parameter = FieldArray::new([1, 2, 3, 4, 5]);
    let randomness = FieldArray::new([6, 7, 8, 9, 10, 11, 12]);
    let message = [13; 32];
    let chunks = aborting_hypercube_hash::<5, 7, 8, 46, 8, 8, 127, 2, 9>(
        &engine.perm24,
        parameter.elements(),
        77,
        randomness.elements(),
        &message,
    )
    .unwrap();
    let mut combined = encode_message::<9>(&message).to_vec();
    combined.extend_from_slice(parameter.elements());
    combined.extend_from_slice(&encode_epoch::<2>(77));
    combined.extend_from_slice(randomness.elements());
    let hash: [u32; 8] = compressed_directly(&combined)[..8].try_into().unwrap();
    assert_eq!(Some(chunks), hypercube_chunks::<8, 46, 8, 8, 127>(&hash));
}

#[test]
fn sums_of_chunks() {
    assert_eq!(sum_of_chunks(&vec![]), 0);
    assert_eq!(sum_of_chunks(&vec![255, 255, 1]), 511);
    assert_eq!(check_sum(Some(vec![3, 4]), 7), Ok(vec![3, 4]));
    assert_eq!(
        check_sum(Some(vec![3, 5]), 7),
        Err(TargetSumError::Mismatch { expected: 7, actual: 8 })
    );
    assert_eq!(check_sum(None, 7), Err(TargetSumError::Aborted));
}

#[test]
fn codewords_are_incomparable() {
    type MH = AbortingHypercubeMessageHash<5, 7, 1, 4, 8, 8, 127, 2, 9>;
    type IE = TargetSumEncoding<MH, 14>;
    let engine = IE::engine();
    let parameter = FieldArray::new([1, 2, 3, 4, 5]);
    let mut codewords: Vec<Vec<u8>> = Vec::new();
    for i in 0..400 {
        let randomness = FieldArray::new([i, 0, 0, 0, 0, 0, 0]);
        match IE::encode(&engine, &parameter, &[1; 32], &randomness, 3) {
            Ok(x) => {
                assert_eq!(x.len(), 4);
                assert!(x.iter().all(|c| *c < 8));
                assert_eq!(sum_of_chunks(&x), 14);
                assert_eq!(MH::apply(&engine, &parameter, 3, &randomness, &[1; 32]), Some(x.clone()));
                codewords.push(x);
            }
            Err(error) => assert!(matches!(
                error,
                TargetSumError::Mismatch { expected: 14, .. }
            )),
        }
    }
    assert!(codewords.len() > 1);
    for a in &codewords {
        for b in &codewords {
            assert!(a == b || a.iter().zip(b).any(|(x, y)| x > y));
        }
    }
}

#[test]
fn chains_compose() {
    let mut rng = rng();
    let engine = engine();
    let parameter = TH::rand_parameter(&mut rng);
    let start = TH::rand_domain(&mut rng);
    let whole = chain::<TH>(&engine, &parameter, 9, 2, 0, 7, &start);
    let middle = chain::<TH>(&engine, &parameter, 9, 2, 0, 3, &start);
    assert_eq!(chain::<TH>(&engine, &parameter, 9, 2, 3, 4, &middle), whole);
    assert_eq!(chain::<TH>(&engine, &parameter, 9, 2, 3, 0, &middle), middle);
    let step = chain_hash::<5, 8, 2>(&engine.perm16, &parameter, 9, 2, 1, &start);
    assert_eq!(chain::<TH>(&engine, &parameter, 9, 2, 0, 1, &start), step);
    let mut input = start.elements().to_vec();
    input.extend_from_slice(parameter.elements());
    input.extend_from_slice(&chain_tweak_fe::<2>(9, 2, 1));
    assert_eq!(step.elements(), &poseidon_compress_16::<8>(&engine.perm16, &input));
}

#[test]
fn nodes_of_trees() {
    let mut rng = rng();
    let engine = engine();
    let parameter = TH::rand_parameter(&mut rng);
    let left = TH::rand_domain(&mut rng);
    let right = TH::rand_domain(&mut rng);
    let node = tree_merge::<5, 8, 2>(&engine.perm24, &parameter, 3, 4, &left, &right);
    let mut input = parameter.elements().to_vec();
    input.extend_from_slice(&tree_tweak_fe::<2>(3, 4));
    input.extend_from_slice(left.elements());
    input.extend_from_slice(right.elements());
    assert_eq!(node.elements(), &compressed_directly(&input)[..8]);
    assert_ne!(
        node,
        tree_merge::<5, 8, 2>(&engine.perm24, &parameter, 3, 4, &right, &left)
    );

    let ends = vec![left, right];
    let leaf = leaf_hash::<5, 8, 2, 9, 46>(&engine.perm24, &parameter, 6, &ends);
    let separator: [u32; 9] = poseidon_safe_domain_separator(&engine.perm24, &[5, 2, 46, 8]);
    let mut input = parameter.elements().to_vec();
    input.extend_from_slice(&tree_tweak_fe::<2>(0, 6));
    input.extend_from_slice(left.elements());
    input.extend_from_slice(right.elements());
    assert_eq!(
        leaf.elements(),
        &poseidon_replacement_t_sponge::<8>(&engine.perm24, &separator, &input)
    );
}

#[test]
fn pseudorandom_values() {
    type PRF = PoseidonPRF<8, 7>;
    let engine = PRF::engine();
    let key = FieldArray::new([1, 2, 3, 4, 5, 6, 7, 8]);
    let value = PRF::get_domain_element(&engine, &key, 9, 10);
    let mut input = key.elements().to_vec();
    input.extend_from_slice(&digits_of_u128::<4>((9 << 8) + (10 << 40)));
    assert_eq!(value.elements(), &compressed_directly(&input)[..8]);
    let randomness = PRF::get_randomness(&engine, &key, 9, &[11; 32], 10);
    let mut input = key.elements().to_vec();
    input.extend_from_slice(&digits_of_u128::<4>(1 + (9 << 8) + (10 << 40)));
    input.extend_from_slice(&encode_message::<9>(&[11; 32]));
    assert_eq!(randomness.elements(), &compressed_directly(&input)[..7]);
    let mut rng = rng();
    assert_ne!(PRF::key_gen(&mut rng), PRF::key_gen(&mut rng));
}
