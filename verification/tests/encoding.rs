//! The byte formats of integers, lists, openings and trees.

use leansig::array::{read_fe_array, FieldArray};
use leansig::bytes::{append_bytes, append_u32, append_u64, read_u32, read_u64};
use leansig::field::ORDER;
use leansig::serialization::{
    list_append, list_bytes_len, list_from_bytes, DecodeError, Serializable,
};
use leansig::tree::{
    hash_tree_verify, random_padding, HashSubTree, HashTreeLayer, HashTreeOpening,
};
use leansig::tweak_hash::{PoseidonTweakHash, TweakableHash};
use leansig::xmss_encoding::decimal_text;
use rand::rng;

type TH = PoseidonTweakHash<5, 2, 2, 9, 4>;

#[test]
fn integers_read_back() {
    let mut buf = vec![0xee];
    append_u32(&mut buf, 0x0403_0201);
    append_u64(&mut buf, 0x0c0b_0a09_0807_0605);
    append_bytes(&mut buf, &[0x0d, 0x0e]);
    assert_eq!(buf, vec![0xee, 1, 2, 3, 4, 5, 6, 7, 8, 9, 10, 11, 12, 13, 14]);
    assert_eq!(read_u32(&buf, 1), 0x0403_0201);
    assert_eq!(read_u64(&buf, 5), 0x0c0b_0a09_0807_0605);
    assert_eq!(read_u32(&[0xff; 4], 0), u32::MAX);
    assert_eq!(read_u64(&[0xff; 8], 0), u64::MAX);
}

#[test]
fn arrays_read_back() {
    let array = FieldArray::new([1, 0x0102_0304, ORDER - 1]);
    let bytes = array.as_ssz_bytes();
    assert_eq!(bytes, vec![1, 0, 0, 0, 4, 3, 2, 1, 0, 0, 0, 0x7f]);
    assert_eq!(array.ssz_bytes_len(), 12);
    assert!(FieldArray::<3>::is_ssz_fixed_len());
    assert_eq!(FieldArray::<3>::ssz_fixed_len(), 12);
    assert_eq!(FieldArray::<3>::from_ssz_bytes(&bytes), Ok(array));
    assert_eq!(
        FieldArray::<3>::from_ssz_bytes(&bytes[1..]),
        Err(DecodeError::InvalidByteLength { len: 11, expected: 12 })
    );
    assert_eq!(read_fe_array::<2>(&bytes, 4), FieldArray::new([0x0102_0304, ORDER - 1]));
    // Integers beyond the order are reduced.
    assert_eq!(
        FieldArray::<1>::from_ssz_bytes(&(ORDER + 3).to_le_bytes()),
        Ok(FieldArray::new([3]))
    );
}

#[test]
fn lists_read_back() {
    let items = vec![FieldArray::new([1, 2]), FieldArray::new([3, 4])];
    let mut buf = Vec::new();
    list_append(&items, &mut buf);
    assert_eq!(buf.len(), 16);
    assert_eq!(list_bytes_len(&items), 16);
    assert_eq!(list_from_bytes::<FieldArray<2>>(&buf), Ok(items));
    assert_eq!(list_from_bytes::<FieldArray<2>>(&[]), Ok(vec![]));
    assert_eq!(
        list_from_bytes::<FieldArray<2>>(&buf[..13]),
        Err(DecodeError::InvalidByteLength { len: 5, expected: 8 })
    );
}

#[test]
fn openings_read_back() {
    let opening = HashTreeOpening::<TH> { co_path: vec![FieldArray::new([5, 6])] };
    let mut buf = Vec::new();
    opening.ssz_append(&mut buf);
    assert_eq!(buf, vec![4, 0, 0, 0, 5, 0, 0, 0, 6, 0, 0, 0]);
    assert_eq!(opening.ssz_bytes_len(), 12);
    let decoded = HashTreeOpening::<TH>::from_ssz_bytes(&buf).unwrap();
    assert_eq!(decoded.co_path, opening.co_path);
    assert_eq!(
        HashTreeOpening::<TH>::from_ssz_bytes(&buf[..3]).err(),
        Some(DecodeError::InvalidByteLength { len: 3, expected: 4 })
    );
    buf[0] = 9;
    assert_eq!(
        HashTreeOpening::<TH>::from_ssz_bytes(&buf).err(),
        Some(DecodeError::InvalidByteLength { len: 9, expected: 4 })
    );
}

#[test]
fn layers_read_back() {
    let layer = HashTreeLayer::<TH> { start_index: 7, nodes: vec![FieldArray::new([5, 6])] };
    let mut buf = Vec::new();
    layer.ssz_append(&mut buf);
    assert_eq!(buf, vec![7, 0, 0, 0, 0, 0, 0, 0, 12, 0, 0, 0, 5, 0, 0, 0, 6, 0, 0, 0]);
    assert_eq!(layer.ssz_bytes_len(), 20);
    let decoded = HashTreeLayer::<TH>::from_ssz_bytes(&buf).unwrap();
    assert_eq!(decoded.start_index, 7);
    assert_eq!(decoded.nodes, layer.nodes);
    assert_eq!(
        HashTreeLayer::<TH>::from_ssz_bytes(&buf[..11]).err(),
        Some(DecodeError::InvalidByteLength { len: 11, expected: 12 })
    );
    buf[8] = 13;
    assert_eq!(
        HashTreeLayer::<TH>::from_ssz_bytes(&buf).err(),
        Some(DecodeError::InvalidByteLength { len: 13, expected: 12 })
    );
}

#[test]
fn trees_read_back() {
    let tree = HashSubTree::<TH> {
        depth: 1,
        layers: vec![
            HashTreeLayer {
                start_index: 0,
                nodes: vec![FieldArray::new([1, 2]), FieldArray::new([3, 4])],
            },
            HashTreeLayer { start_index: 0, nodes: vec![FieldArray::new([5, 6])] },
        ],
    };
    let mut buf = Vec::new();
    tree.ssz_append(&mut buf);
    assert_eq!(buf.len(), 12 + 8 + 28 + 20);
    assert_eq!(tree.ssz_bytes_len(), buf.len());
    assert_eq!(read_u64(&buf, 0), 1);
    assert_eq!(read_u32(&buf, 8), 12);
    assert_eq!(read_u32(&buf, 12), 8);
    assert_eq!(read_u32(&buf, 16), 36);
    let decoded = HashSubTree::<TH>::from_ssz_bytes(&buf).unwrap();
    assert_eq!(decoded.depth, 1);
    assert_eq!(decoded.layers.len(), 2);
    assert_eq!(decoded.layers[0].nodes, tree.layers[0].nodes);
    assert_eq!(decoded.layers[1].nodes, tree.layers[1].nodes);
    assert_eq!(decoded.root(), FieldArray::new([5, 6]));

    let empty = HashSubTree::<TH> { depth: 3, layers: vec![] };
    let mut bytes = Vec::new();
    empty.ssz_append(&mut bytes);
    assert_eq!(bytes.len(), 12);
    assert!(HashSubTree::<TH>::from_ssz_bytes(&bytes).unwrap().layers.is_empty());

    assert_eq!(
        HashSubTree::<TH>::from_ssz_bytes(&buf[..11]).err(),
        Some(DecodeError::InvalidByteLength { len: 11, expected: 12 })
    );
    let mut changed = buf.clone();
    changed[16] = 200;
    assert_eq!(
        HashSubTree::<TH>::from_ssz_bytes(&changed).err(),
        Some(DecodeError::OffsetOutOfBounds(200))
    );
    // The second layer is cut short.
    assert_eq!(
        HashSubTree::<TH>::from_ssz_bytes(&buf[..buf.len() - 1]).err(),
        Some(DecodeError::InvalidByteLength { len: 7, expected: 8 })
    );
    buf[8] = 13;
    assert_eq!(
        HashSubTree::<TH>::from_ssz_bytes(&buf).err(),
        Some(DecodeError::InvalidByteLength { len: 13, expected: 12 })
    );
}

/// The bytes of a tree with the given list of layers.
fn tree_with(list: &[u8]) -> Vec<u8> {
    let mut bytes = vec![1, 0, 0, 0, 0, 0, 0, 0, 12, 0, 0, 0];
    bytes.extend_from_slice(list);
    bytes
}

/// Bytes with the given offsets in front of three empty layers.
fn list_with(offsets: [u32; 3]) -> Vec<u8> {
    let mut list = Vec::new();
    for offset in offsets {
        list.extend_from_slice(&offset.to_le_bytes());
    }
    for _ in 0..3 {
        list.extend_from_slice(&[0, 0, 0, 0, 0, 0, 0, 0, 12, 0, 0, 0]);
    }
    list
}

#[test]
fn broken_lists_are_told() {
    let cases: Vec<(Vec<u8>, DecodeError)> = vec![
        (vec![4, 0, 0], DecodeError::InvalidLengthPrefix { len: 3, expected: 4 }),
        (list_with([0, 24, 36]), DecodeError::InvalidListFixedBytesLen(0)),
        (list_with([13, 24, 36]), DecodeError::InvalidListFixedBytesLen(13)),
        (list_with([49, 24, 36]), DecodeError::OffsetOutOfBounds(49)),
        (list_with([12, 11, 36]), DecodeError::OffsetIntoFixedPortion(11)),
        (list_with([12, 24, 49]), DecodeError::OffsetOutOfBounds(49)),
        (list_with([12, 24, 23]), DecodeError::OffsetsAreDecreasing(23)),
    ];
    for (list, error) in cases {
        let outside = <Vec<Vec<u8>> as ssz::Decode>::from_ssz_bytes(&list).unwrap_err();
        assert_eq!(format!("{:?}", outside), format!("{:?}", error));
        assert_eq!(HashSubTree::<TH>::from_ssz_bytes(&tree_with(&list)).err(), Some(error));
    }
    let whole = HashSubTree::<TH>::from_ssz_bytes(&tree_with(&list_with([12, 24, 36])));
    assert_eq!(whole.unwrap().layers.len(), 3);
    // The first layer is broken too, and comes before the broken offset.
    assert_eq!(
        HashSubTree::<TH>::from_ssz_bytes(&tree_with(&list_with([12, 23, 22]))).err(),
        Some(DecodeError::InvalidByteLength { len: 11, expected: 12 })
    );
}

#[test]
fn openings_lead_to_the_root() {
    let mut rng = rng();
    let engine = TH::engine();
    let parameter = TH::rand_parameter(&mut rng);
    let mut contents: Vec<Vec<FieldArray<2>>> = Vec::new();
    let mut leaves: Vec<FieldArray<2>> = Vec::new();
    for position in 5..12u32 {
        let ends = vec![TH::rand_domain(&mut rng), TH::rand_domain(&mut rng)];
        leaves.push(TH::apply_leaf(&engine, &parameter, position, &ends));
        contents.push(ends);
    }
    let padding = random_padding::<TH>(&mut rng, 4);
    let tree = HashSubTree::<TH>::new_subtree(&engine, 4, 5, &parameter, leaves, &padding);
    let root = tree.root();
    for position in 5..12u32 {
        let opening = tree.path(position);
        assert_eq!(opening.co_path.len(), 4);
        let ends = &contents[position as usize - 5];
        assert!(hash_tree_verify::<TH>(&engine, &parameter, &root, position, ends, &opening));
        let other = position ^ 1;
        assert!(!hash_tree_verify::<TH>(&engine, &parameter, &root, other, ends, &opening));
    }
}

#[test]
fn numbers_in_words() {
    assert_eq!(decimal_text(0), "0");
    assert_eq!(decimal_text(1234567890), "1234567890");
    assert_eq!(decimal_text(usize::MAX), format!("{}", usize::MAX));
}
