//! The byte format of hash trees and their openings.

use crate::bytes::{
    append_bytes, append_u32, append_u64, law_u32_read_back, law_u64_read_back, read_u32, read_u64,
    u32_at, u32_bytes, u64_at, u64_bytes,
};
use crate::serialization::{
    all_read_back, all_valid, concat, contents, cut, join_variable_list, law_list_round_trip,
    law_lists_are_cut, law_short_list_fits, law_variable_list_len, leading_parts,
    lemma_concat_take, lemma_short_lists_fit, list_append, list_bytes_len, list_decoding,
    list_encoding, list_fits, list_from_bytes, offsets_fit, split_variable_list, unless_broken,
    variable_list_encoding, viewed_outcome, DecodeError, ErrorModel, Serializable,
};
use crate::tree::{
    layer_models, layer_valid, tree_valid, HashSubTree, HashTreeLayer, HashTreeOpening, LayerModel,
    TreeModel,
};
use crate::tweak_hash::{domain_supported, TweakableHash};
use vstd::prelude::*;

verus! {

/// The encoding of an opening: the offset of its list of nodes, and the list.
pub open spec fn opening_encoding<D: Serializable>(co_path: Seq<D>) -> Seq<u8> {
    u32_bytes(4) + list_encoding(co_path)
}

/// What decoding an opening gives.
pub open spec fn opening_decoding<D: Serializable>(bytes: Seq<u8>) -> Result<Seq<D>, ErrorModel> {
    if bytes.len() < 4 {
        Err(ErrorModel::InvalidByteLength { len: bytes.len() as int, expected: 4 })
    } else if u32_at(bytes, 0) != 4 {
        Err(ErrorModel::InvalidByteLength { len: u32_at(bytes, 0) as int, expected: 4 })
    } else {
        list_decoding::<D>(bytes.skip(4))
    }
}

/// Decoding the encoding of an opening gives it back.
pub proof fn law_opening_round_trip<D: Serializable>(co_path: Seq<D>)
    requires
        D::is_fixed() ==> D::fixed_len() > 0,
        list_fits(co_path),
        all_read_back(co_path),
    ensures
        opening_decoding::<D>(opening_encoding(co_path)) == Ok::<Seq<D>, ErrorModel>(co_path),
{
    let bytes = opening_encoding(co_path);
    assert(bytes.subrange(0, 4) =~= u32_bytes(4));
    law_u32_read_back(bytes, 0, 4);
    assert(bytes.skip(4) =~= list_encoding(co_path));
    law_list_round_trip(co_path);
}

/// An opening is encoded as the four bytes of the number four and the list of its nodes.
pub proof fn law_opening_layout<D: Serializable>(co_path: Seq<D>)
    ensures
        opening_encoding(co_path).len() == 4 + list_encoding(co_path).len(),
        u32_at(opening_encoding(co_path), 0) == 4,
        opening_encoding(co_path).skip(4) == list_encoding(co_path),
{
    let bytes = opening_encoding(co_path);
    assert(bytes.subrange(0, 4) =~= u32_bytes(4));
    law_u32_read_back(bytes, 0, 4);
    assert(bytes.skip(4) =~= list_encoding(co_path));
}

/// Bytes decode to an opening if and only if they start with the number four and the rest
/// decodes to a list of nodes.
pub proof fn law_opening_decoding<D: Serializable>(bytes: Seq<u8>)
    ensures
        opening_decoding::<D>(bytes) is Ok <==> bytes.len() >= 4 && u32_at(bytes, 0) == 4
            && list_decoding::<D>(bytes.skip(4)) is Ok,
        bytes.len() < 4 ==> opening_decoding::<D>(bytes) == Err::<Seq<D>, ErrorModel>(
            ErrorModel::InvalidByteLength { len: bytes.len() as int, expected: 4 },
        ),
        bytes.len() >= 4 && u32_at(bytes, 0) != 4 ==> opening_decoding::<D>(bytes) == Err::<
            Seq<D>,
            ErrorModel,
        >(ErrorModel::InvalidByteLength { len: u32_at(bytes, 0) as int, expected: 4 }),
        bytes.len() >= 4 && u32_at(bytes, 0) == 4 ==> opening_decoding::<D>(bytes)
            == list_decoding::<D>(bytes.skip(4)),
{
}

impl<TH: TweakableHash> HashTreeOpening<TH> {
    /// The number of bytes of the encoding.
    pub fn ssz_bytes_len(&self) -> (len: usize)
        requires
            domain_supported::<TH>(),
            opening_encoding(self@).len() <= usize::MAX,
        ensures
            len == opening_encoding(self@).len(),
    {
        4 + list_bytes_len(&self.co_path)
    }

    /// Appends the encoding to `buf`.
    pub fn ssz_append(&self, buf: &mut Vec<u8>)
        requires
            list_fits(self@),
        ensures
            final(buf)@ == old(buf)@ + opening_encoding(self@),
    {
        append_u32(buf, 4);
        list_append(&self.co_path, buf);
        assert(buf@ =~= old(buf)@ + opening_encoding(self@));
    }

    /// Decodes an opening from exactly `bytes`.
    pub fn from_ssz_bytes(bytes: &[u8]) -> (result: Result<Self, DecodeError>)
        requires
            domain_supported::<TH>(),
        ensures
            viewed_outcome(result) == opening_decoding::<TH::Domain>(bytes@),
            result matches Ok(opening) ==> all_valid(opening@),
    {
        if bytes.len() < 4 {
            return Err(DecodeError::InvalidByteLength { len: bytes.len(), expected: 4 });
        }
        let offset = read_u32(bytes, 0) as usize;
        if offset != 4 {
            return Err(DecodeError::InvalidByteLength { len: offset, expected: 4 });
        }
        let nodes = vstd::slice::slice_subrange(bytes, 4, bytes.len());
        assert(nodes@ =~= bytes@.skip(4));
        match list_from_bytes::<TH::Domain>(nodes) {
            Ok(co_path) => Ok(HashTreeOpening { co_path }),
            Err(error) => Err(error),
        }
    }
}

/// The encoding of a layer: where it starts, the offset of its list of nodes, and
/// the list.
pub open spec fn layer_encoding<D: Serializable>(layer: LayerModel<D>) -> Seq<u8> {
    u64_bytes(layer.start as u64) + u32_bytes(12) + list_encoding(layer.nodes)
}

/// What decoding a layer gives.
pub open spec fn layer_decoding<D: Serializable>(bytes: Seq<u8>) -> Result<
    LayerModel<D>,
    ErrorModel,
> {
    if bytes.len() < 12 {
        Err(ErrorModel::InvalidByteLength { len: bytes.len() as int, expected: 12 })
    } else if u32_at(bytes, 8) != 12 {
        Err(ErrorModel::InvalidByteLength { len: u32_at(bytes, 8) as int, expected: 12 })
    } else {
        match list_decoding::<D>(bytes.skip(12)) {
            Ok(nodes) => Ok(LayerModel { start: u64_at(bytes, 0) as nat, nodes }),
            Err(error) => Err(error),
        }
    }
}

/// Decoding the encoding of a layer gives it back.
pub proof fn law_layer_round_trip<D: Serializable>(layer: LayerModel<D>)
    requires
        D::is_fixed() ==> D::fixed_len() > 0,
        list_fits(layer.nodes),
        all_read_back(layer.nodes),
        layer.start <= u64::MAX,
    ensures
        layer_decoding::<D>(layer_encoding(layer)) == Ok::<LayerModel<D>, ErrorModel>(layer),
{
    let bytes = layer_encoding(layer);
    assert(bytes.subrange(0, 8) =~= u64_bytes(layer.start as u64));
    law_u64_read_back(bytes, 0, layer.start as u64);
    assert(bytes.subrange(8, 12) =~= u32_bytes(12));
    law_u32_read_back(bytes, 8, 12);
    assert(bytes.skip(12) =~= list_encoding(layer.nodes));
    law_list_round_trip(layer.nodes);
}

/// A layer is encoded as the eight bytes of its start, the four bytes of the number
/// twelve, and the list of its nodes.
pub proof fn law_layer_layout<D: Serializable>(layer: LayerModel<D>)
    requires
        layer.start <= u64::MAX,
    ensures
        layer_encoding(layer).len() == 12 + list_encoding(layer.nodes).len(),
        u64_at(layer_encoding(layer), 0) == layer.start,
        u32_at(layer_encoding(layer), 8) == 12,
        layer_encoding(layer).skip(12) == list_encoding(layer.nodes),
{
    let bytes = layer_encoding(layer);
    assert(bytes.subrange(0, 8) =~= u64_bytes(layer.start as u64));
    law_u64_read_back(bytes, 0, layer.start as u64);
    assert(bytes.subrange(8, 12) =~= u32_bytes(12));
    law_u32_read_back(bytes, 8, 12);
    assert(bytes.skip(12) =~= list_encoding(layer.nodes));
}

/// Bytes decode to a layer if and only if the number twelve stands behind the first eight
/// and the rest decodes to a list of nodes. The first eight say where the layer starts.
pub proof fn law_layer_decoding<D: Serializable>(bytes: Seq<u8>)
    ensures
        bytes.len() < 12 ==> layer_decoding::<D>(bytes) == Err::<LayerModel<D>, ErrorModel>(
            ErrorModel::InvalidByteLength { len: bytes.len() as int, expected: 12 },
        ),
        bytes.len() >= 12 && u32_at(bytes, 8) != 12 ==> layer_decoding::<D>(bytes) == Err::<
            LayerModel<D>,
            ErrorModel,
        >(ErrorModel::InvalidByteLength { len: u32_at(bytes, 8) as int, expected: 12 }),
        bytes.len() >= 12 && u32_at(bytes, 8) == 12 ==> {
            &&& list_decoding::<D>(bytes.skip(12)) matches Ok(nodes) ==> layer_decoding::<D>(bytes)
                == Ok::<LayerModel<D>, ErrorModel>(
                LayerModel { start: u64_at(bytes, 0) as nat, nodes },
            )
            &&& list_decoding::<D>(bytes.skip(12)) matches Err(error) ==> layer_decoding::<D>(bytes)
                == Err::<LayerModel<D>, ErrorModel>(error)
        },
{
}

impl<TH: TweakableHash> HashTreeLayer<TH> {
    /// The number of bytes of the encoding.
    pub fn ssz_bytes_len(&self) -> (len: usize)
        requires
            domain_supported::<TH>(),
            layer_encoding(self@).len() <= usize::MAX,
        ensures
            len == layer_encoding(self@).len(),
    {
        12 + list_bytes_len(&self.nodes)
    }

    /// Appends the encoding to `buf`.
    pub fn ssz_append(&self, buf: &mut Vec<u8>)
        requires
            list_fits(self@.nodes),
        ensures
            final(buf)@ == old(buf)@ + layer_encoding(self@),
    {
        append_u64(buf, self.start_index);
        append_u32(buf, 12);
        list_append(&self.nodes, buf);
        assert(buf@ =~= old(buf)@ + layer_encoding(self@));
    }

    /// Decodes a layer from exactly `bytes`.
    pub fn from_ssz_bytes(bytes: &[u8]) -> (result: Result<Self, DecodeError>)
        requires
            domain_supported::<TH>(),
        ensures
            viewed_outcome(result) == layer_decoding::<TH::Domain>(bytes@),
            result matches Ok(layer) ==> layer_valid(layer@),
    {
        if bytes.len() < 12 {
            return Err(DecodeError::InvalidByteLength { len: bytes.len(), expected: 12 });
        }
        let start_index = read_u64(bytes, 0);
        let offset = read_u32(bytes, 8) as usize;
        if offset != 12 {
            return Err(DecodeError::InvalidByteLength { len: offset, expected: 12 });
        }
        let list = vstd::slice::slice_subrange(bytes, 12, bytes.len());
        assert(list@ =~= bytes@.skip(12));
        match list_from_bytes::<TH::Domain>(list) {
            Ok(nodes) => Ok(HashTreeLayer { start_index, nodes }),
            Err(error) => Err(error),
        }
    }
}

/// The encodings of the layers.
pub open spec fn layer_encodings<D: Serializable>(layers: Seq<LayerModel<D>>) -> Seq<Seq<u8>> {
    layers.map_values(|layer: LayerModel<D>| layer_encoding(layer))
}

/// The encoding of a tree: its depth, the offset of its list of layers, and the
/// list.
pub open spec fn tree_encoding<D: Serializable>(tree: TreeModel<D>) -> Seq<u8> {
    u64_bytes(tree.depth as u64) + u32_bytes(12) + variable_list_encoding(
        layer_encodings(tree.layers),
    )
}

/// Every offset in the encoding of a tree is a 32-bit integer.
pub open spec fn tree_offsets_fit<D: Serializable>(tree: TreeModel<D>) -> bool {
    &&& offsets_fit(layer_encodings(tree.layers), 4 * tree.layers.len())
    &&& forall|k: int|
        0 <= k < tree.layers.len() ==> list_fits((#[trigger] tree.layers[k]).nodes)
}

/// Where the encoding of a tree has a length that is a 32-bit integer, so are the
/// offsets in it.
pub proof fn law_short_trees_fit<D: Serializable>(tree: TreeModel<D>)
    requires
        tree_encoding(tree).len() <= u32::MAX,
    ensures
        tree_offsets_fit(tree),
{
    let items = layer_encodings(tree.layers);
    law_variable_list_len(items);
    lemma_short_lists_fit(items);
    assert forall|k: int| 0 <= k < tree.layers.len() implies list_fits(
        (#[trigger] tree.layers[k]).nodes,
    ) by {
        lemma_concat_take(items, k as nat);
        assert(items[k] == layer_encoding(tree.layers[k]));
        law_short_list_fits(tree.layers[k].nodes);
    }
}

/// What decoding the layers, one after the other, gives.
pub open spec fn layers_decoding<D: Serializable>(items: Seq<Seq<u8>>) -> Result<
    Seq<LayerModel<D>>,
    ErrorModel,
>
    decreases items.len(),
{
    if items.len() == 0 {
        Ok(seq![])
    } else {
        match layer_decoding::<D>(items[0]) {
            Err(error) => Err(error),
            Ok(layer) => match layers_decoding::<D>(items.drop_first()) {
                Err(error) => Err(error),
                Ok(layers) => Ok(seq![layer] + layers),
            },
        }
    }
}

/// What decoding a list of layers gives: the layers are decoded in turn until one of
/// them fails or the offset behind it is wrong.
pub open spec fn layer_list_decoding<D: Serializable>(bytes: Seq<u8>) -> Result<
    Seq<LayerModel<D>>,
    ErrorModel,
> {
    unless_broken(layers_decoding::<D>(cut(bytes).parts), cut(bytes).error)
}

/// What decoding a tree gives.
pub open spec fn tree_decoding<D: Serializable>(bytes: Seq<u8>) -> Result<
    TreeModel<D>,
    ErrorModel,
> {
    if bytes.len() < 12 {
        Err(ErrorModel::InvalidByteLength { len: bytes.len() as int, expected: 12 })
    } else if u32_at(bytes, 8) != 12 {
        Err(ErrorModel::InvalidByteLength { len: u32_at(bytes, 8) as int, expected: 12 })
    } else {
        match layer_list_decoding::<D>(bytes.skip(12)) {
            Ok(layers) => Ok(TreeModel { depth: u64_at(bytes, 0) as nat, layers }),
            Err(error) => Err(error),
        }
    }
}

/// The offsets and the nodes of the layer are such that it reads back.
pub open spec fn layer_reads_back<D: Serializable>(layer: LayerModel<D>) -> bool {
    &&& list_fits(layer.nodes)
    &&& all_read_back(layer.nodes)
    &&& layer.start <= u64::MAX
}

/// The offsets, the numbers and the nodes of the tree are such that it reads back.
pub open spec fn tree_reads_back<D: Serializable>(tree: TreeModel<D>) -> bool {
    &&& tree_offsets_fit(tree)
    &&& tree.depth <= u64::MAX
    &&& forall|k: int|
        0 <= k < tree.layers.len() ==> layer_reads_back(#[trigger] tree.layers[k])
}

proof fn lemma_layers_round_trip<D: Serializable>(layers: Seq<LayerModel<D>>)
    requires
        D::is_fixed() ==> D::fixed_len() > 0,
        forall|k: int|
            0 <= k < layers.len() ==> layer_reads_back(#[trigger] layers[k]),
    ensures
        layers_decoding::<D>(layer_encodings(layers)) == Ok::<Seq<LayerModel<D>>, ErrorModel>(
            layers,
        ),
    decreases layers.len(),
{
    let items = layer_encodings(layers);
    if layers.len() > 0 {
        let rest = layers.drop_first();
        assert(items.drop_first() =~= layer_encodings(rest));
        assert forall|k: int| 0 <= k < rest.len() implies layer_reads_back(#[trigger] rest[k]) by {
            assert(rest[k] == layers[k + 1]);
        }
        assert(layer_reads_back(layers[0]));
        law_layer_round_trip(layers[0]);
        lemma_layers_round_trip(rest);
        assert(seq![layers[0]] + rest =~= layers);
    } else {
        assert(layers =~= seq![]);
    }
}

/// Decoding the encoding of a tree gives it back.
pub proof fn law_tree_round_trip<D: Serializable>(tree: TreeModel<D>)
    requires
        D::is_fixed() ==> D::fixed_len() > 0,
        tree_reads_back(tree),
    ensures
        tree_decoding::<D>(tree_encoding(tree)) == Ok::<TreeModel<D>, ErrorModel>(tree),
{
    let bytes = tree_encoding(tree);
    let items = layer_encodings(tree.layers);
    assert(bytes.subrange(0, 8) =~= u64_bytes(tree.depth as u64));
    law_u64_read_back(bytes, 0, tree.depth as u64);
    assert(bytes.subrange(8, 12) =~= u32_bytes(12));
    law_u32_read_back(bytes, 8, 12);
    let list = bytes.skip(12);
    assert(list =~= variable_list_encoding(items));
    law_lists_are_cut(list, items);
    lemma_layers_round_trip(tree.layers);
}

/// A tree is encoded as the eight bytes of its depth, the four bytes of the number
/// twelve, and the list of its layers.
pub proof fn law_tree_layout<D: Serializable>(tree: TreeModel<D>, layers: Seq<Seq<u8>>)
    requires
        tree.depth <= u64::MAX,
        layers.len() == tree.layers.len(),
        forall|k: int|
            0 <= k < layers.len() ==> #[trigger] layers[k] == layer_encoding(tree.layers[k]),
    ensures
        u64_at(tree_encoding(tree), 0) == tree.depth,
        u32_at(tree_encoding(tree), 8) == 12,
        tree_encoding(tree).len() >= 12,
        tree_encoding(tree).skip(12) == variable_list_encoding(layers),
{
    let bytes = tree_encoding(tree);
    assert(bytes.subrange(0, 8) =~= u64_bytes(tree.depth as u64));
    law_u64_read_back(bytes, 0, tree.depth as u64);
    assert(bytes.subrange(8, 12) =~= u32_bytes(12));
    law_u32_read_back(bytes, 8, 12);
    assert(layer_encodings(tree.layers) =~= layers);
    assert(bytes.skip(12) =~= variable_list_encoding(layers));
}

/// Layers are decoded in turn, each from its own bytes. The error is that of the first
/// that cannot be.
pub proof fn law_layers_decoding<D: Serializable>(items: Seq<Seq<u8>>) -> (failed: int)
    ensures
        layers_decoding::<D>(items) matches Ok(layers) ==> {
            &&& layers.len() == items.len()
            &&& forall|k: int|
                0 <= k < items.len() ==> layer_decoding::<D>(#[trigger] items[k]) == Ok::<
                    LayerModel<D>,
                    ErrorModel,
                >(layers[k])
        },
        layers_decoding::<D>(items) matches Err(error) ==> {
            &&& 0 <= failed < items.len()
            &&& layer_decoding::<D>(items[failed]) == Err::<LayerModel<D>, ErrorModel>(error)
            &&& forall|k: int|
                0 <= k < failed ==> layer_decoding::<D>(#[trigger] items[k]) is Ok
        },
    decreases items.len(),
{
    if items.len() == 0 || layer_decoding::<D>(items[0]) is Err {
        0
    } else {
        let rest = items.drop_first();
        let failed = law_layers_decoding::<D>(rest);
        assert forall|k: int| 0 < k < items.len() implies #[trigger] items[k] == rest[k - 1] by {}
        failed + 1
    }
}

/// Bytes decode to a tree if and only if the number twelve stands behind the first eight,
/// nothing is wrong with the offsets of the layers behind it, and every layer decodes.
/// The first eight say how deep the tree is. The error of a layer goes before that of the
/// offset behind it.
pub proof fn law_tree_decoding<D: Serializable>(bytes: Seq<u8>) -> (failed: int)
    ensures
        bytes.len() < 12 ==> tree_decoding::<D>(bytes) == Err::<TreeModel<D>, ErrorModel>(
            ErrorModel::InvalidByteLength { len: bytes.len() as int, expected: 12 },
        ),
        bytes.len() >= 12 && u32_at(bytes, 8) != 12 ==> tree_decoding::<D>(bytes) == Err::<
            TreeModel<D>,
            ErrorModel,
        >(ErrorModel::InvalidByteLength { len: u32_at(bytes, 8) as int, expected: 12 }),
        bytes.len() >= 12 && u32_at(bytes, 8) == 12 ==> {
            let items = cut(bytes.skip(12)).parts;
            &&& tree_decoding::<D>(bytes) matches Ok(tree) ==> {
                &&& tree.depth == u64_at(bytes, 0)
                &&& cut(bytes.skip(12)).error is None
                &&& tree.layers.len() == items.len()
                &&& forall|k: int|
                    0 <= k < items.len() ==> layer_decoding::<D>(#[trigger] items[k]) == Ok::<
                        LayerModel<D>,
                        ErrorModel,
                    >(tree.layers[k])
            }
            &&& tree_decoding::<D>(bytes) matches Err(error) ==> {
                &&& 0 <= failed <= items.len()
                &&& forall|k: int|
                    0 <= k < failed ==> layer_decoding::<D>(#[trigger] items[k]) is Ok
                &&& failed < items.len() ==> layer_decoding::<D>(items[failed]) == Err::<
                    LayerModel<D>,
                    ErrorModel,
                >(error)
                &&& failed == items.len() ==> cut(bytes.skip(12)).error == Some(error)
            }
        },
{
    let items = cut(bytes.skip(12)).parts;
    let failed = law_layers_decoding::<D>(items);
    match layers_decoding::<D>(items) {
        Ok(_) => items.len() as int,
        Err(_) => failed,
    }
}

impl<TH: TweakableHash> HashSubTree<TH> {
    /// The number of bytes of the encoding.
    pub fn ssz_bytes_len(&self) -> (len: usize)
        requires
            domain_supported::<TH>(),
            tree_encoding(self@).len() <= usize::MAX,
        ensures
            len == tree_encoding(self@).len(),
    {
        let ghost items = layer_encodings(self@.layers);
        proof {
            law_variable_list_len(items);
        }
        let mut len: usize = 12 + 4 * self.layers.len();
        let mut i: usize = 0;
        assert(items.take(0) =~= seq![]);
        while i < self.layers.len()
            invariant
                i <= self.layers.len(),
                domain_supported::<TH>(),
                items == layer_encodings(self@.layers),
                len == 12 + 4 * self.layers.len() + concat(items.take(i as int)).len(),
                12 + 4 * self.layers.len() + concat(items).len() <= usize::MAX,
            decreases self.layers.len() - i,
        {
            proof {
                assert(self@.layers[i as int] == self.layers@[i as int]@);
                lemma_concat_take(items, i as nat);
            }
            len = len + self.layers[i].ssz_bytes_len();
            i = i + 1;
        }
        assert(items.take(i as int) =~= items);
        len
    }

    /// Appends the encoding to `buf`.
    pub fn ssz_append(&self, buf: &mut Vec<u8>)
        requires
            tree_offsets_fit(self@),
        ensures
            final(buf)@ == old(buf)@ + tree_encoding(self@),
    {
        append_u64(buf, self.depth);
        append_u32(buf, 12);
        let ghost expected = layer_encodings(self@.layers);
        let mut items: Vec<Vec<u8>> = Vec::new();
        while items.len() < self.layers.len()
            invariant
                items.len() <= self.layers.len(),
                tree_offsets_fit(self@),
                expected == layer_encodings(self@.layers),
                contents(items@) == expected.take(items.len() as int),
            decreases self.layers.len() - items.len(),
        {
            let mut item: Vec<u8> = Vec::new();
            let i = items.len();
            assert(self@.layers[i as int] == self.layers@[i as int]@);
            self.layers[i].ssz_append(&mut item);
            assert(item@ =~= expected[i as int]);
            items.push(item);
            assert(contents(items@) =~= expected.take(items.len() as int));
        }
        assert(contents(items@) =~= expected);
        let list = join_variable_list(&items);
        append_bytes(buf, list.as_slice());
        assert(buf@ =~= old(buf)@ + tree_encoding(self@));
    }

    /// Decodes a tree from exactly `bytes`.
    pub fn from_ssz_bytes(bytes: &[u8]) -> (result: Result<Self, DecodeError>)
        requires
            domain_supported::<TH>(),
        ensures
            viewed_outcome(result) == tree_decoding::<TH::Domain>(bytes@),
            result matches Ok(tree) ==> tree_valid(tree@),
    {
        if bytes.len() < 12 {
            return Err(DecodeError::InvalidByteLength { len: bytes.len(), expected: 12 });
        }
        let depth = read_u64(bytes, 0);
        let offset = read_u32(bytes, 8) as usize;
        if offset != 12 {
            return Err(DecodeError::InvalidByteLength { len: offset, expected: 12 });
        }
        let list = vstd::slice::slice_subrange(bytes, 12, bytes.len());
        assert(list@ =~= bytes@.skip(12));
        match split_variable_list(list) {
            Ok(items) => {
                proof {
                    law_lists_are_cut(list@, contents(items@));
                }
                match layers_from_items::<TH>(&items) {
                    Ok(layers) => {
                        let tree = HashSubTree { depth, layers };
                        assert(tree@.layers == layer_models(layers@));
                        Ok(tree)
                    },
                    Err(error) => Err(error),
                }
            },
            Err(error) => match layers_from_items::<TH>(&leading_parts(list)) {
                Ok(_) => Err(error),
                Err(layer_error) => Err(layer_error),
            },
        }
    }
}

/// The outcome of decoding layers as contracts see it.
pub open spec fn layers_outcome<TH: TweakableHash>(
    result: Result<Vec<HashTreeLayer<TH>>, DecodeError>,
) -> Result<Seq<LayerModel<TH::Domain>>, ErrorModel> {
    match result {
        Ok(layers) => Ok(layer_models(layers@)),
        Err(error) => Err(error@),
    }
}

/// Decodes layers, one after the other.
fn layers_from_items<TH: TweakableHash>(items: &Vec<Vec<u8>>) -> (result: Result<
    Vec<HashTreeLayer<TH>>,
    DecodeError,
>)
    requires
        domain_supported::<TH>(),
    ensures
        layers_outcome(result) == layers_decoding::<TH::Domain>(contents(items@)),
        result matches Ok(layers) ==> forall|k: int|
            0 <= k < layers@.len() ==> layer_valid((#[trigger] layers@[k])@),
{
    let ghost all = contents(items@);
    let mut layers: Vec<HashTreeLayer<TH>> = Vec::new();
    assert(all.skip(0) =~= all);
    proof {
        match layers_decoding::<TH::Domain>(all) {
            Ok(rest) => { assert(layer_models(layers@) + rest =~= rest); },
            Err(_) => {},
        }
    }
    while layers.len() < items.len()
        invariant
            layers.len() <= items.len(),
            domain_supported::<TH>(),
            all == contents(items@),
            forall|k: int| 0 <= k < layers@.len() ==> layer_valid((#[trigger] layers@[k])@),
            layers_decoding::<TH::Domain>(all) == match layers_decoding::<TH::Domain>(
                all.skip(layers.len() as int),
            ) {
                Err(error) => Err(error),
                Ok(rest) => Ok::<Seq<LayerModel<TH::Domain>>, ErrorModel>(
                    layer_models(layers@) + rest,
                ),
            },
        decreases items.len() - layers.len(),
    {
        let i = layers.len();
        let ghost left = all.skip(i as int);
        assert(left[0] == items@[i as int]@);
        match HashTreeLayer::<TH>::from_ssz_bytes(items[i].as_slice()) {
            Err(error) => {
                return Err(error);
            },
            Ok(layer) => {
                let ghost before = layer_models(layers@);
                layers.push(layer);
                proof {
                    assert(all.skip(layers.len() as int) =~= left.drop_first());
                    match layers_decoding::<TH::Domain>(left.drop_first()) {
                        Ok(rest) => {
                            assert(layer_models(layers@) + rest =~= before + (seq![layer@] + rest));
                        },
                        Err(_) => {},
                    }
                }
            },
        }
    }
    assert(all.skip(layers.len() as int) =~= seq![]);
    assert(layer_models(layers@) + Seq::<LayerModel<TH::Domain>>::empty() =~= layer_models(
        layers@,
    ));
    Ok(layers)
}

} // verus!
