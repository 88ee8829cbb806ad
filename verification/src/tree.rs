//! Hash trees over a range of leaves.

use crate::serialization::{all_valid, Serializable};
use crate::tweak_hash::TweakableHash;
use vstd::arithmetic::div_mod::lemma_div_denominator;
use vstd::arithmetic::power2::{
    lemma2_to64, lemma_pow2_pos, lemma_pow2_strictly_increases, lemma_pow2_unfold, pow2,
};
use vstd::prelude::*;

verus! {

/// The nodes of a tree that stand at one height: those from the position `start`
/// on.
#[verifier::ext_equal]
pub struct LayerModel<D> {
    pub start: nat,
    pub nodes: Seq<D>,
}

impl<D> LayerModel<D> {
    /// The layer has a node at the position.
    pub open spec fn has(self, position: nat) -> bool {
        self.start <= position < self.start + self.nodes.len()
    }

    /// The node at the position.
    pub open spec fn node(self, position: nat) -> D {
        self.nodes[position - self.start]
    }

    /// With each node the layer has its sibling.
    pub open spec fn paired(self) -> bool {
        self.start % 2 == 0 && self.nodes.len() % 2 == 0
    }
}

/// What a contract says of a [`HashSubTree`].
#[verifier::ext_equal]
pub struct TreeModel<D> {
    pub depth: nat,
    pub layers: Seq<LayerModel<D>>,
}

/// One height of a tree.
pub struct HashTreeLayer<TH: TweakableHash> {
    pub start_index: u64,
    pub nodes: Vec<TH::Domain>,
}

impl<TH: TweakableHash> View for HashTreeLayer<TH> {
    type V = LayerModel<TH::Domain>;

    open spec fn view(&self) -> LayerModel<TH::Domain> {
        LayerModel { start: self.start_index as nat, nodes: self.nodes@ }
    }
}

/// The part of a tree that lies above a range of its leaves, with what completes
/// it to pairs of siblings.
pub struct HashSubTree<TH: TweakableHash> {
    pub depth: u64,
    pub layers: Vec<HashTreeLayer<TH>>,
}

/// The contents of the layers.
pub open spec fn layer_models<TH: TweakableHash>(layers: Seq<HashTreeLayer<TH>>) -> Seq<
    LayerModel<TH::Domain>,
> {
    layers.map_values(|layer: HashTreeLayer<TH>| layer@)
}

impl<TH: TweakableHash> View for HashSubTree<TH> {
    type V = TreeModel<TH::Domain>;

    open spec fn view(&self) -> TreeModel<TH::Domain> {
        TreeModel { depth: self.depth as nat, layers: layer_models(self.layers@) }
    }
}

/// The nodes that, together with a leaf, lead to the root of a tree.
#[derive(Clone)]
pub struct HashTreeOpening<TH: TweakableHash> {
    pub co_path: Vec<TH::Domain>,
}

impl<TH: TweakableHash> View for HashTreeOpening<TH> {
    type V = Seq<TH::Domain>;

    open spec fn view(&self) -> Seq<TH::Domain> {
        self.co_path@
    }
}

impl<TH: TweakableHash> HashTreeLayer<TH> {
    /// What contracts say of a layer are its own start and nodes.
    pub proof fn law_view(&self)
        ensures
            self@.start == self.start_index,
            self@.nodes == self.nodes@,
    {
    }
}

impl<TH: TweakableHash> HashSubTree<TH> {
    /// What contracts say of a tree are its own depth and layers, in their order.
    pub proof fn law_view(&self, level: int)
        ensures
            self@.depth == self.depth,
            self@.layers.len() == self.layers@.len(),
            0 <= level < self.layers@.len() ==> self@.layers[level].start
                == self.layers@[level].start_index && self@.layers[level].nodes
                == self.layers@[level].nodes@,
    {
    }
}

impl<TH: TweakableHash> HashTreeOpening<TH> {
    /// What contracts say of an opening are its own nodes.
    pub proof fn law_view(&self)
        ensures
            self@ == self.co_path@,
    {
    }
}

/// The layer completed to pairs of siblings, where `padding` gives what may be
/// missing in front and at the end.
pub open spec fn padded_layer<D>(layer: LayerModel<D>, padding: (D, D)) -> LayerModel<D> {
    let front = if layer.start % 2 == 1 {
        seq![padding.0]
    } else {
        seq![]
    };
    let back = if (layer.start + layer.nodes.len()) % 2 == 1 {
        seq![padding.1]
    } else {
        seq![]
    };
    LayerModel { start: (layer.start - front.len()) as nat, nodes: front + layer.nodes + back }
}

/// A layer that starts at an odd position is completed in front, and one that ends behind
/// an even position at the end, with the two values for that. The nodes keep their
/// positions.
pub proof fn law_padded<D>(layer: LayerModel<D>, padding: (D, D), i: int)
    ensures
        ({
            let padded = padded_layer(layer, padding);
            let end = layer.start + layer.nodes.len();
            &&& padded.start == layer.start - layer.start % 2
            &&& padded.start + padded.nodes.len() == end + end % 2
            &&& layer.start % 2 == 1 ==> padded.nodes[0] == padding.0
            &&& end % 2 == 1 ==> padded.nodes.last() == padding.1
            &&& 0 <= i < layer.nodes.len() ==> padded.nodes[layer.start + i - padded.start]
                == layer.nodes[i]
        }),
{
}

/// The layer above `layer`, which stands at the height `level`.
pub open spec fn parent_layer<TH: TweakableHash>(
    parameter: TH::Parameter,
    level: nat,
    layer: LayerModel<TH::Domain>,
) -> LayerModel<TH::Domain> {
    LayerModel {
        start: layer.start / 2,
        nodes: Seq::new(
            layer.nodes.len() / 2,
            |i: int|
                TH::merged(
                    parameter,
                    (level + 1) as u8,
                    (layer.start / 2 + i) as u32,
                    layer.nodes[2 * i],
                    layer.nodes[2 * i + 1],
                ),
        ),
    }
}

/// The layer at the height `level` of the tree of the given depth over the
/// leaves. Every layer but the root is completed to pairs of siblings.
pub open spec fn tree_layer<TH: TweakableHash>(
    parameter: TH::Parameter,
    leaves: LayerModel<TH::Domain>,
    padding: Seq<(TH::Domain, TH::Domain)>,
    level: nat,
) -> LayerModel<TH::Domain>
    decreases level,
{
    let layer = if level == 0 {
        leaves
    } else {
        parent_layer::<TH>(
            parameter,
            (level - 1) as nat,
            tree_layer::<TH>(parameter, leaves, padding, (level - 1) as nat),
        )
    };
    if level < padding.len() {
        padded_layer(layer, padding[level as int])
    } else {
        layer
    }
}

/// The tree over the leaves, which is as deep as there is padding.
pub open spec fn tree_over<TH: TweakableHash>(
    parameter: TH::Parameter,
    leaves: LayerModel<TH::Domain>,
    padding: Seq<(TH::Domain, TH::Domain)>,
) -> TreeModel<TH::Domain> {
    TreeModel {
        depth: padding.len(),
        layers: Seq::new(
            padding.len() + 1,
            |level: int| tree_layer::<TH>(parameter, leaves, padding, level as nat),
        ),
    }
}

/// `upper` stands above `lower`, which is at the height `level`: it has the
/// parent of each pair of siblings.
pub open spec fn stands_above<TH: TweakableHash>(
    parameter: TH::Parameter,
    level: nat,
    lower: LayerModel<TH::Domain>,
    upper: LayerModel<TH::Domain>,
) -> bool {
    forall|position: nat|
        lower.has(2 * position) && lower.has(2 * position + 1) ==> {
            &&& #[trigger] upper.has(position)
            &&& upper.node(position) == TH::merged(
                parameter,
                (level + 1) as u8,
                position as u32,
                lower.node(2 * position),
                lower.node(2 * position + 1),
            )
        }
}

/// The tree is a hash tree: its layers are made of pairs of siblings and stand
/// above one another up to a single root.
pub open spec fn is_hash_tree<TH: TweakableHash>(
    parameter: TH::Parameter,
    tree: TreeModel<TH::Domain>,
) -> bool {
    &&& tree.layers.len() == tree.depth + 1
    &&& forall|level: int|
        0 <= level < tree.depth ==> {
            &&& (#[trigger] tree.layers[level]).paired()
            &&& stands_above::<TH>(
                parameter,
                level as nat,
                tree.layers[level],
                tree.layers[level + 1],
            )
        }
    &&& tree.layers[tree.depth as int].start == 0
    &&& tree.layers[tree.depth as int].nodes.len() == 1
}

/// The root of a tree.
pub open spec fn tree_root<D>(tree: TreeModel<D>) -> D {
    tree.layers.last().nodes[0]
}

/// The position of the ancestor `height` above a position.
pub open spec fn ancestor(position: nat, height: nat) -> nat
    decreases height,
{
    if height == 0 {
        position
    } else {
        ancestor(position, (height - 1) as nat) / 2
    }
}

/// The position next to a position, below the same parent.
pub open spec fn sibling(position: nat) -> nat {
    if position % 2 == 0 {
        position + 1
    } else {
        (position - 1) as nat
    }
}

/// The tree has what [`opening_of`] looks up.
pub open spec fn can_open<D>(tree: TreeModel<D>, position: nat) -> bool {
    &&& tree.layers.len() >= tree.depth
    &&& forall|level: int|
        0 <= level < tree.depth ==> (#[trigger] tree.layers[level]).has(
            sibling(ancestor(position, level as nat)),
        )
}

/// The siblings of the nodes between a leaf and the root.
pub open spec fn opening_of<D>(tree: TreeModel<D>, position: nat) -> Seq<D> {
    Seq::new(
        tree.depth,
        |level: int| tree.layers[level].node(sibling(ancestor(position, level as nat))),
    )
}

/// The node that one reaches from `node`, at the height `level`, by merging it
/// with the nodes of `path`.
pub open spec fn climbed<TH: TweakableHash>(
    parameter: TH::Parameter,
    level: nat,
    position: nat,
    node: TH::Domain,
    path: Seq<TH::Domain>,
) -> TH::Domain
    decreases path.len(),
{
    if path.len() == 0 {
        node
    } else {
        let (left, right) = if position % 2 == 0 {
            (node, path[0])
        } else {
            (path[0], node)
        };
        climbed::<TH>(
            parameter,
            level + 1,
            position / 2,
            TH::merged(parameter, (level + 1) as u8, (position / 2) as u32, left, right),
            path.drop_first(),
        )
    }
}

/// Without a path one stays at the node. With one, the node is merged with the first
/// node of the path, from the left where its position is even and from the right where
/// it is odd, to the node one level up at half the position.
pub proof fn law_climb<TH: TweakableHash>(
    parameter: TH::Parameter,
    level: nat,
    position: nat,
    node: TH::Domain,
    path: Seq<TH::Domain>,
)
    ensures
        path.len() == 0 ==> climbed::<TH>(parameter, level, position, node, path) == node,
        path.len() > 0 && position % 2 == 0 ==> climbed::<TH>(
            parameter,
            level,
            position,
            node,
            path,
        ) == climbed::<TH>(
            parameter,
            level + 1,
            position / 2,
            TH::merged(parameter, (level + 1) as u8, (position / 2) as u32, node, path[0]),
            path.skip(1),
        ),
        path.len() > 0 && position % 2 == 1 ==> climbed::<TH>(
            parameter,
            level,
            position,
            node,
            path,
        ) == climbed::<TH>(
            parameter,
            level + 1,
            position / 2,
            TH::merged(parameter, (level + 1) as u8, (position / 2) as u32, path[0], node),
            path.skip(1),
        ),
{
    if path.len() > 0 {
        assert(path.drop_first() =~= path.skip(1));
    }
}

proof fn lemma_ancestor(position: nat, height: nat)
    ensures
        ancestor(position, height) == position / pow2(height),
    decreases height,
{
    if height == 0 {
        lemma2_to64();
    } else {
        lemma_ancestor(position, (height - 1) as nat);
        lemma_pow2_unfold(height);
        lemma_pow2_pos((height - 1) as nat);
        lemma_div_denominator(position as int, pow2((height - 1) as nat) as int, 2);
    }
}

/// The opening of a leaf holds, for each level below the root, the node beside the one
/// above the leaf.
pub proof fn law_opening<D>(tree: TreeModel<D>, position: nat, level: nat)
    requires
        level < tree.depth,
    ensures
        opening_of(tree, position).len() == tree.depth,
        (position / pow2(level)) % 2 == 0 ==> opening_of(tree, position)[level as int]
            == tree.layers[level as int].nodes[position / pow2(level) + 1
            - tree.layers[level as int].start],
        (position / pow2(level)) % 2 == 1 ==> opening_of(tree, position)[level as int]
            == tree.layers[level as int].nodes[position / pow2(level) - 1
            - tree.layers[level as int].start],
{
    lemma_ancestor(position, level);
}

/// A tree has the opening of a leaf if and only if it has, for each level below the root,
/// the node beside the one above the leaf.
pub proof fn law_can_open<D>(tree: TreeModel<D>, position: nat)
    ensures
        can_open(tree, position) <==> {
            &&& tree.depth <= tree.layers.len()
            &&& forall|level: nat|
                level < tree.depth ==> {
                    let layer = #[trigger] tree.layers[level as int];
                    let above = position / pow2(level);
                    &&& above % 2 == 0 ==> layer.start <= above + 1 < layer.start
                        + layer.nodes.len()
                    &&& above % 2 == 1 ==> layer.start <= above - 1 < layer.start
                        + layer.nodes.len()
                }
        },
{
    assert forall|level: nat| ancestor(position, level) == position / #[trigger] pow2(level) by {
        lemma_ancestor(position, level);
    }
    if can_open(tree, position) {
        assert forall|level: nat| level < tree.depth implies {
            let layer = #[trigger] tree.layers[level as int];
            let above = position / pow2(level);
            &&& above % 2 == 0 ==> layer.start <= above + 1 < layer.start + layer.nodes.len()
            &&& above % 2 == 1 ==> layer.start <= above - 1 < layer.start + layer.nodes.len()
        } by {
            assert(tree.layers[level as int].has(sibling(ancestor(position, level))));
        }
    } else if tree.depth <= tree.layers.len() {
        let level = choose|level: int|
            0 <= level < tree.depth && !(#[trigger] tree.layers[level]).has(
                sibling(ancestor(position, level as nat)),
            );
        assert(position / pow2(level as nat) == ancestor(position, level as nat));
        assert(tree.layers[level as nat as int] == tree.layers[level]);
    }
}

/// The root is the first node of the highest layer.
pub proof fn law_root<D>(tree: TreeModel<D>)
    requires
        tree.layers.len() > 0,
    ensures
        tree_root(tree) == tree.layers[tree.layers.len() - 1].nodes[0],
{
}

proof fn lemma_bare_layer<TH: TweakableHash>(
    parameter: TH::Parameter,
    leaves: LayerModel<TH::Domain>,
    padding: Seq<(TH::Domain, TH::Domain)>,
    level: nat,
)
    requires
        leaves.nodes.len() > 0,
        level <= padding.len(),
    ensures
        ({
            let first = leaves.start / pow2(level);
            let last = ((leaves.start + leaves.nodes.len() - 1) as nat) / pow2(level);
            let layer = tree_layer::<TH>(parameter, leaves, padding, level);
            &&& first <= last
            &&& level < padding.len() ==> {
                &&& layer.start == first - first % 2
                &&& layer.start + layer.nodes.len() == last + 2 - last % 2
                &&& first % 2 == 1 ==> layer.nodes[0] == padding[level as int].0
                &&& last % 2 == 0 ==> layer.nodes.last() == padding[level as int].1
            }
            &&& level == padding.len() ==> {
                &&& layer.start == first
                &&& layer.start + layer.nodes.len() == last + 1
            }
        }),
    decreases level,
{
    let top = (leaves.start + leaves.nodes.len() - 1) as nat;
    let first = leaves.start / pow2(level);
    let last = top / pow2(level);
    if level == 0 {
        lemma2_to64();
        assert(first == leaves.start && last == top);
    } else {
        lemma_bare_layer::<TH>(parameter, leaves, padding, (level - 1) as nat);
        lemma_pow2_unfold(level);
        lemma_pow2_pos((level - 1) as nat);
        let half = pow2((level - 1) as nat) as int;
        lemma_div_denominator(leaves.start as int, half, 2);
        lemma_div_denominator(top as int, half, 2);
        let first_below = leaves.start / pow2((level - 1) as nat);
        let last_below = top / pow2((level - 1) as nat);
        assert(first == first_below / 2);
        assert(last == last_below / 2);
    }
}

/// The layers of a tree over leaves: each layer below the root reaches from the node
/// above the first leaf to the node above the last, and where that is a right or a left
/// node without its sibling, the padding takes the place of the sibling. Each pair of
/// siblings has its merged node in the layer above.
pub proof fn law_layers<TH: TweakableHash>(
    parameter: TH::Parameter,
    leaves: LayerModel<TH::Domain>,
    padding: Seq<(TH::Domain, TH::Domain)>,
    level: nat,
    i: int,
)
    requires
        leaves.nodes.len() > 0,
        level < padding.len(),
    ensures
        tree_over::<TH>(parameter, leaves, padding).depth == padding.len(),
        tree_over::<TH>(parameter, leaves, padding).layers.len() == padding.len() + 1,
        ({
            let first = leaves.start / pow2(level);
            let last = ((leaves.start + leaves.nodes.len() - 1) as nat) / pow2(level);
            let layer = tree_over::<TH>(parameter, leaves, padding).layers[level as int];
            let above = tree_over::<TH>(parameter, leaves, padding).layers[level as int + 1];
            &&& layer.start == first - first % 2
            &&& layer.start + layer.nodes.len() == last + 2 - last % 2
            &&& first % 2 == 1 ==> layer.nodes[0] == padding[level as int].0
            &&& last % 2 == 0 ==> layer.nodes.last() == padding[level as int].1
            &&& 0 <= 2 * i < layer.nodes.len() ==> above.nodes[layer.start as int / 2 + i
                - above.start] == TH::merged(
                parameter,
                (level + 1) as u8,
                (layer.start / 2 + i) as u32,
                layer.nodes[2 * i],
                layer.nodes[2 * i + 1],
            )
        }),
{
    let tree = tree_over::<TH>(parameter, leaves, padding);
    let layer = tree_layer::<TH>(parameter, leaves, padding, level);
    assert(tree.layers[level as int] == layer);
    assert(tree.layers[level as int + 1] == tree_layer::<TH>(
        parameter,
        leaves,
        padding,
        level + 1,
    ));
    lemma_bare_layer::<TH>(parameter, leaves, padding, level);
    if 0 <= 2 * i < layer.nodes.len() {
        lemma_parent_in_layer::<TH>(parameter, leaves, padding, level, i);
    }
}

proof fn lemma_parent_in_layer<TH: TweakableHash>(
    parameter: TH::Parameter,
    leaves: LayerModel<TH::Domain>,
    padding: Seq<(TH::Domain, TH::Domain)>,
    level: nat,
    i: int,
)
    requires
        level < padding.len(),
        0 <= 2 * i,
        2 * i + 1 < tree_layer::<TH>(parameter, leaves, padding, level).nodes.len(),
    ensures
        ({
            let layer = tree_layer::<TH>(parameter, leaves, padding, level);
            let above = tree_layer::<TH>(parameter, leaves, padding, level + 1);
            &&& above.start <= layer.start / 2 + i < above.start + above.nodes.len()
            &&& above.nodes[layer.start as int / 2 + i - above.start] == TH::merged(
                parameter,
                (level + 1) as u8,
                (layer.start / 2 + i) as u32,
                layer.nodes[2 * i],
                layer.nodes[2 * i + 1],
            )
        }),
{
    let layer = tree_layer::<TH>(parameter, leaves, padding, level);
    let middle = parent_layer::<TH>(parameter, level, layer);
    if level + 1 < padding.len() {
        law_padded(middle, padding[level as int + 1], i);
    }
}

/// The lowest layer of a tree over leaves holds them at their positions.
pub proof fn law_leaves<TH: TweakableHash>(
    parameter: TH::Parameter,
    leaves: LayerModel<TH::Domain>,
    padding: Seq<(TH::Domain, TH::Domain)>,
    i: int,
)
    requires
        0 <= i < leaves.nodes.len(),
    ensures
        tree_over::<TH>(parameter, leaves, padding).layers[0].nodes[leaves.start + i
            - tree_over::<TH>(parameter, leaves, padding).layers[0].start] == leaves.nodes[i],
        padding.len() == 0 ==> tree_over::<TH>(parameter, leaves, padding).layers == seq![leaves],
{
}

/// From a leaf of a hash tree, the opening of the leaf leads to the root.
pub proof fn law_opening_leads_to_root<TH: TweakableHash>(
    parameter: TH::Parameter,
    tree: TreeModel<TH::Domain>,
    position: nat,
)
    requires
        is_hash_tree::<TH>(parameter, tree),
        tree.layers[0].has(position),
    ensures
        can_open(tree, position),
        climbed::<TH>(
            parameter,
            0,
            position,
            tree.layers[0].node(position),
            opening_of(tree, position),
        ) == tree_root(tree),
{
    assert forall|level: int| 0 <= level < tree.depth implies (#[trigger] tree.layers[level]).has(
        sibling(ancestor(position, level as nat)),
    ) by {
        lemma_ancestor_present::<TH>(parameter, tree, position, level as nat);
    }
    lemma_climb_from::<TH>(parameter, tree, position, 0);
    assert(opening_of(tree, position).skip(0) =~= opening_of(tree, position));
}

proof fn lemma_ancestor_present<TH: TweakableHash>(
    parameter: TH::Parameter,
    tree: TreeModel<TH::Domain>,
    position: nat,
    level: nat,
)
    requires
        is_hash_tree::<TH>(parameter, tree),
        tree.layers[0].has(position),
        level <= tree.depth,
    ensures
        tree.layers[level as int].has(ancestor(position, level)),
        level < tree.depth ==> tree.layers[level as int].has(sibling(ancestor(position, level))),
    decreases level,
{
    if level > 0 {
        let below = tree.layers[level - 1];
        lemma_ancestor_present::<TH>(parameter, tree, position, (level - 1) as nat);
        let p = ancestor(position, (level - 1) as nat);
        assert(below.paired());
        assert(below.has(2 * (p / 2)) && below.has(2 * (p / 2) + 1));
        assert(stands_above::<TH>(parameter, (level - 1) as nat, below, tree.layers[level as int]));
        assert(tree.layers[level as int].has(p / 2));
    }
    if level < tree.depth {
        assert(tree.layers[level as int].paired());
    }
}

proof fn lemma_climb_from<TH: TweakableHash>(
    parameter: TH::Parameter,
    tree: TreeModel<TH::Domain>,
    position: nat,
    level: nat,
)
    requires
        is_hash_tree::<TH>(parameter, tree),
        tree.layers[0].has(position),
        level <= tree.depth,
    ensures
        climbed::<TH>(
            parameter,
            level,
            ancestor(position, level),
            tree.layers[level as int].node(ancestor(position, level)),
            opening_of(tree, position).skip(level as int),
        ) == tree_root(tree),
    decreases tree.depth - level,
{
    let path = opening_of(tree, position).skip(level as int);
    let p = ancestor(position, level);
    lemma_ancestor_present::<TH>(parameter, tree, position, level);
    if level < tree.depth {
        let layer = tree.layers[level as int];
        assert(layer.paired());
        assert(layer.has(2 * (p / 2)) && layer.has(2 * (p / 2) + 1));
        assert(stands_above::<TH>(parameter, level, layer, tree.layers[level as int + 1]));
        assert(tree.layers[level as int + 1].has(p / 2));
        assert(path[0] == layer.node(sibling(p)));
        assert(path.drop_first() =~= opening_of(tree, position).skip(level as int + 1));
        lemma_climb_from::<TH>(parameter, tree, position, level + 1);
        assert(ancestor(position, level + 1) == p / 2);
    } else {
        assert(path.len() == 0);
    }
}

/// The tree over leaves that fit under its root is a hash tree, whose lowest layer
/// has the leaves.
pub proof fn law_tree_over<TH: TweakableHash>(
    parameter: TH::Parameter,
    leaves: LayerModel<TH::Domain>,
    padding: Seq<(TH::Domain, TH::Domain)>,
)
    requires
        leaves.nodes.len() > 0,
        leaves.start + leaves.nodes.len() <= pow2(padding.len()),
    ensures
        is_hash_tree::<TH>(parameter, tree_over::<TH>(parameter, leaves, padding)),
        forall|position: nat| #[trigger]
            leaves.has(position) ==> {
                let lowest = tree_over::<TH>(parameter, leaves, padding).layers[0];
                lowest.has(position) && lowest.node(position) == leaves.node(position)
            },
{
    let tree = tree_over::<TH>(parameter, leaves, padding);
    assert forall|level: int| 0 <= level < tree.depth implies {
        &&& (#[trigger] tree.layers[level]).paired()
        &&& stands_above::<TH>(
            parameter,
            level as nat,
            tree.layers[level],
            tree.layers[level + 1],
        )
    } by {
        let lower = tree_layer::<TH>(parameter, leaves, padding, level as nat);
        let upper = tree_layer::<TH>(parameter, leaves, padding, level as nat + 1);
        assert(tree.layers[level] == lower);
        assert(tree.layers[level + 1] == upper);
        lemma_layer_fits::<TH>(parameter, leaves, padding, level as nat);
        assert(stands_above::<TH>(parameter, level as nat, lower, upper)) by {
            lemma_layer_above::<TH>(parameter, leaves, padding, level as nat);
        }
    }
    assert(tree.layers[tree.depth as int].start == 0 && tree.layers[tree.depth as int].nodes.len()
        == 1) by {
        lemma_layer_fits::<TH>(parameter, leaves, padding, padding.len());
        lemma2_to64();
    }
    assert forall|position: nat| #[trigger] leaves.has(position) implies tree.layers[0].has(
        position,
    ) && tree.layers[0].node(position) == leaves.node(position) by {
        assert(tree.layers[0] == tree_layer::<TH>(parameter, leaves, padding, 0));
        if padding.len() > 0 {
            law_padded(leaves, padding[0], position - leaves.start);
        }
    }
}

proof fn lemma_layer_fits<TH: TweakableHash>(
    parameter: TH::Parameter,
    leaves: LayerModel<TH::Domain>,
    padding: Seq<(TH::Domain, TH::Domain)>,
    level: nat,
)
    requires
        leaves.nodes.len() > 0,
        leaves.start + leaves.nodes.len() <= pow2(padding.len()),
        level <= padding.len(),
    ensures
        ({
            let layer = tree_layer::<TH>(parameter, leaves, padding, level);
            &&& layer.nodes.len() > 0
            &&& layer.start + layer.nodes.len() <= pow2((padding.len() - level) as nat)
            &&& level < padding.len() ==> layer.paired()
        }),
    decreases level,
{
    let bare = if level == 0 {
        leaves
    } else {
        parent_layer::<TH>(
            parameter,
            (level - 1) as nat,
            tree_layer::<TH>(parameter, leaves, padding, (level - 1) as nat),
        )
    };
    if level > 0 {
        lemma_layer_fits::<TH>(parameter, leaves, padding, (level - 1) as nat);
        lemma_pow2_unfold((padding.len() - level + 1) as nat);
    }
    assert(bare.nodes.len() > 0);
    assert(bare.start + bare.nodes.len() <= pow2((padding.len() - level) as nat));
    if level < padding.len() {
        lemma_pow2_unfold((padding.len() - level) as nat);
        lemma_padded_fits(
            bare,
            padding[level as int],
            pow2((padding.len() - level - 1) as nat),
        );
    }
}

proof fn lemma_padded_fits<D>(layer: LayerModel<D>, padding: (D, D), half: nat)
    requires
        layer.nodes.len() > 0,
        layer.start + layer.nodes.len() <= 2 * half,
    ensures
        padded_layer(layer, padding).nodes.len() > 0,
        padded_layer(layer, padding).start + padded_layer(layer, padding).nodes.len() <= 2 * half,
        padded_layer(layer, padding).paired(),
{
}

proof fn lemma_layer_above<TH: TweakableHash>(
    parameter: TH::Parameter,
    leaves: LayerModel<TH::Domain>,
    padding: Seq<(TH::Domain, TH::Domain)>,
    level: nat,
)
    requires
        level < padding.len(),
        tree_layer::<TH>(parameter, leaves, padding, level).paired(),
    ensures
        stands_above::<TH>(
            parameter,
            level,
            tree_layer::<TH>(parameter, leaves, padding, level),
            tree_layer::<TH>(parameter, leaves, padding, level + 1),
        ),
{
    let lower = tree_layer::<TH>(parameter, leaves, padding, level);
    let upper = tree_layer::<TH>(parameter, leaves, padding, level + 1);
    assert forall|position: nat|
        lower.has(2 * position) && lower.has(2 * position + 1) implies {
        &&& #[trigger] upper.has(position)
        &&& upper.node(position) == TH::merged(
            parameter,
            (level + 1) as u8,
            position as u32,
            lower.node(2 * position),
            lower.node(2 * position + 1),
        )
    } by {
        let i = position - lower.start as int / 2;
        assert(2 * i == 2 * position - lower.start);
        lemma_parent_in_layer::<TH>(parameter, leaves, padding, level, i);
    }
}

/// Every node of the layer is valid.
pub open spec fn layer_valid<D: Serializable>(layer: LayerModel<D>) -> bool {
    all_valid(layer.nodes)
}

/// Every node of the tree is valid.
pub open spec fn tree_valid<D: Serializable>(tree: TreeModel<D>) -> bool {
    forall|level: int|
        0 <= level < tree.layers.len() ==> layer_valid(#[trigger] tree.layers[level])
}

/// Every value that completes a layer is valid.
pub open spec fn padding_valid<D: Serializable>(padding: Seq<(D, D)>) -> bool {
    forall|i: int|
        0 <= i < padding.len() ==> (#[trigger] padding[i]).0.valid() && padding[i].1.valid()
}

/// Values that complete the layers of a tree of the given depth.
pub fn random_padding<TH: TweakableHash>(
    rng: &mut rand::rngs::ThreadRng,
    depth: usize,
) -> (padding: Vec<(TH::Domain, TH::Domain)>)
    ensures
        padding.len() == depth,
        padding_valid(padding@),
{
    let mut padding: Vec<(TH::Domain, TH::Domain)> = Vec::new();
    while padding.len() < depth
        invariant
            padding.len() <= depth,
            padding_valid(padding@),
        decreases depth - padding.len(),
    {
        let front = TH::rand_domain(rng);
        let back = TH::rand_domain(rng);
        padding.push((front, back));
    }
    padding
}

impl<TH: TweakableHash> HashTreeLayer<TH> {
    /// Completes the nodes from a position on to pairs of siblings.
    pub fn padded(
        start_index: u64,
        nodes: Vec<TH::Domain>,
        padding: &(TH::Domain, TH::Domain),
    ) -> (layer: Self)
        requires
            start_index + nodes.len() <= u64::MAX,
        ensures
            layer@ == padded_layer(
                LayerModel { start: start_index as nat, nodes: nodes@ },
                *padding,
            ),
            all_valid(nodes@) && padding.0.valid() && padding.1.valid() ==> layer_valid(layer@),
    {
        let ghost given = nodes@;
        let mut start_index = start_index;
        let mut nodes = nodes;
        let needs_back = (start_index + nodes.len() as u64) % 2 == 1;
        if start_index % 2 == 1 {
            nodes.insert(0, padding.0);
            start_index = start_index - 1;
            assert(nodes@ =~= seq![padding.0] + given);
        }
        if needs_back {
            nodes.push(padding.1);
        }
        let layer = HashTreeLayer { start_index, nodes };
        layer
    }

    /// The nodes above the layer, which stands at the height `level`.
    fn parents(&self, engine: &TH::Engine, parameter: &TH::Parameter, level: usize) -> (nodes: Vec<
        TH::Domain,
    >)
        requires
            TH::supported(),
            TH::ready(*engine),
            level < usize::MAX,
            self.start_index + self.nodes.len() <= u64::MAX,
        ensures
            nodes@ == parent_layer::<TH>(*parameter, level as nat, self@).nodes,
            all_valid(nodes@),
    {
        let count = self.nodes.len() / 2;
        let ghost expected = parent_layer::<TH>(*parameter, level as nat, self@).nodes;
        let mut nodes: Vec<TH::Domain> = Vec::new();
        while nodes.len() < count
            invariant
                nodes.len() <= count,
                count == self.nodes.len() / 2,
                TH::supported(),
                TH::ready(*engine),
                level < usize::MAX,
                self.start_index + self.nodes.len() <= u64::MAX,
                expected == parent_layer::<TH>(*parameter, level as nat, self@).nodes,
                nodes@ == expected.take(nodes.len() as int),
                all_valid(nodes@),
            decreases count - nodes.len(),
        {
            let i = nodes.len();
            let node = TH::apply_merge(
                engine,
                parameter,
                (level + 1) as u8,
                (self.start_index / 2 + i as u64) as u32,
                &self.nodes[2 * i],
                &self.nodes[2 * i + 1],
            );
            assert(node == expected[i as int]);
            nodes.push(node);
            assert(nodes@ =~= expected.take(nodes.len() as int));
        }
        assert(expected.take(nodes.len() as int) =~= expected);
        nodes
    }
}

impl<TH: TweakableHash> HashSubTree<TH> {
    /// The tree over the leaves from a position on, which is as deep as there is
    /// padding.
    pub fn new_subtree(
        engine: &TH::Engine,
        depth: usize,
        start_index: u64,
        parameter: &TH::Parameter,
        leaves: Vec<TH::Domain>,
        padding: &Vec<(TH::Domain, TH::Domain)>,
    ) -> (tree: Self)
        requires
            TH::supported(),
            TH::ready(*engine),
            depth <= 32,
            padding.len() == depth,
            leaves.len() > 0,
            start_index + leaves.len() <= pow2(depth as nat),
        ensures
            tree@ == tree_over::<TH>(
                *parameter,
                LayerModel { start: start_index as nat, nodes: leaves@ },
                padding@,
            ),
            all_valid(leaves@) && padding_valid(padding@) ==> tree_valid(tree@),
    {
        let ghost model = LayerModel { start: start_index as nat, nodes: leaves@ };
        let ghost given = leaves@;
        proof {
            lemma_small_power(depth as nat);
        }
        let mut layers: Vec<HashTreeLayer<TH>> = Vec::new();
        let mut start_index = start_index;
        let mut nodes = leaves;
        let mut level: usize = 0;
        while level < depth
            invariant
                level <= depth,
                depth <= 32,
                padding.len() == depth,
                TH::supported(),
                TH::ready(*engine),
                model.nodes.len() > 0,
                model.start + model.nodes.len() <= pow2(depth as nat),
                start_index + nodes.len() <= u64::MAX,
                layers.len() == level,
                level == 0 ==> model == (LayerModel { start: start_index as nat, nodes: nodes@ }),
                level > 0 ==> parent_layer::<TH>(
                    *parameter,
                    (level - 1) as nat,
                    tree_layer::<TH>(*parameter, model, padding@, (level - 1) as nat),
                ) == (LayerModel { start: start_index as nat, nodes: nodes@ }),
                forall|k: int|
                    0 <= k < level ==> (#[trigger] layers@[k])@ == tree_layer::<TH>(
                        *parameter,
                        model,
                        padding@,
                        k as nat,
                    ),
                model.nodes == given,
                all_valid(given) && padding_valid(padding@) ==> {
                    &&& all_valid(nodes@)
                    &&& forall|k: int| 0 <= k < level ==> layer_valid((#[trigger] layers@[k])@)
                },
            decreases depth - level,
        {
            let layer = HashTreeLayer::padded(start_index, nodes, &padding[level]);
            assert(layer@ == tree_layer::<TH>(*parameter, model, padding@, level as nat));
            proof {
                lemma_layer_fits::<TH>(*parameter, model, padding@, level as nat);
                lemma_small_power((depth - level) as nat);
            }
            nodes = layer.parents(engine, parameter, level);
            start_index = layer.start_index / 2;
            layers.push(layer);
            level = level + 1;
        }
        layers.push(HashTreeLayer { start_index, nodes });
        let tree = HashSubTree { depth: depth as u64, layers };
        proof {
            let expected = tree_over::<TH>(*parameter, model, padding@);
            assert forall|k: int| 0 <= k <= depth implies tree@.layers[k] == expected.layers[k] by {
                assert(tree@.layers[k] == layers@[k]@);
            }
            assert(tree@.layers =~= expected.layers);
            if all_valid(given) && padding_valid(padding@) {
                assert forall|k: int| 0 <= k < tree@.layers.len() implies layer_valid(
                    #[trigger] tree@.layers[k],
                ) by {
                    assert(tree@.layers[k] == layers@[k]@);
                }
            }
        }
        tree
    }

    /// The root of the tree.
    pub fn root(&self) -> (root: TH::Domain)
        requires
            self@.layers.len() > 0,
            self@.layers.last().nodes.len() > 0,
        ensures
            root == tree_root(self@),
    {
        assert(self@.layers.last() == self.layers@.last()@);
        self.layers[self.layers.len() - 1].nodes[0]
    }

    /// Whether the tree has the nodes of the opening of the leaf at a position.
    pub fn has_path(&self, position: u32) -> (found: bool)
        ensures
            found == can_open(self@, position as nat),
    {
        assert(self@.layers.len() == self.layers.len());
        if self.depth > self.layers.len() as u64 {
            return false;
        }
        let depth = self.depth as usize;
        let mut current: u64 = position as u64;
        let mut level: usize = 0;
        while level < depth
            invariant
                level <= depth,
                depth == self.depth,
                depth <= self.layers.len(),
                current == ancestor(position as nat, level as nat),
                current <= u32::MAX,
                forall|k: int|
                    0 <= k < level ==> (#[trigger] self@.layers[k]).has(
                        sibling(ancestor(position as nat, k as nat)),
                    ),
            decreases depth - level,
        {
            let next = if current % 2 == 0 {
                current + 1
            } else {
                current - 1
            };
            let layer = &self.layers[level];
            assert(self@.layers[level as int] == layer@);
            if next < layer.start_index || next - layer.start_index >= layer.nodes.len() as u64 {
                assert(!self@.layers[level as int].has(
                    sibling(ancestor(position as nat, level as nat)),
                ));
                return false;
            }
            current = current / 2;
            level = level + 1;
        }
        true
    }

    /// The opening of the leaf at a position.
    pub fn path(&self, position: u32) -> (opening: HashTreeOpening<TH>)
        requires
            can_open(self@, position as nat),
        ensures
            opening@ == opening_of(self@, position as nat),
            tree_valid(self@) ==> all_valid(opening@),
    {
        assert(self@.layers.len() == self.layers.len());
        let depth = self.depth as usize;
        let ghost expected = opening_of(self@, position as nat);
        let mut co_path: Vec<TH::Domain> = Vec::new();
        let mut current: u64 = position as u64;
        while co_path.len() < depth
            invariant
                depth == self.depth,
                co_path.len() <= depth,
                can_open(self@, position as nat),
                expected == opening_of(self@, position as nat),
                current == ancestor(position as nat, co_path.len() as nat),
                current <= u32::MAX,
                co_path@ == expected.take(co_path.len() as int),
                tree_valid(self@) ==> all_valid(co_path@),
            decreases depth - co_path.len(),
        {
            let level = co_path.len();
            let next = if current % 2 == 0 {
                current + 1
            } else {
                current - 1
            };
            let layer = &self.layers[level];
            assert(self@.layers[level as int] == layer@);
            assert(layer@.has(next as nat));
            let node = layer.nodes[(next - layer.start_index) as usize];
            assert(node == expected[level as int]);
            proof {
                if tree_valid(self@) {
                    assert(layer_valid(self@.layers[level as int]));
                }
            }
            co_path.push(node);
            current = current / 2;
            assert(co_path@ =~= expected.take(co_path.len() as int));
        }
        assert(expected.take(co_path.len() as int) =~= expected);
        HashTreeOpening { co_path }
    }
}

proof fn lemma_small_power(n: nat)
    requires
        n <= 32,
    ensures
        pow2(n) <= 0x1_0000_0000,
{
    lemma2_to64();
    if n < 32 {
        lemma_pow2_strictly_increases(n, 32);
    }
}

/// Whether an opening leads from the leaf over the ends of chains to the root.
pub fn hash_tree_verify<TH: TweakableHash>(
    engine: &TH::Engine,
    parameter: &TH::Parameter,
    root: &TH::Domain,
    position: u32,
    chain_ends: &Vec<TH::Domain>,
    opening: &HashTreeOpening<TH>,
) -> (accepted: bool)
    requires
        TH::supported(),
        TH::ready(*engine),
    ensures
        accepted == (climbed::<TH>(
            *parameter,
            0,
            position as nat,
            TH::leaf(*parameter, position, chain_ends@),
            opening@,
        ) == *root),
{
    let mut node = TH::apply_leaf(engine, parameter, position, chain_ends);
    let mut current: u32 = position;
    let mut level: usize = 0;
    assert(opening@.skip(0) =~= opening@);
    while level < opening.co_path.len()
        invariant
            level <= opening.co_path.len(),
            TH::supported(),
            TH::ready(*engine),
            climbed::<TH>(
                *parameter,
                level as nat,
                current as nat,
                node,
                opening@.skip(level as int),
            ) == climbed::<TH>(
                *parameter,
                0,
                position as nat,
                TH::leaf(*parameter, position, chain_ends@),
                opening@,
            ),
        decreases opening.co_path.len() - level,
    {
        let ghost rest = opening@.skip(level as int);
        let next = &opening.co_path[level];
        assert(rest[0] == *next);
        assert(rest.drop_first() =~= opening@.skip(level + 1));
        let parent = current / 2;
        if current % 2 == 0 {
            node = TH::apply_merge(engine, parameter, (level + 1) as u8, parent, &node, next);
        } else {
            node = TH::apply_merge(engine, parameter, (level + 1) as u8, parent, next, &node);
        }
        current = parent;
        level = level + 1;
    }
    TH::domain_eq(&node, root)
}

} // verus!
