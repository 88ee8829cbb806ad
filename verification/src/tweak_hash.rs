//! Tweakable hash functions and the chains that they form.

use crate::array::FieldArray;
use crate::field::{digits, law_digit_at, lemma_digits_canonical};
use crate::poseidon::{
    action_16, action_24, append_elements, compressed, default_16, default_24, domain_separator,
    is_default_16, is_default_24, law_sponge_takes_all, padded, permuted_16, permuted_24,
    poseidon_compress_16, poseidon_compress_24, poseidon_replacement_t_sponge,
    poseidon_safe_domain_separator, sponge, Permutation16, Permutation24,
};
use crate::serialization::Serializable;
use crate::tweak::{chain_tweak, chain_tweak_fe, tree_tweak, tree_tweak_fe};
use vstd::arithmetic::power::pow;
use vstd::prelude::*;

verus! {

/// A hash function that is told, with each input, what the input is.
pub trait TweakableHash: Sized {
    type Parameter: Copy + Serializable;

    type Domain: Copy + Serializable;

    /// What applying the hash function needs at hand.
    type Engine;

    /// The sizes of the hash function go together.
    spec fn supported() -> bool;

    /// The engine is one with which the function can be applied.
    spec fn ready(engine: Self::Engine) -> bool;

    /// The node of a chain that follows `value` and stands at `pos_in_chain`.
    spec fn chain_step(
        parameter: Self::Parameter,
        epoch: u32,
        chain_index: u8,
        pos_in_chain: u8,
        value: Self::Domain,
    ) -> Self::Domain;

    /// The node of a tree above `left` and `right`.
    spec fn merged(
        parameter: Self::Parameter,
        level: u8,
        pos_in_level: u32,
        left: Self::Domain,
        right: Self::Domain,
    ) -> Self::Domain;

    /// The leaf of a tree for the ends of the chains of an epoch.
    spec fn leaf(
        parameter: Self::Parameter,
        position: u32,
        chain_ends: Seq<Self::Domain>,
    ) -> Self::Domain;

    /// An engine with which the function can be applied.
    fn engine() -> (engine: Self::Engine)
        ensures
            Self::ready(engine),
    ;

    /// Some parameter.
    fn rand_parameter(rng: &mut rand::rngs::ThreadRng) -> (parameter: Self::Parameter)
        ensures
            parameter.valid(),
    ;

    /// Some value.
    fn rand_domain(rng: &mut rand::rngs::ThreadRng) -> (value: Self::Domain)
        ensures
            value.valid(),
    ;

    /// Whether two values are the same.
    fn domain_eq(a: &Self::Domain, b: &Self::Domain) -> (equal: bool)
        ensures
            equal == (*a == *b),
    ;

    /// The node of a chain that follows `value` and stands at `pos_in_chain`.
    fn apply_chain(
        engine: &Self::Engine,
        parameter: &Self::Parameter,
        epoch: u32,
        chain_index: u8,
        pos_in_chain: u8,
        value: &Self::Domain,
    ) -> (next: Self::Domain)
        requires
            Self::supported(),
            Self::ready(*engine),
        ensures
            next == Self::chain_step(*parameter, epoch, chain_index, pos_in_chain, *value),
            next.valid(),
    ;

    /// The node of a tree above `left` and `right`.
    fn apply_merge(
        engine: &Self::Engine,
        parameter: &Self::Parameter,
        level: u8,
        pos_in_level: u32,
        left: &Self::Domain,
        right: &Self::Domain,
    ) -> (node: Self::Domain)
        requires
            Self::supported(),
            Self::ready(*engine),
        ensures
            node == Self::merged(*parameter, level, pos_in_level, *left, *right),
            node.valid(),
    ;

    /// The leaf of a tree for the ends of the chains of an epoch.
    fn apply_leaf(
        engine: &Self::Engine,
        parameter: &Self::Parameter,
        position: u32,
        chain_ends: &Vec<Self::Domain>,
    ) -> (leaf: Self::Domain)
        requires
            Self::supported(),
            Self::ready(*engine),
        ensures
            leaf == Self::leaf(*parameter, position, chain_ends@),
            leaf.valid(),
    ;
}

/// Lists of values of the hash function can be decoded: a value of a fixed length
/// takes at least one byte.
pub open spec fn domain_supported<TH: TweakableHash>() -> bool {
    &&& TH::Domain::fixed_len() <= usize::MAX
    &&& TH::Domain::is_fixed() ==> TH::Domain::fixed_len() > 0
}

/// The node of a chain that is `steps` behind the node `start` at `start_pos`.
pub open spec fn chain_node<TH: TweakableHash>(
    parameter: TH::Parameter,
    epoch: u32,
    chain_index: u8,
    start_pos: nat,
    steps: nat,
    start: TH::Domain,
) -> TH::Domain
    decreases steps,
{
    if steps == 0 {
        start
    } else {
        TH::chain_step(
            parameter,
            epoch,
            chain_index,
            (start_pos + steps) as u8,
            chain_node::<TH>(
                parameter,
                epoch,
                chain_index,
                start_pos,
                (steps - 1) as nat,
                start,
            ),
        )
    }
}

/// No step leads nowhere, and one step is hashed with the position that it leads to.
pub proof fn law_chain_steps<TH: TweakableHash>(
    parameter: TH::Parameter,
    epoch: u32,
    chain_index: u8,
    position: u8,
    value: TH::Domain,
)
    requires
        position < 255,
    ensures
        chain_node::<TH>(parameter, epoch, chain_index, position as nat, 0, value) == value,
        chain_node::<TH>(parameter, epoch, chain_index, position as nat, 1, value)
            == TH::chain_step(parameter, epoch, chain_index, (position + 1) as u8, value),
{
    reveal_with_fuel(chain_node, 2);
}

/// A walk of several steps first hashes with the position behind its start, and goes
/// on from there.
pub proof fn law_chain_first_step<TH: TweakableHash>(
    parameter: TH::Parameter,
    epoch: u32,
    chain_index: u8,
    position: u8,
    steps: nat,
    value: TH::Domain,
)
    requires
        position < 255,
        steps > 0,
    ensures
        chain_node::<TH>(parameter, epoch, chain_index, position as nat, steps, value)
            == chain_node::<TH>(
            parameter,
            epoch,
            chain_index,
            position as nat + 1,
            (steps - 1) as nat,
            TH::chain_step(parameter, epoch, chain_index, (position + 1) as u8, value),
        ),
{
    law_chain_steps::<TH>(parameter, epoch, chain_index, position, value);
    law_chain_composes::<TH>(
        parameter,
        epoch,
        chain_index,
        position as nat,
        1,
        (steps - 1) as nat,
        value,
    );
}

/// Walking on from where a walk along a chain ended is one longer walk.
pub proof fn law_chain_composes<TH: TweakableHash>(
    parameter: TH::Parameter,
    epoch: u32,
    chain_index: u8,
    start_pos: nat,
    steps: nat,
    more_steps: nat,
    start: TH::Domain,
)
    ensures
        chain_node::<TH>(
            parameter,
            epoch,
            chain_index,
            start_pos + steps,
            more_steps,
            chain_node::<TH>(parameter, epoch, chain_index, start_pos, steps, start),
        ) == chain_node::<TH>(
            parameter,
            epoch,
            chain_index,
            start_pos,
            steps + more_steps,
            start,
        ),
    decreases more_steps,
{
    if more_steps > 0 {
        law_chain_composes::<TH>(
            parameter,
            epoch,
            chain_index,
            start_pos,
            steps,
            (more_steps - 1) as nat,
            start,
        );
    }
}

/// Walks along a chain, from the node `start` at `start_pos_in_chain`.
pub fn chain<TH: TweakableHash>(
    engine: &TH::Engine,
    parameter: &TH::Parameter,
    epoch: u32,
    chain_index: u8,
    start_pos_in_chain: u8,
    steps: usize,
    start: &TH::Domain,
) -> (end: TH::Domain)
    requires
        TH::supported(),
        TH::ready(*engine),
        start_pos_in_chain + steps <= 255,
    ensures
        end == chain_node::<TH>(
            *parameter,
            epoch,
            chain_index,
            start_pos_in_chain as nat,
            steps as nat,
            *start,
        ),
        start.valid() ==> end.valid(),
{
    let mut current: TH::Domain = *start;
    let mut j: usize = 0;
    while j < steps
        invariant
            j <= steps,
            TH::supported(),
            TH::ready(*engine),
            start_pos_in_chain + steps <= 255,
            current == chain_node::<TH>(
                *parameter,
                epoch,
                chain_index,
                start_pos_in_chain as nat,
                j as nat,
                *start,
            ),
            start.valid() ==> current.valid(),
        decreases steps - j,
    {
        let pos = start_pos_in_chain + j as u8 + 1;
        current = TH::apply_chain(engine, parameter, epoch, chain_index, pos, &current);
        j = j + 1;
    }
    current
}

/// The elements of the arrays, one array after the other.
pub open spec fn flattened<const N: usize>(arrays: Seq<FieldArray<N>>) -> Seq<u32>
    decreases arrays.len(),
{
    if arrays.len() == 0 {
        seq![]
    } else {
        flattened(arrays.drop_last()) + arrays.last()@
    }
}

/// The elements that a chain step gives.
pub open spec fn chain_hash_elements(
    permute: spec_fn(Seq<u32>) -> Seq<u32>,
    parameter: Seq<u32>,
    epoch: u32,
    chain_index: u8,
    pos_in_chain: u8,
    value: Seq<u32>,
    tweak_len: nat,
) -> Seq<u32> {
    compressed(
        permute,
        value + parameter + digits(chain_tweak(epoch, chain_index, pos_in_chain), tweak_len),
        16,
    ).take(value.len() as int)
}

/// The elements of the node above two nodes.
pub open spec fn tree_merge_elements(
    permute: spec_fn(Seq<u32>) -> Seq<u32>,
    parameter: Seq<u32>,
    level: u8,
    pos_in_level: u32,
    left: Seq<u32>,
    right: Seq<u32>,
    tweak_len: nat,
) -> Seq<u32> {
    compressed(
        permute,
        parameter + digits(tree_tweak(level, pos_in_level), tweak_len) + left + right,
        24,
    ).take(left.len() as int)
}

/// The elements of the leaf over `contents`, for chains whose ends have
/// `hash_len` elements each.
pub open spec fn leaf_hash_elements(
    permute: spec_fn(Seq<u32>) -> Seq<u32>,
    parameter: Seq<u32>,
    position: u32,
    contents: Seq<u32>,
    hash_len: nat,
    tweak_len: nat,
    capacity: nat,
    num_chunks: nat,
) -> Seq<u32> {
    sponge(
        permute,
        domain_separator(
            permute,
            seq![
                parameter.len() as u32,
                tweak_len as u32,
                num_chunks as u32,
                hash_len as u32,
            ],
            capacity,
        ),
        parameter + digits(tree_tweak(0, position), tweak_len) + contents,
        hash_len,
    )
}

/// The elements of the arrays stand in their order, array after array.
pub proof fn law_flattened<const N: usize>(arrays: Seq<FieldArray<N>>, i: int, k: int)
    requires
        0 <= i < arrays.len(),
        0 <= k < N,
    ensures
        flattened(arrays).len() == arrays.len() * N,
        flattened(arrays)[i * N + k] == arrays[i]@[k],
    decreases arrays.len(),
{
    let before = arrays.drop_last();
    let n = before.len() as int;
    arrays.last().law_of_view();
    lemma_flattened_len(before);
    assert((n + 1) * N == n * N + N) by (nonlinear_arith);
    if i == n {
        assert(flattened(arrays)[n * N + k] == arrays.last()@[k]);
    } else {
        law_flattened(before, i, k);
        assert(i * N + k < n * N && i * N + k >= 0) by (nonlinear_arith)
            requires
                0 <= i < n,
                0 <= k < N,
        ;
    }
}

proof fn lemma_flattened_len<const N: usize>(arrays: Seq<FieldArray<N>>)
    ensures
        flattened(arrays).len() == arrays.len() * N,
    decreases arrays.len(),
{
    if arrays.len() > 0 {
        let before = arrays.drop_last();
        arrays.last().law_of_view();
        lemma_flattened_len(before);
        assert((before.len() + 1) * N == before.len() * N + N) by (nonlinear_arith);
    }
}

/// A step along a chain compresses sixteen elements: the value, the parameter, and
/// the digits of the number made of the epoch, the index of the chain and the
/// position, with zeros behind them.
pub proof fn law_chain_hash(
    permute: spec_fn(Seq<u32>) -> Seq<u32>,
    parameter: Seq<u32>,
    epoch: u32,
    chain_index: u8,
    pos_in_chain: u8,
    value: Seq<u32>,
    tweak_len: nat,
    state: Seq<u32>,
    i: int,
)
    requires
        value.len() + parameter.len() + tweak_len <= 16,
        state.len() == 16,
        forall|k: int|
            0 <= k < 16 ==> #[trigger] state[k] == (if k < value.len() {
                value[k] as int
            } else if k < value.len() + parameter.len() {
                parameter[k - value.len()] as int
            } else if k < value.len() + parameter.len() + tweak_len {
                ((epoch * 0x100_0000 + chain_index * 0x1_0000 + pos_in_chain * 0x100) / pow(
                    0x7f00_0001,
                    (k - value.len() - parameter.len()) as nat,
                )) % 0x7f00_0001
            } else {
                0
            }),
        0 <= i < value.len(),
    ensures
        chain_hash_elements(
            permute,
            parameter,
            epoch,
            chain_index,
            pos_in_chain,
            value,
            tweak_len,
        ).len() == value.len(),
        chain_hash_elements(
            permute,
            parameter,
            epoch,
            chain_index,
            pos_in_chain,
            value,
            tweak_len,
        )[i] == (permute(state)[i] + state[i]) % 0x7f00_0001,
{
    let tweak = chain_tweak(epoch, chain_index, pos_in_chain);
    let input = value + parameter + digits(tweak, tweak_len);
    lemma_digits_canonical(tweak, tweak_len);
    assert forall|k: int| 0 <= k < 16 implies padded(input, 16)[k] == state[k] by {
        if value.len() + parameter.len() <= k < input.len() {
            law_digit_at(tweak, tweak_len, k - value.len() - parameter.len());
        }
    }
    assert(padded(input, 16) =~= state);
}

/// Merging two nodes compresses 24 elements: the parameter, the digits of the number
/// made of the level, the position and a one, the left node and the right node, with
/// zeros behind them.
pub proof fn law_tree_merge(
    permute: spec_fn(Seq<u32>) -> Seq<u32>,
    parameter: Seq<u32>,
    level: u8,
    pos_in_level: u32,
    left: Seq<u32>,
    right: Seq<u32>,
    tweak_len: nat,
    state: Seq<u32>,
    i: int,
)
    requires
        parameter.len() + tweak_len + left.len() + right.len() <= 24,
        state.len() == 24,
        forall|k: int|
            0 <= k < 24 ==> #[trigger] state[k] == (if k < parameter.len() {
                parameter[k] as int
            } else if k < parameter.len() + tweak_len {
                ((level * 0x100_0000_0000 + pos_in_level * 0x100 + 1) / pow(
                    0x7f00_0001,
                    (k - parameter.len()) as nat,
                )) % 0x7f00_0001
            } else if k < parameter.len() + tweak_len + left.len() {
                left[k - parameter.len() - tweak_len] as int
            } else if k < parameter.len() + tweak_len + left.len() + right.len() {
                right[k - parameter.len() - tweak_len - left.len()] as int
            } else {
                0
            }),
        0 <= i < left.len(),
    ensures
        tree_merge_elements(permute, parameter, level, pos_in_level, left, right, tweak_len).len()
            == left.len(),
        tree_merge_elements(permute, parameter, level, pos_in_level, left, right, tweak_len)[i]
            == (permute(state)[i] + state[i]) % 0x7f00_0001,
{
    let tweak = tree_tweak(level, pos_in_level);
    let input = parameter + digits(tweak, tweak_len) + left + right;
    lemma_digits_canonical(tweak, tweak_len);
    assert forall|k: int| 0 <= k < 24 implies padded(input, 24)[k] == state[k] by {
        if parameter.len() <= k < parameter.len() + tweak_len {
            law_digit_at(tweak, tweak_len, k - parameter.len());
        }
    }
    assert(padded(input, 24) =~= state);
}

/// A leaf is the sponge over the parameter, the digits of the number made of the
/// position and a one, and the contents, with the separator of the lengths of the
/// parameter, the tweak, the chunks and a hash.
pub proof fn law_leaf_hash(
    permute: spec_fn(Seq<u32>) -> Seq<u32>,
    parameter: Seq<u32>,
    position: u32,
    contents: Seq<u32>,
    hash_len: nat,
    tweak_len: nat,
    capacity: nat,
    num_chunks: nat,
    input: Seq<u32>,
)
    requires
        input.len() == parameter.len() + tweak_len + contents.len(),
        forall|k: int|
            0 <= k < input.len() ==> #[trigger] input[k] == (if k < parameter.len() {
                parameter[k] as int
            } else if k < parameter.len() + tweak_len {
                ((position * 0x100 + 1) / pow(0x7f00_0001, (k - parameter.len()) as nat))
                    % 0x7f00_0001
            } else {
                contents[k - parameter.len() - tweak_len] as int
            }),
    ensures
        leaf_hash_elements(
            permute,
            parameter,
            position,
            contents,
            hash_len,
            tweak_len,
            capacity,
            num_chunks,
        ) == sponge(
            permute,
            domain_separator(
                permute,
                seq![
                    parameter.len() as u32,
                    tweak_len as u32,
                    num_chunks as u32,
                    hash_len as u32,
                ],
                capacity,
            ),
            input,
            hash_len,
        ),
{
    let tweak = tree_tweak(0, position);
    let expected = parameter + digits(tweak, tweak_len) + contents;
    lemma_digits_canonical(tweak, tweak_len);
    assert forall|k: int| 0 <= k < input.len() implies expected[k] == input[k] by {
        if parameter.len() <= k < parameter.len() + tweak_len {
            law_digit_at(tweak, tweak_len, k - parameter.len());
        }
    }
    assert(expected =~= input);
}

/// One step along a chain, with the permutation of width 16.
pub fn chain_hash<const PARAMETER_LEN: usize, const HASH_LEN: usize, const TWEAK_LEN: usize>(
    perm16: &Permutation16,
    parameter: &FieldArray<PARAMETER_LEN>,
    epoch: u32,
    chain_index: u8,
    pos_in_chain: u8,
    value: &FieldArray<HASH_LEN>,
) -> (next: FieldArray<HASH_LEN>)
    requires
        HASH_LEN + PARAMETER_LEN + TWEAK_LEN <= 16,
    ensures
        next@ == chain_hash_elements(
            action_16(*perm16),
            parameter@,
            epoch,
            chain_index,
            pos_in_chain,
            value@,
            TWEAK_LEN as nat,
        ),
        next.valid(),
{
    let tweak: [u32; TWEAK_LEN] = chain_tweak_fe(epoch, chain_index, pos_in_chain);
    let mut input: Vec<u32> = Vec::new();
    append_elements(&mut input, value.elements().as_slice());
    append_elements(&mut input, parameter.elements().as_slice());
    append_elements(&mut input, tweak.as_slice());
    proof {
        value.law_of_view();
        parameter.law_of_view();
    }
    assert(input@ =~= value@ + parameter@ + digits(
        chain_tweak(epoch, chain_index, pos_in_chain),
        TWEAK_LEN as nat,
    ));
    FieldArray::from_elements(poseidon_compress_16::<HASH_LEN>(perm16, input.as_slice()))
}

/// The node above two nodes of a tree, with the permutation of width 24.
pub fn tree_merge<const PARAMETER_LEN: usize, const HASH_LEN: usize, const TWEAK_LEN: usize>(
    perm24: &Permutation24,
    parameter: &FieldArray<PARAMETER_LEN>,
    level: u8,
    pos_in_level: u32,
    left: &FieldArray<HASH_LEN>,
    right: &FieldArray<HASH_LEN>,
) -> (node: FieldArray<HASH_LEN>)
    requires
        PARAMETER_LEN + TWEAK_LEN + 2 * HASH_LEN <= 24,
    ensures
        node@ == tree_merge_elements(
            action_24(*perm24),
            parameter@,
            level,
            pos_in_level,
            left@,
            right@,
            TWEAK_LEN as nat,
        ),
        node.valid(),
{
    let tweak: [u32; TWEAK_LEN] = tree_tweak_fe(level, pos_in_level);
    let mut input: Vec<u32> = Vec::new();
    append_elements(&mut input, parameter.elements().as_slice());
    append_elements(&mut input, tweak.as_slice());
    append_elements(&mut input, left.elements().as_slice());
    append_elements(&mut input, right.elements().as_slice());
    proof {
        parameter.law_of_view();
        left.law_of_view();
        right.law_of_view();
    }
    assert(input@ =~= parameter@ + digits(tree_tweak(level, pos_in_level), TWEAK_LEN as nat)
        + left@ + right@);
    FieldArray::from_elements(poseidon_compress_24::<HASH_LEN>(perm24, input.as_slice()))
}

/// The leaf of a tree for the ends of the chains of an epoch, with the sponge.
pub fn leaf_hash<
    const PARAMETER_LEN: usize,
    const HASH_LEN: usize,
    const TWEAK_LEN: usize,
    const CAPACITY: usize,
    const NUM_CHUNKS: usize,
>(
    perm24: &Permutation24,
    parameter: &FieldArray<PARAMETER_LEN>,
    position: u32,
    chain_ends: &Vec<FieldArray<HASH_LEN>>,
) -> (leaf: FieldArray<HASH_LEN>)
    requires
        PARAMETER_LEN <= u32::MAX,
        TWEAK_LEN <= u32::MAX,
        NUM_CHUNKS <= u32::MAX,
        CAPACITY < 24,
        HASH_LEN <= 24 - CAPACITY,
    ensures
        leaf@ == leaf_hash_elements(
            action_24(*perm24),
            parameter@,
            position,
            flattened(chain_ends@),
            HASH_LEN as nat,
            TWEAK_LEN as nat,
            CAPACITY as nat,
            NUM_CHUNKS as nat,
        ),
        leaf.valid(),
{
    let tweak: [u32; TWEAK_LEN] = tree_tweak_fe(0, position);
    let mut combined: Vec<u32> = Vec::new();
    append_elements(&mut combined, parameter.elements().as_slice());
    append_elements(&mut combined, tweak.as_slice());
    let ghost head = combined@;
    let mut i: usize = 0;
    assert(chain_ends@.take(0) =~= Seq::<FieldArray<HASH_LEN>>::empty());
    assert(combined@ =~= head + flattened(chain_ends@.take(0)));
    while i < chain_ends.len()
        invariant
            i <= chain_ends.len(),
            combined@ == head + flattened(chain_ends@.take(i as int)),
        decreases chain_ends.len() - i,
    {
        append_elements(&mut combined, chain_ends[i].elements().as_slice());
        assert(chain_ends@.take(i + 1).drop_last() =~= chain_ends@.take(i as int));
        i = i + 1;
        assert(combined@ =~= head + flattened(chain_ends@.take(i as int)));
    }
    assert(chain_ends@.take(i as int) =~= chain_ends@);
    let lengths: [u32; 4] = [
        PARAMETER_LEN as u32,
        TWEAK_LEN as u32,
        NUM_CHUNKS as u32,
        HASH_LEN as u32,
    ];
    proof {
        parameter.law_of_view();
    }
    assert(lengths@ =~= seq![
        parameter@.len() as u32,
        TWEAK_LEN as u32,
        NUM_CHUNKS as u32,
        HASH_LEN as u32,
    ]);
    let separator: [u32; CAPACITY] = poseidon_safe_domain_separator(perm24, &lengths);
    assert(combined@ =~= parameter@ + digits(tree_tweak(0, position), TWEAK_LEN as nat)
        + flattened(chain_ends@));
    FieldArray::from_elements(
        poseidon_replacement_t_sponge::<HASH_LEN>(
            perm24,
            separator.as_slice(),
            combined.as_slice(),
        ),
    )
}

/// The permutations behind a [`PoseidonTweakHash`].
pub struct PoseidonEngine {
    pub perm16: Permutation16,
    pub perm24: Permutation24,
}

/// The tweakable hash function made of the Poseidon1 permutations.
pub struct PoseidonTweakHash<
    const PARAMETER_LEN: usize,
    const HASH_LEN: usize,
    const TWEAK_LEN: usize,
    const CAPACITY: usize,
    const NUM_CHUNKS: usize,
> {}

impl<
    const PARAMETER_LEN: usize,
    const HASH_LEN: usize,
    const TWEAK_LEN: usize,
    const CAPACITY: usize,
    const NUM_CHUNKS: usize,
> PoseidonTweakHash<PARAMETER_LEN, HASH_LEN, TWEAK_LEN, CAPACITY, NUM_CHUNKS> {
    /// A step along a chain compresses the value, the parameter and the tweak with the
    /// default permutation of width 16.
    pub proof fn law_chain_step(
        parameter: FieldArray<PARAMETER_LEN>,
        epoch: u32,
        chain_index: u8,
        pos_in_chain: u8,
        value: FieldArray<HASH_LEN>,
        state: Seq<u32>,
        i: int,
    )
        requires
            HASH_LEN + PARAMETER_LEN + TWEAK_LEN <= 16,
            state.len() == 16,
            forall|k: int|
                0 <= k < 16 ==> #[trigger] state[k] == (if k < HASH_LEN {
                    value@[k] as int
                } else if k < HASH_LEN + PARAMETER_LEN {
                    parameter@[k - HASH_LEN] as int
                } else if k < HASH_LEN + PARAMETER_LEN + TWEAK_LEN {
                    ((epoch * 0x100_0000 + chain_index * 0x1_0000 + pos_in_chain * 0x100) / pow(
                        0x7f00_0001,
                        (k - HASH_LEN - PARAMETER_LEN) as nat,
                    )) % 0x7f00_0001
                } else {
                    0
                }),
            0 <= i < HASH_LEN,
        ensures
            <Self as TweakableHash>::chain_step(
                parameter,
                epoch,
                chain_index,
                pos_in_chain,
                value,
            )@[i] == (permuted_16(state)[i] + state[i]) % 0x7f00_0001,
    {
        value.law_of_view();
        parameter.law_of_view();
        law_chain_hash(
            default_16(),
            parameter@,
            epoch,
            chain_index,
            pos_in_chain,
            value@,
            TWEAK_LEN as nat,
            state,
            i,
        );
        FieldArray::<HASH_LEN>::law_of(
            chain_hash_elements(
                default_16(),
                parameter@,
                epoch,
                chain_index,
                pos_in_chain,
                value@,
                TWEAK_LEN as nat,
            ),
        );
    }

    /// Merging two nodes compresses the parameter, the tweak and the nodes with the
    /// default permutation of width 24.
    pub proof fn law_merged(
        parameter: FieldArray<PARAMETER_LEN>,
        level: u8,
        pos_in_level: u32,
        left: FieldArray<HASH_LEN>,
        right: FieldArray<HASH_LEN>,
        state: Seq<u32>,
        i: int,
    )
        requires
            PARAMETER_LEN + TWEAK_LEN + 2 * HASH_LEN <= 24,
            state.len() == 24,
            forall|k: int|
                0 <= k < 24 ==> #[trigger] state[k] == (if k < PARAMETER_LEN {
                    parameter@[k] as int
                } else if k < PARAMETER_LEN + TWEAK_LEN {
                    ((level * 0x100_0000_0000 + pos_in_level * 0x100 + 1) / pow(
                        0x7f00_0001,
                        (k - PARAMETER_LEN) as nat,
                    )) % 0x7f00_0001
                } else if k < PARAMETER_LEN + TWEAK_LEN + HASH_LEN {
                    left@[k - PARAMETER_LEN - TWEAK_LEN] as int
                } else if k < PARAMETER_LEN + TWEAK_LEN + 2 * HASH_LEN {
                    right@[k - PARAMETER_LEN - TWEAK_LEN - HASH_LEN] as int
                } else {
                    0
                }),
            0 <= i < HASH_LEN,
        ensures
            <Self as TweakableHash>::merged(parameter, level, pos_in_level, left, right)@[i] == (
            permuted_24(state)[i] + state[i]) % 0x7f00_0001,
    {
        parameter.law_of_view();
        left.law_of_view();
        right.law_of_view();
        law_tree_merge(
            default_24(),
            parameter@,
            level,
            pos_in_level,
            left@,
            right@,
            TWEAK_LEN as nat,
            state,
            i,
        );
        FieldArray::<HASH_LEN>::law_of(
            tree_merge_elements(
                default_24(),
                parameter@,
                level,
                pos_in_level,
                left@,
                right@,
                TWEAK_LEN as nat,
            ),
        );
    }

    /// A leaf is the sponge over the parameter, the tweak and the ends of the chains,
    /// with the default permutation of width 24.
    pub proof fn law_leaf(
        parameter: FieldArray<PARAMETER_LEN>,
        position: u32,
        chain_ends: Seq<FieldArray<HASH_LEN>>,
        input: Seq<u32>,
    )
        requires
            CAPACITY < 24,
            HASH_LEN <= 24 - CAPACITY,
            input.len() == PARAMETER_LEN + TWEAK_LEN + chain_ends.len() * HASH_LEN,
            forall|k: int|
                0 <= k < PARAMETER_LEN ==> #[trigger] input[k] == parameter@[k],
            forall|k: int|
                0 <= k < TWEAK_LEN ==> #[trigger] input[PARAMETER_LEN + k] == ((position * 0x100
                    + 1) / pow(0x7f00_0001, k as nat)) % 0x7f00_0001,
            forall|i: int, k: int|
                0 <= i < chain_ends.len() && 0 <= k < HASH_LEN ==> input[PARAMETER_LEN + TWEAK_LEN
                    + (i * HASH_LEN + k)] == #[trigger] chain_ends[i]@[k],
        ensures
            <Self as TweakableHash>::leaf(parameter, position, chain_ends)@ == sponge(
                default_24(),
                domain_separator(
                    default_24(),
                    seq![
                        PARAMETER_LEN as u32,
                        TWEAK_LEN as u32,
                        NUM_CHUNKS as u32,
                        HASH_LEN as u32,
                    ],
                    CAPACITY as nat,
                ),
                input,
                HASH_LEN as nat,
            ),
    {
        let contents = flattened(chain_ends);
        parameter.law_of_view();
        lemma_flattened_len(chain_ends);
        assert forall|k: int| 0 <= k < input.len() implies #[trigger] input[k] == (if k
            < PARAMETER_LEN {
            parameter@[k] as int
        } else if k < PARAMETER_LEN + TWEAK_LEN {
            ((position * 0x100 + 1) / pow(0x7f00_0001, (k - PARAMETER_LEN) as nat)) % 0x7f00_0001
        } else {
            contents[k - PARAMETER_LEN - TWEAK_LEN] as int
        }) by {
            if k < PARAMETER_LEN {
            } else if k < PARAMETER_LEN + TWEAK_LEN {
                assert(input[PARAMETER_LEN + (k - PARAMETER_LEN)] == input[k]);
            } else {
                let j = k - PARAMETER_LEN - TWEAK_LEN;
                lemma_split_index(j, chain_ends.len() as int, HASH_LEN as int);
                let i = j / HASH_LEN as int;
                law_flattened(chain_ends, i, j % HASH_LEN as int);
                assert(chain_ends[i]@[j % HASH_LEN as int] == input[PARAMETER_LEN + TWEAK_LEN + (i
                    * HASH_LEN + j % HASH_LEN as int)]);
            }
        }
        law_leaf_hash(
            default_24(),
            parameter@,
            position,
            contents,
            HASH_LEN as nat,
            TWEAK_LEN as nat,
            CAPACITY as nat,
            NUM_CHUNKS as nat,
            input,
        );
        let separator = domain_separator(
            default_24(),
            seq![PARAMETER_LEN as u32, TWEAK_LEN as u32, NUM_CHUNKS as u32, HASH_LEN as u32],
            CAPACITY as nat,
        );
        let _ = law_sponge_takes_all(default_24(), separator, input, HASH_LEN as nat);
        FieldArray::<HASH_LEN>::law_of(
            sponge(default_24(), separator, input, HASH_LEN as nat),
        );
    }
}

proof fn lemma_split_index(j: int, count: int, n: int)
    requires
        0 <= j < count * n,
        n >= 0,
    ensures
        n > 0,
        0 <= j / n < count,
        0 <= j % n < n,
        j == (j / n) * n + j % n,
{
    assert(n > 0) by (nonlinear_arith)
        requires
            0 <= j < count * n,
            n >= 0,
    ;
    assert(0 <= j / n < count && 0 <= j % n < n && j == (j / n) * n + j % n) by (nonlinear_arith)
        requires
            n > 0,
            0 <= j < count * n,
    ;
}

impl<
    const PARAMETER_LEN: usize,
    const HASH_LEN: usize,
    const TWEAK_LEN: usize,
    const CAPACITY: usize,
    const NUM_CHUNKS: usize,
> TweakableHash for PoseidonTweakHash<PARAMETER_LEN, HASH_LEN, TWEAK_LEN, CAPACITY, NUM_CHUNKS> {
    type Parameter = FieldArray<PARAMETER_LEN>;

    type Domain = FieldArray<HASH_LEN>;

    type Engine = PoseidonEngine;

    open spec fn supported() -> bool {
        &&& HASH_LEN + PARAMETER_LEN + TWEAK_LEN <= 16
        &&& PARAMETER_LEN + TWEAK_LEN + 2 * HASH_LEN <= 24
        &&& CAPACITY < 24
        &&& HASH_LEN <= 24 - CAPACITY
        &&& NUM_CHUNKS <= u32::MAX
    }

    open spec fn ready(engine: PoseidonEngine) -> bool {
        is_default_16(engine.perm16) && is_default_24(engine.perm24)
    }

    open spec fn chain_step(
        parameter: FieldArray<PARAMETER_LEN>,
        epoch: u32,
        chain_index: u8,
        pos_in_chain: u8,
        value: FieldArray<HASH_LEN>,
    ) -> FieldArray<HASH_LEN> {
        FieldArray::of(
            chain_hash_elements(
                default_16(),
                parameter@,
                epoch,
                chain_index,
                pos_in_chain,
                value@,
                TWEAK_LEN as nat,
            ),
        )
    }

    open spec fn merged(
        parameter: FieldArray<PARAMETER_LEN>,
        level: u8,
        pos_in_level: u32,
        left: FieldArray<HASH_LEN>,
        right: FieldArray<HASH_LEN>,
    ) -> FieldArray<HASH_LEN> {
        FieldArray::of(
            tree_merge_elements(
                default_24(),
                parameter@,
                level,
                pos_in_level,
                left@,
                right@,
                TWEAK_LEN as nat,
            ),
        )
    }

    open spec fn leaf(
        parameter: FieldArray<PARAMETER_LEN>,
        position: u32,
        chain_ends: Seq<FieldArray<HASH_LEN>>,
    ) -> FieldArray<HASH_LEN> {
        FieldArray::of(
            leaf_hash_elements(
                default_24(),
                parameter@,
                position,
                flattened(chain_ends),
                HASH_LEN as nat,
                TWEAK_LEN as nat,
                CAPACITY as nat,
                NUM_CHUNKS as nat,
            ),
        )
    }

    fn engine() -> (engine: PoseidonEngine) {
        let perm16 = Permutation16::new();
        let perm24 = Permutation24::new();
        assert(action_16(perm16) =~= default_16());
        assert(action_24(perm24) =~= default_24());
        PoseidonEngine { perm16, perm24 }
    }

    fn rand_parameter(rng: &mut rand::rngs::ThreadRng) -> (parameter: FieldArray<PARAMETER_LEN>) {
        let parameter = FieldArray::random(rng);
        proof {
            parameter.law_valid();
        }
        parameter
    }

    fn rand_domain(rng: &mut rand::rngs::ThreadRng) -> (value: FieldArray<HASH_LEN>) {
        let value = FieldArray::random(rng);
        proof {
            value.law_valid();
        }
        value
    }

    fn domain_eq(a: &FieldArray<HASH_LEN>, b: &FieldArray<HASH_LEN>) -> (equal: bool) {
        a.equals(b)
    }

    fn apply_chain(
        engine: &PoseidonEngine,
        parameter: &FieldArray<PARAMETER_LEN>,
        epoch: u32,
        chain_index: u8,
        pos_in_chain: u8,
        value: &FieldArray<HASH_LEN>,
    ) -> (next: FieldArray<HASH_LEN>) {
        let next = chain_hash::<PARAMETER_LEN, HASH_LEN, TWEAK_LEN>(
            &engine.perm16,
            parameter,
            epoch,
            chain_index,
            pos_in_chain,
            value,
        );
        proof {
            next.law_of_view();
        }
        next
    }

    fn apply_merge(
        engine: &PoseidonEngine,
        parameter: &FieldArray<PARAMETER_LEN>,
        level: u8,
        pos_in_level: u32,
        left: &FieldArray<HASH_LEN>,
        right: &FieldArray<HASH_LEN>,
    ) -> (node: FieldArray<HASH_LEN>) {
        let node = tree_merge::<PARAMETER_LEN, HASH_LEN, TWEAK_LEN>(
            &engine.perm24,
            parameter,
            level,
            pos_in_level,
            left,
            right,
        );
        proof {
            node.law_of_view();
        }
        node
    }

    fn apply_leaf(
        engine: &PoseidonEngine,
        parameter: &FieldArray<PARAMETER_LEN>,
        position: u32,
        chain_ends: &Vec<FieldArray<HASH_LEN>>,
    ) -> (leaf: FieldArray<HASH_LEN>) {
        let leaf = leaf_hash::<PARAMETER_LEN, HASH_LEN, TWEAK_LEN, CAPACITY, NUM_CHUNKS>(
            &engine.perm24,
            parameter,
            position,
            chain_ends,
        );
        proof {
            leaf.law_of_view();
        }
        leaf
    }
}

} // verus!
