//! Hashing with the Poseidon1 permutations of the KoalaBear field.

use crate::field::{
    canonical, digits, digits_of_u128, element_sum, field_sum, law_digit_at,
    lemma_digits_canonical, repeated,
};
use p3_field::PrimeField32;
use p3_koala_bear::{
    default_koalabear_poseidon1_16, default_koalabear_poseidon1_24, KoalaBear, Poseidon1KoalaBear,
};
use p3_symmetric::Permutation;
use vstd::arithmetic::power::pow;
use vstd::prelude::*;

verus! {

/// A Poseidon1 permutation of width 16.
#[verifier::external_body]
pub struct Permutation16 {
    permutation: Poseidon1KoalaBear<16>,
}

/// A Poseidon1 permutation of width 24.
#[verifier::external_body]
pub struct Permutation24 {
    permutation: Poseidon1KoalaBear<24>,
}

/// What a permutation of width 16 makes of a state.
pub uninterp spec fn applied_16(permutation: Permutation16, state: Seq<u32>) -> Seq<u32>;

/// What the default permutation of width 16 makes of a state.
pub uninterp spec fn permuted_16(state: Seq<u32>) -> Seq<u32>;

/// What a permutation of width 24 makes of a state.
pub uninterp spec fn applied_24(permutation: Permutation24, state: Seq<u32>) -> Seq<u32>;

/// What the default permutation of width 24 makes of a state.
pub uninterp spec fn permuted_24(state: Seq<u32>) -> Seq<u32>;

impl Permutation16 {
    /// `default_koalabear_poseidon1_16`, which computes the constants of the default
    /// permutation: what the result makes of a state depends on the state alone.
    #[verifier::external_body]
    pub(crate) fn new() -> (permutation: Self)
        ensures
            forall|state: Seq<u32>| #[trigger]
                applied_16(permutation, state) == permuted_16(state),
    {
        Permutation16 { permutation: default_koalabear_poseidon1_16() }
    }

    /// `Permutation::permute`, on the elements that `state` denotes. The result
    /// depends on the permutation and the state alone and is canonical.
    #[verifier::external_body]
    pub(crate) fn permute(&self, state: [u32; 16]) -> (result: [u32; 16])
        ensures
            result@ == applied_16(*self, state@),
            canonical(result@),
    {
        self.permutation.permute(state.map(KoalaBear::new)).map(|x| x.as_canonical_u32())
    }
}

impl Permutation24 {
    /// `default_koalabear_poseidon1_24`, which computes the constants of the default
    /// permutation: what the result makes of a state depends on the state alone.
    #[verifier::external_body]
    pub(crate) fn new() -> (permutation: Self)
        ensures
            forall|state: Seq<u32>| #[trigger]
                applied_24(permutation, state) == permuted_24(state),
    {
        Permutation24 { permutation: default_koalabear_poseidon1_24() }
    }

    /// `Permutation::permute`, on the elements that `state` denotes. The result
    /// depends on the permutation and the state alone and is canonical.
    #[verifier::external_body]
    pub(crate) fn permute(&self, state: [u32; 24]) -> (result: [u32; 24])
        ensures
            result@ == applied_24(*self, state@),
            canonical(result@),
    {
        self.permutation.permute(state.map(KoalaBear::new)).map(|x| x.as_canonical_u32())
    }
}

/// What a permutation of width 16 does.
pub open spec fn action_16(permutation: Permutation16) -> spec_fn(Seq<u32>) -> Seq<u32> {
    |state: Seq<u32>| applied_16(permutation, state)
}

/// What the default permutation of width 16 does.
pub open spec fn default_16() -> spec_fn(Seq<u32>) -> Seq<u32> {
    |state: Seq<u32>| permuted_16(state)
}

/// The permutation is the default one of width 16.
pub open spec fn is_default_16(permutation: Permutation16) -> bool {
    action_16(permutation) == default_16()
}

/// What a permutation of width 24 does.
pub open spec fn action_24(permutation: Permutation24) -> spec_fn(Seq<u32>) -> Seq<u32> {
    |state: Seq<u32>| applied_24(permutation, state)
}

/// What the default permutation of width 24 does.
pub open spec fn default_24() -> spec_fn(Seq<u32>) -> Seq<u32> {
    |state: Seq<u32>| permuted_24(state)
}

/// The permutation is the default one of width 24.
pub open spec fn is_default_24(permutation: Permutation24) -> bool {
    action_24(permutation) == default_24()
}

/// `input`, filled up with zeros to `width` elements.
pub open spec fn padded(input: Seq<u32>, width: nat) -> Seq<u32> {
    Seq::new(
        width,
        |i: int|
            if i < input.len() {
                input[i]
            } else {
                0
            },
    )
}

/// The element-wise sum of two states.
pub open spec fn state_sum(a: Seq<u32>, b: Seq<u32>) -> Seq<u32> {
    Seq::new(b.len(), |i: int| field_sum(a[i], b[i]))
}

/// The compression of up to `width` elements with a permutation of that width: the
/// padded input is permuted and added to the outcome.
pub open spec fn compressed(
    permute: spec_fn(Seq<u32>) -> Seq<u32>,
    input: Seq<u32>,
    width: nat,
) -> Seq<u32> {
    state_sum(permute(padded(input, width)), padded(input, width))
}

/// The number that four 32-bit integers denote, most significant first.
pub open spec fn packed_lengths(lengths: Seq<u32>) -> nat {
    (((lengths[0] * 0x1_0000_0000 + lengths[1]) * 0x1_0000_0000 + lengths[2]) * 0x1_0000_0000
        + lengths[3]) as nat
}

/// The capacity part that separates sponges over inputs of different shape.
pub open spec fn domain_separator(
    permute: spec_fn(Seq<u32>) -> Seq<u32>,
    lengths: Seq<u32>,
    capacity: nat,
) -> Seq<u32> {
    compressed(permute, digits(packed_lengths(lengths), 24), 24).take(capacity as int)
}

/// The state of the sponge after it took in `input`: each piece of `input`, the
/// last of which may be short, replaces the part of the state behind the
/// capacity, which is then compressed.
pub open spec fn absorbed(
    permute: spec_fn(Seq<u32>) -> Seq<u32>,
    state: Seq<u32>,
    capacity: nat,
    input: Seq<u32>,
) -> Seq<u32>
    decreases input.len(),
{
    if input.len() == 0 || capacity >= 24 {
        state
    } else {
        let rate = 24 - capacity;
        let len = if input.len() < rate {
            input.len() as int
        } else {
            rate
        };
        absorbed(
            permute,
            compressed(
                permute,
                state.take(capacity as int) + padded(input.take(len), rate as nat),
                24,
            ),
            capacity,
            input.skip(len),
        )
    }
}

/// The first `out` elements behind the capacity once the sponge that starts from
/// `capacity_value` took in `input`.
pub open spec fn sponge(
    permute: spec_fn(Seq<u32>) -> Seq<u32>,
    capacity_value: Seq<u32>,
    input: Seq<u32>,
    out: nat,
) -> Seq<u32> {
    absorbed(permute, padded(capacity_value, 24), capacity_value.len(), input).subrange(
        capacity_value.len() as int,
        (capacity_value.len() + out) as int,
    )
}

/// What a permutation does to a state is what it makes of it, and what the default
/// permutations do is what those make of it.
pub proof fn law_actions(
    permutation_16: Permutation16,
    permutation_24: Permutation24,
    state: Seq<u32>,
)
    ensures
        action_16(permutation_16)(state) == applied_16(permutation_16, state),
        action_24(permutation_24)(state) == applied_24(permutation_24, state),
        default_16()(state) == permuted_16(state),
        default_24()(state) == permuted_24(state),
{
}

/// The compression of a full state adds the state to what the permutation makes of
/// it.
pub proof fn law_compression_of_states(
    permute: spec_fn(Seq<u32>) -> Seq<u32>,
    state: Seq<u32>,
    i: int,
)
    requires
        0 <= i < state.len(),
    ensures
        compressed(permute, state, state.len()).len() == state.len(),
        compressed(permute, state, state.len())[i] == (permute(state)[i] + state[i])
            % 0x7f00_0001,
{
    assert(padded(state, state.len()) =~= state);
}

/// A zero behind the input changes nothing, as long as there is room for it.
pub proof fn law_compression_pads(
    permute: spec_fn(Seq<u32>) -> Seq<u32>,
    input: Seq<u32>,
    width: nat,
)
    requires
        input.len() < width,
    ensures
        compressed(permute, input, width) == compressed(permute, input.push(0), width),
{
    assert(padded(input, width) =~= padded(input.push(0), width));
}

/// The separator comes from compressing the digits, to the base of the field's order,
/// of the four lengths written one after the other in 32 bits each.
pub proof fn law_separator(
    permute: spec_fn(Seq<u32>) -> Seq<u32>,
    lengths: Seq<u32>,
    capacity: nat,
    state: Seq<u32>,
    i: int,
)
    requires
        lengths.len() == 4,
        0 <= i < capacity <= 24,
        state.len() == 24,
        forall|k: int|
            0 <= k < 24 ==> #[trigger] state[k] == ((lengths[0] * 0x1_0000_0000_0000_0000_0000_0000
                + lengths[1] * 0x1_0000_0000_0000_0000 + lengths[2] * 0x1_0000_0000 + lengths[3])
                / pow(0x7f00_0001, k as nat)) % 0x7f00_0001,
    ensures
        domain_separator(permute, lengths, capacity).len() == capacity,
        domain_separator(permute, lengths, capacity)[i] == (permute(state)[i] + state[i])
            % 0x7f00_0001,
{
    let input = digits(packed_lengths(lengths), 24);
    lemma_digits_canonical(packed_lengths(lengths), 24);
    assert forall|k: int| 0 <= k < 24 implies input[k] == state[k] by {
        law_digit_at(packed_lengths(lengths), 24, k);
    }
    assert(input =~= state);
    law_compression_of_states(permute, state, i);
}

proof fn lemma_absorbing(
    permute: spec_fn(Seq<u32>) -> Seq<u32>,
    start: Seq<u32>,
    capacity: nat,
    input: Seq<u32>,
) -> (states: Seq<Seq<u32>>)
    requires
        start.len() == 24,
        capacity < 24,
    ensures
        states.len() * (24 - capacity) >= input.len(),
        input.len() == 0 ==> states.len() == 0 && absorbed(permute, start, capacity, input)
            == start,
        input.len() > 0 ==> {
            &&& (states.len() - 1) * (24 - capacity) < input.len()
            &&& states[0].take(capacity as int) == start.take(capacity as int)
            &&& absorbed(permute, start, capacity, input).len() == 24
            &&& forall|k: int|
                0 <= k < 24 ==> #[trigger] absorbed(permute, start, capacity, input)[k] == (permute(
                    states.last(),
                )[k] + states.last()[k]) % 0x7f00_0001
        },
        forall|i: int| 0 <= i < states.len() ==> (#[trigger] states[i]).len() == 24,
        forall|i: int, k: int|
            0 <= i < states.len() && 0 <= k < 24 - capacity ==> #[trigger] states[i][capacity + k]
                == (if i * (24 - capacity) + k < input.len() {
                input[i * (24 - capacity) + k]
            } else {
                0
            }),
        forall|i: int, k: int|
            1 <= i < states.len() && 0 <= k < capacity ==> #[trigger] states[i][k] == (permute(
                states[i - 1],
            )[k] + states[i - 1][k]) % 0x7f00_0001,
    decreases input.len(),
{
    let rate = 24 - capacity;
    if input.len() == 0 {
        seq![]
    } else {
        let len = if input.len() < rate {
            input.len() as int
        } else {
            rate
        };
        let piece = padded(input.take(len), rate as nat);
        let state = start.take(capacity as int) + piece;
        let next = compressed(permute, state, 24);
        assert forall|k: int| 0 <= k < 24 implies #[trigger] next[k] == (permute(state)[k]
            + state[k]) % 0x7f00_0001 by {
            law_compression_of_states(permute, state, k);
        }
        let rest_input = input.skip(len);
        let rest = lemma_absorbing(permute, next, capacity, rest_input);
        let states = seq![state] + rest;
        assert(state.take(capacity as int) =~= start.take(capacity as int));
        assert(states.len() == rest.len() + 1);
        assert(states.len() * rate == rest.len() * rate + rate) by (nonlinear_arith)
            requires
                states.len() == rest.len() + 1,
        ;
        assert((states.len() - 1) * rate == rest.len() * rate);
        if rest.len() > 0 {
            assert((rest.len() - 1) * rate == rest.len() * rate - rate) by (nonlinear_arith);
            assert(states.last() == rest.last());
            assert(len == rate);
        } else {
            assert(rest.len() * rate == 0) by (nonlinear_arith)
                requires
                    rest.len() == 0,
            ;
            assert(states.last() == state);
        }
        assert forall|i: int, k: int| 0 <= i < states.len() && 0 <= k < rate implies #[trigger]
            states[i][capacity + k] == (if i * rate + k < input.len() {
            input[i * rate + k]
        } else {
            0
        }) by {
            if i == 0 {
                assert(0 * rate == 0);
                assert(state[capacity + k] == piece[k]);
            } else {
                assert(states[i] == rest[i - 1]);
                assert(rest[i - 1][capacity + k] == (if (i - 1) * rate + k < rest_input.len() {
                    rest_input[(i - 1) * rate + k]
                } else {
                    0
                }));
                assert((i - 1) * rate == i * rate - rate) by (nonlinear_arith);
                assert((i - 1) * rate >= 0) by (nonlinear_arith)
                    requires
                        i >= 1,
                        rate > 0,
                ;
                assert(len == rate);
            }
        }
        assert forall|i: int, k: int|
            1 <= i < states.len() && 0 <= k < capacity implies #[trigger] states[i][k] == (permute(
            states[i - 1],
        )[k] + states[i - 1][k]) % 0x7f00_0001 by {
            if i == 1 {
                assert(states[1] == rest[0]);
                assert(rest[0][k] == rest[0].take(capacity as int)[k]);
                assert(next.take(capacity as int)[k] == next[k]);
            } else {
                assert(states[i] == rest[i - 1]);
                assert(states[i - 1] == rest[i - 2]);
                assert(rest[i - 1][k] == (permute(rest[i - 2])[k] + rest[i - 2][k]) % 0x7f00_0001);
            }
        }
        states
    }
}

/// The sponge takes in the whole input. It compresses as many states as it takes to
/// hold the input behind the capacity: the elements of the input stand there, piece
/// after piece, with zeros behind the last. Before them stand the capacity value, and
/// from the second state on what the compression of the state before has left there.
/// What the last compression leaves behind the capacity is the result.
pub proof fn law_sponge_takes_all(
    permute: spec_fn(Seq<u32>) -> Seq<u32>,
    capacity_value: Seq<u32>,
    input: Seq<u32>,
    out: nat,
) -> (states: Seq<Seq<u32>>)
    requires
        capacity_value.len() < 24,
        out <= 24 - capacity_value.len(),
    ensures
        states.len() * (24 - capacity_value.len()) >= input.len(),
        input.len() > 0 ==> (states.len() - 1) * (24 - capacity_value.len()) < input.len(),
        input.len() == 0 ==> states.len() == 0,
        forall|i: int| 0 <= i < states.len() ==> (#[trigger] states[i]).len() == 24,
        forall|i: int, k: int|
            0 <= i < states.len() && 0 <= k < 24 - capacity_value.len() ==> #[trigger] states[i][
                capacity_value.len() + k
            ] == (if i * (24 - capacity_value.len()) + k < input.len() {
                input[i * (24 - capacity_value.len()) + k]
            } else {
                0
            }),
        forall|k: int|
            0 <= k < capacity_value.len() && states.len() > 0 ==> #[trigger] states[0][k]
                == capacity_value[k],
        forall|i: int, k: int|
            1 <= i < states.len() && 0 <= k < capacity_value.len() ==> #[trigger] states[i][k] == (
            permute(states[i - 1])[k] + states[i - 1][k]) % 0x7f00_0001,
        sponge(permute, capacity_value, input, out).len() == out,
        forall|k: int|
            0 <= k < out ==> #[trigger] sponge(permute, capacity_value, input, out)[k] == (
            if states.len() == 0 {
                0
            } else {
                (permute(states.last())[capacity_value.len() + k] + states.last()[
                    capacity_value.len() + k
                ]) % 0x7f00_0001
            }),
{
    let capacity = capacity_value.len();
    let start = padded(capacity_value, 24);
    let states = lemma_absorbing(permute, start, capacity, input);
    if states.len() > 0 {
        assert forall|k: int| 0 <= k < capacity implies #[trigger] states[0][k]
            == capacity_value[k] by {
            assert(states[0].take(capacity as int)[k] == states[0][k]);
            assert(start.take(capacity as int)[k] == capacity_value[k]);
        }
    }
    states
}

/// Appends every element of `more`.
pub(crate) fn append_elements(elements: &mut Vec<u32>, more: &[u32])
    ensures
        final(elements)@ == old(elements)@ + more@,
{
    let mut i: usize = 0;
    while i < more.len()
        invariant
            i <= more.len(),
            elements@ == old(elements)@ + more@.take(i as int),
        decreases more.len() - i,
    {
        elements.push(more[i]);
        i = i + 1;
        assert(more@.take(i as int) =~= more@.take(i - 1).push(more@[i - 1]));
    }
    assert(more@.take(i as int) =~= more@);
}

/// The first `OUT` elements of the sum of a permuted state and the state before.
pub fn feed_forward<const WIDTH: usize, const OUT: usize>(
    permuted: &[u32; WIDTH],
    state: &[u32; WIDTH],
) -> (output: [u32; OUT])
    requires
        OUT <= WIDTH,
    ensures
        output@ == state_sum(permuted@, state@).take(OUT as int),
        canonical(output@),
{
    let mut output: [u32; OUT] = repeated(0);
    let mut i: usize = 0;
    while i < OUT
        invariant
            i <= OUT <= WIDTH,
            forall|k: int|
                0 <= k < i ==> #[trigger] output@[k] == field_sum(permuted@[k], state@[k]),
        decreases OUT - i,
    {
        output[i] = element_sum(permuted[i], state[i]);
        i = i + 1;
    }
    assert(output@ =~= state_sum(permuted@, state@).take(OUT as int));
    output
}

/// The first `OUT` elements of the compression of `input` with the permutation
/// of width 16.
pub fn poseidon_compress_16<const OUT: usize>(perm: &Permutation16, input: &[u32]) -> (output: [u32;
    OUT])
    requires
        input.len() <= 16,
        OUT <= 16,
    ensures
        output@ == compressed(action_16(*perm), input@, 16).take(OUT as int),
        canonical(output@),
{
    let mut state: [u32; 16] = repeated(0);
    let mut i: usize = 0;
    while i < input.len()
        invariant
            i <= input.len() <= 16,
            forall|k: int| 0 <= k < i ==> #[trigger] state@[k] == input@[k],
            forall|k: int| i <= k < 16 ==> #[trigger] state@[k] == 0,
        decreases input.len() - i,
    {
        state[i] = input[i];
        i = i + 1;
    }
    assert(state@ =~= padded(input@, 16));
    feed_forward(&perm.permute(state), &state)
}

/// The first `OUT` elements of the compression of `input` with the permutation
/// of width 24.
pub fn poseidon_compress_24<const OUT: usize>(perm: &Permutation24, input: &[u32]) -> (output: [u32;
    OUT])
    requires
        input.len() <= 24,
        OUT <= 24,
    ensures
        output@ == compressed(action_24(*perm), input@, 24).take(OUT as int),
        canonical(output@),
{
    let mut state: [u32; 24] = repeated(0);
    let mut i: usize = 0;
    while i < input.len()
        invariant
            i <= input.len() <= 24,
            forall|k: int| 0 <= k < i ==> #[trigger] state@[k] == input@[k],
            forall|k: int| i <= k < 24 ==> #[trigger] state@[k] == 0,
        decreases input.len() - i,
    {
        state[i] = input[i];
        i = i + 1;
    }
    assert(state@ =~= padded(input@, 24));
    feed_forward(&perm.permute(state), &state)
}

/// The capacity part for the sponge over inputs whose shape the four lengths
/// describe.
pub fn poseidon_safe_domain_separator<const CAPACITY: usize>(
    perm: &Permutation24,
    params: &[u32; 4],
) -> (separator: [u32; CAPACITY])
    requires
        CAPACITY <= 24,
    ensures
        separator@ == domain_separator(action_24(*perm), params@, CAPACITY as nat),
        canonical(separator@),
{
    let mut acc: u128 = 0;
    acc = acc * 0x1_0000_0000 + params[0] as u128;
    acc = acc * 0x1_0000_0000 + params[1] as u128;
    acc = acc * 0x1_0000_0000 + params[2] as u128;
    acc = acc * 0x1_0000_0000 + params[3] as u128;
    assert(acc == packed_lengths(params@));
    let input: [u32; 24] = digits_of_u128(acc);
    poseidon_compress_24::<CAPACITY>(perm, &input)
}

/// The sponge over `input` that starts from `capacity_value`, whose first `OUT`
/// elements behind the capacity are the result.
pub fn poseidon_replacement_t_sponge<const OUT: usize>(
    perm: &Permutation24,
    capacity_value: &[u32],
    input: &[u32],
) -> (output: [u32; OUT])
    requires
        capacity_value.len() < 24,
        OUT <= 24 - capacity_value.len(),
        canonical(capacity_value@),
    ensures
        output@ == sponge(action_24(*perm), capacity_value@, input@, OUT as nat),
        canonical(output@),
{
    let capacity = capacity_value.len();
    let rate = 24 - capacity;
    let mut state: [u32; 24] = repeated(0);
    let mut i: usize = 0;
    while i < capacity
        invariant
            i <= capacity < 24,
            capacity == capacity_value.len(),
            canonical(capacity_value@),
            forall|k: int| 0 <= k < i ==> #[trigger] state@[k] == capacity_value@[k],
            forall|k: int| i <= k < 24 ==> #[trigger] state@[k] == 0,
            canonical(state@),
        decreases capacity - i,
    {
        state[i] = capacity_value[i];
        i = i + 1;
    }
    assert(state@ =~= padded(capacity_value@, 24));
    let ghost start = state@;
    let mut at: usize = 0;
    assert(input@.skip(0) =~= input@);
    while at < input.len()
        invariant
                at <= input.len(),
            capacity < 24,
            rate == 24 - capacity,
            absorbed(action_24(*perm), state@, capacity as nat, input@.skip(at as int)) == absorbed(
                action_24(*perm),
                start,
                capacity as nat,
                input@,
            ),
            canonical(state@),
        decreases input.len() - at,
    {
        let len = if input.len() - at < rate {
            input.len() - at
        } else {
            rate
        };
        let ghost before = state@;
        let ghost left = input@.skip(at as int);
        let mut j: usize = 0;
        while j < rate
            invariant
                j <= rate,
                rate == 24 - capacity,
                capacity < 24,
                len <= rate,
                at + len <= input.len(),
                left == input@.skip(at as int),
                before.len() == 24,
                forall|k: int| 0 <= k < capacity ==> #[trigger] state@[k] == before[k],
                forall|k: int|
                    capacity <= k < capacity + j ==> #[trigger] state@[k] == padded(
                        left.take(len as int),
                        rate as nat,
                    )[k - capacity],
            decreases rate - j,
        {
            if j < len {
                state[capacity + j] = input[at + j];
            } else {
                state[capacity + j] = 0;
            }
            j = j + 1;
        }
        let ghost mixed = before.take(capacity as int) + padded(
            left.take(len as int),
            rate as nat,
        );
        assert(state@ =~= mixed);
        assert(padded(state@, 24) =~= state@);
        state = poseidon_compress_24::<24>(perm, &state);
        at = at + len;
        assert(state@ =~= compressed(action_24(*perm), mixed, 24));
        assert(input@.skip(at as int) =~= left.skip(len as int));
    }
    let mut output: [u32; OUT] = repeated(0);
    let mut j: usize = 0;
    while j < OUT
        invariant
            j <= OUT <= 24 - capacity,
            canonical(state@),
            forall|k: int| 0 <= k < j ==> #[trigger] output@[k] == state@[capacity + k],
        decreases OUT - j,
    {
        output[j] = state[capacity + j];
        j = j + 1;
    }
    assert(output@ =~= sponge(action_24(*perm), capacity_value@, input@, OUT as nat));
    output
}

} // verus!
