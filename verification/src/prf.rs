//! Pseudorandom functions.

use crate::array::FieldArray;
use crate::bytes::le_value;
use crate::field::{
    digits, digits_of_u128, law_digit_at, law_digits_value, lemma_digits_canonical, order_power,
};
use crate::message_hash::{encode_message, MESSAGE_LENGTH};
use crate::poseidon::{
    action_24, append_elements, compressed, default_24, is_default_24, padded, permuted_24,
    poseidon_compress_24, Permutation24,
};
use crate::serialization::Serializable;
use vstd::arithmetic::power::pow;
use vstd::prelude::*;

verus! {

/// A keyed function from which the secrets of a key pair and the randomness of
/// its signatures come.
pub trait Pseudorandom: Sized {
    type Key: Serializable;

    type Domain;

    type Randomness;

    /// What applying the function needs at hand.
    type Engine;

    /// The sizes of the function go together.
    spec fn supported() -> bool;

    /// The engine is one with which the function can be applied.
    spec fn ready(engine: Self::Engine) -> bool;

    /// The secret with the given index of an epoch.
    spec fn domain_element(key: Self::Key, epoch: u32, index: u64) -> Self::Domain;

    /// The randomness for the given attempt to sign a message in an epoch.
    spec fn randomness(
        key: Self::Key,
        epoch: u32,
        message: Seq<u8>,
        counter: u64,
    ) -> Self::Randomness;

    /// An engine with which the function can be applied.
    fn engine() -> (engine: Self::Engine)
        ensures
            Self::ready(engine),
    ;

    /// Some key.
    fn key_gen(rng: &mut rand::rngs::ThreadRng) -> (key: Self::Key)
        ensures
            key.valid(),
    ;

    /// The secret with the given index of an epoch.
    fn get_domain_element(
        engine: &Self::Engine,
        key: &Self::Key,
        epoch: u32,
        index: u64,
    ) -> (value: Self::Domain)
        requires
            Self::supported(),
            Self::ready(*engine),
        ensures
            value == Self::domain_element(*key, epoch, index),
    ;

    /// The randomness for the given attempt to sign a message in an epoch.
    fn get_randomness(
        engine: &Self::Engine,
        key: &Self::Key,
        epoch: u32,
        message: &[u8; MESSAGE_LENGTH],
        counter: u64,
    ) -> (value: Self::Randomness)
        requires
            Self::supported(),
            Self::ready(*engine),
        ensures
            value == Self::randomness(*key, epoch, message@, counter),
    ;
}

/// A value that stands for a value of `T`.
pub trait Embed<T: Serializable>: Sized {
    /// The value that it stands for.
    spec fn embedded(self) -> T;

    /// The value that it stands for.
    fn embed(self) -> (value: T)
        ensures
            value == self.embedded(),
            value.valid(),
    ;
}

impl<const N: usize> Embed<FieldArray<N>> for FieldArray<N> {
    open spec fn embedded(self) -> FieldArray<N> {
        self
    }

    fn embed(self) -> (value: FieldArray<N>) {
        self.known_valid()
    }
}

impl<const N: usize> FieldArray<N> {
    /// An array stands for itself.
    pub proof fn law_embedded(self)
        ensures
            <Self as Embed<Self>>::embedded(self)@ == self@,
            <Self as Embed<Self>>::embedded(self) == self,
    {
    }
}

/// The number of field elements of a key of [`PoseidonPRF`].
pub const PRF_KEY_LEN: usize = 8;

/// Separates the secrets from the randomness.
pub const PRF_SEPARATOR_DOMAIN: u8 = 0x00;

/// Separates the randomness from the secrets.
pub const PRF_SEPARATOR_RANDOMNESS: u8 = 0x01;

/// The number of field elements that tell what is asked of [`PoseidonPRF`].
pub const PRF_QUERY_LEN: usize = 4;

/// The number of field elements of a message of [`PoseidonPRF`].
pub const PRF_MESSAGE_LEN: usize = 9;

/// The number that tells what is asked: the separator in the lowest byte, the
/// epoch above it and the counter above that.
pub open spec fn prf_query(separator: u8, epoch: u32, counter: u64) -> nat {
    (separator + 0x100 * epoch + 0x100_0000_0000 * counter) as nat
}

/// What the function compresses: the key, what is asked, and the message if there
/// is one.
pub open spec fn prf_input(
    key: Seq<u32>,
    separator: u8,
    epoch: u32,
    counter: u64,
    message: Seq<u32>,
) -> Seq<u32> {
    key + digits(prf_query(separator, epoch, counter), PRF_QUERY_LEN as nat) + message
}

/// What is asked can be told from the field elements that stand for it.
pub proof fn law_queries_distinct(
    separator: u8,
    epoch: u32,
    counter: u64,
    other_separator: u8,
    other_epoch: u32,
    other_counter: u64,
)
    requires
        digits(prf_query(separator, epoch, counter), PRF_QUERY_LEN as nat) == digits(
            prf_query(other_separator, other_epoch, other_counter),
            PRF_QUERY_LEN as nat,
        ),
    ensures
        separator == other_separator,
        epoch == other_epoch,
        counter == other_counter,
{
    assert(0x100_0000_0000_0000_0000_0000_0000nat <= order_power(4)) by {
        reveal_with_fuel(order_power, 5);
    }
    law_digits_value(prf_query(separator, epoch, counter), PRF_QUERY_LEN as nat);
    law_digits_value(
        prf_query(other_separator, other_epoch, other_counter),
        PRF_QUERY_LEN as nat,
    );
}

/// The pseudorandom function that compresses its key and its input with the
/// Poseidon1 permutation of width 24.
pub struct PoseidonPRF<const DOMAIN_LEN: usize, const RAND_LEN: usize> {}

impl<const DOMAIN_LEN: usize, const RAND_LEN: usize> PoseidonPRF<DOMAIN_LEN, RAND_LEN> {
    /// A secret comes from compressing the key and the digits of the number made of the
    /// epoch and the index, with zeros behind them.
    pub proof fn law_domain_element(
        key: FieldArray<PRF_KEY_LEN>,
        epoch: u32,
        index: u64,
        state: Seq<u32>,
        i: int,
    )
        requires
            DOMAIN_LEN <= 24,
            state.len() == 24,
            forall|k: int|
                0 <= k < 24 ==> #[trigger] state[k] == (if k < 8 {
                    key@[k] as int
                } else if k < 12 {
                    ((0x100 * epoch + 0x100_0000_0000 * index) / pow(0x7f00_0001, (k - 8) as nat))
                        % 0x7f00_0001
                } else {
                    0
                }),
            0 <= i < DOMAIN_LEN,
        ensures
            <Self as Pseudorandom>::domain_element(key, epoch, index)@[i] == (permuted_24(state)[i]
                + state[i]) % 0x7f00_0001,
    {
        let query = prf_query(PRF_SEPARATOR_DOMAIN, epoch, index);
        let input = prf_input(key@, PRF_SEPARATOR_DOMAIN, epoch, index, seq![]);
        key.law_of_view();
        lemma_digits_canonical(query, 4);
        assert forall|k: int| 0 <= k < 24 implies padded(input, 24)[k] == state[k] by {
            if 8 <= k < 12 {
                law_digit_at(query, 4, k - 8);
            }
        }
        assert(padded(input, 24) =~= state);
        FieldArray::<DOMAIN_LEN>::law_of(
            compressed(default_24(), input, 24).take(DOMAIN_LEN as int),
        );
    }

    /// Randomness comes from compressing the key, the digits of the number made of a
    /// one, the epoch and the counter, and the digits of the number that the message
    /// denotes, with zeros behind them.
    pub proof fn law_randomness(
        key: FieldArray<PRF_KEY_LEN>,
        epoch: u32,
        message: Seq<u8>,
        counter: u64,
        state: Seq<u32>,
        i: int,
    )
        requires
            RAND_LEN <= 24,
            state.len() == 24,
            forall|k: int|
                0 <= k < 24 ==> #[trigger] state[k] == (if k < 8 {
                    key@[k] as int
                } else if k < 12 {
                    ((1 + 0x100 * epoch + 0x100_0000_0000 * counter) / pow(
                        0x7f00_0001,
                        (k - 8) as nat,
                    )) % 0x7f00_0001
                } else if k < 21 {
                    (le_value(message) as int / pow(0x7f00_0001, (k - 12) as nat)) % 0x7f00_0001
                } else {
                    0
                }),
            0 <= i < RAND_LEN,
        ensures
            <Self as Pseudorandom>::randomness(key, epoch, message, counter)@[i] == (permuted_24(
                state,
            )[i] + state[i]) % 0x7f00_0001,
    {
        let query = prf_query(PRF_SEPARATOR_RANDOMNESS, epoch, counter);
        let number = le_value(message);
        let input = prf_input(
            key@,
            PRF_SEPARATOR_RANDOMNESS,
            epoch,
            counter,
            digits(number, 9),
        );
        key.law_of_view();
        lemma_digits_canonical(query, 4);
        lemma_digits_canonical(number, 9);
        assert forall|k: int| 0 <= k < 24 implies padded(input, 24)[k] == state[k] by {
            if 8 <= k < 12 {
                law_digit_at(query, 4, k - 8);
            } else if 12 <= k < 21 {
                law_digit_at(number, 9, k - 12);
            }
        }
        assert(padded(input, 24) =~= state);
        FieldArray::<RAND_LEN>::law_of(compressed(default_24(), input, 24).take(RAND_LEN as int));
    }
}

/// The first `OUT` elements of the compression of the key, what is asked, and the
/// message if there is one.
fn prf_output<const OUT: usize>(
    perm24: &Permutation24,
    key: &FieldArray<PRF_KEY_LEN>,
    separator: u8,
    epoch: u32,
    counter: u64,
    message: &[u32],
) -> (output: FieldArray<OUT>)
    requires
        OUT <= 24,
        message.len() <= 12,
    ensures
        output == FieldArray::<OUT>::of(
            compressed(
                action_24(*perm24),
                prf_input(key@, separator, epoch, counter, message@),
                24,
            ).take(OUT as int),
        ),
{
    let query = separator as u128 + 0x100 * (epoch as u128) + 0x100_0000_0000 * (counter as u128);
    let query_fe: [u32; PRF_QUERY_LEN] = digits_of_u128(query);
    let mut input: Vec<u32> = Vec::new();
    append_elements(&mut input, key.elements().as_slice());
    append_elements(&mut input, query_fe.as_slice());
    append_elements(&mut input, message);
    proof {
        key.law_of_view();
    }
    assert(input@ =~= prf_input(key@, separator, epoch, counter, message@));
    let output = FieldArray::from_elements(poseidon_compress_24::<OUT>(perm24, input.as_slice()));
    proof {
        output.law_of_view();
    }
    output
}

impl<const DOMAIN_LEN: usize, const RAND_LEN: usize> Pseudorandom for PoseidonPRF<
    DOMAIN_LEN,
    RAND_LEN,
> {
    type Key = FieldArray<PRF_KEY_LEN>;

    type Domain = FieldArray<DOMAIN_LEN>;

    type Randomness = FieldArray<RAND_LEN>;

    type Engine = Permutation24;

    open spec fn supported() -> bool {
        DOMAIN_LEN <= 24 && RAND_LEN <= 24
    }

    open spec fn ready(engine: Permutation24) -> bool {
        is_default_24(engine)
    }

    open spec fn domain_element(
        key: FieldArray<PRF_KEY_LEN>,
        epoch: u32,
        index: u64,
    ) -> FieldArray<DOMAIN_LEN> {
        FieldArray::of(
            compressed(
                default_24(),
                prf_input(key@, PRF_SEPARATOR_DOMAIN, epoch, index, seq![]),
                24,
            ).take(DOMAIN_LEN as int),
        )
    }

    open spec fn randomness(
        key: FieldArray<PRF_KEY_LEN>,
        epoch: u32,
        message: Seq<u8>,
        counter: u64,
    ) -> FieldArray<RAND_LEN> {
        FieldArray::of(
            compressed(
                default_24(),
                prf_input(
                    key@,
                    PRF_SEPARATOR_RANDOMNESS,
                    epoch,
                    counter,
                    digits(le_value(message), PRF_MESSAGE_LEN as nat),
                ),
                24,
            ).take(RAND_LEN as int),
        )
    }

    fn engine() -> (engine: Permutation24) {
        let engine = Permutation24::new();
        assert(action_24(engine) =~= default_24());
        engine
    }

    fn key_gen(rng: &mut rand::rngs::ThreadRng) -> (key: FieldArray<PRF_KEY_LEN>) {
        let key = FieldArray::random(rng);
        proof {
            key.law_valid();
        }
        key
    }

    fn get_domain_element(
        engine: &Permutation24,
        key: &FieldArray<PRF_KEY_LEN>,
        epoch: u32,
        index: u64,
    ) -> (value: FieldArray<DOMAIN_LEN>) {
        let none: [u32; 0] = [];
        assert(none@ =~= seq![]);
        prf_output::<DOMAIN_LEN>(
            engine,
            key,
            PRF_SEPARATOR_DOMAIN,
            epoch,
            index,
            none.as_slice(),
        )
    }

    fn get_randomness(
        engine: &Permutation24,
        key: &FieldArray<PRF_KEY_LEN>,
        epoch: u32,
        message: &[u8; MESSAGE_LENGTH],
        counter: u64,
    ) -> (value: FieldArray<RAND_LEN>) {
        let message_fe: [u32; PRF_MESSAGE_LEN] = encode_message(message);
        prf_output::<RAND_LEN>(
            engine,
            key,
            PRF_SEPARATOR_RANDOMNESS,
            epoch,
            counter,
            message_fe.as_slice(),
        )
    }
}

} // verus!
