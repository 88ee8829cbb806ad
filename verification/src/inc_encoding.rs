//! Incomparable encodings of messages.

use crate::message_hash::{MessageHash, MESSAGE_LENGTH};
use crate::serialization::Serializable;
use std::marker::PhantomData;
use vstd::prelude::*;

verus! {

/// Some chunk of `a` is above its counterpart in `b`.
pub open spec fn exceeds(a: Seq<u8>, b: Seq<u8>) -> bool {
    exists|k: int| 0 <= k < a.len() && #[trigger] a[k] > b[k]
}

/// An encoding of messages, with some randomness, as codewords of which none is
/// below another in every chunk.
pub trait IncomparableEncoding: Sized {
    type Parameter: Serializable;

    type Randomness: Serializable;

    type Error;

    /// What encoding a message needs at hand.
    type Engine;

    /// The number of chunks of a codeword.
    const DIMENSION: usize;

    /// How often a signer tries to encode a message before giving up.
    const MAX_TRIES: usize;

    /// The bound on the chunks of a codeword.
    const BASE: usize;

    /// The sizes of the encoding go together.
    spec fn supported() -> bool;

    /// The engine is one with which messages can be encoded.
    spec fn ready(engine: Self::Engine) -> bool;

    /// The codeword of a message, if there is one.
    spec fn codeword(
        parameter: Self::Parameter,
        message: Seq<u8>,
        randomness: Self::Randomness,
        epoch: u32,
    ) -> Option<Seq<u8>>;

    /// A codeword has as many chunks as the dimension says, each below the base.
    proof fn law_codeword(
        parameter: Self::Parameter,
        message: Seq<u8>,
        randomness: Self::Randomness,
        epoch: u32,
    )
        requires
            Self::supported(),
        ensures
            Self::codeword(parameter, message, randomness, epoch) matches Some(x) ==> {
                &&& x.len() == Self::DIMENSION
                &&& forall|k: int| 0 <= k < x.len() ==> #[trigger] x[k] < Self::BASE
            },
    ;

    /// Of two distinct codewords each exceeds the other somewhere, whatever they
    /// encode.
    proof fn law_incomparable(
        parameter: Self::Parameter,
        message: Seq<u8>,
        randomness: Self::Randomness,
        epoch: u32,
        other_parameter: Self::Parameter,
        other_message: Seq<u8>,
        other_randomness: Self::Randomness,
        other_epoch: u32,
    )
        requires
            Self::supported(),
            Self::codeword(parameter, message, randomness, epoch) is Some,
            Self::codeword(other_parameter, other_message, other_randomness, other_epoch) is Some,
            Self::codeword(parameter, message, randomness, epoch) != Self::codeword(
                other_parameter,
                other_message,
                other_randomness,
                other_epoch,
            ),
        ensures
            exceeds(
                Self::codeword(parameter, message, randomness, epoch)->Some_0,
                Self::codeword(
                    other_parameter,
                    other_message,
                    other_randomness,
                    other_epoch,
                )->Some_0,
            ),
            exceeds(
                Self::codeword(
                    other_parameter,
                    other_message,
                    other_randomness,
                    other_epoch,
                )->Some_0,
                Self::codeword(parameter, message, randomness, epoch)->Some_0,
            ),
    ;

    /// An engine with which messages can be encoded.
    fn engine() -> (engine: Self::Engine)
        ensures
            Self::ready(engine),
    ;

    /// Some randomness.
    fn rand(rng: &mut rand::rngs::ThreadRng) -> (randomness: Self::Randomness)
        ensures
            randomness.valid(),
    ;

    /// Encodes a message, which fails if there is no codeword.
    fn encode(
        engine: &Self::Engine,
        parameter: &Self::Parameter,
        message: &[u8; MESSAGE_LENGTH],
        randomness: &Self::Randomness,
        epoch: u32,
    ) -> (codeword: Result<Vec<u8>, Self::Error>)
        requires
            Self::supported(),
            Self::ready(*engine),
        ensures
            match codeword {
                Ok(x) => Self::codeword(*parameter, message@, *randomness, epoch) == Some(x@),
                Err(_) => Self::codeword(*parameter, message@, *randomness, epoch) is None,
            },
    ;
}

/// The sum of the chunks.
pub open spec fn chunk_sum(chunks: Seq<u8>) -> nat
    decreases chunks.len(),
{
    if chunks.len() == 0 {
        0
    } else {
        chunk_sum(chunks.drop_last()) + chunks.last() as nat
    }
}

/// Nothing has the sum zero, and a further chunk adds itself.
pub proof fn law_sum_grows(chunks: Seq<u8>, chunk: u8)
    ensures
        chunk_sum(seq![]) == 0,
        chunk_sum(chunks.push(chunk)) == chunk_sum(chunks) + chunk,
{
    assert(chunks.push(chunk).drop_last() =~= chunks);
}

/// A sequence of chunks that nowhere exceeds another of the same length has a
/// smaller sum, unless the two are the same.
pub proof fn law_sum_orders(a: Seq<u8>, b: Seq<u8>)
    requires
        a.len() == b.len(),
        !exceeds(a, b),
    ensures
        chunk_sum(a) <= chunk_sum(b),
        chunk_sum(a) == chunk_sum(b) ==> a == b,
    decreases a.len(),
{
    if a.len() > 0 {
        let n = a.len() - 1;
        assert(!(a[n] > b[n]));
        assert forall|k: int| 0 <= k < n implies !(#[trigger] a.drop_last()[k]
            > b.drop_last()[k]) by {
            assert(!(a[k] > b[k]));
        }
        law_sum_orders(a.drop_last(), b.drop_last());
        if chunk_sum(a) == chunk_sum(b) {
            assert(a =~= a.drop_last().push(a[n]));
            assert(b =~= b.drop_last().push(b[n]));
        }
    } else {
        assert(a =~= b);
    }
}

/// The sum of the chunks.
pub fn sum_of_chunks(chunks: &Vec<u8>) -> (sum: usize)
    requires
        chunks.len() * 255 <= usize::MAX,
    ensures
        sum == chunk_sum(chunks@),
{
    let mut sum: usize = 0;
    let mut i: usize = 0;
    assert(chunks@.take(0) =~= Seq::<u8>::empty());
    while i < chunks.len()
        invariant
            i <= chunks.len(),
            chunks.len() * 255 <= usize::MAX,
            sum == chunk_sum(chunks@.take(i as int)),
            sum <= i * 255,
        decreases chunks.len() - i,
    {
        assert(chunks@.take(i + 1).drop_last() =~= chunks@.take(i as int));
        sum = sum + chunks[i] as usize;
        i = i + 1;
    }
    assert(chunks@.take(i as int) =~= chunks@);
    sum
}

/// Why a message has no codeword in a [`TargetSumEncoding`].
#[derive(Debug, Clone, Copy, PartialEq, Eq)]
pub enum TargetSumError {
    /// The message hash gave no chunks.
    Aborted,
    /// The chunks do not have the sum of a codeword.
    Mismatch { expected: usize, actual: usize },
}

/// The encoding whose codewords are the hashes with a fixed sum of chunks.
pub struct TargetSumEncoding<MH: MessageHash, const TARGET_SUM: usize> {
    _mh: PhantomData<MH>,
}

impl<MH: MessageHash, const TARGET_SUM: usize> TargetSumEncoding<MH, TARGET_SUM> {
    /// The dimension and the base are those of the message hash.
    pub proof fn law_sizes()
        ensures
            <Self as IncomparableEncoding>::DIMENSION == MH::DIMENSION,
            <Self as IncomparableEncoding>::BASE == MH::BASE,
            <Self as IncomparableEncoding>::MAX_TRIES == 100_000,
    {
    }

    /// The codewords are the hashes whose chunks have the target sum.
    pub proof fn law_codewords(
        parameter: MH::Parameter,
        message: Seq<u8>,
        randomness: MH::Randomness,
        epoch: u32,
        x: Seq<u8>,
    )
        ensures
            <Self as IncomparableEncoding>::codeword(parameter, message, randomness, epoch)
                == Some(x) <==> MH::hash(parameter, epoch, randomness, message) == Some(x)
                && chunk_sum(x) == TARGET_SUM,
    {
    }
}

/// The chunks, if they have the target sum.
pub open spec fn with_sum(chunks: Option<Seq<u8>>, target_sum: nat) -> Option<Seq<u8>> {
    match chunks {
        Some(chunks) if chunk_sum(chunks) == target_sum => Some(chunks),
        _ => None,
    }
}

/// Keeps the chunks that have the target sum.
pub fn check_sum(chunks: Option<Vec<u8>>, target_sum: usize) -> (codeword: Result<
    Vec<u8>,
    TargetSumError,
>)
    requires
        chunks matches Some(chunks) ==> chunks.len() * 255 <= usize::MAX,
    ensures
        match codeword {
            Ok(x) => chunks == Some(x) && chunk_sum(x@) == target_sum,
            Err(TargetSumError::Aborted) => chunks is None,
            Err(TargetSumError::Mismatch { expected, actual }) => {
                &&& chunks is Some
                &&& chunk_sum(chunks->Some_0@) == actual
                &&& expected == target_sum
                &&& actual != target_sum
            },
        },
{
    match chunks {
        None => Err(TargetSumError::Aborted),
        Some(chunks) => {
            let actual = sum_of_chunks(&chunks);
            if actual == target_sum {
                Ok(chunks)
            } else {
                Err(TargetSumError::Mismatch { expected: target_sum, actual })
            }
        },
    }
}

impl<MH: MessageHash, const TARGET_SUM: usize> IncomparableEncoding for TargetSumEncoding<
    MH,
    TARGET_SUM,
> {
    type Parameter = MH::Parameter;

    type Randomness = MH::Randomness;

    type Error = TargetSumError;

    type Engine = MH::Engine;

    const DIMENSION: usize = MH::DIMENSION;

    const MAX_TRIES: usize = 100_000;

    const BASE: usize = MH::BASE;

    open spec fn supported() -> bool {
        &&& MH::supported()
        &&& MH::DIMENSION * 255 <= usize::MAX
    }

    open spec fn ready(engine: MH::Engine) -> bool {
        MH::ready(engine)
    }

    open spec fn codeword(
        parameter: MH::Parameter,
        message: Seq<u8>,
        randomness: MH::Randomness,
        epoch: u32,
    ) -> Option<Seq<u8>> {
        with_sum(MH::hash(parameter, epoch, randomness, message), TARGET_SUM as nat)
    }

    proof fn law_codeword(
        parameter: MH::Parameter,
        message: Seq<u8>,
        randomness: MH::Randomness,
        epoch: u32,
    ) {
        MH::law_hash(parameter, epoch, randomness, message);
    }

    proof fn law_incomparable(
        parameter: MH::Parameter,
        message: Seq<u8>,
        randomness: MH::Randomness,
        epoch: u32,
        other_parameter: MH::Parameter,
        other_message: Seq<u8>,
        other_randomness: MH::Randomness,
        other_epoch: u32,
    ) {
        MH::law_hash(parameter, epoch, randomness, message);
        MH::law_hash(other_parameter, other_epoch, other_randomness, other_message);
        let x = MH::hash(parameter, epoch, randomness, message)->Some_0;
        let y = MH::hash(other_parameter, other_epoch, other_randomness, other_message)->Some_0;
        if !exceeds(x, y) {
            law_sum_orders(x, y);
        }
        if !exceeds(y, x) {
            law_sum_orders(y, x);
        }
    }

    fn engine() -> (engine: MH::Engine) {
        MH::engine()
    }

    fn rand(rng: &mut rand::rngs::ThreadRng) -> (randomness: MH::Randomness) {
        MH::rand(rng)
    }

    fn encode(
        engine: &MH::Engine,
        parameter: &MH::Parameter,
        message: &[u8; MESSAGE_LENGTH],
        randomness: &MH::Randomness,
        epoch: u32,
    ) -> (codeword: Result<Vec<u8>, TargetSumError>)
        ensures
            match codeword {
                Ok(x) => MH::hash(*parameter, epoch, *randomness, message@) == Some(x@)
                    && chunk_sum(x@) == TARGET_SUM,
                Err(TargetSumError::Aborted) => MH::hash(
                    *parameter,
                    epoch,
                    *randomness,
                    message@,
                ) is None,
                Err(TargetSumError::Mismatch { expected, actual }) => {
                    &&& MH::hash(*parameter, epoch, *randomness, message@) matches Some(x)
                        && chunk_sum(x) == actual
                    &&& expected == TARGET_SUM
                    &&& actual != TARGET_SUM
                },
            },
    {
        let chunks = MH::apply(engine, parameter, epoch, randomness, message);
        proof {
            MH::law_hash(*parameter, epoch, *randomness, message@);
        }
        check_sum(chunks, TARGET_SUM)
    }
}

} // verus!
