//! Hashing a message to a vertex of a hypercube.

use crate::array::FieldArray;
use crate::bytes::le_value;
use crate::field::{
    digits, element_from_u64, law_digit_at, law_digits_value, lemma_digits_canonical, order_power,
    repeated, ORDER,
};
use crate::poseidon::{
    action_24, append_elements, compressed, default_24, is_default_24, padded, permuted_24,
    poseidon_compress_24, Permutation24,
};
use crate::serialization::Serializable;
use crate::tweak::{encode_epoch, lemma_order_power_grows, message_tweak};
use num_bigint::BigUint;
use vstd::arithmetic::div_mod::{
    lemma_div_denominator, lemma_fundamental_div_mod_converse, lemma_mod_breakdown, lemma_small_mod,
};
use vstd::arithmetic::power::{
    lemma_pow0, lemma_pow1, lemma_pow_adds, lemma_pow_increases, lemma_pow_positive, pow,
};
use vstd::prelude::*;

verus! {

/// The number of bytes of a message.
pub const MESSAGE_LENGTH: usize = 32;

/// The `%` of `BigUint`, on the number that `bytes` denote, least significant
/// byte first, and a divisor: the remainder.
#[verifier::external_body]
fn big_remainder(bytes: &[u8], divisor: u64) -> (remainder: u64)
    requires
        divisor > 0,
    ensures
        remainder == le_value(bytes@) % (divisor as nat),
{
    (&BigUint::from_bytes_le(bytes) % &BigUint::from(divisor)).try_into().unwrap()
}

/// The `/=` of `BigUint`, on the number that `bytes` denote, least significant
/// byte first, and a divisor: the bytes of the quotient, least significant first.
/// How many of them are zeros at the end is left unsaid.
#[verifier::external_body]
fn big_quotient(bytes: &[u8], divisor: u64) -> (quotient: Vec<u8>)
    requires
        divisor > 0,
    ensures
        le_value(quotient@) == le_value(bytes@) / (divisor as nat),
{
    let mut quotient = BigUint::from_bytes_le(bytes);
    quotient /= &BigUint::from(divisor);
    quotient.to_bytes_le()
}

/// The message as field elements: the digits, to the base of the field's order,
/// of the number that its bytes denote.
pub fn encode_message<const MSG_LEN_FE: usize>(message: &[u8; MESSAGE_LENGTH]) -> (elements: [u32;
    MSG_LEN_FE])
    ensures
        elements@ == digits(le_value(message@), MSG_LEN_FE as nat),
{
    let ghost n = le_value(message@);
    let mut elements: [u32; MSG_LEN_FE] = repeated(0);
    let mut rest: Vec<u8> = vstd::slice::slice_to_vec(message.as_slice());
    let mut i: usize = 0;
    assert(elements@.take(0) + digits(n, MSG_LEN_FE as nat) =~= digits(n, MSG_LEN_FE as nat));
    while i < MSG_LEN_FE
        invariant
            i <= MSG_LEN_FE,
            elements@.take(i as int) + digits(le_value(rest@), (MSG_LEN_FE - i) as nat) == digits(
                n,
                MSG_LEN_FE as nat,
            ),
        decreases MSG_LEN_FE - i,
    {
        let ghost before = elements@;
        let ghost tail = digits(le_value(rest@), (MSG_LEN_FE - i) as nat);
        elements[i] = element_from_u64(big_remainder(rest.as_slice(), ORDER as u64));
        rest = big_quotient(rest.as_slice(), ORDER as u64);
        i = i + 1;
        assert(elements@.take(i as int) =~= before.take(i - 1) + seq![tail[0]]);
        assert(elements@.take(i as int) + digits(le_value(rest@), (MSG_LEN_FE - i) as nat)
            =~= before.take(i - 1) + tail);
    }
    assert(elements@.take(i as int) + digits(le_value(rest@), 0) =~= elements@);
    elements
}

/// `256^len`.
pub open spec fn byte_power(len: nat) -> nat
    decreases len,
{
    if len == 0 {
        1
    } else {
        256 * byte_power((len - 1) as nat)
    }
}

proof fn lemma_le_value_bound(bytes: Seq<u8>)
    ensures
        le_value(bytes) < byte_power(bytes.len()),
    decreases bytes.len(),
{
    if bytes.len() > 0 {
        lemma_le_value_bound(bytes.drop_first());
    }
}

proof fn lemma_le_value_injective(a: Seq<u8>, b: Seq<u8>)
    requires
        a.len() == b.len(),
        le_value(a) == le_value(b),
    ensures
        a == b,
    decreases a.len(),
{
    if a.len() > 0 {
        assert(a[0] == b[0] && le_value(a.drop_first()) == le_value(b.drop_first()));
        lemma_le_value_injective(a.drop_first(), b.drop_first());
        assert(a =~= seq![a[0]] + a.drop_first());
        assert(b =~= seq![b[0]] + b.drop_first());
    } else {
        assert(a =~= b);
    }
}

/// Distinct messages have distinct field elements, from nine elements on.
pub proof fn law_messages_distinct(message: Seq<u8>, other: Seq<u8>, len: nat)
    requires
        message.len() == MESSAGE_LENGTH,
        other.len() == MESSAGE_LENGTH,
        len >= 9,
        digits(le_value(message), len) == digits(le_value(other), len),
    ensures
        message == other,
{
    lemma_le_value_bound(message);
    lemma_le_value_bound(other);
    assert(byte_power(32) <= order_power(9)) by {
        reveal_with_fuel(byte_power, 33);
        reveal_with_fuel(order_power, 10);
    }
    lemma_order_power_grows(9, len);
    law_digits_value(le_value(message), len);
    law_digits_value(le_value(other), len);
    lemma_le_value_injective(message, other);
}

/// The number of hash elements that give `dimension` chunks, `z` each.
pub open spec fn useful_elements(dimension: nat, z: nat) -> nat
    recommends
        z > 0,
{
    ((dimension + z - 1) / (z as int)) as nat
}

/// The bound below which a hash element is accepted.
pub open spec fn rejection_bound(base: nat, z: nat, q: nat) -> int {
    q * pow(base as int, z)
}

/// The `j`-th chunk of a hash element: the `j`-th digit to the base `base` of
/// its quotient by `q`.
pub open spec fn chunk(element: u32, base: nat, q: nat, j: nat) -> int {
    (element as int / q as int) / pow(base as int, j) % (base as int)
}

/// The chunks of a hash, unless one of the elements that give them is rejected.
pub open spec fn chunks_of(hash: Seq<u32>, dimension: nat, base: nat, z: nat, q: nat) -> Option<
    Seq<u8>,
> {
    if exists|i: int|
        0 <= i < useful_elements(dimension, z) && #[trigger] hash[i] >= rejection_bound(
            base,
            z,
            q,
        ) {
        None
    } else {
        Some(
            Seq::new(
                dimension,
                |k: int| chunk(hash[k / z as int], base, q, (k % z as int) as nat) as u8,
            ),
        )
    }
}

/// The chunks that are found are as many as asked for, each below the base.
pub proof fn law_chunks(hash: Seq<u32>, dimension: nat, base: nat, z: nat, q: nat)
    requires
        0 < base <= 256,
        z > 0,
        q > 0,
    ensures
        chunks_of(hash, dimension, base, z, q) matches Some(chunks) ==> {
            &&& chunks.len() == dimension
            &&& forall|k: int| 0 <= k < dimension ==> #[trigger] chunks[k] < base
        },
{
    if chunks_of(hash, dimension, base, z, q) is Some {
        let chunks = chunks_of(hash, dimension, base, z, q)->Some_0;
        assert forall|k: int| 0 <= k < dimension implies #[trigger] chunks[k] < base by {
            lemma_chunk_range(hash[k / z as int], base, q, (k % z as int) as nat);
        }
    }
}

proof fn lemma_chunk_range(element: u32, base: nat, q: nat, j: nat)
    requires
        0 < base,
    ensures
        0 <= chunk(element, base, q, j) < base,
{
    let d = (element as int / q as int) / pow(base as int, j);
    assert(0 <= d % (base as int) < base) by (nonlinear_arith)
        requires
            base > 0,
    ;
}

/// There are chunks if and only if every hash element that gives one is below
/// `q * base^z`.
pub proof fn law_acceptance(hash: Seq<u32>, dimension: nat, base: nat, z: nat, q: nat)
    requires
        z > 0,
    ensures
        chunks_of(hash, dimension, base, z, q) is Some <==> (forall|i: int|
            0 <= i && i * z < dimension ==> #[trigger] hash[i] < q * pow(base as int, z)),
{
    let n = useful_elements(dimension, z) as int;
    if chunks_of(hash, dimension, base, z, q) is Some {
        assert forall|i: int| 0 <= i && i * z < dimension implies #[trigger] hash[i] < q * pow(
            base as int,
            z,
        ) by {
            lemma_useful_iff(i, dimension, z);
            assert(!(hash[i] >= rejection_bound(base, z, q)));
        }
    } else {
        let i = choose|i: int| 0 <= i < n && #[trigger] hash[i] >= rejection_bound(base, z, q);
        lemma_useful_iff(i, dimension, z);
        assert(!(hash[i] < q * pow(base as int, z)));
    }
}

proof fn lemma_useful_iff(i: int, dimension: nat, z: nat)
    requires
        z > 0,
        0 <= i,
    ensures
        (i < useful_elements(dimension, z)) <==> (i * z < dimension),
{
    if i * z < dimension {
        lemma_useful(i as nat, dimension, z);
    } else {
        assert((dimension + z - 1) / (z as int) <= i) by (nonlinear_arith)
            requires
                z > 0,
                i * z >= dimension,
                i >= 0,
        ;
    }
}

/// The `j`-th of the chunks that a hash element gives is the `j`-th digit, to the base
/// `base`, of its quotient by `q`, and stands behind the chunks of the elements before
/// it.
pub proof fn law_chunk_at(
    hash: Seq<u32>,
    dimension: nat,
    base: nat,
    z: nat,
    q: nat,
    i: int,
    j: int,
)
    requires
        0 < base <= 256,
        0 <= i,
        0 <= j < z,
        i * z + j < dimension,
    ensures
        chunks_of(hash, dimension, base, z, q) matches Some(chunks) ==> chunks[i * z + j] == (
        hash[i] as int / q as int / pow(base as int, j as nat)) % (base as int),
{
    if chunks_of(hash, dimension, base, z, q) is Some {
        lemma_position(i, j, z as int);
        assert(i * z + j >= 0) by (nonlinear_arith)
            requires
                i >= 0,
                j >= 0,
        ;
        lemma_chunk_range(hash[i], base, q, j as nat);
    }
}

/// The number that digits to the base `base` denote, least significant first.
pub open spec fn positional(digits: Seq<u8>, base: nat) -> int
    decreases digits.len(),
{
    if digits.len() == 0 {
        0
    } else {
        digits[0] + base * positional(digits.drop_first(), base)
    }
}

proof fn lemma_positional(digits: Seq<u8>, base: nat, number: int)
    requires
        base > 0,
        number >= 0,
        forall|j: int|
            0 <= j < digits.len() ==> #[trigger] digits[j] == (number / pow(base as int, j as nat))
                % (base as int),
    ensures
        positional(digits, base) == number % pow(base as int, digits.len()),
    decreases digits.len(),
{
    let b = base as int;
    lemma_pow0(b);
    if digits.len() > 0 {
        let rest = digits.drop_first();
        let quotient = number / b;
        assert(quotient >= 0) by (nonlinear_arith)
            requires
                number >= 0,
                b > 0,
                quotient == number / b,
        ;
        assert forall|j: int| 0 <= j < rest.len() implies #[trigger] rest[j] == (quotient / pow(
            b,
            j as nat,
        )) % b by {
            lemma_pow_positive(b, j as nat);
            lemma_div_denominator(number, b, pow(b, j as nat));
            lemma_pow_adds(b, 1, j as nat);
            lemma_pow1(b);
            assert(rest[j] == digits[j + 1]);
        }
        lemma_positional(rest, base, quotient);
        lemma_pow_adds(b, 1, rest.len());
        lemma_pow1(b);
        lemma_pow_positive(b, rest.len());
        lemma_mod_breakdown(number, b, pow(b, rest.len()));
        assert(digits[0] == number % b);
    }
}

/// The chunks give back the hash: the chunks of a hash element denote, as digits to
/// the base `base`, its quotient by `q`, modulo a power of the base where they are cut
/// short.
pub proof fn law_chunks_give_back(
    hash: Seq<u32>,
    dimension: nat,
    base: nat,
    z: nat,
    q: nat,
    i: int,
)
    requires
        0 < base <= 256,
        z > 0,
        q > 0,
        0 <= i,
        i * z < dimension,
    ensures
        chunks_of(hash, dimension, base, z, q) matches Some(chunks) ==> {
            &&& i * z + z <= dimension ==> positional(chunks.subrange(i * z, i * z + z), base)
                == hash[i] as int / q as int
            &&& i * z + z > dimension ==> positional(
                chunks.subrange(i * z, dimension as int),
                base,
            ) == (hash[i] as int / q as int) % pow(base as int, (dimension - i * z) as nat)
        },
{
    if chunks_of(hash, dimension, base, z, q) is Some {
        let chunks = chunks_of(hash, dimension, base, z, q)->Some_0;
        let start = i * z;
        assert(start >= 0) by (nonlinear_arith)
            requires
                i >= 0,
                start == i * z,
        ;
        let end = if start + z <= dimension {
            start + z
        } else {
            dimension as int
        };
        let part = chunks.subrange(start, end);
        let quotient = hash[i] as int / q as int;
        law_acceptance(hash, dimension, base, z, q);
        assert forall|j: int| 0 <= j < part.len() implies #[trigger] part[j] == (quotient / pow(
            base as int,
            j as nat,
        )) % (base as int) by {
            law_chunk_at(hash, dimension, base, z, q, i, j);
        }
        let bound = pow(base as int, z);
        assert(hash[i] < q * bound);
        assert(0 <= quotient < bound) by (nonlinear_arith)
            requires
                0 <= hash[i] < q * bound,
                q > 0,
                quotient == hash[i] as int / q as int,
        ;
        lemma_positional(part, base, quotient);
        if start + z <= dimension {
            lemma_small_mod(quotient as nat, bound as nat);
        }
    }
}

/// The sizes are such that [`hypercube_chunks`] has the elements that it reads
/// and that its bound is a 64-bit integer.
pub open spec fn chunk_sizes_supported(
    hash_len: nat,
    dimension: nat,
    base: nat,
    z: nat,
    q: nat,
) -> bool {
    &&& 0 < base <= 256
    &&& z > 0
    &&& q > 0
    &&& rejection_bound(base, z, q) <= u64::MAX
    &&& useful_elements(dimension, z) <= hash_len
}

/// `q * base^z`.
fn rejection_bound_u64(base: usize, z: usize, q: usize) -> (bound: u64)
    requires
        base > 0,
        q > 0,
        rejection_bound(base as nat, z as nat, q as nat) <= u64::MAX,
    ensures
        bound == rejection_bound(base as nat, z as nat, q as nat),
{
    assert(q <= rejection_bound(base as nat, z as nat, q as nat)) by {
        lemma_pow_positive(base as int, z as nat);
        assert(q <= q * pow(base as int, z as nat)) by (nonlinear_arith)
            requires
                pow(base as int, z as nat) >= 1,
                q > 0,
        ;
    }
    let mut bound: u64 = q as u64;
    let mut i: usize = 0;
    assert(pow(base as int, 0) == 1) by {
        lemma_pow0(base as int);
    }
    while i < z
        invariant
            i <= z,
            base > 0,
            q > 0,
            bound == q * pow(base as int, i as nat),
            q * pow(base as int, z as nat) <= u64::MAX,
        decreases z - i,
    {
        proof {
            lemma_pow_adds(base as int, i as nat, 1);
            lemma_pow1(base as int);
            lemma_pow_positive(base as int, i as nat);
            lemma_pow_positive(base as int, (i + 1) as nat);
            lemma_pow_increases(base as nat, (i + 1) as nat, z as nat);
            let low = pow(base as int, i as nat);
            let next = pow(base as int, (i + 1) as nat);
            let high = pow(base as int, z as nat);
            assert(bound * base == q * next) by (nonlinear_arith)
                requires
                    bound == q * low,
                    next == low * base,
            ;
            assert(q * next <= q * high) by (nonlinear_arith)
                requires
                    next <= high,
                    q > 0,
            ;
            assert(base <= bound * base) by (nonlinear_arith)
                requires
                    bound == q * low,
                    q > 0,
                    low > 0,
                    base > 0,
            ;
        }
        bound = bound * (base as u64);
        i = i + 1;
    }
    bound
}

/// The chunks of a hash, unless one of the elements that give them is rejected.
pub fn hypercube_chunks<
    const HASH_LEN_FE: usize,
    const DIMENSION: usize,
    const BASE: usize,
    const Z: usize,
    const Q: usize,
>(hash_fe: &[u32; HASH_LEN_FE]) -> (chunks: Option<Vec<u8>>)
    requires
        chunk_sizes_supported(
            HASH_LEN_FE as nat,
            DIMENSION as nat,
            BASE as nat,
            Z as nat,
            Q as nat,
        ),
    ensures
        match chunks {
            Some(chunks) => chunks_of(
                hash_fe@,
                DIMENSION as nat,
                BASE as nat,
                Z as nat,
                Q as nat,
            ) == Some(chunks@),
            None => chunks_of(
                hash_fe@,
                DIMENSION as nat,
                BASE as nat,
                Z as nat,
                Q as nat,
            ) is None,
        },
{
    let bound = rejection_bound_u64(BASE, Z, Q);
    let mut chunks: Vec<u8> = Vec::new();
    let mut i: usize = 0;
    proof {
        lemma_useful_zero(DIMENSION as nat, Z as nat);
    }
    while chunks.len() < DIMENSION
        invariant
            chunk_sizes_supported(
                HASH_LEN_FE as nat,
                DIMENSION as nat,
                BASE as nat,
                Z as nat,
                Q as nat,
            ),
            bound == rejection_bound(BASE as nat, Z as nat, Q as nat),
            chunks@.len() <= DIMENSION,
            chunks@.len() == i * Z || chunks@.len() == DIMENSION,
            chunks@.len() == DIMENSION ==> i == useful_elements(DIMENSION as nat, Z as nat),
            i <= useful_elements(DIMENSION as nat, Z as nat),
            forall|m: int| 0 <= m < i ==> #[trigger] hash_fe@[m] < bound,
            forall|k: int|
                0 <= k < chunks@.len() ==> #[trigger] chunks@[k] == chunk(
                    hash_fe@[k / Z as int],
                    BASE as nat,
                    Q as nat,
                    (k % Z as int) as nat,
                ),
        decreases DIMENSION - chunks@.len(),
    {
        proof {
            lemma_useful(i as nat, DIMENSION as nat, Z as nat);
        }
        let element = hash_fe[i];
        if element as u64 >= bound {
            assert(hash_fe@[i as int] >= rejection_bound(BASE as nat, Z as nat, Q as nat));
            return None;
        }
        let ghost start = chunks@.len();
        let ghost quotient = element as int / Q as int;
        let mut rest: u64 = element as u64 / Q as u64;
        let mut j: usize = 0;
        assert(rest == quotient / pow(BASE as int, 0)) by {
            lemma_pow0(BASE as int);
        }
        while j < Z && chunks.len() < DIMENSION
            invariant
                0 < BASE <= 256,
                0 < Z,
                0 < Q,
                i < HASH_LEN_FE,
                element == hash_fe@[i as int],
                quotient == element as int / Q as int,
                quotient >= 0,
                rest == quotient / pow(BASE as int, j as nat),
                j <= Z,
                start == i * Z,
                chunks@.len() == start + j,
                chunks@.len() <= DIMENSION,
                forall|k: int|
                    0 <= k < chunks@.len() ==> #[trigger] chunks@[k] == chunk(
                        hash_fe@[k / Z as int],
                        BASE as nat,
                        Q as nat,
                        (k % Z as int) as nat,
                    ),
            decreases Z - j,
        {
            proof {
                lemma_position(i as int, j as int, Z as int);
                lemma_chunk_range(element, BASE as nat, Q as nat, j as nat);
            }
            assert(rest % (BASE as u64) == chunk(element, BASE as nat, Q as nat, j as nat));
            chunks.push((rest % (BASE as u64)) as u8);
            proof {
                lemma_next_quotient(quotient, BASE as nat, j as nat);
            }
            rest = rest / (BASE as u64);
            j = j + 1;
        }
        i = i + 1;
        proof {
            lemma_next_element(i as nat, DIMENSION as nat, Z as nat, chunks@.len(), j as nat);
        }
    }
    proof {
        let found = chunks_of(hash_fe@, DIMENSION as nat, BASE as nat, Z as nat, Q as nat);
        assert(found is Some);
        assert forall|k: int| 0 <= k < DIMENSION implies #[trigger] chunks@[k]
            == found->Some_0[k] by {
            lemma_chunk_range(
                hash_fe@[k / Z as int],
                BASE as nat,
                Q as nat,
                (k % Z as int) as nat,
            );
        }
        assert(chunks@ =~= found->Some_0);
    }
    Some(chunks)
}

proof fn lemma_useful(i: nat, dimension: nat, z: nat)
    requires
        z > 0,
        i * z < dimension,
    ensures
        i < useful_elements(dimension, z),
{
    assert(i < (dimension + z - 1) / (z as int)) by (nonlinear_arith)
        requires
            z > 0,
            i * z < dimension,
    ;
}

proof fn lemma_useful_zero(dimension: nat, z: nat)
    requires
        z > 0,
    ensures
        dimension == 0 ==> useful_elements(dimension, z) == 0,
{
    if dimension == 0 {
        assert((z - 1) / (z as int) == 0) by (nonlinear_arith)
            requires
                z > 0,
        ;
    }
}

proof fn lemma_position(i: int, j: int, z: int)
    requires
        0 <= j < z,
        0 <= i,
    ensures
        (i * z + j) / z == i,
        (i * z + j) % z == j,
{
    lemma_fundamental_div_mod_converse(i * z + j, z, i, j);
}

proof fn lemma_next_quotient(quotient: int, base: nat, j: nat)
    requires
        base > 0,
        quotient >= 0,
    ensures
        quotient / pow(base as int, j) / (base as int) == quotient / pow(base as int, j + 1),
{
    lemma_pow_adds(base as int, j, 1);
    lemma_pow1(base as int);
    lemma_pow_positive(base as int, j);
    lemma_div_denominator(quotient, pow(base as int, j), base as int);
}

proof fn lemma_next_element(i: nat, dimension: nat, z: nat, len: nat, j: nat)
    requires
        z > 0,
        i > 0,
        j <= z,
        len == (i - 1) * z + j,
        len <= dimension,
        j == z || len == dimension,
        j > 0,
    ensures
        len == i * z || len == dimension,
        len == dimension ==> i == useful_elements(dimension, z),
        i <= useful_elements(dimension, z),
{
    assert(i * z == (i - 1) * z + z) by (nonlinear_arith);
    if len == dimension {
        assert((dimension + z - 1) / (z as int) == i) by {
            lemma_fundamental_div_mod_converse(
                dimension + z - 1,
                z as int,
                i as int,
                j - 1,
            );
        }
    } else {
        lemma_useful((i - 1) as nat, dimension, z);
    }
}

/// A hash function from messages to codeword candidates.
pub trait MessageHash: Sized {
    type Parameter: Serializable;

    type Randomness: Serializable;

    /// What applying the hash function needs at hand.
    type Engine;

    /// The number of chunks of a hash.
    const DIMENSION: usize;

    /// The bound on the chunks of a hash.
    const BASE: usize;

    /// The sizes of the hash function go together.
    spec fn supported() -> bool;

    /// The engine is one with which the function can be applied.
    spec fn ready(engine: Self::Engine) -> bool;

    /// The chunks of the hash, if there is one.
    spec fn hash(
        parameter: Self::Parameter,
        epoch: u32,
        randomness: Self::Randomness,
        message: Seq<u8>,
    ) -> Option<Seq<u8>>;

    /// A hash has as many chunks as the dimension says, each below the base.
    proof fn law_hash(
        parameter: Self::Parameter,
        epoch: u32,
        randomness: Self::Randomness,
        message: Seq<u8>,
    )
        requires
            Self::supported(),
        ensures
            Self::hash(parameter, epoch, randomness, message) matches Some(chunks) ==> {
                &&& chunks.len() == Self::DIMENSION
                &&& forall|k: int| 0 <= k < chunks.len() ==> #[trigger] chunks[k] < Self::BASE
            },
    ;

    /// An engine with which the function can be applied.
    fn engine() -> (engine: Self::Engine)
        ensures
            Self::ready(engine),
    ;

    /// Some randomness.
    fn rand(rng: &mut rand::rngs::ThreadRng) -> (randomness: Self::Randomness)
        ensures
            randomness.valid(),
    ;

    /// The chunks of the hash of a message, if there is one.
    fn apply(
        engine: &Self::Engine,
        parameter: &Self::Parameter,
        epoch: u32,
        randomness: &Self::Randomness,
        message: &[u8; MESSAGE_LENGTH],
    ) -> (chunks: Option<Vec<u8>>)
        requires
            Self::supported(),
            Self::ready(*engine),
        ensures
            match chunks {
                Some(chunks) => Self::hash(*parameter, epoch, *randomness, message@) == Some(
                    chunks@,
                ),
                None => Self::hash(*parameter, epoch, *randomness, message@) is None,
            },
    ;
}

/// A message hash that rejects the hash elements that would make the chunks
/// uneven.
pub struct AbortingHypercubeMessageHash<
    const PARAMETER_LEN: usize,
    const RAND_LEN: usize,
    const HASH_LEN_FE: usize,
    const DIMENSION: usize,
    const BASE: usize,
    const Z: usize,
    const Q: usize,
    const TWEAK_LEN_FE: usize,
    const MSG_LEN_FE: usize,
> {}

impl<
    const PARAMETER_LEN: usize,
    const RAND_LEN: usize,
    const HASH_LEN_FE: usize,
    const DIMENSION: usize,
    const BASE: usize,
    const Z: usize,
    const Q: usize,
    const TWEAK_LEN_FE: usize,
    const MSG_LEN_FE: usize,
> AbortingHypercubeMessageHash<
    PARAMETER_LEN,
    RAND_LEN,
    HASH_LEN_FE,
    DIMENSION,
    BASE,
    Z,
    Q,
    TWEAK_LEN_FE,
    MSG_LEN_FE,
> {
    /// The dimension and the base are those that the type names.
    pub proof fn law_sizes()
        ensures
            <Self as MessageHash>::DIMENSION == DIMENSION,
            <Self as MessageHash>::BASE == BASE,
    {
    }
}

/// What the message hash compresses.
pub open spec fn message_hash_input(
    message: Seq<u8>,
    parameter: Seq<u32>,
    epoch: u32,
    randomness: Seq<u32>,
    tweak_len: nat,
    msg_len: nat,
) -> Seq<u32> {
    digits(le_value(message), msg_len) + parameter + digits(message_tweak(epoch), tweak_len)
        + randomness
}

impl<
    const PARAMETER_LEN: usize,
    const RAND_LEN: usize,
    const HASH_LEN_FE: usize,
    const DIMENSION: usize,
    const BASE: usize,
    const Z: usize,
    const Q: usize,
    const TWEAK_LEN_FE: usize,
    const MSG_LEN_FE: usize,
> AbortingHypercubeMessageHash<
    PARAMETER_LEN,
    RAND_LEN,
    HASH_LEN_FE,
    DIMENSION,
    BASE,
    Z,
    Q,
    TWEAK_LEN_FE,
    MSG_LEN_FE,
> {
    /// The hash comes from compressing 24 elements with the default permutation: the
    /// digits of the number that the message denotes, the parameter, the digits of the
    /// number made of the epoch and a two, and the randomness, with zeros behind them.
    /// The chunks are those of the first elements of the outcome.
    pub proof fn law_hash_of_state(
        parameter: FieldArray<PARAMETER_LEN>,
        epoch: u32,
        randomness: FieldArray<RAND_LEN>,
        message: Seq<u8>,
        state: Seq<u32>,
        elements: Seq<u32>,
    )
        requires
            MSG_LEN_FE + PARAMETER_LEN + TWEAK_LEN_FE + RAND_LEN <= 24,
            HASH_LEN_FE <= 24,
            state.len() == 24,
            elements.len() == HASH_LEN_FE,
            forall|k: int|
                0 <= k < 24 ==> #[trigger] state[k] == (if k < MSG_LEN_FE {
                    (le_value(message) as int / pow(0x7f00_0001, k as nat)) % 0x7f00_0001
                } else if k < MSG_LEN_FE + PARAMETER_LEN {
                    parameter@[k - MSG_LEN_FE] as int
                } else if k < MSG_LEN_FE + PARAMETER_LEN + TWEAK_LEN_FE {
                    ((epoch * 0x100 + 2) / pow(
                        0x7f00_0001,
                        (k - MSG_LEN_FE - PARAMETER_LEN) as nat,
                    )) % 0x7f00_0001
                } else if k < MSG_LEN_FE + PARAMETER_LEN + TWEAK_LEN_FE + RAND_LEN {
                    randomness@[k - MSG_LEN_FE - PARAMETER_LEN - TWEAK_LEN_FE] as int
                } else {
                    0
                }),
            forall|i: int|
                0 <= i < HASH_LEN_FE ==> #[trigger] elements[i] == (permuted_24(state)[i]
                    + state[i]) % 0x7f00_0001,
        ensures
            <Self as MessageHash>::hash(parameter, epoch, randomness, message) == chunks_of(
                elements,
                DIMENSION as nat,
                BASE as nat,
                Z as nat,
                Q as nat,
            ),
    {
        parameter.law_of_view();
        randomness.law_of_view();
        let number = le_value(message);
        let tweak = message_tweak(epoch);
        let input = message_hash_input(
            message,
            parameter@,
            epoch,
            randomness@,
            TWEAK_LEN_FE as nat,
            MSG_LEN_FE as nat,
        );
        lemma_digits_canonical(number, MSG_LEN_FE as nat);
        lemma_digits_canonical(tweak, TWEAK_LEN_FE as nat);
        assert forall|k: int| 0 <= k < 24 implies padded(input, 24)[k] == state[k] by {
            if k < MSG_LEN_FE {
                law_digit_at(number, MSG_LEN_FE as nat, k);
            } else if MSG_LEN_FE + PARAMETER_LEN <= k < MSG_LEN_FE + PARAMETER_LEN + TWEAK_LEN_FE {
                law_digit_at(tweak, TWEAK_LEN_FE as nat, k - MSG_LEN_FE - PARAMETER_LEN);
            }
        }
        assert(padded(input, 24) =~= state);
        assert(compressed(default_24(), input, 24).take(HASH_LEN_FE as int) =~= elements);
    }
}

/// Hashes a message, and gives the chunks of the hash unless it is rejected.
pub fn aborting_hypercube_hash<
    const PARAMETER_LEN: usize,
    const RAND_LEN: usize,
    const HASH_LEN_FE: usize,
    const DIMENSION: usize,
    const BASE: usize,
    const Z: usize,
    const Q: usize,
    const TWEAK_LEN_FE: usize,
    const MSG_LEN_FE: usize,
>(
    perm: &Permutation24,
    parameter: &[u32; PARAMETER_LEN],
    epoch: u32,
    randomness: &[u32; RAND_LEN],
    message: &[u8; MESSAGE_LENGTH],
) -> (chunks: Option<Vec<u8>>)
    requires
        chunk_sizes_supported(
            HASH_LEN_FE as nat,
            DIMENSION as nat,
            BASE as nat,
            Z as nat,
            Q as nat,
        ),
        HASH_LEN_FE <= 24,
        MSG_LEN_FE + PARAMETER_LEN + TWEAK_LEN_FE + RAND_LEN <= 24,
    ensures
        ({
            let hash = compressed(
                action_24(*perm),
                message_hash_input(
                    message@,
                    parameter@,
                    epoch,
                    randomness@,
                    TWEAK_LEN_FE as nat,
                    MSG_LEN_FE as nat,
                ),
                24,
            ).take(HASH_LEN_FE as int);
            let expected = chunks_of(
                hash,
                DIMENSION as nat,
                BASE as nat,
                Z as nat,
                Q as nat,
            );
            match chunks {
                Some(chunks) => expected == Some(chunks@),
                None => expected is None,
            }
        }),
{
    let message_fe: [u32; MSG_LEN_FE] = encode_message(message);
    let epoch_fe: [u32; TWEAK_LEN_FE] = encode_epoch(epoch);
    let mut combined: Vec<u32> = Vec::new();
    append_elements(&mut combined, message_fe.as_slice());
    append_elements(&mut combined, parameter.as_slice());
    append_elements(&mut combined, epoch_fe.as_slice());
    append_elements(&mut combined, randomness.as_slice());
    assert(combined@ =~= message_hash_input(
        message@,
        parameter@,
        epoch,
        randomness@,
        TWEAK_LEN_FE as nat,
        MSG_LEN_FE as nat,
    ));
    let hash_fe: [u32; HASH_LEN_FE] = poseidon_compress_24(perm, combined.as_slice());
    hypercube_chunks::<HASH_LEN_FE, DIMENSION, BASE, Z, Q>(&hash_fe)
}

impl<
    const PARAMETER_LEN: usize,
    const RAND_LEN: usize,
    const HASH_LEN_FE: usize,
    const DIMENSION: usize,
    const BASE: usize,
    const Z: usize,
    const Q: usize,
    const TWEAK_LEN_FE: usize,
    const MSG_LEN_FE: usize,
> MessageHash for AbortingHypercubeMessageHash<
    PARAMETER_LEN,
    RAND_LEN,
    HASH_LEN_FE,
    DIMENSION,
    BASE,
    Z,
    Q,
    TWEAK_LEN_FE,
    MSG_LEN_FE,
> {
    type Parameter = FieldArray<PARAMETER_LEN>;

    type Randomness = FieldArray<RAND_LEN>;

    type Engine = Permutation24;

    const DIMENSION: usize = DIMENSION;

    const BASE: usize = BASE;

    open spec fn supported() -> bool {
        &&& chunk_sizes_supported(
            HASH_LEN_FE as nat,
            DIMENSION as nat,
            BASE as nat,
            Z as nat,
            Q as nat,
        )
        &&& HASH_LEN_FE <= 24
        &&& MSG_LEN_FE + PARAMETER_LEN + TWEAK_LEN_FE + RAND_LEN <= 24
    }

    open spec fn ready(engine: Permutation24) -> bool {
        is_default_24(engine)
    }

    open spec fn hash(
        parameter: FieldArray<PARAMETER_LEN>,
        epoch: u32,
        randomness: FieldArray<RAND_LEN>,
        message: Seq<u8>,
    ) -> Option<Seq<u8>> {
        chunks_of(
            compressed(
                default_24(),
                message_hash_input(
                    message,
                    parameter@,
                    epoch,
                    randomness@,
                    TWEAK_LEN_FE as nat,
                    MSG_LEN_FE as nat,
                ),
                24,
            ).take(HASH_LEN_FE as int),
            DIMENSION as nat,
            BASE as nat,
            Z as nat,
            Q as nat,
        )
    }

    proof fn law_hash(
        parameter: FieldArray<PARAMETER_LEN>,
        epoch: u32,
        randomness: FieldArray<RAND_LEN>,
        message: Seq<u8>,
    ) {
        law_chunks(
            compressed(
                default_24(),
                message_hash_input(
                    message,
                    parameter@,
                    epoch,
                    randomness@,
                    TWEAK_LEN_FE as nat,
                    MSG_LEN_FE as nat,
                ),
                24,
            ).take(HASH_LEN_FE as int),
            DIMENSION as nat,
            BASE as nat,
            Z as nat,
            Q as nat,
        );
    }

    fn engine() -> (engine: Permutation24) {
        let engine = Permutation24::new();
        assert(action_24(engine) =~= default_24());
        engine
    }

    fn rand(rng: &mut rand::rngs::ThreadRng) -> (randomness: FieldArray<RAND_LEN>) {
        let randomness = FieldArray::random(rng);
        proof {
            randomness.law_valid();
        }
        randomness
    }

    fn apply(
        engine: &Permutation24,
        parameter: &FieldArray<PARAMETER_LEN>,
        epoch: u32,
        randomness: &FieldArray<RAND_LEN>,
        message: &[u8; MESSAGE_LENGTH],
    ) -> (chunks: Option<Vec<u8>>) {
        aborting_hypercube_hash::<
            PARAMETER_LEN,
            RAND_LEN,
            HASH_LEN_FE,
            DIMENSION,
            BASE,
            Z,
            Q,
            TWEAK_LEN_FE,
            MSG_LEN_FE,
        >(engine, parameter.elements(), epoch, randomness.elements(), message)
    }
}

} // verus!
