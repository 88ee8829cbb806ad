//! A verifier of exported signatures, with one fixed choice of parameters and
//! nothing but the Poseidon1 permutations below it.

use crate::array::{
    elements_at, law_elements_at, law_elements_read_back, read_fe_array, FieldArray,
};
use crate::bytes::{
    append_bytes, append_u32, law_read_little_endian, law_u32_read_back, read_u32, u32_at, u32_bytes,
};
use crate::field::repeated;
use crate::generalized_xmss::{
    accepts, completed_chains, is_key_pair, law_signatures_accepted, lifetime_of, signature_valid,
    signing, GeneralizedXMSSPublicKey, GeneralizedXMSSSignature, SecretKeyModel, SignatureModel,
    SigningError,
};
use crate::inc_encoding::{sum_of_chunks, IncomparableEncoding, TargetSumEncoding};
use crate::message_hash::{
    aborting_hypercube_hash, AbortingHypercubeMessageHash, MessageHash, MESSAGE_LENGTH,
};
use crate::poseidon::{
    action_16, default_16, is_default_16, is_default_24, Permutation16, Permutation24,
};
use crate::prf::{Embed, Pseudorandom};
use crate::serialization::{all_valid, law_list_len, list_encoding, Serializable};
use crate::tree::climbed;
use crate::tweak_hash::{
    chain_hash, chain_hash_elements, chain_node, leaf_hash, tree_merge, PoseidonTweakHash, TweakableHash,
};
use crate::xmss_encoding::{hashes_offset, signature_encoding};
use vstd::arithmetic::power::pow;
use vstd::prelude::*;

verus! {

pub const PARAMETER_LEN: usize = 5;

pub const HASH_LEN: usize = 8;

pub const TWEAK_LEN: usize = 2;

pub const CAPACITY: usize = 9;

pub const NUM_CHUNKS: usize = 46;

pub const BASE: usize = 8;

pub const TARGET_SUM: usize = 200;

pub const LOG_LIFETIME: usize = 32;

pub const MSG_HASH_LEN_FE: usize = 8;

pub const MSG_LEN_FE: usize = 9;

pub const RAND_LEN: usize = 7;

/// The number of chunks that a hash element gives.
pub const Z: usize = 8;

/// The factor of the bound on hash elements.
pub const Q: usize = 127;

/// The tweakable hash function of the verifier.
pub type VectorHash = PoseidonTweakHash<PARAMETER_LEN, HASH_LEN, TWEAK_LEN, CAPACITY, NUM_CHUNKS>;

/// The message hash of the verifier.
pub type VectorMessageHash = AbortingHypercubeMessageHash<
    PARAMETER_LEN,
    RAND_LEN,
    MSG_HASH_LEN_FE,
    NUM_CHUNKS,
    BASE,
    Z,
    Q,
    TWEAK_LEN,
    MSG_LEN_FE,
>;

/// The encoding of the verifier.
pub type VectorEncoding = TargetSumEncoding<VectorMessageHash, TARGET_SUM>;

/// The parameters of the verifier go together.
pub proof fn law_parameters_supported()
    ensures
        VectorMessageHash::supported(),
        VectorEncoding::supported(),
        VectorHash::supported(),
        <VectorEncoding as IncomparableEncoding>::DIMENSION == NUM_CHUNKS,
        <VectorEncoding as IncomparableEncoding>::BASE == BASE,
        PARAMETER_LEN == 5,
        HASH_LEN == 8,
        TWEAK_LEN == 2,
        CAPACITY == 9,
        NUM_CHUNKS == 46,
        TARGET_SUM == 200,
        LOG_LIFETIME == 32,
        MSG_HASH_LEN_FE == 8,
        MSG_LEN_FE == 9,
        RAND_LEN == 7,
        BASE == 8,
        Z == 8,
        pow(BASE as int, Z as nat) * Q == 0x7f00_0000,
{
    assert(pow(8, 8) == 16777216) by {
        reveal_with_fuel(pow, 9);
    }
    VectorMessageHash::law_sizes();
    VectorEncoding::law_sizes();
}

/// The node of a chain that is `steps` behind the node `start` at `start_pos`, for a
/// permutation of width 16.
pub open spec fn walked(
    permute: spec_fn(Seq<u32>) -> Seq<u32>,
    parameter: FieldArray<PARAMETER_LEN>,
    epoch: u32,
    chain_index: u8,
    start_pos: nat,
    steps: nat,
    start: FieldArray<HASH_LEN>,
) -> FieldArray<HASH_LEN>
    decreases steps,
{
    if steps == 0 {
        start
    } else {
        FieldArray::of(
            chain_hash_elements(
                permute,
                parameter@,
                epoch,
                chain_index,
                (start_pos + steps) as u8,
                walked(
                    permute,
                    parameter,
                    epoch,
                    chain_index,
                    start_pos,
                    (steps - 1) as nat,
                    start,
                )@,
                TWEAK_LEN as nat,
            ),
        )
    }
}

/// A walk of no steps stays where it is. One step more hashes the node that was reached,
/// for the position behind it. A walk may stop anywhere and go on from there.
pub proof fn law_walk_steps(
    permute: spec_fn(Seq<u32>) -> Seq<u32>,
    parameter: FieldArray<PARAMETER_LEN>,
    epoch: u32,
    chain_index: u8,
    start_pos: nat,
    steps: nat,
    more: nat,
    start: FieldArray<HASH_LEN>,
)
    ensures
        walked(permute, parameter, epoch, chain_index, start_pos, 0, start) == start,
        walked(permute, parameter, epoch, chain_index, start_pos, 1, start) == FieldArray::<
            HASH_LEN,
        >::of(
            chain_hash_elements(
                permute,
                parameter@,
                epoch,
                chain_index,
                (start_pos + 1) as u8,
                start@,
                2,
            ),
        ),
        walked(permute, parameter, epoch, chain_index, start_pos, steps + more, start) == walked(
            permute,
            parameter,
            epoch,
            chain_index,
            start_pos + steps,
            more,
            walked(permute, parameter, epoch, chain_index, start_pos, steps, start),
        ),
    decreases more,
{
    assert(walked(permute, parameter, epoch, chain_index, start_pos, 0, start) == start);
    if more > 0 {
        law_walk_steps(
            permute,
            parameter,
            epoch,
            chain_index,
            start_pos,
            steps,
            (more - 1) as nat,
            start,
        );
    }
}

/// With the default permutation, the walk is the one of the scheme.
pub proof fn law_walks_agree(
    parameter: FieldArray<PARAMETER_LEN>,
    epoch: u32,
    chain_index: u8,
    start_pos: nat,
    steps: nat,
    start: FieldArray<HASH_LEN>,
)
    ensures
        walked(default_16(), parameter, epoch, chain_index, start_pos, steps, start)
            == chain_node::<VectorHash>(
            parameter,
            epoch,
            chain_index,
            start_pos,
            steps,
            start,
        ),
    decreases steps,
{
    if steps > 0 {
        law_walks_agree(parameter, epoch, chain_index, start_pos, (steps - 1) as nat, start);
    }
}

/// Walks along a chain, from the node `start` at `start_pos`.
pub fn chain_walk(
    perm16: &Permutation16,
    parameter: &FieldArray<PARAMETER_LEN>,
    epoch: u32,
    chain_index: u8,
    start_pos: u8,
    steps: usize,
    start: &FieldArray<HASH_LEN>,
) -> (end: FieldArray<HASH_LEN>)
    requires
        start_pos + steps <= 255,
    ensures
        end == walked(
            action_16(*perm16),
            *parameter,
            epoch,
            chain_index,
            start_pos as nat,
            steps as nat,
            *start,
        ),
{
    let mut current: FieldArray<HASH_LEN> = *start;
    let mut j: usize = 0;
    while j < steps
        invariant
            j <= steps,
            start_pos + steps <= 255,
            current == walked(
                action_16(*perm16),
                *parameter,
                epoch,
                chain_index,
                start_pos as nat,
                j as nat,
                *start,
            ),
        decreases steps - j,
    {
        let pos = start_pos + j as u8 + 1;
        current = chain_hash::<PARAMETER_LEN, HASH_LEN, TWEAK_LEN>(
            perm16,
            parameter,
            epoch,
            chain_index,
            pos,
            &current,
        );
        proof {
            current.law_of_view();
        }
        j = j + 1;
    }
    current
}

/// An exported signature, with what it takes to verify it.
pub struct TestVector {
    pub epoch: u32,
    pub message: [u8; MESSAGE_LENGTH],
    pub pk_root: FieldArray<HASH_LEN>,
    pub pk_parameter: FieldArray<PARAMETER_LEN>,
    pub rho: FieldArray<RAND_LEN>,
    pub auth_path: Vec<FieldArray<HASH_LEN>>,
    pub hashes: Vec<FieldArray<HASH_LEN>>,
}

/// What a contract says of a [`TestVector`].
#[verifier::ext_equal]
pub struct VectorModel {
    pub epoch: u32,
    pub message: Seq<u8>,
    pub public_key: GeneralizedXMSSPublicKey<VectorHash>,
    pub signature: SignatureModel<FieldArray<RAND_LEN>, FieldArray<HASH_LEN>>,
}

impl View for TestVector {
    type V = VectorModel;

    open spec fn view(&self) -> VectorModel {
        VectorModel {
            epoch: self.epoch,
            message: self.message@,
            public_key: GeneralizedXMSSPublicKey {
                root: self.pk_root,
                parameter: self.pk_parameter,
            },
            signature: SignatureModel {
                path: self.auth_path@,
                rho: self.rho,
                hashes: self.hashes@,
            },
        }
    }
}

impl TestVector {
    /// What contracts say of a vector are its own parts.
    pub proof fn law_view(&self)
        ensures
            self@.epoch == self.epoch,
            self@.message == self.message@,
            self@.public_key.root == self.pk_root,
            self@.public_key.parameter == self.pk_parameter,
            self@.signature.path == self.auth_path@,
            self@.signature.rho == self.rho,
            self@.signature.hashes == self.hashes@,
    {
    }
}

/// The scheme with the parameters of the verifier accepts the signature of the
/// vector.
pub open spec fn vector_accepted(vector: VectorModel) -> bool {
    accepts::<VectorEncoding, VectorHash>(
        LOG_LIFETIME as nat,
        vector.public_key,
        vector.epoch,
        vector.message,
        vector.signature,
    )
}

/// The signature of a vector is accepted if and only if the scheme with a lifetime of
/// 2^32 epochs accepts it, for its own public key, epoch and message.
pub proof fn law_vector_accepted(vector: VectorModel)
    ensures
        vector_accepted(vector) <==> accepts::<VectorEncoding, VectorHash>(
            32,
            vector.public_key,
            vector.epoch,
            vector.message,
            vector.signature,
        ),
{
}

/// Whether the signature of the vector is valid: whether the scheme with the
/// parameters of the verifier accepts it.
pub fn verify(tv: &TestVector) -> (accepted: bool)
    ensures
        accepted == vector_accepted(tv@),
{
    let engine = VectorHash::engine();
    let perm16 = &engine.perm16;
    let perm24 = &engine.perm24;
    proof {
        law_parameters_supported();
    }
    if tv.epoch as u64 >= lifetime_of(LOG_LIFETIME) {
        return false;
    }
    if tv.hashes.len() != NUM_CHUNKS {
        return false;
    }
    let ghost codeword = VectorEncoding::codeword(tv.pk_parameter, tv.message@, tv.rho, tv.epoch);
    let chunks = match aborting_hypercube_hash::<
        PARAMETER_LEN,
        RAND_LEN,
        MSG_HASH_LEN_FE,
        NUM_CHUNKS,
        BASE,
        Z,
        Q,
        TWEAK_LEN,
        MSG_LEN_FE,
    >(perm24, tv.pk_parameter.elements(), tv.epoch, tv.rho.elements(), &tv.message) {
        Some(chunks) => chunks,
        None => {
            assert(codeword is None);
            return false;
        },
    };
    proof {
        VectorMessageHash::law_sizes();
        VectorMessageHash::law_hash(tv.pk_parameter, tv.epoch, tv.rho, tv.message@);
    }
    let sum = sum_of_chunks(&chunks);
    if sum != TARGET_SUM {
        assert(codeword is None);
        return false;
    }
    assert(codeword == Some(chunks@));
    let ghost expected = completed_chains::<VectorHash>(
        tv.pk_parameter,
        tv.epoch,
        chunks@,
        BASE as nat,
        tv.hashes@,
    );
    let mut chain_ends: Vec<FieldArray<HASH_LEN>> = Vec::new();
    while chain_ends.len() < chunks.len()
        invariant
            chain_ends.len() <= chunks.len(),
            is_default_16(*perm16),
            chunks.len() == NUM_CHUNKS,
            tv.hashes.len() == NUM_CHUNKS,
            forall|k: int| 0 <= k < chunks@.len() ==> #[trigger] chunks@[k] < BASE,
            expected == completed_chains::<VectorHash>(
                tv.pk_parameter,
                tv.epoch,
                chunks@,
                BASE as nat,
                tv.hashes@,
            ),
            chain_ends@ == expected.take(chain_ends.len() as int),
        decreases chunks.len() - chain_ends.len(),
    {
        let i = chain_ends.len();
        let xi = chunks[i];
        let steps = (BASE - 1) as u8 - xi;
        let end = chain_walk(
            perm16,
            &tv.pk_parameter,
            tv.epoch,
            i as u8,
            xi,
            steps as usize,
            &tv.hashes[i],
        );
        proof {
            law_walks_agree(
                tv.pk_parameter,
                tv.epoch,
                i as u8,
                xi as nat,
                steps as nat,
                tv.hashes@[i as int],
            );
        }
        assert(end == expected[i as int]);
        chain_ends.push(end);
        assert(chain_ends@ =~= expected.take(chain_ends.len() as int));
    }
    assert(expected.take(chain_ends.len() as int) =~= expected);
    let node = leaf_hash::<PARAMETER_LEN, HASH_LEN, TWEAK_LEN, CAPACITY, NUM_CHUNKS>(
        perm24,
        &tv.pk_parameter,
        tv.epoch,
        &chain_ends,
    );
    proof {
        node.law_of_view();
    }
    climb(perm24, &tv.pk_parameter, tv.epoch, node, &tv.auth_path).equals(&tv.pk_root)
}

/// The node that one reaches from a leaf by merging it with the nodes of `path`.
fn climb(
    perm24: &Permutation24,
    parameter: &FieldArray<PARAMETER_LEN>,
    position: u32,
    leaf: FieldArray<HASH_LEN>,
    path: &Vec<FieldArray<HASH_LEN>>,
) -> (top: FieldArray<HASH_LEN>)
    requires
        is_default_24(*perm24),
    ensures
        top == climbed::<VectorHash>(*parameter, 0, position as nat, leaf, path@),
{
    let mut current_node = leaf;
    let mut current_position = position;
    let mut l: usize = 0;
    assert(path@.skip(0) =~= path@);
    while l < path.len()
        invariant
            l <= path.len(),
            is_default_24(*perm24),
            climbed::<VectorHash>(
                *parameter,
                l as nat,
                current_position as nat,
                current_node,
                path@.skip(l as int),
            ) == climbed::<VectorHash>(*parameter, 0, position as nat, leaf, path@),
        decreases path.len() - l,
    {
        let ghost rest = path@.skip(l as int);
        assert(rest[0] == path@[l as int]);
        assert(rest.drop_first() =~= path@.skip(l + 1));
        let (left, right) = if current_position % 2 == 0 {
            (current_node, path[l])
        } else {
            (path[l], current_node)
        };
        current_position = current_position / 2;
        current_node = tree_merge::<PARAMETER_LEN, HASH_LEN, TWEAK_LEN>(
            perm24,
            parameter,
            (l + 1) as u8,
            current_position,
            &left,
            &right,
        );
        proof {
            current_node.law_of_view();
        }
        l = l + 1;
    }
    current_node
}

/// The number of bytes of an encoded public key.
pub const PUBLIC_KEY_SIZE: usize = 52;

/// The number of bytes of an encoded signature before its path.
pub const SIGNATURE_FIXED_SIZE: usize = 36;

/// The number of bytes of an encoded node.
pub const NODE_SIZE: usize = 32;

/// The nodes that stand in `bytes` one after the other. A shorter piece that may be
/// left at the end is passed over.
pub open spec fn nodes_in(bytes: Seq<u8>) -> Seq<FieldArray<HASH_LEN>> {
    Seq::new(
        bytes.len() / NODE_SIZE as nat,
        |i: int| FieldArray::of(elements_at(bytes, NODE_SIZE * i, HASH_LEN as nat)),
    )
}

/// The bytes of the public key in an exported vector.
pub open spec fn public_key_part(data: Seq<u8>) -> Seq<u8> {
    data.subrange(40, 40 + u32_at(data, 36))
}

/// Where the length of the signature stands in an exported vector.
pub open spec fn signature_len_at(data: Seq<u8>) -> int {
    40 + u32_at(data, 36)
}

/// The bytes of the signature in an exported vector.
pub open spec fn signature_part(data: Seq<u8>) -> Seq<u8> {
    let at = signature_len_at(data);
    data.subrange(at + 4, at + 4 + u32_at(data, at))
}

/// The bytes hold the parts of an exported vector, as their lengths and offsets say.
pub open spec fn is_vector(data: Seq<u8>) -> bool {
    let at = signature_len_at(data);
    let signature = signature_part(data);
    &&& 40 <= data.len()
    &&& PUBLIC_KEY_SIZE <= u32_at(data, 36)
    &&& at + 4 <= data.len()
    &&& SIGNATURE_FIXED_SIZE <= u32_at(data, at)
    &&& at + 4 + u32_at(data, at) <= data.len()
    &&& u32_at(signature, 0) + 4 <= u32_at(signature, 32) <= signature.len()
}

/// The vector that stands in the bytes: the epoch, the message, the length of the
/// public key, the public key, the length of the signature, and the signature.
pub open spec fn vector_in(data: Seq<u8>) -> VectorModel {
    let public_key = public_key_part(data);
    let signature = signature_part(data);
    let path_at = u32_at(signature, 0) as int;
    let hashes_at = u32_at(signature, 32) as int;
    VectorModel {
        epoch: u32_at(data, 0),
        message: data.subrange(4, 36),
        public_key: GeneralizedXMSSPublicKey {
            root: FieldArray::of(elements_at(public_key, 0, HASH_LEN as nat)),
            parameter: FieldArray::of(
                elements_at(public_key, NODE_SIZE as int, PARAMETER_LEN as nat),
            ),
        },
        signature: SignatureModel {
            path: nodes_in(signature.subrange(path_at + 4, hashes_at)),
            rho: FieldArray::of(elements_at(signature, 4, RAND_LEN as nat)),
            hashes: nodes_in(signature.skip(hashes_at)),
        },
    }
}

proof fn lemma_array_in<const N: usize>(bytes: Seq<u8>, at: int, j: int)
    requires
        0 <= j < N,
    ensures
        FieldArray::<N>::of(elements_at(bytes, at, N as nat))@[j] == u32_at(bytes, at + 4 * j)
            % 0x7f00_0001,
{
    FieldArray::<N>::law_of(elements_at(bytes, at, N as nat));
    law_elements_at(bytes, at, N as nat, j);
    law_read_little_endian(bytes, at + 4 * j);
}

/// Every 32 bytes hold a node, and every four of them one of its elements, up to a
/// multiple of the order.
pub proof fn law_nodes_in(bytes: Seq<u8>, i: int, j: int)
    requires
        0 <= i < bytes.len() / 32,
        0 <= j < 8,
    ensures
        nodes_in(bytes).len() == bytes.len() / 32,
        nodes_in(bytes)[i]@[j] == u32_at(bytes, 32 * i + 4 * j) % 0x7f00_0001,
{
    lemma_array_in::<HASH_LEN>(bytes, 32 * i, j);
}

/// Bytes hold an exported vector if and only if the public key, whose length stands
/// behind the first 36 of them, and the signature, whose length stands behind the public
/// key, are long enough and within them, and the path and the hashes, whose places stand
/// in the signature, are in order and within it.
pub proof fn law_vector_bytes(data: Seq<u8>)
    ensures
        is_vector(data) <==> {
            let pk_len = u32_at(data, 36) as int;
            let sig_len = u32_at(data, 40 + pk_len) as int;
            let path_at = u32_at(data, 44 + pk_len) as int;
            let hashes_at = u32_at(data, 76 + pk_len) as int;
            &&& pk_len >= 52
            &&& sig_len >= 36
            &&& data.len() >= 40
            &&& data.len() >= 44 + pk_len + sig_len
            &&& path_at + 4 <= hashes_at <= sig_len
        },
{
    let pk_len = u32_at(data, 36) as int;
    let sig_len = u32_at(data, 40 + pk_len) as int;
    if data.len() >= 44 + pk_len + sig_len && sig_len >= 36 {
        let signature = signature_part(data);
        assert(u32_at(signature, 0) == u32_at(data, 44 + pk_len));
        assert(u32_at(signature, 32) == u32_at(data, 76 + pk_len));
    }
}

/// An exported vector holds the epoch in its first four bytes, then the message, and
/// behind the length of the public key its root and its parameter.
pub proof fn law_vector_head(data: Seq<u8>, j: int)
    requires
        is_vector(data),
    ensures
        vector_in(data).epoch == u32_at(data, 0),
        vector_in(data).message == data.subrange(4, 36),
        0 <= j < 8 ==> vector_in(data).public_key.root@[j] == u32_at(data, 40 + 4 * j)
            % 0x7f00_0001,
        0 <= j < 5 ==> vector_in(data).public_key.parameter@[j] == u32_at(data, 72 + 4 * j)
            % 0x7f00_0001,
{
    let public_key = public_key_part(data);
    if 0 <= j < 8 {
        lemma_array_in::<HASH_LEN>(public_key, 0, j);
        assert(u32_at(public_key, 4 * j) == u32_at(data, 40 + 4 * j));
    }
    if 0 <= j < 5 {
        lemma_array_in::<PARAMETER_LEN>(public_key, 32, j);
        assert(u32_at(public_key, 32 + 4 * j) == u32_at(data, 72 + 4 * j));
    }
}

/// The signature of an exported vector holds the place of the path, the randomness, and
/// the place of the hashes. The nodes of the path stand behind four bytes at its place, and
/// the hashes at theirs.
pub proof fn law_vector_signature(data: Seq<u8>, at: int, i: int, j: int)
    requires
        is_vector(data),
        at == 44 + u32_at(data, 36),
        0 <= j < 8,
    ensures
        ({
            let sig_len = u32_at(data, at - 4) as int;
            let path_at = u32_at(data, at) as int;
            let hashes_at = u32_at(data, at + 32) as int;
            let signature = vector_in(data).signature;
            &&& j < 7 ==> signature.rho@[j] == u32_at(data, at + 4 + 4 * j) % 0x7f00_0001
            &&& signature.path.len() == (hashes_at - path_at - 4) / 32
            &&& signature.hashes.len() == (sig_len - hashes_at) / 32
            &&& 0 <= i < signature.path.len() ==> signature.path[i]@[j] == u32_at(
                data,
                at + path_at + 4 + 32 * i + 4 * j,
            ) % 0x7f00_0001
            &&& 0 <= i < signature.hashes.len() ==> signature.hashes[i]@[j] == u32_at(
                data,
                at + hashes_at + 32 * i + 4 * j,
            ) % 0x7f00_0001
        }),
{
    let sig_len = u32_at(data, at - 4) as int;
    let path_at = u32_at(data, at) as int;
    let hashes_at = u32_at(data, at + 32) as int;
    let signature = signature_part(data);
    let path = signature.subrange(path_at + 4, hashes_at);
    let hashes = signature.skip(hashes_at);
    assert(signature.len() == sig_len);
    assert(u32_at(signature, 0) == path_at);
    assert(u32_at(signature, 32) == hashes_at);
    if j < 7 {
        lemma_array_in::<RAND_LEN>(signature, 4, j);
        assert(u32_at(signature, 4 + 4 * j) == u32_at(data, at + 4 + 4 * j));
    }
    if 0 <= i < path.len() / 32 {
        law_nodes_in(path, i, j);
        assert(u32_at(path, 32 * i + 4 * j) == u32_at(
            data,
            at + path_at + 4 + 32 * i + 4 * j,
        ));
    }
    if 0 <= i < hashes.len() / 32 {
        law_nodes_in(hashes, i, j);
        assert(u32_at(hashes, 32 * i + 4 * j) == u32_at(data, at + hashes_at + 32 * i + 4 * j));
    }
}

/// Reads the nodes that stand in `bytes` one after the other.
fn read_nodes(bytes: &[u8]) -> (nodes: Vec<FieldArray<HASH_LEN>>)
    ensures
        nodes@ == nodes_in(bytes@),
{
    let count = bytes.len() / NODE_SIZE;
    let ghost expected = nodes_in(bytes@);
    let mut nodes: Vec<FieldArray<HASH_LEN>> = Vec::new();
    while nodes.len() < count
        invariant
            nodes.len() <= count,
            count == bytes.len() / NODE_SIZE,
            expected == nodes_in(bytes@),
            nodes@ == expected.take(nodes.len() as int),
        decreases count - nodes.len(),
    {
        let node = read_fe_array::<HASH_LEN>(bytes, NODE_SIZE * nodes.len());
        proof {
            node.law_of_view();
        }
        nodes.push(node);
        assert(nodes@ =~= expected.take(nodes.len() as int));
    }
    assert(expected.take(nodes.len() as int) =~= expected);
    nodes
}

/// Whether the bytes hold the parts of an exported vector, as their lengths and
/// offsets say.
pub fn is_test_vector(data: &[u8]) -> (found: bool)
    ensures
        found == is_vector(data@),
{
    if data.len() < 40 {
        return false;
    }
    let pk_len = read_u32(data, 36) as usize;
    if pk_len < PUBLIC_KEY_SIZE || data.len() - 40 < pk_len || data.len() - 40 - pk_len < 4 {
        return false;
    }
    let at = 40 + pk_len;
    let sig_len = read_u32(data, at) as usize;
    if sig_len < SIGNATURE_FIXED_SIZE || data.len() - at - 4 < sig_len {
        return false;
    }
    let sig_data = vstd::slice::slice_subrange(data, at + 4, at + 4 + sig_len);
    assert(sig_data@ =~= signature_part(data@));
    let offset_path = read_u32(sig_data, 0) as u64;
    let offset_hashes = read_u32(sig_data, 32) as u64;
    offset_path + 4 <= offset_hashes && offset_hashes <= sig_len as u64
}

/// The vector that stands in the bytes.
pub fn parse_test_vector(data: &[u8]) -> (vector: TestVector)
    requires
        is_vector(data@),
    ensures
        vector@ == vector_in(data@),
{
    let epoch = read_u32(data, 0);
    let mut message: [u8; MESSAGE_LENGTH] = repeated(0);
    let mut i: usize = 0;
    while i < MESSAGE_LENGTH
        invariant
            i <= MESSAGE_LENGTH,
            data.len() >= 40,
            forall|k: int| 0 <= k < i ==> #[trigger] message@[k] == data@[4 + k],
        decreases MESSAGE_LENGTH - i,
    {
        message[i] = data[4 + i];
        i = i + 1;
    }
    assert(message@ =~= data@.subrange(4, 36));
    let pk_len = read_u32(data, 36) as usize;
    let pk_data = vstd::slice::slice_subrange(data, 40, 40 + pk_len);
    let pk_root = read_fe_array::<HASH_LEN>(pk_data, 0);
    let pk_parameter = read_fe_array::<PARAMETER_LEN>(pk_data, NODE_SIZE);
    let at = 40 + pk_len;
    let sig_len = read_u32(data, at) as usize;
    let sig_data = vstd::slice::slice_subrange(data, at + 4, at + 4 + sig_len);
    let offset_path = read_u32(sig_data, 0) as usize;
    let rho = read_fe_array::<RAND_LEN>(sig_data, 4);
    let offset_hashes = read_u32(sig_data, 32) as usize;
    let path_data = vstd::slice::slice_subrange(sig_data, offset_path + 4, offset_hashes);
    let hashes_data = vstd::slice::slice_subrange(sig_data, offset_hashes, sig_len);
    assert(hashes_data@ =~= signature_part(data@).skip(offset_hashes as int));
    let auth_path = read_nodes(path_data);
    let hashes = read_nodes(hashes_data);
    proof {
        pk_root.law_of_view();
        pk_parameter.law_of_view();
        rho.law_of_view();
    }
    TestVector { epoch, message, pk_root, pk_parameter, rho, auth_path, hashes }
}

/// The bytes of an exported vector.
pub open spec fn vector_encoding(vector: VectorModel) -> Seq<u8> {
    u32_bytes(vector.epoch) + vector.message + u32_bytes(
        vector.public_key.encoding().len() as u32,
    ) + vector.public_key.encoding() + u32_bytes(
        signature_encoding(vector.signature).len() as u32,
    ) + signature_encoding(vector.signature)
}

proof fn lemma_array_read_back<const N: usize>(bytes: Seq<u8>, at: int, array: FieldArray<N>)
    requires
        array.valid(),
        0 <= at,
        at + 4 * N <= bytes.len(),
        bytes.subrange(at, at + 4 * N) == array.encoding(),
    ensures
        FieldArray::<N>::of(elements_at(bytes, at, N as nat)) == array,
{
    array.law_of_view();
    array.law_valid();
    law_elements_read_back(bytes, at, array@);
}

proof fn lemma_node_in_list(nodes: Seq<FieldArray<HASH_LEN>>, i: int)
    requires
        0 <= i < nodes.len(),
    ensures
        list_encoding(nodes).len() == NODE_SIZE * nodes.len(),
        list_encoding(nodes).subrange(NODE_SIZE * i, NODE_SIZE * i + NODE_SIZE)
            == nodes[i].encoding(),
    decreases nodes.len(),
{
    law_list_len(nodes);
    let size = <FieldArray<HASH_LEN> as Serializable>::fixed_len();
    assert(nodes.len() * size == 32 * nodes.len()) by (nonlinear_arith)
        requires
            size == 32,
    ;
    let rest = nodes.drop_first();
    let bytes = list_encoding(nodes);
    nodes[0].law_fixed_len();
    if i == 0 {
        assert(bytes.subrange(0, NODE_SIZE as int) =~= nodes[0].encoding());
    } else {
        lemma_node_in_list(rest, i - 1);
        assert(bytes.subrange(NODE_SIZE * i, NODE_SIZE * i + NODE_SIZE) =~= list_encoding(
            rest,
        ).subrange(NODE_SIZE * (i - 1), NODE_SIZE * (i - 1) + NODE_SIZE));
    }
}

proof fn lemma_nodes_read_back(nodes: Seq<FieldArray<HASH_LEN>>)
    requires
        all_valid(nodes),
    ensures
        nodes_in(list_encoding(nodes)) == nodes,
{
    let bytes = list_encoding(nodes);
    law_list_len(nodes);
    let size = <FieldArray<HASH_LEN> as Serializable>::fixed_len();
    assert(nodes.len() * size == 32 * nodes.len()) by (nonlinear_arith)
        requires
            size == 32,
    ;
    assert forall|i: int| 0 <= i < nodes.len() implies nodes_in(bytes)[i] == nodes[i] by {
        lemma_node_in_list(nodes, i);
        lemma_array_read_back(bytes, NODE_SIZE * i, nodes[i]);
    }
    assert(bytes.len() / (NODE_SIZE as nat) == nodes.len());
    assert(nodes_in(bytes) =~= nodes);
}

proof fn lemma_vector_pieces(
    epoch: Seq<u8>,
    message: Seq<u8>,
    pk_len: Seq<u8>,
    pk: Seq<u8>,
    sig_len: Seq<u8>,
    sig: Seq<u8>,
)
    requires
        epoch.len() == 4,
        message.len() == 32,
        pk_len.len() == 4,
        sig_len.len() == 4,
    ensures
        ({
            let data = epoch + message + pk_len + pk + sig_len + sig;
            let at = 40 + pk.len() as int;
            &&& data.len() == at + 4 + sig.len()
            &&& data.subrange(0, 4) == epoch
            &&& data.subrange(4, 36) == message
            &&& data.subrange(36, 40) == pk_len
            &&& data.subrange(40, at) == pk
            &&& data.subrange(at, at + 4) == sig_len
            &&& data.subrange(at + 4, at + 4 + sig.len()) == sig
        }),
{
    let data = epoch + message + pk_len + pk + sig_len + sig;
    let at = 40 + pk.len() as int;
    assert(data.subrange(0, 4) =~= epoch);
    assert(data.subrange(4, 36) =~= message);
    assert(data.subrange(36, 40) =~= pk_len);
    assert(data.subrange(40, at) =~= pk);
    assert(data.subrange(at, at + 4) =~= sig_len);
    assert(data.subrange(at + 4, at + 4 + sig.len()) =~= sig);
}

proof fn lemma_signature_read_back(
    signature: SignatureModel<FieldArray<RAND_LEN>, FieldArray<HASH_LEN>>,
)
    requires
        signature_valid(signature),
        hashes_offset(signature) <= u32::MAX,
    ensures
        ({
            let bytes = signature_encoding(signature);
            let path_at = u32_at(bytes, 0) as int;
            let hashes_at = u32_at(bytes, 32) as int;
            &&& SIGNATURE_FIXED_SIZE <= bytes.len()
            &&& path_at + 4 <= hashes_at <= bytes.len()
            &&& nodes_in(bytes.subrange(path_at + 4, hashes_at)) == signature.path
            &&& FieldArray::<RAND_LEN>::of(elements_at(bytes, 4, RAND_LEN as nat)) == signature.rho
            &&& nodes_in(bytes.skip(hashes_at)) == signature.hashes
        }),
{
    let bytes = signature_encoding(signature);
    let rho = signature.rho;
    let hashes_at = hashes_offset(signature) as int;
    rho.law_fixed_len();
    assert(bytes.subrange(0, 4) =~= u32_bytes(36));
    law_u32_read_back(bytes, 0, 36);
    assert(bytes.subrange(4, 4 + 4 * RAND_LEN) =~= rho.encoding());
    lemma_array_read_back(bytes, 4, rho);
    assert(bytes.subrange(32, 36) =~= u32_bytes(hashes_at as u32));
    law_u32_read_back(bytes, 32, hashes_at as u32);
    assert(bytes.subrange(40, hashes_at) =~= list_encoding(signature.path));
    assert(bytes.skip(hashes_at) =~= list_encoding(signature.hashes));
    lemma_nodes_read_back(signature.path);
    lemma_nodes_read_back(signature.hashes);
}

proof fn lemma_public_key_read_back(key: GeneralizedXMSSPublicKey<VectorHash>)
    requires
        key.valid(),
    ensures
        key.encoding().len() == PUBLIC_KEY_SIZE,
        FieldArray::<HASH_LEN>::of(elements_at(key.encoding(), 0, HASH_LEN as nat)) == key.root,
        FieldArray::<PARAMETER_LEN>::of(
            elements_at(key.encoding(), NODE_SIZE as int, PARAMETER_LEN as nat),
        ) == key.parameter,
{
    let bytes = key.encoding();
    key.root.law_fixed_len();
    key.parameter.law_fixed_len();
    assert(bytes.subrange(0, 4 * HASH_LEN as int) =~= key.root.encoding());
    assert(bytes.subrange(NODE_SIZE as int, NODE_SIZE + 4 * PARAMETER_LEN)
        =~= key.parameter.encoding());
    lemma_array_read_back(bytes, 0, key.root);
    lemma_array_read_back(bytes, NODE_SIZE as int, key.parameter);
}

/// An exported vector is the four bytes of the epoch, the message, the four bytes of the
/// length of the public key, the public key, the four bytes of the length of the signature,
/// and the signature.
pub proof fn law_vector_layout(vector: VectorModel)
    requires
        vector.message.len() == 32,
        signature_encoding(vector.signature).len() <= u32::MAX,
    ensures
        ({
            let data = vector_encoding(vector);
            let sig = signature_encoding(vector.signature);
            &&& data.len() == 96 + sig.len()
            &&& u32_at(data, 0) == vector.epoch
            &&& data.subrange(4, 36) == vector.message
            &&& u32_at(data, 36) == 52
            &&& data.subrange(40, 72) == vector.public_key.root.encoding()
            &&& data.subrange(72, 92) == vector.public_key.parameter.encoding()
            &&& u32_at(data, 92) == sig.len()
            &&& data.skip(96) == sig
        }),
{
    let data = vector_encoding(vector);
    let pk = vector.public_key.encoding();
    let sig = signature_encoding(vector.signature);
    vector.public_key.root.law_fixed_len();
    vector.public_key.parameter.law_fixed_len();
    lemma_vector_pieces(
        u32_bytes(vector.epoch),
        vector.message,
        u32_bytes(pk.len() as u32),
        pk,
        u32_bytes(sig.len() as u32),
        sig,
    );
    law_u32_read_back(data, 0, vector.epoch);
    law_u32_read_back(data, 36, 52);
    law_u32_read_back(data, 92, sig.len() as u32);
    assert(data.subrange(40, 72) =~= pk.subrange(0, 32));
    assert(pk.subrange(0, 32) =~= vector.public_key.root.encoding());
    assert(data.subrange(72, 92) =~= pk.subrange(32, 52));
    assert(pk.subrange(32, 52) =~= vector.public_key.parameter.encoding());
    assert(data.skip(96) =~= sig);
}

/// Parsing an exported vector gives it back, as long as the length of its signature
/// is a 32-bit integer.
pub proof fn law_vector_round_trip(vector: VectorModel)
    requires
        vector.message.len() == MESSAGE_LENGTH,
        vector.public_key.valid(),
        signature_valid(vector.signature),
        signature_encoding(vector.signature).len() <= u32::MAX,
    ensures
        is_vector(vector_encoding(vector)),
        vector_in(vector_encoding(vector)) == vector,
{
    let data = vector_encoding(vector);
    let pk = vector.public_key.encoding();
    let sig = signature_encoding(vector.signature);
    lemma_public_key_read_back(vector.public_key);
    lemma_signature_read_back(vector.signature);
    lemma_vector_pieces(
        u32_bytes(vector.epoch),
        vector.message,
        u32_bytes(pk.len() as u32),
        pk,
        u32_bytes(sig.len() as u32),
        sig,
    );
    law_u32_read_back(data, 0, vector.epoch);
    law_u32_read_back(data, 36, pk.len() as u32);
    law_u32_read_back(data, 40 + pk.len() as int, sig.len() as u32);
}

/// What a key signs, in an epoch in which it is active, is accepted by the verifier
/// once it was exported and parsed.
pub proof fn law_exported_signatures_accepted<PRF: Pseudorandom>(
    public_key: GeneralizedXMSSPublicKey<VectorHash>,
    secret_key: SecretKeyModel<PRF::Key, FieldArray<PARAMETER_LEN>, FieldArray<HASH_LEN>>,
    vector: VectorModel,
) where
    PRF::Domain: Embed<FieldArray<HASH_LEN>>,
    PRF::Randomness: Embed<FieldArray<RAND_LEN>>,

    requires
        is_key_pair::<PRF, VectorEncoding, VectorHash>(
            LOG_LIFETIME as nat,
            public_key,
            secret_key,
        ),
        secret_key.active_in(vector.epoch as nat),
        vector.message.len() == MESSAGE_LENGTH,
        vector.public_key == public_key,
        public_key.valid(),
        signature_valid(vector.signature),
        signature_encoding(vector.signature).len() <= u32::MAX,
        signing::<PRF, VectorEncoding, VectorHash>(secret_key, vector.epoch, vector.message)
            == Ok::<_, SigningError>(vector.signature),
    ensures
        is_vector(vector_encoding(vector)),
        vector_accepted(vector_in(vector_encoding(vector))),
{
    law_vector_round_trip(vector);
    law_parameters_supported();
    law_signatures_accepted::<PRF, VectorEncoding, VectorHash>(
        LOG_LIFETIME as nat,
        public_key,
        secret_key,
        vector.epoch,
        vector.message,
    );
}

/// The bytes of a vector that exports a signature.
pub fn export_test_vector(
    epoch: u32,
    message: &[u8; MESSAGE_LENGTH],
    pk: &GeneralizedXMSSPublicKey<VectorHash>,
    sig: &GeneralizedXMSSSignature<VectorEncoding, VectorHash>,
) -> (data: Vec<u8>)
    requires
        signature_encoding(sig@).len() <= usize::MAX,
    ensures
        data@ == vector_encoding(
            (VectorModel {
                epoch,
                message: message@,
                public_key: *pk,
                signature: sig@,
            }),
        ),
{
    let pk_bytes = pk.as_ssz_bytes();
    let sig_bytes = sig.as_ssz_bytes();
    let mut data: Vec<u8> = Vec::new();
    append_u32(&mut data, epoch);
    append_bytes(&mut data, message.as_slice());
    append_u32(&mut data, pk_bytes.len() as u32);
    append_bytes(&mut data, pk_bytes.as_slice());
    append_u32(&mut data, sig_bytes.len() as u32);
    append_bytes(&mut data, sig_bytes.as_slice());
    assert(data@ =~= vector_encoding(
        VectorModel { epoch, message: message@, public_key: *pk, signature: sig@ },
    ));
    data
}

} // verus!
