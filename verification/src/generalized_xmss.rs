//! The generalized XMSS signature scheme.

use crate::inc_encoding::IncomparableEncoding;
use crate::message_hash::MESSAGE_LENGTH;
use crate::prf::{Embed, Pseudorandom};
use crate::serialization::{all_valid, Serializable};
use crate::tree::{
    can_open, climbed, hash_tree_verify, is_hash_tree, law_opening, law_opening_leads_to_root,
    law_tree_over, layer_valid, opening_of, padding_valid, random_padding, stands_above, tree_over,
    tree_root, tree_valid, HashSubTree,
    HashTreeOpening, LayerModel, TreeModel,
};
use crate::tweak_hash::{chain, chain_node, law_chain_composes, TweakableHash};
use std::marker::PhantomData;
use vstd::arithmetic::power2::{
    lemma2_to64, lemma_pow2_strictly_increases, lemma_pow2_unfold, pow2,
};
use vstd::prelude::*;

verus! {

/// The generalized XMSS signature scheme, from any incomparable encoding, any
/// tweakable hash function and any pseudorandom function, with keys that live for
/// `2^LOG_LIFETIME` epochs.
///
/// Lifetimes beyond `2^32` are not supported.
pub struct GeneralizedXMSSSignatureScheme<
    PRF: Pseudorandom,
    IE: IncomparableEncoding,
    TH: TweakableHash,
    const LOG_LIFETIME: usize,
> {
    _prf: PhantomData<PRF>,
    _ie: PhantomData<IE>,
    _th: PhantomData<TH>,
}

/// A signature: the opening of the leaf of an epoch, the randomness of the
/// encoding, and a node of each chain.
#[derive(Clone)]
pub struct GeneralizedXMSSSignature<IE: IncomparableEncoding, TH: TweakableHash> {
    pub path: HashTreeOpening<TH>,
    pub rho: IE::Randomness,
    pub hashes: Vec<TH::Domain>,
}

/// What a contract says of a [`GeneralizedXMSSSignature`].
#[verifier::ext_equal]
pub struct SignatureModel<R, D> {
    pub path: Seq<D>,
    pub rho: R,
    pub hashes: Seq<D>,
}

impl<IE: IncomparableEncoding, TH: TweakableHash> View for GeneralizedXMSSSignature<IE, TH> {
    type V = SignatureModel<IE::Randomness, TH::Domain>;

    open spec fn view(&self) -> SignatureModel<IE::Randomness, TH::Domain> {
        SignatureModel { path: self.path@, rho: self.rho, hashes: self.hashes@ }
    }
}

impl<IE: IncomparableEncoding, TH: TweakableHash> GeneralizedXMSSSignature<IE, TH> {
    /// What contracts say of a signature are its own path, randomness and hashes.
    pub proof fn law_view(&self)
        ensures
            self@.path == self.path.co_path@,
            self@.rho == self.rho,
            self@.hashes == self.hashes@,
    {
    }
}

/// Every part of the signature is valid.
pub open spec fn signature_valid<R: Serializable, D: Serializable>(
    signature: SignatureModel<R, D>,
) -> bool {
    &&& all_valid(signature.path)
    &&& signature.rho.valid()
    &&& all_valid(signature.hashes)
}

impl<IE: IncomparableEncoding, TH: TweakableHash> GeneralizedXMSSSignature<IE, TH> {
    pub fn path(&self) -> (path: &HashTreeOpening<TH>)
        ensures
            *path == self.path,
    {
        &self.path
    }

    pub fn rho(&self) -> (rho: &IE::Randomness)
        ensures
            *rho == self.rho,
    {
        &self.rho
    }

    pub fn hashes(&self) -> (hashes: &Vec<TH::Domain>)
        ensures
            *hashes == self.hashes,
    {
        &self.hashes
    }
}

/// A public key: the root of a tree and a parameter of the tweakable hash
/// function.
#[derive(Clone, Debug, PartialEq, PartialOrd, Eq, Ord, Hash)]
pub struct GeneralizedXMSSPublicKey<TH: TweakableHash> {
    pub root: TH::Domain,
    pub parameter: TH::Parameter,
}

impl<TH: TweakableHash> GeneralizedXMSSPublicKey<TH> {
    pub fn root(&self) -> (root: &TH::Domain)
        ensures
            *root == self.root,
    {
        &self.root
    }

    pub fn parameter(&self) -> (parameter: &TH::Parameter)
        ensures
            *parameter == self.parameter,
    {
        &self.parameter
    }
}

/// A secret key: a key of the pseudorandom function and the tree over the epochs
/// in which the key is active.
pub struct GeneralizedXMSSSecretKey<
    PRF: Pseudorandom,
    IE: IncomparableEncoding,
    TH: TweakableHash,
    const LOG_LIFETIME: usize,
> {
    pub prf_key: PRF::Key,
    pub parameter: TH::Parameter,
    pub activation_epoch: u64,
    pub num_active_epochs: u64,
    pub tree: HashSubTree<TH>,
    pub _encoding_type: PhantomData<IE>,
}

/// What a contract says of a [`GeneralizedXMSSSecretKey`].
#[verifier::ext_equal]
pub struct SecretKeyModel<K, P, D> {
    pub prf_key: K,
    pub parameter: P,
    pub activation_epoch: nat,
    pub num_active_epochs: nat,
    pub tree: TreeModel<D>,
}

impl<K, P, D> SecretKeyModel<K, P, D> {
    /// The key is active in the epoch.
    pub open spec fn active_in(self, epoch: nat) -> bool {
        self.activation_epoch <= epoch < self.activation_epoch + self.num_active_epochs
    }
}

/// Every part of the secret key is valid.
pub open spec fn secret_key_valid<K: Serializable, P: Serializable, D: Serializable>(
    key: SecretKeyModel<K, P, D>,
) -> bool {
    &&& key.prf_key.valid()
    &&& key.parameter.valid()
    &&& tree_valid(key.tree)
}

impl<
    PRF: Pseudorandom,
    IE: IncomparableEncoding,
    TH: TweakableHash,
    const LOG_LIFETIME: usize,
> View for GeneralizedXMSSSecretKey<PRF, IE, TH, LOG_LIFETIME> {
    type V = SecretKeyModel<PRF::Key, TH::Parameter, TH::Domain>;

    open spec fn view(&self) -> SecretKeyModel<PRF::Key, TH::Parameter, TH::Domain> {
        SecretKeyModel {
            prf_key: self.prf_key,
            parameter: self.parameter,
            activation_epoch: self.activation_epoch as nat,
            num_active_epochs: self.num_active_epochs as nat,
            tree: self.tree@,
        }
    }
}

impl<
    PRF: Pseudorandom,
    IE: IncomparableEncoding,
    TH: TweakableHash,
    const LOG_LIFETIME: usize,
> GeneralizedXMSSSecretKey<PRF, IE, TH, LOG_LIFETIME> {
    /// The epochs in which the key is active.
    pub fn get_activation_interval(&self) -> (interval: std::ops::Range<u64>)
        requires
            self.activation_epoch + self.num_active_epochs <= u64::MAX,
        ensures
            interval.start == self.activation_epoch,
            interval.end == self.activation_epoch + self.num_active_epochs,
    {
        let start = self.activation_epoch;
        let end = start + self.num_active_epochs;
        start..end
    }

    /// Whether the key is active in the epoch and its tree has the opening of the leaf
    /// of the epoch, which is what signing takes.
    pub fn can_sign(&self, epoch: u32) -> (able: bool)
        ensures
            able == (self@.active_in(epoch as nat) && can_open(self@.tree, epoch as nat)),
    {
        self.activation_epoch <= epoch as u64 && epoch as u64 - self.activation_epoch
            < self.num_active_epochs && self.tree.has_path(epoch)
    }

    /// The epochs for which the key is ready to sign: all in which it is active.
    pub fn get_prepared_interval(&self) -> (interval: std::ops::Range<u64>)
        requires
            self.activation_epoch + self.num_active_epochs <= u64::MAX,
        ensures
            interval.start == self.activation_epoch,
            interval.end == self.activation_epoch + self.num_active_epochs,
    {
        self.get_activation_interval()
    }

    /// Changes nothing: the key holds the tree for all epochs in which it is active.
    pub fn advance_preparation(&mut self)
        ensures
            *final(self) == *old(self),
    {
    }
}

impl<
    PRF: Pseudorandom,
    IE: IncomparableEncoding,
    TH: TweakableHash,
    const LOG_LIFETIME: usize,
> GeneralizedXMSSSecretKey<PRF, IE, TH, LOG_LIFETIME> {
    /// What contracts say of a secret key are its own parts. It is active in the epochs
    /// from its activation epoch on, as many as it says.
    pub proof fn law_view(&self, epoch: nat)
        ensures
            self@.prf_key == self.prf_key,
            self@.parameter == self.parameter,
            self@.activation_epoch == self.activation_epoch,
            self@.num_active_epochs == self.num_active_epochs,
            self@.tree == self.tree@,
            self@.active_in(epoch) <==> self.activation_epoch <= epoch && epoch
                - self.activation_epoch < self.num_active_epochs,
    {
    }
}

/// Why a message was not signed.
#[derive(Debug, Clone, Copy, PartialEq, Eq)]
pub enum SigningError {
    /// None of the attempts to encode the message gave a codeword.
    EncodingAttemptsExceeded { attempts: usize },
}

/// The parts of the scheme go together: chain indices and positions in chains are
/// bytes, and epochs are 32-bit integers.
pub open spec fn scheme_supported<IE: IncomparableEncoding, TH: TweakableHash>(
    log_lifetime: nat,
) -> bool {
    &&& IE::supported()
    &&& TH::supported()
    &&& 0 < IE::BASE <= 256
    &&& IE::DIMENSION <= 256
    &&& log_lifetime <= 32
}

/// The first node of a chain.
pub open spec fn chain_start<PRF: Pseudorandom, TH: TweakableHash>(
    prf_key: PRF::Key,
    epoch: u32,
    chain_index: nat,
) -> TH::Domain where PRF::Domain: Embed<TH::Domain> {
    PRF::domain_element(prf_key, epoch, chain_index as u64).embedded()
}

/// The last nodes of the chains of an epoch.
pub open spec fn chain_ends<PRF: Pseudorandom, TH: TweakableHash>(
    prf_key: PRF::Key,
    parameter: TH::Parameter,
    epoch: u32,
    num_chains: nat,
    chain_length: nat,
) -> Seq<TH::Domain> where PRF::Domain: Embed<TH::Domain> {
    Seq::new(
        num_chains,
        |i: int|
            chain_node::<TH>(
                parameter,
                epoch,
                i as u8,
                0,
                (chain_length - 1) as nat,
                chain_start::<PRF, TH>(prf_key, epoch, i as nat),
            ),
    )
}

/// The leaf of an epoch: the hash of the last nodes of its chains.
pub open spec fn epoch_leaf<PRF: Pseudorandom, TH: TweakableHash>(
    prf_key: PRF::Key,
    parameter: TH::Parameter,
    epoch: u32,
    num_chains: nat,
    chain_length: nat,
) -> TH::Domain where PRF::Domain: Embed<TH::Domain> {
    TH::leaf(
        parameter,
        epoch,
        chain_ends::<PRF, TH>(prf_key, parameter, epoch, num_chains, chain_length),
    )
}

/// The leaves of `count` epochs from `start` on.
pub open spec fn epoch_leaves<PRF: Pseudorandom, TH: TweakableHash>(
    prf_key: PRF::Key,
    parameter: TH::Parameter,
    start: nat,
    count: nat,
    num_chains: nat,
    chain_length: nat,
) -> LayerModel<TH::Domain> where PRF::Domain: Embed<TH::Domain> {
    LayerModel {
        start,
        nodes: Seq::new(
            count,
            |i: int|
                epoch_leaf::<PRF, TH>(
                    prf_key,
                    parameter,
                    (start + i) as u32,
                    num_chains,
                    chain_length,
                ),
        ),
    }
}

/// The leaf of an epoch.
fn compute_tree_leaf<PRF: Pseudorandom, TH: TweakableHash>(
    engine: &TH::Engine,
    prf: &PRF::Engine,
    prf_key: &PRF::Key,
    parameter: &TH::Parameter,
    epoch: u32,
    num_chains: usize,
    chain_length: usize,
) -> (leaf: TH::Domain) where PRF::Domain: Embed<TH::Domain>
    requires
        PRF::supported(),
        PRF::ready(*prf),
        TH::supported(),
        TH::ready(*engine),
        num_chains <= 256,
        0 < chain_length <= 256,
    ensures
        leaf == epoch_leaf::<PRF, TH>(
            *prf_key,
            *parameter,
            epoch,
            num_chains as nat,
            chain_length as nat,
        ),
        leaf.valid(),
{
    let ghost expected = chain_ends::<PRF, TH>(
        *prf_key,
        *parameter,
        epoch,
        num_chains as nat,
        chain_length as nat,
    );
    let mut ends: Vec<TH::Domain> = Vec::new();
    while ends.len() < num_chains
        invariant
            ends.len() <= num_chains <= 256,
            0 < chain_length <= 256,
            PRF::supported(),
            PRF::ready(*prf),
            TH::supported(),
            TH::ready(*engine),
            expected == chain_ends::<PRF, TH>(
                *prf_key,
                *parameter,
                epoch,
                num_chains as nat,
                chain_length as nat,
            ),
            ends@ == expected.take(ends.len() as int),
        decreases num_chains - ends.len(),
    {
        let i = ends.len();
        let start = PRF::get_domain_element(prf, prf_key, epoch, i as u64).embed();
        let end = chain::<TH>(engine, parameter, epoch, i as u8, 0, chain_length - 1, &start);
        assert(end == expected[i as int]);
        ends.push(end);
        assert(ends@ =~= expected.take(ends.len() as int));
    }
    assert(expected.take(ends.len() as int) =~= expected);
    TH::apply_leaf(engine, parameter, epoch, &ends)
}

/// The leaves of the epochs from `start` on.
pub fn compute_tree_leaves<PRF: Pseudorandom, TH: TweakableHash>(
    engine: &TH::Engine,
    prf: &PRF::Engine,
    prf_key: &PRF::Key,
    parameter: &TH::Parameter,
    start: u64,
    count: usize,
    num_chains: usize,
    chain_length: usize,
) -> (leaves: Vec<TH::Domain>) where PRF::Domain: Embed<TH::Domain>
    requires
        PRF::supported(),
        PRF::ready(*prf),
        TH::supported(),
        TH::ready(*engine),
        num_chains <= 256,
        0 < chain_length <= 256,
        start + count <= 0x1_0000_0000,
    ensures
        leaves@ == epoch_leaves::<PRF, TH>(
            *prf_key,
            *parameter,
            start as nat,
            count as nat,
            num_chains as nat,
            chain_length as nat,
        ).nodes,
        all_valid(leaves@),
{
    let ghost expected = epoch_leaves::<PRF, TH>(
        *prf_key,
        *parameter,
        start as nat,
        count as nat,
        num_chains as nat,
        chain_length as nat,
    ).nodes;
    let mut leaves: Vec<TH::Domain> = Vec::new();
    while leaves.len() < count
        invariant
            leaves.len() <= count,
            num_chains <= 256,
            0 < chain_length <= 256,
            start + count <= 0x1_0000_0000,
            PRF::supported(),
            PRF::ready(*prf),
            TH::supported(),
            TH::ready(*engine),
            expected == epoch_leaves::<PRF, TH>(
                *prf_key,
                *parameter,
                start as nat,
                count as nat,
                num_chains as nat,
                chain_length as nat,
            ).nodes,
            leaves@ == expected.take(leaves.len() as int),
            all_valid(leaves@),
        decreases count - leaves.len(),
    {
        let i = leaves.len();
        let epoch = (start + i as u64) as u32;
        let leaf = compute_tree_leaf::<PRF, TH>(
            engine,
            prf,
            prf_key,
            parameter,
            epoch,
            num_chains,
            chain_length,
        );
        assert(leaf == expected[i as int]);
        leaves.push(leaf);
        assert(leaves@ =~= expected.take(leaves.len() as int));
    }
    assert(expected.take(leaves.len() as int) =~= expected);
    leaves
}

/// The keys belong together: the tree of the secret key is a hash tree under the
/// root of the public key, over the leaves of all epochs in which the key is
/// active.
pub open spec fn is_key_pair<PRF: Pseudorandom, IE: IncomparableEncoding, TH: TweakableHash>(
    log_lifetime: nat,
    public_key: GeneralizedXMSSPublicKey<TH>,
    secret_key: SecretKeyModel<PRF::Key, TH::Parameter, TH::Domain>,
) -> bool where PRF::Domain: Embed<TH::Domain> {
    &&& public_key.parameter == secret_key.parameter
    &&& public_key.root == tree_root(secret_key.tree)
    &&& is_hash_tree::<TH>(secret_key.parameter, secret_key.tree)
    &&& secret_key.tree.depth == log_lifetime
    &&& secret_key.activation_epoch + secret_key.num_active_epochs <= pow2(log_lifetime)
    &&& forall|epoch: nat| #[trigger]
        secret_key.active_in(epoch) ==> {
            &&& secret_key.tree.layers[0].has(epoch)
            &&& secret_key.tree.layers[0].node(epoch) == epoch_leaf::<PRF, TH>(
                secret_key.prf_key,
                secret_key.parameter,
                epoch as u32,
                IE::DIMENSION as nat,
                IE::BASE as nat,
            )
        }
}

/// The secret key that is made of a key of the pseudorandom function, a parameter
/// and the values that complete the layers of the tree.
pub open spec fn secret_key_of<PRF: Pseudorandom, IE: IncomparableEncoding, TH: TweakableHash>(
    prf_key: PRF::Key,
    parameter: TH::Parameter,
    padding: Seq<(TH::Domain, TH::Domain)>,
    activation_epoch: nat,
    num_active_epochs: nat,
) -> SecretKeyModel<PRF::Key, TH::Parameter, TH::Domain> where PRF::Domain: Embed<TH::Domain> {
    SecretKeyModel {
        prf_key,
        parameter,
        activation_epoch,
        num_active_epochs,
        tree: tree_over::<TH>(
            parameter,
            epoch_leaves::<PRF, TH>(
                prf_key,
                parameter,
                activation_epoch,
                num_active_epochs,
                IE::DIMENSION as nat,
                IE::BASE as nat,
            ),
            padding,
        ),
    }
}

/// Keys belong together if the secret key is made of its parts and the public key
/// has its parameter and the root of its tree.
pub proof fn law_key_pair<PRF: Pseudorandom, IE: IncomparableEncoding, TH: TweakableHash>(
    public_key: GeneralizedXMSSPublicKey<TH>,
    prf_key: PRF::Key,
    padding: Seq<(TH::Domain, TH::Domain)>,
    activation_epoch: nat,
    num_active_epochs: nat,
) where PRF::Domain: Embed<TH::Domain>
    requires
        num_active_epochs > 0,
        activation_epoch + num_active_epochs <= pow2(padding.len()),
        public_key.root == tree_root(
            secret_key_of::<PRF, IE, TH>(
                prf_key,
                public_key.parameter,
                padding,
                activation_epoch,
                num_active_epochs,
            ).tree,
        ),
    ensures
        is_key_pair::<PRF, IE, TH>(
            padding.len(),
            public_key,
            secret_key_of::<PRF, IE, TH>(
                prf_key,
                public_key.parameter,
                padding,
                activation_epoch,
                num_active_epochs,
            ),
        ),
{
    let parameter = public_key.parameter;
    let secret_key = secret_key_of::<PRF, IE, TH>(
        prf_key,
        parameter,
        padding,
        activation_epoch,
        num_active_epochs,
    );
    let leaves = epoch_leaves::<PRF, TH>(
        prf_key,
        parameter,
        activation_epoch,
        num_active_epochs,
        IE::DIMENSION as nat,
        IE::BASE as nat,
    );
    assert(is_hash_tree::<TH>(parameter, secret_key.tree)) by {
        law_tree_over::<TH>(parameter, leaves, padding);
    }
    assert forall|epoch: nat| #[trigger] secret_key.active_in(epoch) implies {
        &&& secret_key.tree.layers[0].has(epoch)
        &&& secret_key.tree.layers[0].node(epoch) == epoch_leaf::<PRF, TH>(
            prf_key,
            parameter,
            epoch as u32,
            IE::DIMENSION as nat,
            IE::BASE as nat,
        )
    } by {
        law_tree_over::<TH>(parameter, leaves, padding);
        assert(leaves.has(epoch));
        assert(leaves.node(epoch) == epoch_leaf::<PRF, TH>(
            prf_key,
            parameter,
            epoch as u32,
            IE::DIMENSION as nat,
            IE::BASE as nat,
        ));
    }
}

/// The randomness of an attempt to sign a message.
pub open spec fn attempt_randomness<PRF: Pseudorandom, IE: IncomparableEncoding>(
    prf_key: PRF::Key,
    epoch: u32,
    message: Seq<u8>,
    attempt: nat,
) -> IE::Randomness where PRF::Randomness: Embed<IE::Randomness> {
    PRF::randomness(prf_key, epoch, message, attempt as u64).embedded()
}

/// The codeword that an attempt to sign a message gives, if it gives one.
pub open spec fn attempt_codeword<
    PRF: Pseudorandom,
    IE: IncomparableEncoding,
    TH: TweakableHash,
>(
    prf_key: PRF::Key,
    parameter: TH::Parameter,
    epoch: u32,
    message: Seq<u8>,
    attempt: nat,
) -> Option<Seq<u8>> where
    PRF::Randomness: Embed<IE::Randomness>,
    TH::Parameter: Embed<IE::Parameter>,
 {
    IE::codeword(
        parameter.embedded(),
        message,
        attempt_randomness::<PRF, IE>(prf_key, epoch, message, attempt),
        epoch,
    )
}

/// The first attempt, from the given one on, that gives a codeword.
pub open spec fn first_attempt<PRF: Pseudorandom, IE: IncomparableEncoding, TH: TweakableHash>(
    prf_key: PRF::Key,
    parameter: TH::Parameter,
    epoch: u32,
    message: Seq<u8>,
    from: nat,
) -> Option<nat> where
    PRF::Randomness: Embed<IE::Randomness>,
    TH::Parameter: Embed<IE::Parameter>,

    decreases IE::MAX_TRIES - from,
{
    if from >= IE::MAX_TRIES {
        None
    } else if attempt_codeword::<PRF, IE, TH>(
        prf_key,
        parameter,
        epoch,
        message,
        from,
    ) is Some {
        Some(from)
    } else {
        first_attempt::<PRF, IE, TH>(prf_key, parameter, epoch, message, from + 1)
    }
}

/// The nodes of the chains of an epoch that a codeword points at.
pub open spec fn codeword_nodes<PRF: Pseudorandom, TH: TweakableHash>(
    prf_key: PRF::Key,
    parameter: TH::Parameter,
    epoch: u32,
    codeword: Seq<u8>,
) -> Seq<TH::Domain> where PRF::Domain: Embed<TH::Domain> {
    Seq::new(
        codeword.len(),
        |i: int|
            chain_node::<TH>(
                parameter,
                epoch,
                i as u8,
                0,
                codeword[i] as nat,
                chain_start::<PRF, TH>(prf_key, epoch, i as nat),
            ),
    )
}

/// What signing a message in an epoch gives.
pub open spec fn signing<PRF: Pseudorandom, IE: IncomparableEncoding, TH: TweakableHash>(
    key: SecretKeyModel<PRF::Key, TH::Parameter, TH::Domain>,
    epoch: u32,
    message: Seq<u8>,
) -> Result<SignatureModel<IE::Randomness, TH::Domain>, SigningError> where
    PRF::Domain: Embed<TH::Domain>,
    PRF::Randomness: Embed<IE::Randomness>,
    TH::Parameter: Embed<IE::Parameter>,
 {
    match first_attempt::<PRF, IE, TH>(key.prf_key, key.parameter, epoch, message, 0) {
        None => Err(SigningError::EncodingAttemptsExceeded { attempts: IE::MAX_TRIES }),
        Some(attempt) => Ok(
            SignatureModel {
                path: opening_of(key.tree, epoch as nat),
                rho: attempt_randomness::<PRF, IE>(key.prf_key, epoch, message, attempt),
                hashes: codeword_nodes::<PRF, TH>(
                    key.prf_key,
                    key.parameter,
                    epoch,
                    attempt_codeword::<PRF, IE, TH>(
                        key.prf_key,
                        key.parameter,
                        epoch,
                        message,
                        attempt,
                    )->Some_0,
                ),
            },
        ),
    }
}

/// The outcome of signing as contracts see it.
pub open spec fn signing_outcome<IE: IncomparableEncoding, TH: TweakableHash>(
    result: Result<GeneralizedXMSSSignature<IE, TH>, SigningError>,
) -> Result<SignatureModel<IE::Randomness, TH::Domain>, SigningError> {
    match result {
        Ok(signature) => Ok(signature@),
        Err(error) => Err(error),
    }
}

/// What contracts say of the outcome of signing is the signature or the error that it is.
pub proof fn law_signing_outcome<IE: IncomparableEncoding, TH: TweakableHash>(
    result: Result<GeneralizedXMSSSignature<IE, TH>, SigningError>,
)
    ensures
        result is Ok <==> signing_outcome(result) is Ok,
        result matches Ok(signature) ==> {
            &&& signing_outcome(result)->Ok_0.path == signature.path.co_path@
            &&& signing_outcome(result)->Ok_0.rho == signature.rho
            &&& signing_outcome(result)->Ok_0.hashes == signature.hashes@
        },
        result matches Err(error) ==> signing_outcome(result)->Err_0 == error,
{
}

/// The last nodes of the chains, from the nodes that a codeword points at.
pub open spec fn completed_chains<TH: TweakableHash>(
    parameter: TH::Parameter,
    epoch: u32,
    codeword: Seq<u8>,
    chain_length: nat,
    hashes: Seq<TH::Domain>,
) -> Seq<TH::Domain> {
    Seq::new(
        codeword.len(),
        |i: int|
            chain_node::<TH>(
                parameter,
                epoch,
                i as u8,
                codeword[i] as nat,
                (chain_length - 1 - codeword[i]) as nat,
                hashes[i],
            ),
    )
}

/// The signature of a message in an epoch is accepted under the public key.
pub open spec fn accepts<IE: IncomparableEncoding, TH: TweakableHash>(
    log_lifetime: nat,
    key: GeneralizedXMSSPublicKey<TH>,
    epoch: u32,
    message: Seq<u8>,
    signature: SignatureModel<IE::Randomness, TH::Domain>,
) -> bool where TH::Parameter: Embed<IE::Parameter> {
    &&& epoch < pow2(log_lifetime)
    &&& signature.hashes.len() == IE::DIMENSION
    &&& match IE::codeword(key.parameter.embedded(), message, signature.rho, epoch) {
        None => false,
        Some(codeword) => climbed::<TH>(
            key.parameter,
            0,
            epoch as nat,
            TH::leaf(
                key.parameter,
                epoch,
                completed_chains::<TH>(
                    key.parameter,
                    epoch,
                    codeword,
                    IE::BASE as nat,
                    signature.hashes,
                ),
            ),
            signature.path,
        ) == key.root,
    }
}

proof fn lemma_first_attempt<PRF: Pseudorandom, IE: IncomparableEncoding, TH: TweakableHash>(
    prf_key: PRF::Key,
    parameter: TH::Parameter,
    epoch: u32,
    message: Seq<u8>,
    from: nat,
) where PRF::Randomness: Embed<IE::Randomness>, TH::Parameter: Embed<IE::Parameter>
    ensures
        first_attempt::<PRF, IE, TH>(prf_key, parameter, epoch, message, from) matches Some(
            attempt,
        ) ==> attempt_codeword::<PRF, IE, TH>(
            prf_key,
            parameter,
            epoch,
            message,
            attempt,
        ) is Some,
    decreases IE::MAX_TRIES - from,
{
    if from < IE::MAX_TRIES && attempt_codeword::<PRF, IE, TH>(
        prf_key,
        parameter,
        epoch,
        message,
        from,
    ) is None {
        lemma_first_attempt::<PRF, IE, TH>(prf_key, parameter, epoch, message, from + 1);
    }
}

/// What a key signs, in an epoch in which it is active, is accepted under the
/// public key that belongs to it.
pub proof fn law_signatures_accepted<
    PRF: Pseudorandom,
    IE: IncomparableEncoding,
    TH: TweakableHash,
>(
    log_lifetime: nat,
    public_key: GeneralizedXMSSPublicKey<TH>,
    secret_key: SecretKeyModel<PRF::Key, TH::Parameter, TH::Domain>,
    epoch: u32,
    message: Seq<u8>,
) where
    PRF::Domain: Embed<TH::Domain>,
    PRF::Randomness: Embed<IE::Randomness>,
    TH::Parameter: Embed<IE::Parameter>,

    requires
        scheme_supported::<IE, TH>(log_lifetime),
        is_key_pair::<PRF, IE, TH>(log_lifetime, public_key, secret_key),
        secret_key.active_in(epoch as nat),
    ensures
        can_open(secret_key.tree, epoch as nat),
        signing::<PRF, IE, TH>(secret_key, epoch, message) matches Ok(signature) ==> accepts::<
            IE,
            TH,
        >(log_lifetime, public_key, epoch, message, signature),
{
    let prf_key = secret_key.prf_key;
    let parameter = secret_key.parameter;
    law_opening_leads_to_root::<TH>(parameter, secret_key.tree, epoch as nat);
    lemma_first_attempt::<PRF, IE, TH>(prf_key, parameter, epoch, message, 0);
    if signing::<PRF, IE, TH>(secret_key, epoch, message) is Ok {
        let signature = signing::<PRF, IE, TH>(secret_key, epoch, message)->Ok_0;
        IE::law_codeword(parameter.embedded(), message, signature.rho, epoch);
        let codeword = IE::codeword(
            parameter.embedded(),
            message,
            signature.rho,
            epoch,
        )->Some_0;
        let ends = completed_chains::<TH>(
            parameter,
            epoch,
            codeword,
            IE::BASE as nat,
            signature.hashes,
        );
        assert forall|i: int| 0 <= i < codeword.len() implies ends[i] == chain_node::<TH>(
            parameter,
            epoch,
            i as u8,
            0,
            (IE::BASE - 1) as nat,
            chain_start::<PRF, TH>(prf_key, epoch, i as nat),
        ) by {
            law_chain_composes::<TH>(
                parameter,
                epoch,
                i as u8,
                0,
                codeword[i] as nat,
                (IE::BASE - 1 - codeword[i]) as nat,
                chain_start::<PRF, TH>(prf_key, epoch, i as nat),
            );
        }
        assert(ends =~= chain_ends::<PRF, TH>(
            prf_key,
            parameter,
            epoch,
            IE::DIMENSION as nat,
            IE::BASE as nat,
        ));
    }
}

proof fn lemma_attempts<PRF: Pseudorandom, IE: IncomparableEncoding, TH: TweakableHash>(
    prf_key: PRF::Key,
    parameter: TH::Parameter,
    epoch: u32,
    message: Seq<u8>,
    from: nat,
) where PRF::Randomness: Embed<IE::Randomness>, TH::Parameter: Embed<IE::Parameter>
    ensures
        match first_attempt::<PRF, IE, TH>(prf_key, parameter, epoch, message, from) {
            Some(attempt) => {
                &&& from <= attempt < IE::MAX_TRIES
                &&& IE::codeword(
                    parameter.embedded(),
                    message,
                    PRF::randomness(prf_key, epoch, message, attempt as u64).embedded(),
                    epoch,
                ) is Some
                &&& forall|b: u64|
                    from <= b < attempt ==> IE::codeword(
                        parameter.embedded(),
                        message,
                        #[trigger] PRF::randomness(prf_key, epoch, message, b).embedded(),
                        epoch,
                    ) is None
            },
            None => forall|b: u64|
                from <= b < IE::MAX_TRIES ==> IE::codeword(
                    parameter.embedded(),
                    message,
                    #[trigger] PRF::randomness(prf_key, epoch, message, b).embedded(),
                    epoch,
                ) is None,
        },
    decreases IE::MAX_TRIES - from,
{
    if from < IE::MAX_TRIES && IE::codeword(
        parameter.embedded(),
        message,
        PRF::randomness(prf_key, epoch, message, from as u64).embedded(),
        epoch,
    ) is None {
        lemma_attempts::<PRF, IE, TH>(prf_key, parameter, epoch, message, from + 1);
    }
}

/// A signature of a message in an epoch comes from the first attempt whose randomness,
/// which the pseudorandom function draws for this epoch, this message and this attempt,
/// gives a codeword. It holds that randomness, and of each chain the node that is as
/// many steps as the codeword says behind the secret of this epoch and this chain: the
/// secret itself where the codeword says none. Its path are the nodes beside those
/// above the leaf of the epoch. Signing fails if and only if no attempt gives a
/// codeword.
pub proof fn law_signing<PRF: Pseudorandom, IE: IncomparableEncoding, TH: TweakableHash>(
    key: SecretKeyModel<PRF::Key, TH::Parameter, TH::Domain>,
    epoch: u32,
    message: Seq<u8>,
) -> (attempt: u64) where
    PRF::Domain: Embed<TH::Domain>,
    PRF::Randomness: Embed<IE::Randomness>,
    TH::Parameter: Embed<IE::Parameter>,

    ensures
        signing::<PRF, IE, TH>(key, epoch, message) matches Err(error) ==> {
            &&& error == (SigningError::EncodingAttemptsExceeded { attempts: IE::MAX_TRIES })
            &&& forall|b: u64|
                b < IE::MAX_TRIES ==> IE::codeword(
                    key.parameter.embedded(),
                    message,
                    #[trigger] PRF::randomness(key.prf_key, epoch, message, b).embedded(),
                    epoch,
                ) is None
        },
        signing::<PRF, IE, TH>(key, epoch, message) matches Ok(signature) ==> {
            &&& attempt < IE::MAX_TRIES
            &&& forall|b: u64|
                b < attempt ==> IE::codeword(
                    key.parameter.embedded(),
                    message,
                    #[trigger] PRF::randomness(key.prf_key, epoch, message, b).embedded(),
                    epoch,
                ) is None
            &&& signature.rho == PRF::randomness(key.prf_key, epoch, message, attempt).embedded()
            &&& IE::codeword(
                key.parameter.embedded(),
                message,
                signature.rho,
                epoch,
            ) matches Some(x) && {
                &&& signature.hashes.len() == x.len()
                &&& forall|i: int|
                    0 <= i < x.len() ==> #[trigger] signature.hashes[i] == chain_node::<TH>(
                        key.parameter,
                        epoch,
                        i as u8,
                        0,
                        x[i] as nat,
                        PRF::domain_element(key.prf_key, epoch, i as u64).embedded(),
                    )
                &&& forall|i: int|
                    0 <= i < x.len() && x[i] == 0 ==> #[trigger] signature.hashes[i]
                        == PRF::domain_element(key.prf_key, epoch, i as u64).embedded()
            }
            &&& signature.path.len() == key.tree.depth
            &&& forall|l: nat|
                l < key.tree.depth && (epoch as nat / pow2(l)) % 2 == 0
                    ==> #[trigger] signature.path[l as int] == key.tree.layers[l as int].nodes[
                epoch as nat / pow2(l) + 1 - key.tree.layers[l as int].start]
            &&& forall|l: nat|
                l < key.tree.depth && (epoch as nat / pow2(l)) % 2 == 1
                    ==> #[trigger] signature.path[l as int] == key.tree.layers[l as int].nodes[
                epoch as nat / pow2(l) - 1 - key.tree.layers[l as int].start]
        },
{
    lemma_attempts::<PRF, IE, TH>(key.prf_key, key.parameter, epoch, message, 0);
    let path = opening_of(key.tree, epoch as nat);
    assert forall|l: nat|
        l < key.tree.depth && (epoch as nat / pow2(l)) % 2 == 0 implies #[trigger] path[l as int]
        == key.tree.layers[l as int].nodes[epoch as nat / pow2(l) + 1
        - key.tree.layers[l as int].start] by {
        law_opening(key.tree, epoch as nat, l);
    }
    assert forall|l: nat|
        l < key.tree.depth && (epoch as nat / pow2(l)) % 2 == 1 implies #[trigger] path[l as int]
        == key.tree.layers[l as int].nodes[epoch as nat / pow2(l) - 1
        - key.tree.layers[l as int].start] by {
        law_opening(key.tree, epoch as nat, l);
    }
    match first_attempt::<PRF, IE, TH>(key.prf_key, key.parameter, epoch, message, 0) {
        Some(attempt) => attempt as u64,
        None => 0,
    }
}

/// The leaf of an epoch is the hash of the ends of its chains, of which each starts at
/// the secret that the pseudorandom function gives for this epoch and this chain.
pub proof fn law_epoch_leaf<PRF: Pseudorandom, TH: TweakableHash>(
    prf_key: PRF::Key,
    parameter: TH::Parameter,
    epoch: u32,
    chain_length: nat,
    ends: Seq<TH::Domain>,
) where PRF::Domain: Embed<TH::Domain>
    requires
        forall|i: int|
            0 <= i < ends.len() ==> #[trigger] ends[i] == chain_node::<TH>(
                parameter,
                epoch,
                i as u8,
                0,
                (chain_length - 1) as nat,
                PRF::domain_element(prf_key, epoch, i as u64).embedded(),
            ),
    ensures
        epoch_leaf::<PRF, TH>(prf_key, parameter, epoch, ends.len(), chain_length) == TH::leaf(
            parameter,
            epoch,
            ends,
        ),
{
    assert(chain_ends::<PRF, TH>(prf_key, parameter, epoch, ends.len(), chain_length) =~= ends);
}

/// In a key pair, the tree holds at the position of each active epoch the hash of the
/// ends of the chains of that epoch, each `BASE - 1` steps behind the secret of that
/// epoch and that chain. Above it, each pair of siblings has its merged node, up to a
/// single node, which is the root of the public key.
pub proof fn law_key_pair_leaf<PRF: Pseudorandom, IE: IncomparableEncoding, TH: TweakableHash>(
    log_lifetime: nat,
    public_key: GeneralizedXMSSPublicKey<TH>,
    secret_key: SecretKeyModel<PRF::Key, TH::Parameter, TH::Domain>,
    epoch: u32,
    ends: Seq<TH::Domain>,
) where PRF::Domain: Embed<TH::Domain>
    requires
        is_key_pair::<PRF, IE, TH>(log_lifetime, public_key, secret_key),
        secret_key.activation_epoch <= epoch < secret_key.activation_epoch
            + secret_key.num_active_epochs,
        ends.len() == IE::DIMENSION,
        forall|i: int|
            0 <= i < ends.len() ==> #[trigger] ends[i] == chain_node::<TH>(
                secret_key.parameter,
                epoch,
                i as u8,
                0,
                (IE::BASE - 1) as nat,
                PRF::domain_element(secret_key.prf_key, epoch, i as u64).embedded(),
            ),
    ensures
        public_key.parameter == secret_key.parameter,
        secret_key.tree.depth == log_lifetime,
        secret_key.tree.layers.len() == log_lifetime + 1,
        secret_key.tree.layers[log_lifetime as int].nodes == seq![public_key.root],
        0 <= epoch - secret_key.tree.layers[0].start < secret_key.tree.layers[0].nodes.len(),
        secret_key.tree.layers[0].nodes[epoch - secret_key.tree.layers[0].start] == TH::leaf(
            secret_key.parameter,
            epoch,
            ends,
        ),
        forall|l: int, p: nat|
            0 <= l < log_lifetime && secret_key.tree.layers[l].start <= 2 * p && 2 * p + 1
                < secret_key.tree.layers[l].start + secret_key.tree.layers[l].nodes.len() ==> (
            #[trigger] secret_key.tree.layers[l + 1].nodes[p - secret_key.tree.layers[l + 1].start])
                == TH::merged(
                secret_key.parameter,
                (l + 1) as u8,
                p as u32,
                secret_key.tree.layers[l].nodes[2 * p - secret_key.tree.layers[l].start],
                secret_key.tree.layers[l].nodes[2 * p + 1 - secret_key.tree.layers[l].start],
            ),
{
    let tree = secret_key.tree;
    assert(secret_key.active_in(epoch as nat));
    law_epoch_leaf::<PRF, TH>(
        secret_key.prf_key,
        secret_key.parameter,
        epoch,
        IE::BASE as nat,
        ends,
    );
    assert(tree.layers[log_lifetime as int].nodes =~= seq![public_key.root]);
    assert forall|l: int, p: nat|
        0 <= l < log_lifetime && tree.layers[l].start <= 2 * p && 2 * p + 1 < tree.layers[l].start
            + tree.layers[l].nodes.len() implies (#[trigger] tree.layers[l + 1].nodes[p
        - tree.layers[l + 1].start]) == TH::merged(
        secret_key.parameter,
        (l + 1) as u8,
        p as u32,
        tree.layers[l].nodes[2 * p - tree.layers[l].start],
        tree.layers[l].nodes[2 * p + 1 - tree.layers[l].start],
    ) by {
        let lower = tree.layers[l];
        assert(stands_above::<TH>(secret_key.parameter, l as nat, lower, tree.layers[l + 1]));
        assert(lower.has(2 * p) && lower.has(2 * p + 1));
        assert(tree.layers[l + 1].has(p));
    }
}

/// The secret key that is made of its parts holds them, and its tree is the one over
/// the leaves of the active epochs: the leaf of each is the hash of the ends of its
/// chains, each `BASE - 1` steps behind the secret of that epoch and that chain.
pub proof fn law_secret_key_of<PRF: Pseudorandom, IE: IncomparableEncoding, TH: TweakableHash>(
    prf_key: PRF::Key,
    parameter: TH::Parameter,
    padding: Seq<(TH::Domain, TH::Domain)>,
    activation_epoch: nat,
    leaves: Seq<TH::Domain>,
    ends: Seq<Seq<TH::Domain>>,
) where PRF::Domain: Embed<TH::Domain>
    requires
        ends.len() == leaves.len(),
        activation_epoch + leaves.len() <= 0x1_0000_0000,
        forall|k: int|
            0 <= k < leaves.len() ==> (#[trigger] ends[k]).len() == IE::DIMENSION && leaves[k]
                == TH::leaf(parameter, (activation_epoch + k) as u32, ends[k]),
        forall|k: int, i: int|
            0 <= k < leaves.len() && 0 <= i < IE::DIMENSION ==> #[trigger] ends[k][i]
                == chain_node::<TH>(
                parameter,
                (activation_epoch + k) as u32,
                i as u8,
                0,
                (IE::BASE - 1) as nat,
                PRF::domain_element(prf_key, (activation_epoch + k) as u32, i as u64).embedded(),
            ),
    ensures
        secret_key_of::<PRF, IE, TH>(
            prf_key,
            parameter,
            padding,
            activation_epoch,
            leaves.len(),
        ) == (SecretKeyModel {
            prf_key,
            parameter,
            activation_epoch,
            num_active_epochs: leaves.len(),
            tree: tree_over::<TH>(
                parameter,
                LayerModel { start: activation_epoch, nodes: leaves },
                padding,
            ),
        }),
{
    let layer = epoch_leaves::<PRF, TH>(
        prf_key,
        parameter,
        activation_epoch,
        leaves.len(),
        IE::DIMENSION as nat,
        IE::BASE as nat,
    );
    assert forall|k: int| 0 <= k < leaves.len() implies layer.nodes[k] == leaves[k] by {
        law_epoch_leaf::<PRF, TH>(
            prf_key,
            parameter,
            (activation_epoch + k) as u32,
            IE::BASE as nat,
            ends[k],
        );
    }
    assert(layer.nodes =~= leaves);
}

/// A signature is accepted in an epoch of the lifetime, with a node for each chunk, if
/// its randomness gives a codeword and the path leads to the root from the hash of the
/// ends of the chains, which are as many steps behind the nodes of the signature as the
/// codeword leaves. Otherwise it is rejected.
pub proof fn law_accepting<IE: IncomparableEncoding, TH: TweakableHash>(
    log_lifetime: nat,
    key: GeneralizedXMSSPublicKey<TH>,
    epoch: u32,
    message: Seq<u8>,
    signature: SignatureModel<IE::Randomness, TH::Domain>,
    ends: Seq<TH::Domain>,
) where TH::Parameter: Embed<IE::Parameter>
    requires
        IE::codeword(key.parameter.embedded(), message, signature.rho, epoch) matches Some(x)
            ==> {
            &&& ends.len() == x.len()
            &&& forall|i: int|
                0 <= i < x.len() ==> #[trigger] ends[i] == chain_node::<TH>(
                    key.parameter,
                    epoch,
                    i as u8,
                    x[i] as nat,
                    (IE::BASE - 1 - x[i]) as nat,
                    signature.hashes[i],
                )
        },
    ensures
        accepts::<IE, TH>(log_lifetime, key, epoch, message, signature) <==> {
            &&& epoch < pow2(log_lifetime)
            &&& signature.hashes.len() == IE::DIMENSION
            &&& IE::codeword(key.parameter.embedded(), message, signature.rho, epoch) is Some
            &&& climbed::<TH>(
                key.parameter,
                0,
                epoch as nat,
                TH::leaf(key.parameter, epoch, ends),
                signature.path,
            ) == key.root
        },
{
    if IE::codeword(key.parameter.embedded(), message, signature.rho, epoch) is Some {
        let x = IE::codeword(key.parameter.embedded(), message, signature.rho, epoch)->Some_0;
        assert(completed_chains::<TH>(
            key.parameter,
            epoch,
            x,
            IE::BASE as nat,
            signature.hashes,
        ) =~= ends);
    }
}

/// `2^log_lifetime`.
pub(crate) fn lifetime_of(log_lifetime: usize) -> (lifetime: u64)
    requires
        log_lifetime <= 32,
    ensures
        lifetime == pow2(log_lifetime as nat),
{
    let mut lifetime: u64 = 1;
    let mut i: usize = 0;
    proof {
        lemma2_to64();
    }
    while i < log_lifetime
        invariant
            i <= log_lifetime <= 32,
            lifetime == pow2(i as nat),
            pow2(32) == 0x1_0000_0000,
        decreases log_lifetime - i,
    {
        proof {
            lemma_pow2_unfold((i + 1) as nat);
            lemma_pow2_strictly_increases(i as nat, 32);
        }
        lifetime = 2 * lifetime;
        i = i + 1;
    }
    lifetime
}

impl<
    PRF: Pseudorandom,
    IE: IncomparableEncoding,
    TH: TweakableHash,
    const LOG_LIFETIME: usize,
> GeneralizedXMSSSignatureScheme<PRF, IE, TH, LOG_LIFETIME> where
    PRF::Domain: Embed<TH::Domain>,
    PRF::Randomness: Embed<IE::Randomness>,
    TH::Parameter: Embed<IE::Parameter>,
 {
    /// The number of epochs of the lifetime of a key.
    pub fn lifetime() -> (lifetime: u64)
        requires
            LOG_LIFETIME <= 32,
        ensures
            lifetime == pow2(LOG_LIFETIME as nat),
    {
        lifetime_of(LOG_LIFETIME)
    }

    /// The key pair that is made of a key of the pseudorandom function, a parameter
    /// and the values that complete the layers of the tree.
    pub fn key_pair_of(
        prf_key: PRF::Key,
        parameter: TH::Parameter,
        padding: &Vec<(TH::Domain, TH::Domain)>,
        activation_epoch: usize,
        num_active_epochs: usize,
    ) -> (keys: (
        GeneralizedXMSSPublicKey<TH>,
        GeneralizedXMSSSecretKey<PRF, IE, TH, LOG_LIFETIME>,
    ))
        requires
            PRF::supported(),
            scheme_supported::<IE, TH>(LOG_LIFETIME as nat),
            padding.len() == LOG_LIFETIME,
            num_active_epochs >= 1,
            activation_epoch + num_active_epochs <= pow2(LOG_LIFETIME as nat),
        ensures
            keys.0.parameter == parameter,
            keys.0.root == tree_root(keys.1@.tree),
            keys.1@ == secret_key_of::<PRF, IE, TH>(
                prf_key,
                parameter,
                padding@,
                activation_epoch as nat,
                num_active_epochs as nat,
            ),
            prf_key.valid() && parameter.valid() && padding_valid(padding@) ==> keys.0.root.valid()
                && secret_key_valid(keys.1@),
    {
        let engine = TH::engine();
        proof {
            lemma2_to64();
            if LOG_LIFETIME < 32 {
                lemma_pow2_strictly_increases(LOG_LIFETIME as nat, 32);
            }
        }
        let leaf_hashes = compute_tree_leaves::<PRF, TH>(
            &engine,
            &PRF::engine(),
            &prf_key,
            &parameter,
            activation_epoch as u64,
            num_active_epochs,
            IE::DIMENSION,
            IE::BASE,
        );
        proof {
            law_tree_over::<TH>(
                parameter,
                LayerModel { start: activation_epoch as nat, nodes: leaf_hashes@ },
                padding@,
            );
        }
        let tree = HashSubTree::new_subtree(
            &engine,
            LOG_LIFETIME,
            activation_epoch as u64,
            &parameter,
            leaf_hashes,
            padding,
        );
        let root = tree.root();
        proof {
            if tree_valid(tree@) {
                assert(layer_valid(tree@.layers.last()));
            }
        }
        let public_key = GeneralizedXMSSPublicKey { root, parameter };
        let secret_key = GeneralizedXMSSSecretKey {
            prf_key,
            parameter,
            activation_epoch: activation_epoch as u64,
            num_active_epochs: num_active_epochs as u64,
            tree,
            _encoding_type: PhantomData,
        };
        (public_key, secret_key)
    }

    /// Some key pair that is active in the given epochs.
    pub fn key_gen(
        rng: &mut rand::rngs::ThreadRng,
        activation_epoch: usize,
        num_active_epochs: usize,
    ) -> (keys: (
        GeneralizedXMSSPublicKey<TH>,
        GeneralizedXMSSSecretKey<PRF, IE, TH, LOG_LIFETIME>,
    ))
        requires
            PRF::supported(),
            scheme_supported::<IE, TH>(LOG_LIFETIME as nat),
            num_active_epochs >= 1,
            activation_epoch + num_active_epochs <= pow2(LOG_LIFETIME as nat),
        ensures
            keys.1.activation_epoch == activation_epoch,
            keys.1.num_active_epochs == num_active_epochs,
            is_key_pair::<PRF, IE, TH>(LOG_LIFETIME as nat, keys.0, keys.1@),
            exists|padding: Seq<(TH::Domain, TH::Domain)>|
                padding.len() == LOG_LIFETIME && keys.1@ == #[trigger] secret_key_of::<PRF, IE, TH>(
                    keys.1.prf_key,
                    keys.0.parameter,
                    padding,
                    activation_epoch as nat,
                    num_active_epochs as nat,
                ),
            keys.0.root.valid(),
            keys.0.parameter.valid(),
            secret_key_valid(keys.1@),
    {
        let parameter = TH::rand_parameter(rng);
        let prf_key = PRF::key_gen(rng);
        let padding = random_padding::<TH>(rng, LOG_LIFETIME);
        let keys = Self::key_pair_of(
            prf_key,
            parameter,
            &padding,
            activation_epoch,
            num_active_epochs,
        );
        proof {
            law_key_pair::<PRF, IE, TH>(
                keys.0,
                prf_key,
                padding@,
                activation_epoch as nat,
                num_active_epochs as nat,
            );
        }
        keys
    }

    /// Signs a message in an epoch in which the key is active.
    pub fn sign(
        sk: &GeneralizedXMSSSecretKey<PRF, IE, TH, LOG_LIFETIME>,
        epoch: u32,
        message: &[u8; MESSAGE_LENGTH],
    ) -> (result: Result<GeneralizedXMSSSignature<IE, TH>, SigningError>)
        requires
            PRF::supported(),
            scheme_supported::<IE, TH>(LOG_LIFETIME as nat),
            sk@.active_in(epoch as nat),
            can_open(sk@.tree, epoch as nat),
        ensures
            signing_outcome(result) == signing::<PRF, IE, TH>(sk@, epoch, message@),
            result matches Ok(signature) ==> exists|attempt: u64|
                attempt < IE::MAX_TRIES && signature.rho == (#[trigger] PRF::randomness(
                    sk.prf_key,
                    epoch,
                    message@,
                    attempt,
                )).embedded() && (forall|earlier: u64|
                    earlier < attempt ==> IE::codeword(
                        sk.parameter.embedded(),
                        message@,
                        #[trigger] PRF::randomness(
                            sk.prf_key,
                            epoch,
                            message@,
                            earlier,
                        ).embedded(),
                        epoch,
                    ) is None),
            result is Ok ==> IE::codeword(
                sk.parameter.embedded(),
                message@,
                result->Ok_0.rho,
                epoch,
            ) is Some,
            result matches Ok(signature) ==> secret_key_valid(sk@) ==> signature_valid(signature@),
    {
        let path = sk.tree.path(epoch);
        let prf = PRF::engine();
        let encoder = IE::engine();
        let encoding_parameter: IE::Parameter = sk.parameter.embed();
        let mut attempts: usize = 0;
        while attempts < IE::MAX_TRIES
            invariant
                attempts <= IE::MAX_TRIES,
                PRF::supported(),
                scheme_supported::<IE, TH>(LOG_LIFETIME as nat),
                PRF::ready(prf),
                IE::ready(encoder),
                encoding_parameter == sk.parameter.embedded(),
                path@ == opening_of(sk@.tree, epoch as nat),
                secret_key_valid(sk@) ==> all_valid(path@),
                first_attempt::<PRF, IE, TH>(sk.prf_key, sk.parameter, epoch, message@, 0)
                    == first_attempt::<PRF, IE, TH>(
                    sk.prf_key,
                    sk.parameter,
                    epoch,
                    message@,
                    attempts as nat,
                ),
            decreases IE::MAX_TRIES - attempts,
        {
            let rho: IE::Randomness = PRF::get_randomness(
                &prf,
                &sk.prf_key,
                epoch,
                message,
                attempts as u64,
            ).embed();
            if let Ok(x) = IE::encode(&encoder, &encoding_parameter, message, &rho, epoch) {
                proof {
                    IE::law_codeword(encoding_parameter, message@, rho, epoch);
                }
                let hashes = walk_chains::<PRF, TH>(
                    &TH::engine(),
                    &prf,
                    &sk.prf_key,
                    &sk.parameter,
                    epoch,
                    &x,
                );
                let signature = GeneralizedXMSSSignature { path, rho, hashes };
                proof {
                    let _ = law_signing::<PRF, IE, TH>(sk@, epoch, message@);
                    assert(signature@ == signing::<PRF, IE, TH>(sk@, epoch, message@)->Ok_0);
                }
                return Ok(signature);
            }
            attempts = attempts + 1;
        }
        Err(SigningError::EncodingAttemptsExceeded { attempts: IE::MAX_TRIES })
    }

    /// Whether a signature of a message in an epoch is valid under the public key.
    pub fn verify(
        pk: &GeneralizedXMSSPublicKey<TH>,
        epoch: u32,
        message: &[u8; MESSAGE_LENGTH],
        sig: &GeneralizedXMSSSignature<IE, TH>,
    ) -> (accepted: bool)
        requires
            scheme_supported::<IE, TH>(LOG_LIFETIME as nat),
        ensures
            accepted == accepts::<IE, TH>(LOG_LIFETIME as nat, *pk, epoch, message@, sig@),
    {
        if epoch as u64 >= Self::lifetime() {
            return false;
        }
        if sig.hashes.len() != IE::DIMENSION {
            return false;
        }
        let encoding_parameter: IE::Parameter = pk.parameter.embed();
        match IE::encode(&IE::engine(), &encoding_parameter, message, &sig.rho, epoch) {
            Err(_) => false,
            Ok(x) => {
                proof {
                    IE::law_codeword(encoding_parameter, message@, sig.rho, epoch);
                }
                let engine = TH::engine();
                let chain_ends = complete_chains::<TH>(
                    &engine,
                    &pk.parameter,
                    epoch,
                    &x,
                    IE::BASE,
                    &sig.hashes,
                );
                hash_tree_verify(&engine, &pk.parameter, &pk.root, epoch, &chain_ends, &sig.path)
            },
        }
    }
}

/// The nodes of the chains of an epoch that a codeword points at.
fn walk_chains<PRF: Pseudorandom, TH: TweakableHash>(
    engine: &TH::Engine,
    prf: &PRF::Engine,
    prf_key: &PRF::Key,
    parameter: &TH::Parameter,
    epoch: u32,
    codeword: &Vec<u8>,
) -> (hashes: Vec<TH::Domain>) where PRF::Domain: Embed<TH::Domain>
    requires
        PRF::supported(),
        PRF::ready(*prf),
        TH::supported(),
        TH::ready(*engine),
        codeword.len() <= 256,
    ensures
        hashes@ == codeword_nodes::<PRF, TH>(*prf_key, *parameter, epoch, codeword@),
        all_valid(hashes@),
{
    let ghost expected = codeword_nodes::<PRF, TH>(*prf_key, *parameter, epoch, codeword@);
    let mut hashes: Vec<TH::Domain> = Vec::new();
    while hashes.len() < codeword.len()
        invariant
            hashes.len() <= codeword.len() <= 256,
            PRF::supported(),
            PRF::ready(*prf),
            TH::supported(),
            TH::ready(*engine),
            expected == codeword_nodes::<PRF, TH>(*prf_key, *parameter, epoch, codeword@),
            hashes@ == expected.take(hashes.len() as int),
            all_valid(hashes@),
        decreases codeword.len() - hashes.len(),
    {
        let i = hashes.len();
        let start = PRF::get_domain_element(prf, prf_key, epoch, i as u64).embed();
        let steps = codeword[i] as usize;
        let node = chain::<TH>(engine, parameter, epoch, i as u8, 0, steps, &start);
        assert(node == expected[i as int]);
        hashes.push(node);
        assert(hashes@ =~= expected.take(hashes.len() as int));
    }
    assert(expected.take(hashes.len() as int) =~= expected);
    hashes
}

/// The last nodes of the chains, from the nodes that a codeword points at.
pub fn complete_chains<TH: TweakableHash>(
    engine: &TH::Engine,
    parameter: &TH::Parameter,
    epoch: u32,
    codeword: &Vec<u8>,
    chain_length: usize,
    hashes: &Vec<TH::Domain>,
) -> (ends: Vec<TH::Domain>)
    requires
        TH::supported(),
        TH::ready(*engine),
        chain_length <= 256,
        codeword.len() <= 256,
        codeword.len() == hashes.len(),
        forall|i: int| 0 <= i < codeword@.len() ==> #[trigger] codeword@[i] < chain_length,
    ensures
        ends@ == completed_chains::<TH>(
            *parameter,
            epoch,
            codeword@,
            chain_length as nat,
            hashes@,
        ),
{
    let ghost expected = completed_chains::<TH>(
        *parameter,
        epoch,
        codeword@,
        chain_length as nat,
        hashes@,
    );
    let mut ends: Vec<TH::Domain> = Vec::new();
    while ends.len() < codeword.len()
        invariant
            ends.len() <= codeword.len() <= 256,
            codeword.len() == hashes.len(),
            chain_length <= 256,
            TH::supported(),
            TH::ready(*engine),
            forall|i: int| 0 <= i < codeword@.len() ==> #[trigger] codeword@[i] < chain_length,
            expected == completed_chains::<TH>(
                *parameter,
                epoch,
                codeword@,
                chain_length as nat,
                hashes@,
            ),
            ends@ == expected.take(ends.len() as int),
        decreases codeword.len() - ends.len(),
    {
        let i = ends.len();
        let start_pos_in_chain = codeword[i];
        let steps = chain_length - 1 - start_pos_in_chain as usize;
        let end = chain::<TH>(
            engine,
            parameter,
            epoch,
            i as u8,
            start_pos_in_chain,
            steps,
            &hashes[i],
        );
        assert(end == expected[i as int]);
        ends.push(end);
        assert(ends@ =~= expected.take(ends.len() as int));
    }
    assert(expected.take(ends.len() as int) =~= expected);
    ends
}

} // verus!
