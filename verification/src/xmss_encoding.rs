//! The byte format of keys and signatures.

use crate::bytes::{
    append_u32, append_u64, law_u32_read_back, law_u64_read_back, read_u32, read_u64, u32_at,
    u32_bytes, u64_at, u64_bytes,
};
use crate::generalized_xmss::{
    secret_key_valid, signature_valid, GeneralizedXMSSPublicKey, GeneralizedXMSSSecretKey,
    GeneralizedXMSSSignature, SecretKeyModel, SignatureModel,
};
use crate::inc_encoding::IncomparableEncoding;
use crate::prf::Pseudorandom;
use crate::serialization::{
    all_read_back, law_list_len, law_list_round_trip, law_short_list_fits, list_append,
    list_bytes_len, list_decoding, list_encoding, list_fits, list_from_bytes, viewed_outcome,
    DecodeError, ErrorModel, Serializable,
};
use crate::tree::{HashSubTree, HashTreeOpening, TreeModel};
use crate::tree_encoding::{
    law_tree_round_trip, opening_decoding, opening_encoding, tree_decoding, tree_encoding,
    tree_offsets_fit, tree_reads_back,
};
use crate::tweak_hash::{domain_supported, TweakableHash};
use std::marker::PhantomData;
use vstd::prelude::*;

verus! {

impl<TH: TweakableHash> Serializable for GeneralizedXMSSPublicKey<TH> {
    open spec fn valid(&self) -> bool {
        self.root.valid() && self.parameter.valid()
    }

    open spec fn is_fixed() -> bool {
        TH::Domain::is_fixed() && TH::Parameter::is_fixed()
    }

    open spec fn fixed_len() -> nat {
        TH::Domain::fixed_len() + TH::Parameter::fixed_len()
    }

    open spec fn encoding(&self) -> Seq<u8> {
        self.root.encoding() + self.parameter.encoding()
    }

    open spec fn decoding(bytes: Seq<u8>) -> Result<Self, ErrorModel> {
        let root_len = TH::Domain::fixed_len() as int;
        if bytes.len() != Self::fixed_len() {
            Err(
                ErrorModel::InvalidByteLength {
                    len: bytes.len() as int,
                    expected: Self::fixed_len() as int,
                },
            )
        } else {
            match TH::Domain::decoding(bytes.take(root_len)) {
                Err(error) => Err(error),
                Ok(root) => match TH::Parameter::decoding(bytes.skip(root_len)) {
                    Err(error) => Err(error),
                    Ok(parameter) => Ok(GeneralizedXMSSPublicKey { root, parameter }),
                },
            }
        }
    }

    proof fn law_fixed_len(&self) {
        self.root.law_fixed_len();
        self.parameter.law_fixed_len();
    }

    proof fn law_round_trip(&self) {
        self.law_fixed_len();
        self.root.law_fixed_len();
        self.root.law_round_trip();
        self.parameter.law_round_trip();
        let root_len = TH::Domain::fixed_len() as int;
        assert(self.encoding().take(root_len) =~= self.root.encoding());
        assert(self.encoding().skip(root_len) =~= self.parameter.encoding());
    }

    fn is_ssz_fixed_len() -> (fixed: bool) {
        TH::Domain::is_ssz_fixed_len() && TH::Parameter::is_ssz_fixed_len()
    }

    fn ssz_fixed_len() -> (len: usize) {
        TH::Domain::ssz_fixed_len() + TH::Parameter::ssz_fixed_len()
    }

    fn ssz_bytes_len(&self) -> (len: usize) {
        self.root.ssz_bytes_len() + self.parameter.ssz_bytes_len()
    }

    fn ssz_append(&self, buf: &mut Vec<u8>) {
        self.root.ssz_append(buf);
        self.parameter.ssz_append(buf);
        assert(buf@ =~= old(buf)@ + self.encoding());
    }

    fn from_ssz_bytes(bytes: &[u8]) -> (result: Result<Self, DecodeError>) {
        let expected_len = Self::ssz_fixed_len();
        if bytes.len() != expected_len {
            return Err(
                DecodeError::InvalidByteLength { len: bytes.len(), expected: expected_len },
            );
        }
        let root_len = TH::Domain::ssz_fixed_len();
        let root_bytes = vstd::slice::slice_subrange(bytes, 0, root_len);
        let param_bytes = vstd::slice::slice_subrange(bytes, root_len, bytes.len());
        assert(root_bytes@ =~= bytes@.take(root_len as int));
        assert(param_bytes@ =~= bytes@.skip(root_len as int));
        match TH::Domain::from_ssz_bytes(root_bytes) {
            Err(error) => Err(error),
            Ok(root) => match TH::Parameter::from_ssz_bytes(param_bytes) {
                Err(error) => Err(error),
                Ok(parameter) => Ok(GeneralizedXMSSPublicKey { root, parameter }),
            },
        }
    }
}

impl<TH: TweakableHash> GeneralizedXMSSPublicKey<TH> {
    /// A public key is encoded as its root and then its parameter.
    pub proof fn law_encoding(&self)
        ensures
            self.encoding().len() == self.root.encoding().len() + self.parameter.encoding().len(),
            self.encoding().take(self.root.encoding().len() as int) == self.root.encoding(),
            self.encoding().skip(self.root.encoding().len() as int) == self.parameter.encoding(),
    {
        let root_len = self.root.encoding().len() as int;
        assert(self.encoding().take(root_len) =~= self.root.encoding());
        assert(self.encoding().skip(root_len) =~= self.parameter.encoding());
    }

    /// Bytes decode to a public key if and only if they are as many as a root and a
    /// parameter take, the first of them decode to a root, and the rest to a parameter.
    pub proof fn law_decoding(bytes: Seq<u8>)
        ensures
            ({
                let len = TH::Domain::fixed_len() + TH::Parameter::fixed_len();
                let root = TH::Domain::decoding(bytes.take(TH::Domain::fixed_len() as int));
                let parameter = TH::Parameter::decoding(
                    bytes.skip(TH::Domain::fixed_len() as int),
                );
                let decoded = <Self as Serializable>::decoding(bytes);
                &&& bytes.len() != len ==> decoded == Err::<Self, ErrorModel>(
                    ErrorModel::InvalidByteLength {
                        len: bytes.len() as int,
                        expected: len as int,
                    },
                )
                &&& decoded matches Ok(key) ==> root == Ok::<TH::Domain, ErrorModel>(key.root)
                    && parameter == Ok::<TH::Parameter, ErrorModel>(key.parameter)
                &&& bytes.len() == len && root is Ok && parameter is Ok ==> decoded is Ok
                &&& bytes.len() == len && root is Err ==> decoded == Err::<Self, ErrorModel>(
                    root->Err_0,
                )
                &&& bytes.len() == len && root is Ok && parameter is Err ==> decoded == Err::<
                    Self,
                    ErrorModel,
                >(parameter->Err_0)
            }),
    {
    }
}

/// The decimal digits of a number, most significant first.
pub open spec fn decimal(n: nat) -> Seq<char>
    decreases n,
{
    if n < 10 {
        seq![(0x30 + n) as char]
    } else {
        decimal(n / 10).push((0x30 + n % 10) as char)
    }
}

/// The last digit of a number is the remainder of its division by ten, and the digits
/// before it are those of the quotient. The number zero has one digit.
pub proof fn law_decimal(n: nat, digit: nat)
    requires
        digit < 10,
    ensures
        decimal(digit).len() == 1,
        decimal(digit)[0] as int == '0' as int + digit,
        n > 0 ==> decimal(10 * n + digit).len() == decimal(n).len() + 1,
        n > 0 ==> decimal(10 * n + digit).drop_last() == decimal(n),
        n > 0 ==> decimal(10 * n + digit).last() == decimal(digit)[0],
{
    if n > 0 {
        assert((10 * n + digit) / 10 == n && (10 * n + digit) % 10 == digit);
        assert(decimal(10 * n + digit).drop_last() =~= decimal(n));
    }
}

/// The character of a digit.
fn digit_text(digit: usize) -> (text: &'static str)
    requires
        digit < 10,
    ensures
        text@ == seq![(0x30 + digit) as char],
{
    proof {
        reveal_strlit("0");
        reveal_strlit("1");
        reveal_strlit("2");
        reveal_strlit("3");
        reveal_strlit("4");
        reveal_strlit("5");
        reveal_strlit("6");
        reveal_strlit("7");
        reveal_strlit("8");
        reveal_strlit("9");
    }
    match digit {
        0 => "0",
        1 => "1",
        2 => "2",
        3 => "3",
        4 => "4",
        5 => "5",
        6 => "6",
        7 => "7",
        8 => "8",
        _ => "9",
    }
}

/// The decimal digits of a number, most significant first.
pub fn decimal_text(n: usize) -> (text: String)
    ensures
        text@ == decimal(n as nat),
    decreases n,
{
    if n < 10 {
        digit_text(n).to_owned()
    } else {
        let text = decimal_text(n / 10).concat(digit_text(n % 10));
        assert(text@ =~= decimal(n as nat));
        text
    }
}

/// What is said of offsets in a signature of `len` bytes that are not in order.
pub open spec fn offsets_message(path: nat, hashes: nat, len: nat) -> Seq<char> {
    "Invalid variable offsets: path="@ + decimal(path) + " hashes="@ + decimal(hashes) + " len="@
        + decimal(len)
}

/// What is said of offsets in a signature of `len` bytes that are not in order.
fn offsets_text(path: usize, hashes: usize, len: usize) -> (text: String)
    ensures
        text@ == offsets_message(path as nat, hashes as nat, len as nat),
{
    let path_text = decimal_text(path);
    let hashes_text = decimal_text(hashes);
    let len_text = decimal_text(len);
    "Invalid variable offsets: path=".to_owned().concat(path_text.as_str()).concat(
        " hashes=",
    ).concat(hashes_text.as_str()).concat(" len=").concat(len_text.as_str())
}

/// The number of bytes of a signature before its path.
pub open spec fn signature_fixed_size(rho_size: nat) -> nat {
    4 + rho_size + 4
}

/// Where the list of hashes starts in the encoding of a signature.
pub open spec fn hashes_offset<R: Serializable, D: Serializable>(
    signature: SignatureModel<R, D>,
) -> nat {
    signature_fixed_size(signature.rho.encoding().len()) + opening_encoding(signature.path).len()
}

/// The encoding of a signature: the offset of the path, the randomness, the offset
/// of the hashes, the path, and the hashes.
pub open spec fn signature_encoding<R: Serializable, D: Serializable>(
    signature: SignatureModel<R, D>,
) -> Seq<u8> {
    u32_bytes(signature_fixed_size(signature.rho.encoding().len()) as u32)
        + signature.rho.encoding() + u32_bytes(hashes_offset(signature) as u32)
        + opening_encoding(signature.path) + list_encoding(signature.hashes)
}

/// Every offset in the encoding of a signature is a 32-bit integer.
pub open spec fn signature_offsets_fit<R: Serializable, D: Serializable>(
    signature: SignatureModel<R, D>,
) -> bool {
    &&& hashes_offset(signature) <= u32::MAX
    &&& list_fits(signature.path)
    &&& list_fits(signature.hashes)
}

/// Where the encoding of a signature has a length that is a 32-bit integer, so are
/// the offsets in it.
pub proof fn law_short_signatures_fit<R: Serializable, D: Serializable>(
    signature: SignatureModel<R, D>,
)
    requires
        signature_encoding(signature).len() <= u32::MAX,
    ensures
        signature_offsets_fit(signature),
{
    law_short_list_fits(signature.path);
    law_short_list_fits(signature.hashes);
}

/// What decoding the path and the hashes of a signature gives, once their offsets
/// are in order.
pub open spec fn signature_parts_decoding<R: Serializable, D: Serializable>(
    bytes: Seq<u8>,
    rho: R,
    path_at: int,
    hashes_at: int,
) -> Result<SignatureModel<R, D>, ErrorModel> {
    match opening_decoding::<D>(bytes.subrange(path_at, hashes_at)) {
        Err(error) => Err(error),
        Ok(path) => match list_decoding::<D>(bytes.skip(hashes_at)) {
            Err(error) => Err(error),
            Ok(hashes) => Ok(SignatureModel { path, rho, hashes }),
        },
    }
}

/// What decoding a signature gives.
pub open spec fn signature_decoding<R: Serializable, D: Serializable>(bytes: Seq<u8>) -> Result<
    SignatureModel<R, D>,
    ErrorModel,
> {
    let rho_size = R::fixed_len() as int;
    let fixed_size = signature_fixed_size(R::fixed_len()) as int;
    if !R::is_fixed() {
        Err(ErrorModel::BytesInvalid("IE::Randomness must be fixed length"@))
    } else if bytes.len() < fixed_size {
        Err(ErrorModel::InvalidByteLength { len: bytes.len() as int, expected: fixed_size })
    } else {
        match R::decoding(bytes.subrange(4, 4 + rho_size)) {
            Err(error) => Err(error),
            Ok(rho) => {
                let path_at = u32_at(bytes, 0) as int;
                let hashes_at = u32_at(bytes, 4 + rho_size) as int;
                if path_at != fixed_size {
                    Err(ErrorModel::InvalidByteLength { len: path_at, expected: fixed_size })
                } else if path_at > hashes_at || hashes_at > bytes.len() {
                    Err(
                        ErrorModel::BytesInvalid(
                            offsets_message(path_at as nat, hashes_at as nat, bytes.len()),
                        ),
                    )
                } else {
                    signature_parts_decoding(bytes, rho, path_at, hashes_at)
                }
            },
        }
    }
}

/// The number of bytes of a signature.
pub proof fn law_signature_len<R: Serializable, D: Serializable>(signature: SignatureModel<R, D>)
    requires
        R::is_fixed(),
        D::is_fixed(),
    ensures
        signature_encoding(signature).len() == 12 + R::fixed_len() + (signature.path.len()
            + signature.hashes.len()) * D::fixed_len(),
{
    signature.rho.law_fixed_len();
    law_list_len(signature.path);
    law_list_len(signature.hashes);
    let (m, n, d) = (signature.path.len(), signature.hashes.len(), D::fixed_len());
    assert((m + n) * d == m * d + n * d) by (nonlinear_arith);
}

/// Decoding the encoding of a signature gives it back, as long as its offsets are
/// 32-bit integers and its values read back.
pub proof fn law_signature_round_trip<R: Serializable, D: Serializable>(
    signature: SignatureModel<R, D>,
)
    requires
        R::is_fixed(),
        D::is_fixed() ==> D::fixed_len() > 0,
        signature.rho.valid(),
        signature_offsets_fit(signature),
        all_read_back(signature.path),
        all_read_back(signature.hashes),
    ensures
        signature_decoding::<R, D>(signature_encoding(signature)) == Ok::<
            SignatureModel<R, D>,
            ErrorModel,
        >(signature),
{
    let bytes = signature_encoding(signature);
    signature.rho.law_fixed_len();
    signature.rho.law_round_trip();
    law_signature_layout(signature);
    law_list_round_trip(signature.path);
    law_list_round_trip(signature.hashes);
    law_signature_decoding::<R, D>(bytes);
}

/// A signature is encoded as the four bytes of the place of its path, its randomness, the
/// four bytes of the place of its hashes, its path, and its hashes. The path is the number
/// four and the list of its nodes.
pub proof fn law_signature_layout<R: Serializable, D: Serializable>(
    signature: SignatureModel<R, D>,
)
    requires
        12 + signature.rho.encoding().len() + list_encoding(signature.path).len() <= u32::MAX,
    ensures
        ({
            let bytes = signature_encoding(signature);
            let rho = signature.rho.encoding();
            let path = list_encoding(signature.path);
            let r = rho.len() as int;
            &&& u32_at(bytes, 0) == 8 + r
            &&& bytes.subrange(4, 4 + r) == rho
            &&& u32_at(bytes, 4 + r) == 12 + r + path.len()
            &&& u32_at(bytes, 8 + r) == 4
            &&& bytes.subrange(12 + r, 12 + r + path.len()) == path
            &&& bytes.skip(12 + r + path.len()) == list_encoding(signature.hashes)
            &&& bytes.len() == 12 + r + path.len() + list_encoding(signature.hashes).len()
        }),
{
    let bytes = signature_encoding(signature);
    let rho = signature.rho.encoding();
    let path = list_encoding(signature.path);
    let r = rho.len() as int;
    assert(bytes.subrange(0, 4) =~= u32_bytes((8 + r) as u32));
    law_u32_read_back(bytes, 0, (8 + r) as u32);
    assert(bytes.subrange(4, 4 + r) =~= rho);
    assert(bytes.subrange(4 + r, 4 + r + 4) =~= u32_bytes((12 + r + path.len()) as u32));
    law_u32_read_back(bytes, 4 + r, (12 + r + path.len()) as u32);
    assert(bytes.subrange(8 + r, 8 + r + 4) =~= u32_bytes(4));
    law_u32_read_back(bytes, 8 + r, 4);
    assert(bytes.subrange(12 + r, 12 + r + path.len()) =~= path);
    assert(bytes.skip(12 + r + path.len()) =~= list_encoding(signature.hashes));
}

/// Bytes decode to a signature if and only if they hold the places of a path and of
/// hashes that are in order, with a randomness between the two numbers, and its parts
/// decode. The first of these that fails gives the error.
pub proof fn law_signature_decoding<R: Serializable, D: Serializable>(bytes: Seq<u8>)
    ensures
        ({
            let decoded = signature_decoding::<R, D>(bytes);
            let r = R::fixed_len() as int;
            let len = bytes.len() as int;
            let rho = R::decoding(bytes.subrange(4, 4 + r));
            let path_at = u32_at(bytes, 0) as int;
            let hashes_at = u32_at(bytes, 4 + r) as int;
            let path = list_decoding::<D>(bytes.subrange(path_at + 4, hashes_at));
            let hashes = list_decoding::<D>(bytes.skip(hashes_at));
            let long = R::is_fixed() && len >= 8 + r;
            let placed = long && rho is Ok && path_at == 8 + r && path_at <= hashes_at <= len;
            let opened = placed && hashes_at >= path_at + 4 && u32_at(bytes, path_at) == 4;
            &&& !R::is_fixed() ==> decoded == Err::<SignatureModel<R, D>, ErrorModel>(
                ErrorModel::BytesInvalid("IE::Randomness must be fixed length"@),
            )
            &&& R::is_fixed() && len < 8 + r ==> decoded == Err::<
                SignatureModel<R, D>,
                ErrorModel,
            >(ErrorModel::InvalidByteLength { len, expected: 8 + r })
            &&& long && rho is Err ==> decoded == Err::<SignatureModel<R, D>, ErrorModel>(
                rho->Err_0,
            )
            &&& long && rho is Ok && path_at != 8 + r ==> decoded == Err::<
                SignatureModel<R, D>,
                ErrorModel,
            >(ErrorModel::InvalidByteLength { len: path_at, expected: 8 + r })
            &&& long && rho is Ok && path_at == 8 + r && (hashes_at < path_at || hashes_at > len)
                ==> decoded == Err::<SignatureModel<R, D>, ErrorModel>(
                ErrorModel::BytesInvalid(
                    "Invalid variable offsets: path="@ + decimal(path_at as nat) + " hashes="@
                        + decimal(hashes_at as nat) + " len="@ + decimal(len as nat),
                ),
            )
            &&& placed && hashes_at < path_at + 4 ==> decoded == Err::<
                SignatureModel<R, D>,
                ErrorModel,
            >(ErrorModel::InvalidByteLength { len: hashes_at - path_at, expected: 4 })
            &&& placed && hashes_at >= path_at + 4 && u32_at(bytes, path_at) != 4 ==> decoded
                == Err::<SignatureModel<R, D>, ErrorModel>(
                ErrorModel::InvalidByteLength { len: u32_at(bytes, path_at) as int, expected: 4 },
            )
            &&& opened && path is Err ==> decoded == Err::<SignatureModel<R, D>, ErrorModel>(
                path->Err_0,
            )
            &&& opened && path is Ok && hashes is Err ==> decoded == Err::<
                SignatureModel<R, D>,
                ErrorModel,
            >(hashes->Err_0)
            &&& opened && path is Ok && hashes is Ok ==> decoded == Ok::<
                SignatureModel<R, D>,
                ErrorModel,
            >(SignatureModel { path: path->Ok_0, rho: rho->Ok_0, hashes: hashes->Ok_0 })
        }),
{
    let r = R::fixed_len() as int;
    let path_at = u32_at(bytes, 0) as int;
    let hashes_at = u32_at(bytes, 4 + r) as int;
    if path_at == 8 + r && path_at + 4 <= hashes_at <= bytes.len() {
        let path_bytes = bytes.subrange(path_at, hashes_at);
        assert(path_bytes.skip(4) =~= bytes.subrange(path_at + 4, hashes_at));
        assert(u32_at(path_bytes, 0) == u32_at(bytes, path_at));
    }
}

impl<IE: IncomparableEncoding, TH: TweakableHash> GeneralizedXMSSSignature<IE, TH> {
    /// Signatures differ in length.
    pub fn is_ssz_fixed_len() -> (fixed: bool)
        ensures
            !fixed,
    {
        false
    }

    /// The number of bytes of the encoding.
    pub fn ssz_bytes_len(&self) -> (len: usize)
        requires
            domain_supported::<TH>(),
            signature_encoding(self@).len() <= usize::MAX,
        ensures
            len == signature_encoding(self@).len(),
    {
        let offset_size: usize = 4;
        let rho_size = self.rho.ssz_bytes_len();
        let path_size = self.path.ssz_bytes_len();
        let hashes_size = list_bytes_len(&self.hashes);
        offset_size + rho_size + offset_size + path_size + hashes_size
    }

    /// Appends the encoding to `buf`.
    pub fn ssz_append(&self, buf: &mut Vec<u8>)
        requires
            domain_supported::<TH>(),
            list_fits(self.path@),
            list_fits(self.hashes@),
            signature_encoding(self@).len() <= usize::MAX,
        ensures
            final(buf)@ == old(buf)@ + signature_encoding(self@),
    {
        let rho_size = self.rho.ssz_bytes_len();
        let fixed_size = 4 + rho_size + 4;
        let offset_path = fixed_size;
        let offset_hashes = offset_path + self.path.ssz_bytes_len();
        append_u32(buf, offset_path as u32);
        self.rho.ssz_append(buf);
        append_u32(buf, offset_hashes as u32);
        self.path.ssz_append(buf);
        list_append(&self.hashes, buf);
        assert(buf@ =~= old(buf)@ + signature_encoding(self@));
    }

    /// The encoding.
    pub fn as_ssz_bytes(&self) -> (bytes: Vec<u8>)
        requires
            domain_supported::<TH>(),
            list_fits(self.path@),
            list_fits(self.hashes@),
            signature_encoding(self@).len() <= usize::MAX,
        ensures
            bytes@ == signature_encoding(self@),
    {
        let mut bytes: Vec<u8> = Vec::new();
        self.ssz_append(&mut bytes);
        assert(bytes@ =~= signature_encoding(self@));
        bytes
    }

    /// Decodes a signature from exactly `bytes`.
    pub fn from_ssz_bytes(bytes: &[u8]) -> (result: Result<Self, DecodeError>)
        requires
            domain_supported::<TH>(),
            signature_fixed_size(IE::Randomness::fixed_len()) <= usize::MAX,
        ensures
            viewed_outcome(result) == signature_decoding::<IE::Randomness, TH::Domain>(bytes@),
            result matches Ok(signature) ==> signature_valid(signature@),
    {
        if !IE::Randomness::is_ssz_fixed_len() {
            return Err(
                DecodeError::BytesInvalid("IE::Randomness must be fixed length".to_owned()),
            );
        }
        let rho_size = IE::Randomness::ssz_fixed_len();
        let min_size = 4 + rho_size + 4;
        if bytes.len() < min_size {
            return Err(DecodeError::InvalidByteLength { len: bytes.len(), expected: min_size });
        }
        let offset_path = read_u32(bytes, 0) as usize;
        let rho_bytes = vstd::slice::slice_subrange(bytes, 4, 4 + rho_size);
        match IE::Randomness::from_ssz_bytes(rho_bytes) {
            Err(error) => Err(error),
            Ok(rho) => {
                let offset_hashes = read_u32(bytes, 4 + rho_size) as usize;
                if offset_path != min_size {
                    return Err(
                        DecodeError::InvalidByteLength { len: offset_path, expected: min_size },
                    );
                }
                if offset_path > offset_hashes || offset_hashes > bytes.len() {
                    return Err(
                        DecodeError::BytesInvalid(
                            offsets_text(offset_path, offset_hashes, bytes.len()),
                        ),
                    );
                }
                let path_bytes = vstd::slice::slice_subrange(bytes, offset_path, offset_hashes);
                let hashes_bytes = vstd::slice::slice_subrange(bytes, offset_hashes, bytes.len());
                assert(hashes_bytes@ =~= bytes@.skip(offset_hashes as int));
                match HashTreeOpening::<TH>::from_ssz_bytes(path_bytes) {
                    Err(error) => Err(error),
                    Ok(path) => match list_from_bytes::<TH::Domain>(hashes_bytes) {
                        Err(error) => Err(error),
                        Ok(hashes) => Ok(GeneralizedXMSSSignature { path, rho, hashes }),
                    },
                }
            },
        }
    }
}

/// The number of bytes of a secret key before its tree.
pub open spec fn secret_key_fixed_size(prf_key_size: nat, parameter_size: nat) -> nat {
    prf_key_size + parameter_size + 8 + 8 + 4
}

/// The encoding of a secret key: the key of the pseudorandom function, the
/// parameter, the activation epoch, the number of active epochs, the offset of the
/// tree, and the tree.
pub open spec fn secret_key_encoding<K: Serializable, P: Serializable, D: Serializable>(
    key: SecretKeyModel<K, P, D>,
) -> Seq<u8> {
    key.prf_key.encoding() + key.parameter.encoding() + u64_bytes(key.activation_epoch as u64)
        + u64_bytes(key.num_active_epochs as u64) + u32_bytes(
        secret_key_fixed_size(
            key.prf_key.encoding().len(),
            key.parameter.encoding().len(),
        ) as u32,
    ) + tree_encoding(key.tree)
}

/// What decoding the epochs and the tree of a secret key gives, where the epochs
/// start at `at`.
pub open spec fn secret_key_parts_decoding<K: Serializable, P: Serializable, D: Serializable>(
    bytes: Seq<u8>,
    prf_key: K,
    parameter: P,
    at: int,
) -> Result<SecretKeyModel<K, P, D>, ErrorModel> {
    let tree_at = u32_at(bytes, at + 16) as int;
    if at + 20 != tree_at {
        Err(ErrorModel::InvalidByteLength { len: at + 20, expected: tree_at })
    } else {
        match tree_decoding::<D>(bytes.skip(tree_at)) {
            Err(error) => Err(error),
            Ok(tree) => Ok(
                SecretKeyModel {
                    prf_key,
                    parameter,
                    activation_epoch: u64_at(bytes, at) as nat,
                    num_active_epochs: u64_at(bytes, at + 8) as nat,
                    tree,
                },
            ),
        }
    }
}

/// What decoding a secret key gives.
pub open spec fn secret_key_decoding<K: Serializable, P: Serializable, D: Serializable>(
    bytes: Seq<u8>,
) -> Result<SecretKeyModel<K, P, D>, ErrorModel> {
    let prf_key_size = K::fixed_len() as int;
    let epochs_at = prf_key_size + P::fixed_len();
    let fixed_size = secret_key_fixed_size(K::fixed_len(), P::fixed_len()) as int;
    if !K::is_fixed() {
        Err(ErrorModel::BytesInvalid("PRF::Key must be fixed length"@))
    } else if !P::is_fixed() {
        Err(ErrorModel::BytesInvalid("TH::Parameter must be fixed length"@))
    } else if bytes.len() < fixed_size {
        Err(ErrorModel::InvalidByteLength { len: bytes.len() as int, expected: fixed_size })
    } else {
        match K::decoding(bytes.take(prf_key_size)) {
            Err(error) => Err(error),
            Ok(prf_key) => match P::decoding(bytes.subrange(prf_key_size, epochs_at)) {
                Err(error) => Err(error),
                Ok(parameter) => secret_key_parts_decoding(bytes, prf_key, parameter, epochs_at),
            },
        }
    }
}

proof fn lemma_secret_key_pieces(
    prf_key: Seq<u8>,
    parameter: Seq<u8>,
    activation_epoch: Seq<u8>,
    num_active_epochs: Seq<u8>,
    offset: Seq<u8>,
    tree: Seq<u8>,
)
    requires
        activation_epoch.len() == 8,
        num_active_epochs.len() == 8,
        offset.len() == 4,
    ensures
        ({
            let bytes = prf_key + parameter + activation_epoch + num_active_epochs + offset + tree;
            let k = prf_key.len() as int;
            let at = k + parameter.len();
            &&& bytes.len() == at + 20 + tree.len()
            &&& bytes.take(k) == prf_key
            &&& bytes.subrange(k, at) == parameter
            &&& bytes.subrange(at, at + 8) == activation_epoch
            &&& bytes.subrange(at + 8, at + 8 + 8) == num_active_epochs
            &&& bytes.subrange(at + 16, at + 16 + 4) == offset
            &&& bytes.skip(at + 20) == tree
        }),
{
    let bytes = prf_key + parameter + activation_epoch + num_active_epochs + offset + tree;
    let k = prf_key.len() as int;
    let at = k + parameter.len();
    assert(bytes.take(k) =~= prf_key);
    assert(bytes.subrange(k, at) =~= parameter);
    assert(bytes.subrange(at, at + 8) =~= activation_epoch);
    assert(bytes.subrange(at + 8, at + 8 + 8) =~= num_active_epochs);
    assert(bytes.subrange(at + 16, at + 16 + 4) =~= offset);
    assert(bytes.skip(at + 20) =~= tree);
}

proof fn lemma_secret_key_parts<K: Serializable, P: Serializable, D: Serializable>(
    bytes: Seq<u8>,
    key: SecretKeyModel<K, P, D>,
    at: int,
)
    requires
        0 <= at,
        at + 20 <= u32::MAX,
        at + 20 <= bytes.len(),
        key.activation_epoch <= u64::MAX,
        key.num_active_epochs <= u64::MAX,
        bytes.subrange(at, at + 8) == u64_bytes(key.activation_epoch as u64),
        bytes.subrange(at + 8, at + 8 + 8) == u64_bytes(key.num_active_epochs as u64),
        bytes.subrange(at + 16, at + 16 + 4) == u32_bytes((at + 20) as u32),
        tree_decoding::<D>(bytes.skip(at + 20)) == Ok::<TreeModel<D>, ErrorModel>(key.tree),
    ensures
        secret_key_parts_decoding::<K, P, D>(bytes, key.prf_key, key.parameter, at) == Ok::<
            SecretKeyModel<K, P, D>,
            ErrorModel,
        >(key),
{
    law_u64_read_back(bytes, at, key.activation_epoch as u64);
    law_u64_read_back(bytes, at + 8, key.num_active_epochs as u64);
    law_u32_read_back(bytes, at + 16, (at + 20) as u32);
}

#[verifier::rlimit(40)]
proof fn lemma_secret_key_decodes<K: Serializable, P: Serializable, D: Serializable>(
    bytes: Seq<u8>,
    key: SecretKeyModel<K, P, D>,
    tree: Seq<u8>,
)
    requires
        K::is_fixed(),
        P::is_fixed(),
        key.prf_key.valid(),
        key.parameter.valid(),
        key.activation_epoch <= u64::MAX,
        key.num_active_epochs <= u64::MAX,
        secret_key_fixed_size(K::fixed_len(), P::fixed_len()) <= u32::MAX,
        tree_decoding::<D>(tree) == Ok::<TreeModel<D>, ErrorModel>(key.tree),
        bytes == key.prf_key.encoding() + key.parameter.encoding() + u64_bytes(
            key.activation_epoch as u64,
        ) + u64_bytes(key.num_active_epochs as u64) + u32_bytes(
            secret_key_fixed_size(K::fixed_len(), P::fixed_len()) as u32,
        ) + tree,
    ensures
        secret_key_decoding::<K, P, D>(bytes) == Ok::<SecretKeyModel<K, P, D>, ErrorModel>(key),
{
    key.prf_key.law_fixed_len();
    key.prf_key.law_round_trip();
    key.parameter.law_fixed_len();
    key.parameter.law_round_trip();
    lemma_secret_key_pieces(
        key.prf_key.encoding(),
        key.parameter.encoding(),
        u64_bytes(key.activation_epoch as u64),
        u64_bytes(key.num_active_epochs as u64),
        u32_bytes(secret_key_fixed_size(K::fixed_len(), P::fixed_len()) as u32),
        tree,
    );
    let at = K::fixed_len() as int + P::fixed_len();
    assert(K::decoding(bytes.take(K::fixed_len() as int)) == Ok::<K, ErrorModel>(key.prf_key));
    assert(P::decoding(bytes.subrange(K::fixed_len() as int, at)) == Ok::<P, ErrorModel>(
        key.parameter,
    ));
    lemma_secret_key_parts(bytes, key, at);
}

/// Decoding the encoding of a secret key gives it back, as long as its offsets are
/// 32-bit integers, its numbers 64-bit integers, and its values read back.
pub proof fn law_secret_key_round_trip<K: Serializable, P: Serializable, D: Serializable>(
    key: SecretKeyModel<K, P, D>,
)
    requires
        K::is_fixed(),
        P::is_fixed(),
        D::is_fixed() ==> D::fixed_len() > 0,
        key.prf_key.valid(),
        key.parameter.valid(),
        key.activation_epoch <= u64::MAX,
        key.num_active_epochs <= u64::MAX,
        tree_reads_back(key.tree),
        secret_key_fixed_size(K::fixed_len(), P::fixed_len()) <= u32::MAX,
    ensures
        secret_key_decoding::<K, P, D>(secret_key_encoding(key)) == Ok::<
            SecretKeyModel<K, P, D>,
            ErrorModel,
        >(key),
{
    key.prf_key.law_fixed_len();
    key.parameter.law_fixed_len();
    law_tree_round_trip(key.tree);
    lemma_secret_key_decodes(secret_key_encoding(key), key, tree_encoding(key.tree));
}

/// A secret key is encoded as its key of the pseudorandom function, its parameter, the
/// eight bytes of its activation epoch, the eight bytes of its number of active epochs, the
/// four bytes of the place of its tree, and the tree.
pub proof fn law_secret_key_layout<K: Serializable, P: Serializable, D: Serializable>(
    key: SecretKeyModel<K, P, D>,
)
    requires
        key.activation_epoch <= u64::MAX,
        key.num_active_epochs <= u64::MAX,
        key.prf_key.encoding().len() + key.parameter.encoding().len() + 20 <= u32::MAX,
    ensures
        ({
            let bytes = secret_key_encoding(key);
            let k = key.prf_key.encoding().len() as int;
            let at = k + key.parameter.encoding().len();
            &&& bytes.take(k) == key.prf_key.encoding()
            &&& bytes.subrange(k, at) == key.parameter.encoding()
            &&& u64_at(bytes, at) == key.activation_epoch
            &&& u64_at(bytes, at + 8) == key.num_active_epochs
            &&& u32_at(bytes, at + 16) == at + 20
            &&& bytes.skip(at + 20) == tree_encoding(key.tree)
            &&& bytes.len() == at + 20 + tree_encoding(key.tree).len()
        }),
{
    let bytes = secret_key_encoding(key);
    let at = key.prf_key.encoding().len() + key.parameter.encoding().len() as int;
    lemma_secret_key_pieces(
        key.prf_key.encoding(),
        key.parameter.encoding(),
        u64_bytes(key.activation_epoch as u64),
        u64_bytes(key.num_active_epochs as u64),
        u32_bytes((at + 20) as u32),
        tree_encoding(key.tree),
    );
    law_u64_read_back(bytes, at, key.activation_epoch as u64);
    law_u64_read_back(bytes, at + 8, key.num_active_epochs as u64);
    law_u32_read_back(bytes, at + 16, (at + 20) as u32);
}

/// Bytes decode to a secret key if and only if its parts decode and the place of its tree
/// is behind the number that says it. The first of these that fails gives the error.
pub proof fn law_secret_key_decoding<K: Serializable, P: Serializable, D: Serializable>(
    bytes: Seq<u8>,
)
    ensures
        ({
            let decoded = secret_key_decoding::<K, P, D>(bytes);
            let k = K::fixed_len() as int;
            let at = k + P::fixed_len();
            let len = bytes.len() as int;
            let prf_key = K::decoding(bytes.take(k));
            let parameter = P::decoding(bytes.subrange(k, at));
            let tree_at = u32_at(bytes, at + 16) as int;
            let tree = tree_decoding::<D>(bytes.skip(at + 20));
            let long = K::is_fixed() && P::is_fixed() && len >= at + 20;
            let headed = long && prf_key is Ok && parameter is Ok;
            &&& !K::is_fixed() ==> decoded == Err::<SecretKeyModel<K, P, D>, ErrorModel>(
                ErrorModel::BytesInvalid("PRF::Key must be fixed length"@),
            )
            &&& K::is_fixed() && !P::is_fixed() ==> decoded == Err::<
                SecretKeyModel<K, P, D>,
                ErrorModel,
            >(ErrorModel::BytesInvalid("TH::Parameter must be fixed length"@))
            &&& K::is_fixed() && P::is_fixed() && len < at + 20 ==> decoded == Err::<
                SecretKeyModel<K, P, D>,
                ErrorModel,
            >(ErrorModel::InvalidByteLength { len, expected: at + 20 })
            &&& long && prf_key is Err ==> decoded == Err::<SecretKeyModel<K, P, D>, ErrorModel>(
                prf_key->Err_0,
            )
            &&& long && prf_key is Ok && parameter is Err ==> decoded == Err::<
                SecretKeyModel<K, P, D>,
                ErrorModel,
            >(parameter->Err_0)
            &&& headed && tree_at != at + 20 ==> decoded == Err::<
                SecretKeyModel<K, P, D>,
                ErrorModel,
            >(ErrorModel::InvalidByteLength { len: at + 20, expected: tree_at })
            &&& headed && tree_at == at + 20 && tree is Err ==> decoded == Err::<
                SecretKeyModel<K, P, D>,
                ErrorModel,
            >(tree->Err_0)
            &&& headed && tree_at == at + 20 && tree is Ok ==> decoded == Ok::<
                SecretKeyModel<K, P, D>,
                ErrorModel,
            >(
                SecretKeyModel {
                    prf_key: prf_key->Ok_0,
                    parameter: parameter->Ok_0,
                    activation_epoch: u64_at(bytes, at) as nat,
                    num_active_epochs: u64_at(bytes, at + 8) as nat,
                    tree: tree->Ok_0,
                },
            )
        }),
{
}

impl<
    PRF: Pseudorandom,
    IE: IncomparableEncoding,
    TH: TweakableHash,
    const LOG_LIFETIME: usize,
> GeneralizedXMSSSecretKey<PRF, IE, TH, LOG_LIFETIME> {
    /// Secret keys differ in length, because of their trees.
    pub fn is_ssz_fixed_len() -> (fixed: bool)
        ensures
            !fixed,
    {
        false
    }

    /// The number of bytes of the encoding.
    pub fn ssz_bytes_len(&self) -> (len: usize)
        requires
            domain_supported::<TH>(),
            secret_key_encoding(self@).len() <= usize::MAX,
        ensures
            len == secret_key_encoding(self@).len(),
    {
        let prf_key_size = self.prf_key.ssz_bytes_len();
        let parameter_size = self.parameter.ssz_bytes_len();
        let tree_size = self.tree.ssz_bytes_len();
        prf_key_size + parameter_size + 8 + 8 + 4 + tree_size
    }

    /// Appends the encoding to `buf`.
    pub fn ssz_append(&self, buf: &mut Vec<u8>)
        requires
            domain_supported::<TH>(),
            tree_offsets_fit(self@.tree),
            secret_key_encoding(self@).len() <= usize::MAX,
        ensures
            final(buf)@ == old(buf)@ + secret_key_encoding(self@),
    {
        let prf_key_size = self.prf_key.ssz_bytes_len();
        let parameter_size = self.parameter.ssz_bytes_len();
        let fixed_size = prf_key_size + parameter_size + 8 + 8 + 4;
        self.prf_key.ssz_append(buf);
        self.parameter.ssz_append(buf);
        append_u64(buf, self.activation_epoch);
        append_u64(buf, self.num_active_epochs);
        append_u32(buf, fixed_size as u32);
        self.tree.ssz_append(buf);
        assert(buf@ =~= old(buf)@ + secret_key_encoding(self@));
    }

    /// The encoding.
    pub fn as_ssz_bytes(&self) -> (bytes: Vec<u8>)
        requires
            domain_supported::<TH>(),
            tree_offsets_fit(self@.tree),
            secret_key_encoding(self@).len() <= usize::MAX,
        ensures
            bytes@ == secret_key_encoding(self@),
    {
        let mut bytes: Vec<u8> = Vec::new();
        self.ssz_append(&mut bytes);
        assert(bytes@ =~= secret_key_encoding(self@));
        bytes
    }

    /// Decodes a secret key from exactly `bytes`.
    pub fn from_ssz_bytes(bytes: &[u8]) -> (result: Result<Self, DecodeError>)
        requires
            domain_supported::<TH>(),
            secret_key_fixed_size(PRF::Key::fixed_len(), TH::Parameter::fixed_len()) <= usize::MAX,
        ensures
            viewed_outcome(result) == secret_key_decoding::<PRF::Key, TH::Parameter, TH::Domain>(
                bytes@,
            ),
            result matches Ok(key) ==> secret_key_valid(key@),
    {
        if !PRF::Key::is_ssz_fixed_len() {
            return Err(DecodeError::BytesInvalid("PRF::Key must be fixed length".to_owned()));
        }
        let prf_key_size = PRF::Key::ssz_fixed_len();
        if !TH::Parameter::is_ssz_fixed_len() {
            return Err(DecodeError::BytesInvalid("TH::Parameter must be fixed length".to_owned()));
        }
        let parameter_size = TH::Parameter::ssz_fixed_len();
        let min_fixed_size = prf_key_size + parameter_size + 16 + 4;
        if bytes.len() < min_fixed_size {
            return Err(
                DecodeError::InvalidByteLength { len: bytes.len(), expected: min_fixed_size },
            );
        }
        let prf_key_bytes = vstd::slice::slice_subrange(bytes, 0, prf_key_size);
        assert(prf_key_bytes@ =~= bytes@.take(prf_key_size as int));
        let prf_key = match PRF::Key::from_ssz_bytes(prf_key_bytes) {
            Ok(prf_key) => prf_key,
            Err(error) => {
                return Err(error);
            },
        };
        let mut pos = prf_key_size + parameter_size;
        let parameter = match TH::Parameter::from_ssz_bytes(
            vstd::slice::slice_subrange(bytes, prf_key_size, pos),
        ) {
            Ok(parameter) => parameter,
            Err(error) => {
                return Err(error);
            },
        };
        let activation_epoch = read_u64(bytes, pos);
        pos = pos + 8;
        let num_active_epochs = read_u64(bytes, pos);
        pos = pos + 8;
        let offset_tree = read_u32(bytes, pos) as usize;
        pos = pos + 4;
        if pos != offset_tree {
            return Err(DecodeError::InvalidByteLength { len: pos, expected: offset_tree });
        }
        let tree_bytes = vstd::slice::slice_subrange(bytes, offset_tree, bytes.len());
        assert(tree_bytes@ =~= bytes@.skip(offset_tree as int));
        match HashSubTree::<TH>::from_ssz_bytes(tree_bytes) {
            Err(error) => Err(error),
            Ok(tree) => Ok(
                GeneralizedXMSSSecretKey {
                    prf_key,
                    parameter,
                    activation_epoch,
                    num_active_epochs,
                    tree,
                    _encoding_type: PhantomData,
                },
            ),
        }
    }
}

} // verus!
