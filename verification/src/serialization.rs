//! SSZ: the byte format of keys and signatures.

use crate::bytes::{
    append_bytes, law_read_little_endian, law_u32_read_back, read_u32, u32_at, u32_bytes,
};
use ssz::{Decode, DecodeError as Outside, Encode};
use vstd::prelude::*;

verus! {

/// What is wrong with bytes that do not decode.
#[derive(Debug, PartialEq)]
pub enum DecodeError {
    /// A length, or an offset that stands for one, is not the expected one.
    InvalidByteLength { len: usize, expected: usize },
    /// The bytes are too few to hold an offset.
    InvalidLengthPrefix { len: usize, expected: usize },
    /// A byte that an offset points at is not there.
    OutOfBoundsByte { i: usize },
    /// An offset points into the offsets.
    OffsetIntoFixedPortion(usize),
    /// The first offset skips bytes.
    OffsetSkipsVariableBytes(usize),
    /// An offset is before the one in front of it.
    OffsetsAreDecreasing(usize),
    /// An offset points behind the end.
    OffsetOutOfBounds(usize),
    /// The offsets of a list do not take a positive multiple of four bytes.
    InvalidListFixedBytesLen(usize),
    /// An item takes no bytes.
    ZeroLengthItem,
    /// The bytes were invalid for some other reason.
    BytesInvalid(String),
    /// The selector of a union is out of bounds.
    UnionSelectorInvalid(u8),
    /// No variant of an enum matches.
    NoMatchingVariant,
}

/// What a contract says of a [`DecodeError`].
pub enum ErrorModel {
    InvalidByteLength { len: int, expected: int },
    InvalidLengthPrefix { len: int, expected: int },
    OutOfBoundsByte { i: int },
    OffsetIntoFixedPortion(int),
    OffsetSkipsVariableBytes(int),
    OffsetsAreDecreasing(int),
    OffsetOutOfBounds(int),
    InvalidListFixedBytesLen(int),
    ZeroLengthItem,
    BytesInvalid(Seq<char>),
    UnionSelectorInvalid(u8),
    NoMatchingVariant,
}

impl View for DecodeError {
    type V = ErrorModel;

    open spec fn view(&self) -> ErrorModel {
        match *self {
            DecodeError::InvalidByteLength { len, expected } => ErrorModel::InvalidByteLength {
                len: len as int,
                expected: expected as int,
            },
            DecodeError::InvalidLengthPrefix { len, expected } => ErrorModel::InvalidLengthPrefix {
                len: len as int,
                expected: expected as int,
            },
            DecodeError::OutOfBoundsByte { i } => ErrorModel::OutOfBoundsByte { i: i as int },
            DecodeError::OffsetIntoFixedPortion(i) => ErrorModel::OffsetIntoFixedPortion(i as int),
            DecodeError::OffsetSkipsVariableBytes(i) => ErrorModel::OffsetSkipsVariableBytes(
                i as int,
            ),
            DecodeError::OffsetsAreDecreasing(i) => ErrorModel::OffsetsAreDecreasing(i as int),
            DecodeError::OffsetOutOfBounds(i) => ErrorModel::OffsetOutOfBounds(i as int),
            DecodeError::InvalidListFixedBytesLen(i) => ErrorModel::InvalidListFixedBytesLen(
                i as int,
            ),
            DecodeError::ZeroLengthItem => ErrorModel::ZeroLengthItem,
            DecodeError::BytesInvalid(message) => ErrorModel::BytesInvalid(message@),
            DecodeError::UnionSelectorInvalid(i) => ErrorModel::UnionSelectorInvalid(i),
            DecodeError::NoMatchingVariant => ErrorModel::NoMatchingVariant,
        }
    }
}

impl DecodeError {
    /// What contracts say of an error is its own kind and numbers.
    pub proof fn law_view(self)
        ensures
            self is InvalidByteLength <==> self@ is InvalidByteLength,
            self is InvalidLengthPrefix <==> self@ is InvalidLengthPrefix,
            self is OutOfBoundsByte <==> self@ is OutOfBoundsByte,
            self is OffsetIntoFixedPortion <==> self@ is OffsetIntoFixedPortion,
            self is OffsetSkipsVariableBytes <==> self@ is OffsetSkipsVariableBytes,
            self is OffsetsAreDecreasing <==> self@ is OffsetsAreDecreasing,
            self is OffsetOutOfBounds <==> self@ is OffsetOutOfBounds,
            self is InvalidListFixedBytesLen <==> self@ is InvalidListFixedBytesLen,
            self is ZeroLengthItem <==> self@ is ZeroLengthItem,
            self is BytesInvalid <==> self@ is BytesInvalid,
            self is UnionSelectorInvalid <==> self@ is UnionSelectorInvalid,
            self is NoMatchingVariant <==> self@ is NoMatchingVariant,
            self matches DecodeError::InvalidByteLength { len, expected } ==> self@ == (
            ErrorModel::InvalidByteLength { len: len as int, expected: expected as int }),
            self matches DecodeError::InvalidLengthPrefix { len, expected } ==> self@ == (
            ErrorModel::InvalidLengthPrefix { len: len as int, expected: expected as int }),
            self matches DecodeError::OutOfBoundsByte { i } ==> self@ == (
            ErrorModel::OutOfBoundsByte { i: i as int }),
            self matches DecodeError::OffsetIntoFixedPortion(i) ==> self@ == ErrorModel::OffsetIntoFixedPortion(
                i as int,
            ),
            self matches DecodeError::OffsetSkipsVariableBytes(i) ==> self@ == ErrorModel::OffsetSkipsVariableBytes(
                i as int,
            ),
            self matches DecodeError::OffsetsAreDecreasing(i) ==> self@ == ErrorModel::OffsetsAreDecreasing(
                i as int,
            ),
            self matches DecodeError::OffsetOutOfBounds(i) ==> self@ == ErrorModel::OffsetOutOfBounds(
                i as int,
            ),
            self matches DecodeError::InvalidListFixedBytesLen(i) ==> self@ == ErrorModel::InvalidListFixedBytesLen(
                i as int,
            ),
            self matches DecodeError::BytesInvalid(message) ==> self@ == ErrorModel::BytesInvalid(
                message@,
            ),
            self matches DecodeError::UnionSelectorInvalid(i)
                ==> self@ == ErrorModel::UnionSelectorInvalid(i),
    {
    }
}

/// The outcome of a decoder, with the error as contracts see it.
pub open spec fn outcome<T>(result: Result<T, DecodeError>) -> Result<T, ErrorModel> {
    match result {
        Ok(value) => Ok(value),
        Err(error) => Err(error@),
    }
}

/// The outcome of a decoder, with the value and the error as contracts see them.
pub open spec fn viewed_outcome<T: View>(result: Result<T, DecodeError>) -> Result<
    T::V,
    ErrorModel,
> {
    match result {
        Ok(value) => Ok(value@),
        Err(error) => Err(error@),
    }
}

/// An outcome that contracts see is a value where the decoder gave that value, and an
/// error with the same fields where it gave an error.
pub proof fn law_outcomes<T: View>(result: Result<T, DecodeError>)
    ensures
        result matches Ok(value) ==> outcome(result) == Ok::<T, ErrorModel>(value)
            && viewed_outcome(result) == Ok::<T::V, ErrorModel>(value@),
        result matches Err(DecodeError::InvalidByteLength { len, expected }) ==> outcome(result)
            == Err::<T, ErrorModel>(
            ErrorModel::InvalidByteLength { len: len as int, expected: expected as int },
        ),
        result matches Err(DecodeError::BytesInvalid(message)) ==> outcome(result) == Err::<
            T,
            ErrorModel,
        >(ErrorModel::BytesInvalid(message@)),
        result is Err <==> outcome(result) is Err,
        result is Err ==> outcome(result)->Err_0 == viewed_outcome(result)->Err_0,
        result is Err <==> viewed_outcome(result) is Err,
{
}

/// A value with an SSZ encoding.
pub trait Serializable: Sized {
    /// The value is one that its type's constructors can give.
    spec fn valid(&self) -> bool;

    /// Every value takes the same number of bytes.
    spec fn is_fixed() -> bool;

    /// The number of bytes that a value takes in the fixed part of a container.
    spec fn fixed_len() -> nat;

    /// The encoding of the value.
    spec fn encoding(&self) -> Seq<u8>;

    /// What decoding gives.
    spec fn decoding(bytes: Seq<u8>) -> Result<Self, ErrorModel>;

    /// The encoding of a fixed-length value has that length.
    proof fn law_fixed_len(&self)
        requires
            Self::is_fixed(),
        ensures
            self.encoding().len() == Self::fixed_len(),
    ;

    /// Decoding the encoding of a fixed-length value gives the value back.
    proof fn law_round_trip(&self)
        requires
            Self::is_fixed(),
            self.valid(),
        ensures
            Self::decoding(self.encoding()) == Ok::<Self, ErrorModel>(*self),
    ;

    /// Whether every value takes the same number of bytes.
    fn is_ssz_fixed_len() -> (fixed: bool)
        ensures
            fixed == Self::is_fixed(),
    ;

    /// The number of bytes that a value takes in the fixed part of a container.
    fn ssz_fixed_len() -> (len: usize)
        requires
            Self::fixed_len() <= usize::MAX,
        ensures
            len == Self::fixed_len(),
    ;

    /// The number of bytes of the encoding.
    fn ssz_bytes_len(&self) -> (len: usize)
        requires
            self.encoding().len() <= usize::MAX,
        ensures
            len == self.encoding().len(),
    ;

    /// Appends the encoding to `buf`.
    fn ssz_append(&self, buf: &mut Vec<u8>)
        ensures
            final(buf)@ == old(buf)@ + self.encoding(),
    ;

    /// The encoding.
    fn as_ssz_bytes(&self) -> (bytes: Vec<u8>)
        ensures
            bytes@ == self.encoding(),
    {
        let mut bytes: Vec<u8> = Vec::new();
        self.ssz_append(&mut bytes);
        assert(bytes@ =~= self.encoding());
        bytes
    }

    /// Decodes a value from exactly `bytes`.
    fn from_ssz_bytes(bytes: &[u8]) -> (result: Result<Self, DecodeError>)
        requires
            Self::fixed_len() <= usize::MAX,
        ensures
            outcome(result) == Self::decoding(bytes@),
            result matches Ok(value) ==> value.valid(),
    ;
}

/// The members of `parts`, one after the other.
pub open spec fn concat(parts: Seq<Seq<u8>>) -> Seq<u8>
    decreases parts.len(),
{
    if parts.len() == 0 {
        seq![]
    } else {
        parts[0] + concat(parts.drop_first())
    }
}

/// Every item of the list is valid.
pub open spec fn all_valid<T: Serializable>(items: Seq<T>) -> bool {
    forall|i: int| 0 <= i < items.len() ==> (#[trigger] items[i]).valid()
}

/// The encoding of a list of fixed-length items: the items, one after the other.
pub open spec fn fixed_list_encoding<T: Serializable>(items: Seq<T>) -> Seq<u8>
    decreases items.len(),
{
    if items.len() == 0 {
        seq![]
    } else {
        items[0].encoding() + fixed_list_encoding(items.drop_first())
    }
}

/// What decoding a list of fixed-length items gives: the bytes are cut into
/// pieces of the length of an item, the last of which may be shorter, and the
/// pieces are decoded in turn until one fails.
pub open spec fn fixed_list_decoding<T: Serializable>(bytes: Seq<u8>) -> Result<Seq<T>, ErrorModel>
    decreases bytes.len(),
{
    if bytes.len() == 0 {
        Ok(seq![])
    } else {
        let len: int = if 0 < T::fixed_len() < bytes.len() {
            T::fixed_len() as int
        } else {
            bytes.len() as int
        };
        match T::decoding(bytes.take(len)) {
            Err(error) => Err(error),
            Ok(item) => match fixed_list_decoding::<T>(bytes.skip(len)) {
                Err(error) => Err(error),
                Ok(items) => Ok(seq![item] + items),
            },
        }
    }
}

/// The encoding of a list of fixed-length items takes the length of an item for
/// each of them.
pub proof fn law_list_len<T: Serializable>(items: Seq<T>)
    requires
        T::is_fixed(),
    ensures
        list_encoding(items).len() == items.len() * T::fixed_len(),
    decreases items.len(),
{
    if items.len() > 0 {
        items[0].law_fixed_len();
        law_list_len(items.drop_first());
        assert(items.len() * T::fixed_len() == T::fixed_len() + (items.len() - 1) * T::fixed_len())
            by (nonlinear_arith)
            requires
                items.len() > 0,
        ;
    }
}

proof fn lemma_fixed_list_round_trip<T: Serializable>(items: Seq<T>)
    requires
        T::is_fixed(),
        T::fixed_len() > 0,
        all_valid(items),
    ensures
        fixed_list_decoding::<T>(fixed_list_encoding(items)) == Ok::<Seq<T>, ErrorModel>(items),
    decreases items.len(),
{
    let bytes = fixed_list_encoding(items);
    if items.len() > 0 {
        let rest = items.drop_first();
        items[0].law_fixed_len();
        items[0].law_round_trip();
        assert(all_valid(rest)) by {
            assert forall|i: int| 0 <= i < rest.len() implies (#[trigger] rest[i]).valid() by {
                assert(rest[i] == items[i + 1]);
            }
        }
        lemma_fixed_list_round_trip(rest);
        let len: int = if 0 < T::fixed_len() < bytes.len() {
            T::fixed_len() as int
        } else {
            bytes.len() as int
        };
        assert(len == T::fixed_len());
        assert(bytes.take(len) =~= items[0].encoding());
        assert(bytes.skip(len) =~= fixed_list_encoding(rest));
        assert(seq![items[0]] + rest =~= items);
    } else {
        assert(items =~= Seq::<T>::empty());
    }
}

proof fn lemma_fixed_list_encoding_push<T: Serializable>(items: Seq<T>, item: T)
    ensures
        fixed_list_encoding(items.push(item)) == fixed_list_encoding(items) + item.encoding(),
    decreases items.len(),
{
    if items.len() == 0 {
        assert(items.push(item).drop_first() =~= items);
        assert(fixed_list_encoding(items.push(item)) =~= fixed_list_encoding(items) + item.encoding());
    } else {
        assert(items.push(item).drop_first() =~= items.drop_first().push(item));
        lemma_fixed_list_encoding_push(items.drop_first(), item);
        assert(fixed_list_encoding(items.push(item)) =~= fixed_list_encoding(items) + item.encoding());
    }
}

/// The number of bytes of the encoding of a list of fixed-length items.
fn fixed_list_bytes_len<T: Serializable>(items: &Vec<T>) -> (len: usize)
    requires
        T::is_fixed(),
        T::fixed_len() <= usize::MAX,
        fixed_list_encoding(items@).len() <= usize::MAX,
    ensures
        len == fixed_list_encoding(items@).len(),
{
    proof {
        law_list_len(items@);
    }
    items.len() * T::ssz_fixed_len()
}

/// Appends the encoding of a list of fixed-length items to `buf`.
fn fixed_list_append<T: Serializable>(items: &Vec<T>, buf: &mut Vec<u8>)
    requires
        T::is_fixed(),
    ensures
        final(buf)@ == old(buf)@ + fixed_list_encoding(items@),
{
    let mut i: usize = 0;
    assert(items@.take(0) =~= Seq::<T>::empty());
    assert(buf@ =~= old(buf)@ + fixed_list_encoding(items@.take(0)));
    while i < items.len()
        invariant
            i <= items.len(),
            buf@ == old(buf)@ + fixed_list_encoding(items@.take(i as int)),
        decreases items.len() - i,
    {
        items[i].ssz_append(buf);
        proof {
            lemma_fixed_list_encoding_push(items@.take(i as int), items@[i as int]);
            assert(items@.take(i + 1) =~= items@.take(i as int).push(items@[i as int]));
            assert(buf@ =~= old(buf)@ + fixed_list_encoding(items@.take(i + 1)));
        }
        i = i + 1;
    }
    assert(items@.take(i as int) =~= items@);
}

/// Decodes a list of fixed-length items from exactly `bytes`.
fn fixed_list_from_bytes<T: Serializable>(bytes: &[u8]) -> (result: Result<Vec<T>, DecodeError>)
    requires
        T::is_fixed(),
        0 < T::fixed_len() <= usize::MAX,
    ensures
        viewed_outcome(result) == fixed_list_decoding::<T>(bytes@),
        result matches Ok(items) ==> all_valid(items@),
{
    let size = T::ssz_fixed_len();
    let mut items: Vec<T> = Vec::new();
    let mut at: usize = 0;
    assert(bytes@.skip(0) =~= bytes@);
    proof {
        match fixed_list_decoding::<T>(bytes@) {
            Ok(rest) => { assert(items@ + rest =~= rest); },
            Err(_) => {},
        }
    }
    while at < bytes.len()
        invariant
            at <= bytes.len(),
            size == T::fixed_len(),
            0 < size,
            all_valid(items@),
            fixed_list_decoding::<T>(bytes@) == match fixed_list_decoding::<T>(bytes@.skip(at as int)) {
                Err(error) => Err(error),
                Ok(rest) => Ok::<Seq<T>, ErrorModel>(items@ + rest),
            },
        decreases bytes.len() - at,
    {
        let len = if size < bytes.len() - at {
            size
        } else {
            bytes.len() - at
        };
        let ghost left = bytes@.skip(at as int);
        let piece = vstd::slice::slice_subrange(bytes, at, at + len);
        assert(piece@ =~= left.take(len as int));
        match T::from_ssz_bytes(piece) {
            Err(error) => {
                return Err(error);
            },
            Ok(item) => {
                let ghost before = items@;
                items.push(item);
                at = at + len;
                proof {
                    assert(bytes@.skip(at as int) =~= left.skip(len as int));
                    match fixed_list_decoding::<T>(bytes@.skip(at as int)) {
                        Ok(rest) => {
                            assert(items@ + rest =~= before + (seq![item] + rest));
                        },
                        Err(_) => {},
                    }
                }
            },
        }
    }
    assert(fixed_list_decoding::<T>(bytes@.skip(at as int)) == Ok::<Seq<T>, ErrorModel>(seq![]));
    assert(items@ + Seq::<T>::empty() =~= items@);
    Ok(items)
}

/// The offsets of the items of a list, of which the first is at `first`.
pub open spec fn offset_table(items: Seq<Seq<u8>>, first: nat) -> Seq<u8>
    decreases items.len(),
{
    if items.len() == 0 {
        seq![]
    } else {
        u32_bytes(first as u32) + offset_table(items.drop_first(), first + items[0].len())
    }
}

/// The encoding of a list of variable-length items holds in its `i`-th four bytes, as a
/// little-endian integer, where the `i`-th item starts: behind the offsets and the items
/// before it. The item stands there.
pub proof fn law_variable_list(items: Seq<Seq<u8>>, i: int)
    requires
        0 <= i < items.len(),
        offsets_fit(items, 4 * items.len()),
    ensures
        ({
            let bytes = variable_list_encoding(items);
            let at = bytes[4 * i] + 0x100 * bytes[4 * i + 1] + 0x1_0000 * bytes[4 * i + 2]
                + 0x100_0000 * bytes[4 * i + 3];
            let next = bytes[4 * i + 4] + 0x100 * bytes[4 * i + 5] + 0x1_0000 * bytes[4 * i + 6]
                + 0x100_0000 * bytes[4 * i + 7];
            &&& i == 0 ==> at == 4 * items.len()
            &&& 0 <= at
            &&& at + items[i].len() <= bytes.len()
            &&& bytes.subrange(at, at + items[i].len()) == items[i]
            &&& i + 1 < items.len() ==> next == at + items[i].len()
            &&& i + 1 == items.len() ==> bytes.len() == at + items[i].len()
        }),
{
    let bytes = variable_list_encoding(items);
    let first = 4 * items.len();
    let table = offset_table(items, first);
    let start = concat(items.take(i)).len();
    lemma_offset_in_table(items, first, i as nat);
    assert(bytes.subrange(4 * i, 4 * i + 4) =~= table.subrange(4 * i, 4 * i + 4));
    law_u32_read_back(bytes, 4 * i, (first + start) as u32);
    law_read_little_endian(bytes, 4 * i);
    assert(items.take(0) =~= seq![]);
    lemma_part_in_concat(items, i as nat);
    assert(bytes.subrange((first + start) as int, (first + start + items[i].len()) as int)
        =~= items[i]);
    if i + 1 < items.len() {
        lemma_offset_in_table(items, first, (i + 1) as nat);
        lemma_concat_take(items, i as nat);
        assert(bytes.subrange(4 * i + 4, 4 * i + 8) =~= table.subrange(
            4 * (i + 1),
            4 * (i + 1) + 4,
        ));
        law_u32_read_back(bytes, 4 * i + 4, (first + start + items[i].len()) as u32);
        law_read_little_endian(bytes, 4 * i + 4);
    }
}

/// Every offset of [`offset_table`] is a 32-bit integer.
pub open spec fn offsets_fit(items: Seq<Seq<u8>>, first: nat) -> bool
    decreases items.len(),
{
    items.len() == 0 || (first <= u32::MAX && offsets_fit(
        items.drop_first(),
        first + items[0].len(),
    ))
}

/// The encoding of a list of variable-length items, given their encodings: where
/// each of them starts, and then the items, one after the other.
pub open spec fn variable_list_encoding(items: Seq<Seq<u8>>) -> Seq<u8> {
    offset_table(items, 4 * items.len()) + concat(items)
}

/// `bytes` is the encoding of the list whose items have the encodings `items`.
pub open spec fn encodes_list(bytes: Seq<u8>, items: Seq<Seq<u8>>) -> bool {
    offsets_fit(items, 4 * items.len()) && bytes == variable_list_encoding(items)
}

proof fn lemma_offset_table_len(items: Seq<Seq<u8>>, first: nat)
    ensures
        offset_table(items, first).len() == 4 * items.len(),
    decreases items.len(),
{
    if items.len() > 0 {
        lemma_offset_table_len(items.drop_first(), first + items[0].len());
    }
}

/// Bytes encode at most one list of variable-length items.
pub proof fn law_list_unique(bytes: Seq<u8>, a: Seq<Seq<u8>>, b: Seq<Seq<u8>>)
    requires
        encodes_list(bytes, a),
        encodes_list(bytes, b),
    ensures
        a == b,
{
    law_lists_are_cut(bytes, a);
    law_lists_are_cut(bytes, b);
}

/// The number of bytes of the encoding of a list of variable-length items.
pub proof fn law_variable_list_len(items: Seq<Seq<u8>>)
    ensures
        variable_list_encoding(items).len() == 4 * items.len() + concat(items).len(),
{
    lemma_offset_table_len(items, 4 * items.len());
}

proof fn lemma_offsets_fit(items: Seq<Seq<u8>>, first: nat)
    requires
        first + concat(items).len() <= u32::MAX,
    ensures
        offsets_fit(items, first),
    decreases items.len(),
{
    if items.len() > 0 {
        lemma_offsets_fit(items.drop_first(), first + items[0].len());
    }
}

pub(crate) proof fn lemma_short_lists_fit(items: Seq<Seq<u8>>)
    requires
        variable_list_encoding(items).len() <= u32::MAX,
    ensures
        offsets_fit(items, 4 * items.len()),
{
    law_variable_list_len(items);
    lemma_offsets_fit(items, 4 * items.len());
}

/// The contents of the members of `items`.
pub open spec fn contents(items: Seq<Vec<u8>>) -> Seq<Seq<u8>> {
    items.map_values(|item: Vec<u8>| item@)
}

/// `<Vec<Vec<u8>> as ssz::Encode>::as_ssz_bytes`, which writes a list of
/// variable-length items: their offsets, each in four bytes, and then the items.
/// An offset that does not fit in four bytes is left out.
#[verifier::external_body]
pub(crate) fn join_variable_list(items: &Vec<Vec<u8>>) -> (bytes: Vec<u8>)
    requires
        offsets_fit(contents(items@), 4 * items@.len()),
    ensures
        bytes@ == variable_list_encoding(contents(items@)),
{
    items.as_ssz_bytes()
}

/// What is wrong with the first offset of a list, which is also the number of bytes
/// of its offsets.
pub open spec fn first_offset_error(bytes: Seq<u8>) -> Option<ErrorModel> {
    let first = u32_at(bytes, 0) as int;
    if bytes.len() < 4 {
        Some(ErrorModel::InvalidLengthPrefix { len: bytes.len() as int, expected: 4 })
    } else if first > bytes.len() {
        Some(ErrorModel::OffsetOutOfBounds(first))
    } else if first % 4 != 0 || first < 4 {
        Some(ErrorModel::InvalidListFixedBytesLen(first))
    } else {
        None
    }
}

/// What is wrong with an offset of a list of `len` bytes that follows the offset
/// `previous`.
pub open spec fn offset_error(first: int, previous: int, offset: int, len: int) -> Option<
    ErrorModel,
> {
    if offset < first {
        Some(ErrorModel::OffsetIntoFixedPortion(offset))
    } else if offset > len {
        Some(ErrorModel::OffsetOutOfBounds(offset))
    } else if offset < previous {
        Some(ErrorModel::OffsetsAreDecreasing(offset))
    } else {
        None
    }
}

/// The parts of a list before the first offset that is wrong, and what is wrong with
/// it, if one is.
pub struct Cut {
    pub parts: Seq<Seq<u8>>,
    pub error: Option<ErrorModel>,
}

/// The parts from the `i`-th on, of which the first starts at `start`.
pub open spec fn cut_from(bytes: Seq<u8>, i: int, start: int) -> Cut
    decreases u32_at(bytes, 0) - 4 * i,
{
    let first = u32_at(bytes, 0) as int;
    let next = u32_at(bytes, 4 * i + 4) as int;
    if 4 * i + 4 >= first {
        Cut { parts: seq![bytes.skip(start)], error: None }
    } else {
        match offset_error(first, start, next, bytes.len() as int) {
            Some(error) => Cut { parts: seq![], error: Some(error) },
            None => {
                let rest = cut_from(bytes, i + 1, next);
                Cut { parts: seq![bytes.subrange(start, next)] + rest.parts, error: rest.error }
            },
        }
    }
}

/// What cutting the bytes of a list of variable-length items at its offsets gives.
pub open spec fn cut(bytes: Seq<u8>) -> Cut {
    if bytes.len() == 0 {
        Cut { parts: seq![], error: None }
    } else {
        match first_offset_error(bytes) {
            Some(error) => Cut { parts: seq![], error: Some(error) },
            None => cut_from(bytes, 0, u32_at(bytes, 0) as int),
        }
    }
}

/// What cutting `bytes` into the items of a list gave: all of them, or what is wrong
/// with the first offset that is wrong.
pub open spec fn is_split(bytes: Seq<u8>, result: Result<Vec<Vec<u8>>, DecodeError>) -> bool {
    match result {
        Ok(items) => encodes_list(bytes, contents(items@)),
        Err(error) => cut(bytes).error == Some(error@),
    }
}

/// `<Vec<Vec<u8>> as ssz::Decode>::from_ssz_bytes`, which cuts the bytes of a
/// list of variable-length items at its offsets. What it cuts are the encodings of
/// such lists. On other bytes it tells what is wrong with the first offset that is
/// wrong.
#[verifier::external_body]
pub(crate) fn split_variable_list(bytes: &[u8]) -> (result: Result<Vec<Vec<u8>>, DecodeError>)
    ensures
        is_split(bytes@, result),
{
    Vec::<Vec<u8>>::from_ssz_bytes(bytes).map_err(|error| match error {
        Outside::InvalidByteLength { len, expected } => DecodeError::InvalidByteLength { len, expected },
        Outside::InvalidLengthPrefix { len, expected } => DecodeError::InvalidLengthPrefix { len, expected },
        Outside::OutOfBoundsByte { i } => DecodeError::OutOfBoundsByte { i },
        Outside::OffsetIntoFixedPortion(i) => DecodeError::OffsetIntoFixedPortion(i),
        Outside::OffsetSkipsVariableBytes(i) => DecodeError::OffsetSkipsVariableBytes(i),
        Outside::OffsetsAreDecreasing(i) => DecodeError::OffsetsAreDecreasing(i),
        Outside::OffsetOutOfBounds(i) => DecodeError::OffsetOutOfBounds(i),
        Outside::InvalidListFixedBytesLen(i) => DecodeError::InvalidListFixedBytesLen(i),
        Outside::ZeroLengthItem => DecodeError::ZeroLengthItem,
        Outside::BytesInvalid(message) => DecodeError::BytesInvalid(message),
        Outside::UnionSelectorInvalid(i) => DecodeError::UnionSelectorInvalid(i),
        Outside::NoMatchingVariant => DecodeError::NoMatchingVariant,
    })
}

proof fn lemma_offset_in_table(items: Seq<Seq<u8>>, first: nat, i: nat)
    requires
        i < items.len(),
        offsets_fit(items, first),
    ensures
        first + concat(items.take(i as int)).len() <= u32::MAX,
        offset_table(items, first).len() == 4 * items.len(),
        offset_table(items, first).subrange(4 * i as int, 4 * i as int + 4) == u32_bytes(
            (first + concat(items.take(i as int)).len()) as u32,
        ),
    decreases i,
{
    lemma_offset_table_len(items, first);
    let table = offset_table(items, first);
    if i == 0 {
        assert(items.take(0) =~= seq![]);
        assert(table.subrange(0, 4) =~= u32_bytes(first as u32));
    } else {
        let rest = items.drop_first();
        let first_of_rest = first + items[0].len();
        lemma_offset_in_table(rest, first_of_rest, (i - 1) as nat);
        assert(items.take(i as int).drop_first() =~= rest.take(i - 1));
        assert(table.subrange(4 * i as int, 4 * i as int + 4) =~= offset_table(
            rest,
            first_of_rest,
        ).subrange(4 * (i - 1), 4 * (i - 1) + 4));
    }
}

proof fn lemma_part_in_concat(parts: Seq<Seq<u8>>, i: nat)
    requires
        i < parts.len(),
    ensures
        ({
            let start = concat(parts.take(i as int)).len() as int;
            &&& start + parts[i as int].len() <= concat(parts).len()
            &&& concat(parts).subrange(start, start + parts[i as int].len()) == parts[i as int]
            &&& i + 1 == parts.len() ==> start + parts[i as int].len() == concat(parts).len()
        }),
    decreases i,
{
    let rest = parts.drop_first();
    if i == 0 {
        assert(parts.take(0) =~= seq![]);
        assert(concat(parts).subrange(0, parts[0].len() as int) =~= parts[0]);
        if parts.len() == 1 {
            assert(concat(rest) =~= seq![]);
        }
    } else {
        lemma_part_in_concat(rest, (i - 1) as nat);
        assert(parts.take(i as int).drop_first() =~= rest.take(i - 1));
        let start = concat(parts.take(i as int)).len() as int;
        let start_in_rest = concat(rest.take(i - 1)).len() as int;
        assert(concat(parts).subrange(start, start + parts[i as int].len()) =~= concat(
            rest,
        ).subrange(start_in_rest, start_in_rest + rest[i - 1].len()));
    }
}

proof fn lemma_cut_from(bytes: Seq<u8>, parts: Seq<Seq<u8>>, i: nat)
    requires
        encodes_list(bytes, parts),
        i < parts.len(),
    ensures
        u32_at(bytes, 0) == 4 * parts.len(),
        ({
            let start = 4 * parts.len() + concat(parts.take(i as int)).len();
            let rest = cut_from(bytes, i as int, start as int);
            rest.parts == parts.skip(i as int) && rest.error is None
        }),
    decreases parts.len() - i,
{
    let first = 4 * parts.len();
    let table = offset_table(parts, first);
    let start = first + concat(parts.take(i as int)).len();
    let part = parts[i as int];
    lemma_offset_in_table(parts, first, 0);
    assert(parts.take(0) =~= seq![]);
    assert(bytes.subrange(0, 4) =~= table.subrange(0, 4));
    law_u32_read_back(bytes, 0, first as u32);
    lemma_part_in_concat(parts, i);
    assert(bytes.subrange(start as int, (start + part.len()) as int) =~= part);
    if i + 1 == parts.len() {
        assert(bytes.skip(start as int) =~= part);
        assert(parts.skip(i as int) =~= seq![part]);
    } else {
        let at = 4 * i as int + 4;
        let next = start + part.len();
        lemma_concat_take(parts, i);
        lemma_offset_in_table(parts, first, i + 1);
        assert(bytes.subrange(at, at + 4) =~= table.subrange(at, at + 4));
        law_u32_read_back(bytes, at, next as u32);
        lemma_cut_from(bytes, parts, i + 1);
        assert(parts.skip(i as int) =~= seq![part] + parts.skip(i as int + 1));
    }
}

/// Cutting the encoding of a list of variable-length items at its offsets gives the
/// items.
pub proof fn law_lists_are_cut(bytes: Seq<u8>, parts: Seq<Seq<u8>>)
    requires
        encodes_list(bytes, parts),
    ensures
        cut(bytes).parts == parts,
        cut(bytes).error is None,
{
    law_variable_list_len(parts);
    if parts.len() == 0 {
        assert(bytes =~= seq![]);
        assert(parts =~= seq![]);
    } else {
        lemma_cut_from(bytes, parts, 0);
        assert(parts.take(0) =~= seq![]);
        assert(parts.skip(0) =~= parts);
    }
}

/// The `k`-th of the cuts follows from the next one.
spec fn is_cut_step(bytes: Seq<u8>, offsets: Seq<int>, cuts: Seq<Cut>, k: int) -> bool {
    if k + 1 == offsets.len() {
        cuts[k].parts == seq![bytes.skip(offsets[k])] && cuts[k].error is None
    } else {
        match offset_error(offsets[0], offsets[k], offsets[k + 1], bytes.len() as int) {
            Some(error) => cuts[k].parts == Seq::<Seq<u8>>::empty() && cuts[k].error == Some(error),
            None => {
                &&& cuts[k].parts == seq![bytes.subrange(offsets[k], offsets[k + 1])] + cuts[k
                    + 1].parts
                &&& cuts[k].error == cuts[k + 1].error
            },
        }
    }
}

proof fn lemma_cuts(bytes: Seq<u8>, offsets: Seq<int>, cuts: Seq<Cut>, i: int) -> (end: int)
    requires
        cuts.len() == offsets.len(),
        forall|k: int| 0 <= k < offsets.len() ==> #[trigger] is_cut_step(bytes, offsets, cuts, k),
        0 <= i < offsets.len(),
        offsets[0] <= offsets[i] <= bytes.len(),
    ensures
        i <= end < offsets.len(),
        forall|k: int|
            i < k <= end ==> offsets[0] <= offsets[k - 1] <= #[trigger] offsets[k] <= bytes.len(),
        forall|k: int|
            i <= k < end ==> #[trigger] cuts[i].parts[k - i] == bytes.subrange(
                offsets[k],
                offsets[k + 1],
            ),
        cuts[i].error is None ==> {
            &&& end + 1 == offsets.len()
            &&& cuts[i].parts.len() == end - i + 1
            &&& cuts[i].parts[end - i] == bytes.skip(offsets[end])
        },
        cuts[i].error is Some ==> {
            &&& end + 1 < offsets.len()
            &&& cuts[i].parts.len() == end - i
            &&& cuts[i].error == offset_error(
                offsets[0],
                offsets[end],
                offsets[end + 1],
                bytes.len() as int,
            )
        },
    decreases offsets.len() - i,
{
    assert(is_cut_step(bytes, offsets, cuts, i));
    if i + 1 == offsets.len() || offset_error(
        offsets[0],
        offsets[i],
        offsets[i + 1],
        bytes.len() as int,
    ) is Some {
        i
    } else {
        let end = lemma_cuts(bytes, offsets, cuts, i + 1);
        let whole = cuts[i].parts;
        let rest = cuts[i + 1].parts;
        assert forall|k: int| i <= k < end implies #[trigger] whole[k - i] == bytes.subrange(
            offsets[k],
            offsets[k + 1],
        ) by {
            if k > i {
                assert(whole[k - i] == rest[k - (i + 1)]);
            }
        }
        assert(cuts[i].error is None ==> whole[end - i] == rest[end - (i + 1)]);
        end
    }
}

proof fn lemma_is_cut_step(bytes: Seq<u8>, offsets: Seq<int>, cuts: Seq<Cut>, k: int)
    requires
        0 <= k < offsets.len(),
        cuts.len() == offsets.len(),
        u32_at(bytes, 0) == 4 * offsets.len(),
        offsets[0] == u32_at(bytes, 0),
        k + 1 < offsets.len() ==> offsets[k + 1] == u32_at(bytes, 4 * k + 4),
        cuts[k] == cut_from(bytes, k, offsets[k]),
        k + 1 < offsets.len() ==> cuts[k + 1] == cut_from(bytes, k + 1, offsets[k + 1]),
    ensures
        is_cut_step(bytes, offsets, cuts, k),
{
}

/// What is wrong with bytes that do not start with the number of bytes of the offsets of
/// a list of variable-length items. No bytes are the empty list.
pub proof fn law_first_offset(bytes: Seq<u8>)
    ensures
        bytes.len() == 0 ==> cut(bytes).parts.len() == 0 && cut(bytes).error is None,
        0 < bytes.len() < 4 ==> cut(bytes).error == Some(
            ErrorModel::InvalidLengthPrefix { len: bytes.len() as int, expected: 4 },
        ),
        4 <= bytes.len() < u32_at(bytes, 0) ==> cut(bytes).error == Some(
            ErrorModel::OffsetOutOfBounds(u32_at(bytes, 0) as int),
        ),
        4 <= bytes.len() && u32_at(bytes, 0) <= bytes.len() && (u32_at(bytes, 0) % 4 != 0 || u32_at(
            bytes,
            0,
        ) == 0) ==> cut(bytes).error == Some(
            ErrorModel::InvalidListFixedBytesLen(u32_at(bytes, 0) as int),
        ),
        bytes.len() < 4 || bytes.len() < u32_at(bytes, 0) || u32_at(bytes, 0) % 4 != 0 || u32_at(
            bytes,
            0,
        ) == 0 ==> cut(bytes).parts.len() == 0,
{
}

/// The bytes of a list of variable-length items are cut at its offsets, which are
/// little-endian integers of four bytes each. The first says how many bytes they take. A
/// part goes from an offset up to the next, and the last part up to the end. Where an
/// offset is wrong, the part before it is left out too, and `end` is the offset of that
/// part.
pub proof fn law_cut(bytes: Seq<u8>, offsets: Seq<int>) -> (end: int)
    requires
        offsets.len() > 0,
        4 * offsets.len() <= bytes.len(),
        u32_at(bytes, 0) == 4 * offsets.len(),
        forall|k: int|
            0 <= k < offsets.len() ==> #[trigger] offsets[k] == bytes[4 * k] + 0x100 * bytes[4 * k
                + 1] + 0x1_0000 * bytes[4 * k + 2] + 0x100_0000 * bytes[4 * k + 3],
    ensures
        0 <= end < offsets.len(),
        forall|k: int|
            0 < k <= end ==> offsets[0] <= offsets[k - 1] <= #[trigger] offsets[k] <= bytes.len(),
        forall|k: int|
            0 <= k < end ==> #[trigger] cut(bytes).parts[k] == bytes.subrange(
                offsets[k],
                offsets[k + 1],
            ),
        cut(bytes).error is None ==> {
            &&& end + 1 == offsets.len()
            &&& cut(bytes).parts.len() == end + 1
            &&& cut(bytes).parts[end] == bytes.skip(offsets[end])
        },
        cut(bytes).error matches Some(error) ==> {
            &&& end + 1 < offsets.len()
            &&& cut(bytes).parts.len() == end
            &&& offsets[end + 1] < offsets[0] ==> error == ErrorModel::OffsetIntoFixedPortion(
                offsets[end + 1],
            )
            &&& offsets[end + 1] > bytes.len() ==> error == ErrorModel::OffsetOutOfBounds(
                offsets[end + 1],
            )
            &&& offsets[0] <= offsets[end + 1] <= bytes.len() ==> offsets[end + 1] < offsets[end]
                && error == ErrorModel::OffsetsAreDecreasing(offsets[end + 1])
        },
{
    let cuts = Seq::new(offsets.len(), |k: int| cut_from(bytes, k, offsets[k]));
    law_read_little_endian(bytes, 0);
    assert(offsets[0] == u32_at(bytes, 0));
    assert forall|k: int| 0 <= k < offsets.len() implies #[trigger] is_cut_step(
        bytes,
        offsets,
        cuts,
        k,
    ) by {
        if k + 1 < offsets.len() {
            law_read_little_endian(bytes, 4 * (k + 1));
            assert(offsets[k + 1] == u32_at(bytes, 4 * (k + 1)));
            assert(4 * (k + 1) == 4 * k + 4);
        }
        lemma_is_cut_step(bytes, offsets, cuts, k);
    }
    assert(cut(bytes) == cuts[0]);
    let end = lemma_cuts(bytes, offsets, cuts, 0);
    let parts = cut(bytes).parts;
    assert forall|k: int| 0 <= k < end implies #[trigger] parts[k] == bytes.subrange(
        offsets[k],
        offsets[k + 1],
    ) by {
        assert(parts[k] == parts[k - 0]);
    }
    end
}

/// `parts` are the parts before the `i`-th, which starts at `start`.
#[verifier::opaque]
spec fn is_cut_up_to(bytes: Seq<u8>, parts: Seq<Seq<u8>>, i: int, start: int) -> bool {
    parts + cut_from(bytes, i, start).parts == cut(bytes).parts
}

/// `parts` are all parts.
#[verifier::opaque]
spec fn is_cut_up(bytes: Seq<u8>, parts: Seq<Seq<u8>>) -> bool {
    parts == cut(bytes).parts
}

proof fn lemma_cut_starts(bytes: Seq<u8>)
    ensures
        bytes.len() < 4 || first_offset_error(bytes) is Some ==> is_cut_up(bytes, seq![]),
        bytes.len() >= 4 && first_offset_error(bytes) is None ==> is_cut_up_to(
            bytes,
            seq![],
            0,
            u32_at(bytes, 0) as int,
        ),
{
    reveal(is_cut_up_to);
    reveal(is_cut_up);
    assert(Seq::<Seq<u8>>::empty() + cut(bytes).parts =~= cut(bytes).parts);
}

proof fn lemma_cut_goes_on(bytes: Seq<u8>, parts: Seq<Seq<u8>>, i: int, start: int)
    requires
        is_cut_up_to(bytes, parts, i, start),
    ensures
        ({
            let first = u32_at(bytes, 0) as int;
            let next = u32_at(bytes, 4 * i + 4) as int;
            let wrong = next < first || next > bytes.len() || next < start;
            &&& 4 * i + 4 >= first ==> is_cut_up(bytes, parts.push(bytes.skip(start)))
            &&& 4 * i + 4 < first && wrong ==> is_cut_up(bytes, parts)
            &&& 4 * i + 4 < first && !wrong ==> is_cut_up_to(
                bytes,
                parts.push(bytes.subrange(start, next)),
                i + 1,
                next,
            )
        }),
{
    reveal(is_cut_up_to);
    reveal(is_cut_up);
    let next = u32_at(bytes, 4 * i + 4) as int;
    let rest = cut_from(bytes, i + 1, next).parts;
    let part = bytes.subrange(start, next);
    assert(parts + Seq::<Seq<u8>>::empty() =~= parts);
    assert(parts + seq![bytes.skip(start)] =~= parts.push(bytes.skip(start)));
    assert(parts + (seq![part] + rest) =~= parts.push(part) + rest);
}

/// Appends to `parts` a copy of the bytes from `start` up to `end`.
fn push_part(parts: &mut Vec<Vec<u8>>, bytes: &[u8], start: usize, end: usize)
    requires
        start <= end <= bytes.len(),
    ensures
        contents(final(parts)@) == contents(old(parts)@).push(
            bytes@.subrange(start as int, end as int),
        ),
{
    let part = vstd::slice::slice_to_vec(vstd::slice::slice_subrange(bytes, start, end));
    parts.push(part);
    assert(contents(parts@) =~= contents(old(parts)@).push(part@));
}

/// The parts of a list before the first offset that is wrong.
pub(crate) fn leading_parts(bytes: &[u8]) -> (parts: Vec<Vec<u8>>)
    ensures
        contents(parts@) == cut(bytes@).parts,
{
    let parts = parts_in_order(bytes);
    reveal(is_cut_up);
    parts
}

/// Cuts off one part after the other, up to the first offset that is wrong.
fn parts_in_order(bytes: &[u8]) -> (parts: Vec<Vec<u8>>)
    ensures
        is_cut_up(bytes@, contents(parts@)),
{
    let mut parts: Vec<Vec<u8>> = Vec::new();
    proof {
        lemma_cut_starts(bytes@);
        assert(contents(parts@) =~= seq![]);
    }
    if bytes.len() < 4 {
        return parts;
    }
    let first = read_u32(bytes, 0) as usize;
    if first > bytes.len() || first % 4 != 0 || first < 4 {
        return parts;
    }
    let mut start = first;
    let mut at: usize = 4;
    while at < first
        invariant
            first == u32_at(bytes@, 0),
            first <= bytes.len(),
            4 <= at <= first,
            at % 4 == 0,
            first % 4 == 0,
            start <= bytes.len(),
            is_cut_up_to(bytes@, contents(parts@), at as int / 4 - 1, start as int),
        decreases first - at,
    {
        let next = read_u32(bytes, at) as usize;
        proof {
            let i = at as int / 4 - 1;
            assert(4 * i + 4 == at);
            lemma_cut_goes_on(bytes@, contents(parts@), i, start as int);
            assert((at + 4) / 4 - 1 == i + 1);
        }
        if next < first || next > bytes.len() || next < start {
            return parts;
        }
        push_part(&mut parts, bytes, start, next);
        start = next;
        at = at + 4;
    }
    proof {
        let i = at as int / 4 - 1;
        assert(4 * i + 4 == at);
        lemma_cut_goes_on(bytes@, contents(parts@), i, start as int);
        assert(bytes@.skip(start as int) =~= bytes@.subrange(start as int, bytes@.len() as int));
    }
    push_part(&mut parts, bytes, start, bytes.len());
    parts
}

/// The encodings of the items.
pub open spec fn item_encodings<T: Serializable>(items: Seq<T>) -> Seq<Seq<u8>> {
    items.map_values(|item: T| item.encoding())
}

/// The encoding of a list.
pub open spec fn list_encoding<T: Serializable>(items: Seq<T>) -> Seq<u8> {
    if T::is_fixed() {
        fixed_list_encoding(items)
    } else {
        variable_list_encoding(item_encodings(items))
    }
}

/// Every offset in the encoding of a list is a 32-bit integer. Lists of fixed-length
/// items have no offsets.
pub open spec fn list_fits<T: Serializable>(items: Seq<T>) -> bool {
    T::is_fixed() || offsets_fit(item_encodings(items), 4 * items.len())
}

/// Where the encoding of a list has a length that is a 32-bit integer, so are the
/// offsets in it.
pub proof fn law_short_list_fits<T: Serializable>(items: Seq<T>)
    requires
        list_encoding(items).len() <= u32::MAX,
    ensures
        list_fits(items),
{
    if !T::is_fixed() {
        lemma_short_lists_fit(item_encodings(items));
    }
}

/// What decoding the items, one after the other, gives.
pub open spec fn items_decoding<T: Serializable>(parts: Seq<Seq<u8>>) -> Result<
    Seq<T>,
    ErrorModel,
>
    decreases parts.len(),
{
    if parts.len() == 0 {
        Ok(seq![])
    } else {
        match T::decoding(parts[0]) {
            Err(error) => Err(error),
            Ok(item) => match items_decoding::<T>(parts.drop_first()) {
                Err(error) => Err(error),
                Ok(items) => Ok(seq![item] + items),
            },
        }
    }
}

/// What was decoded, or else what is wrong with the offset behind it.
pub open spec fn unless_broken<T>(
    items: Result<Seq<T>, ErrorModel>,
    error: Option<ErrorModel>,
) -> Result<Seq<T>, ErrorModel> {
    match (items, error) {
        (Ok(_), Some(error)) => Err(error),
        _ => items,
    }
}

/// What decoding a list of variable-length items gives: the items are decoded in turn
/// until one of them fails or the offset behind it is wrong.
pub open spec fn variable_list_decoding<T: Serializable>(bytes: Seq<u8>) -> Result<
    Seq<T>,
    ErrorModel,
> {
    unless_broken(items_decoding::<T>(cut(bytes).parts), cut(bytes).error)
}

/// Items are decoded in turn, each from its own bytes. The error is that of the first
/// that cannot be.
pub proof fn law_items_decoding<T: Serializable>(parts: Seq<Seq<u8>>) -> (failed: int)
    ensures
        items_decoding::<T>(parts) matches Ok(items) ==> {
            &&& items.len() == parts.len()
            &&& forall|i: int|
                0 <= i < parts.len() ==> T::decoding(#[trigger] parts[i]) == Ok::<T, ErrorModel>(
                    items[i],
                )
        },
        items_decoding::<T>(parts) matches Err(error) ==> {
            &&& 0 <= failed < parts.len()
            &&& T::decoding(parts[failed]) == Err::<T, ErrorModel>(error)
            &&& forall|i: int| 0 <= i < failed ==> T::decoding(#[trigger] parts[i]) is Ok
        },
    decreases parts.len(),
{
    if parts.len() == 0 || T::decoding(parts[0]) is Err {
        0
    } else {
        let rest = parts.drop_first();
        let failed = law_items_decoding::<T>(rest);
        assert forall|i: int| 0 < i < parts.len() implies #[trigger] parts[i] == rest[i - 1] by {}
        failed + 1
    }
}

/// Bytes decode to a list of variable-length items if and only if nothing is wrong with
/// their offsets and every part decodes. Otherwise the error is that of the first part
/// that does not, or that of the offset behind the parts where all of them do.
pub proof fn law_variable_list_decoding<T: Serializable>(bytes: Seq<u8>) -> (failed: int)
    requires
        !T::is_fixed(),
    ensures
        ({
            let parts = cut(bytes).parts;
            &&& list_decoding::<T>(bytes) matches Ok(items) ==> {
                &&& cut(bytes).error is None
                &&& items.len() == parts.len()
                &&& forall|i: int|
                    0 <= i < parts.len() ==> T::decoding(#[trigger] parts[i]) == Ok::<
                        T,
                        ErrorModel,
                    >(items[i])
            }
            &&& list_decoding::<T>(bytes) matches Err(error) ==> {
                &&& 0 <= failed <= parts.len()
                &&& forall|i: int| 0 <= i < failed ==> T::decoding(#[trigger] parts[i]) is Ok
                &&& failed < parts.len() ==> T::decoding(parts[failed]) == Err::<T, ErrorModel>(
                    error,
                )
                &&& failed == parts.len() ==> cut(bytes).error == Some(error)
            }
        }),
{
    let parts = cut(bytes).parts;
    let failed = law_items_decoding::<T>(parts);
    match items_decoding::<T>(parts) {
        Ok(_) => parts.len() as int,
        Err(_) => failed,
    }
}

/// What decoding a list gives.
pub open spec fn list_decoding<T: Serializable>(bytes: Seq<u8>) -> Result<Seq<T>, ErrorModel> {
    if T::is_fixed() {
        fixed_list_decoding::<T>(bytes)
    } else {
        variable_list_decoding::<T>(bytes)
    }
}

/// Decoding the encoding of the item gives it back. Fixed-length items need only be
/// valid for that.
pub open spec fn reads_back<T: Serializable>(item: T) -> bool {
    if T::is_fixed() {
        item.valid()
    } else {
        T::decoding(item.encoding()) == Ok::<T, ErrorModel>(item)
    }
}

/// Every item of the list reads back.
pub open spec fn all_read_back<T: Serializable>(items: Seq<T>) -> bool {
    forall|i: int| 0 <= i < items.len() ==> reads_back(#[trigger] items[i])
}

proof fn lemma_items_round_trip<T: Serializable>(items: Seq<T>)
    requires
        !T::is_fixed(),
        all_read_back(items),
    ensures
        items_decoding::<T>(item_encodings(items)) == Ok::<Seq<T>, ErrorModel>(items),
    decreases items.len(),
{
    if items.len() > 0 {
        let rest = items.drop_first();
        assert(item_encodings(items).drop_first() =~= item_encodings(rest));
        assert forall|i: int| 0 <= i < rest.len() implies reads_back(#[trigger] rest[i]) by {
            assert(rest[i] == items[i + 1]);
        }
        assert(reads_back(items[0]));
        lemma_items_round_trip(rest);
        assert(seq![items[0]] + rest =~= items);
    } else {
        assert(items =~= seq![]);
    }
}

/// Decoding the encoding of a list gives the list back, as long as its offsets are
/// 32-bit integers and its items read back.
pub proof fn law_list_round_trip<T: Serializable>(items: Seq<T>)
    requires
        T::is_fixed() ==> T::fixed_len() > 0,
        list_fits(items),
        all_read_back(items),
    ensures
        list_decoding::<T>(list_encoding(items)) == Ok::<Seq<T>, ErrorModel>(items),
{
    if T::is_fixed() {
        assert forall|i: int| 0 <= i < items.len() implies (#[trigger] items[i]).valid() by {
            assert(reads_back(items[i]));
        }
        lemma_fixed_list_round_trip(items);
    } else {
        let bytes = list_encoding(items);
        let parts = item_encodings(items);
        law_lists_are_cut(bytes, parts);
        lemma_items_round_trip(items);
    }
}

pub(crate) proof fn lemma_concat_take(parts: Seq<Seq<u8>>, i: nat)
    requires
        i < parts.len(),
    ensures
        concat(parts.take(i as int + 1)).len() == concat(parts.take(i as int)).len()
            + parts[i as int].len(),
        concat(parts.take(i as int + 1)).len() <= concat(parts).len(),
    decreases parts.len(),
{
    if i == 0 {
        assert(parts.take(1).drop_first() =~= seq![]);
        assert(parts.take(0) =~= seq![]);
        assert(parts.take(1)[0] == parts[0]);
    } else {
        assert(parts.take(i as int + 1).drop_first() =~= parts.drop_first().take(i as int));
        assert(parts.take(i as int).drop_first() =~= parts.drop_first().take(i as int - 1));
        lemma_concat_take(parts.drop_first(), (i - 1) as nat);
    }
}

/// The encoding of a list of fixed-length items holds the `i`-th of them behind `i`
/// times their length.
pub proof fn law_item_in_list<T: Serializable>(items: Seq<T>, i: int)
    requires
        T::is_fixed(),
        0 <= i < items.len(),
    ensures
        list_encoding(items).len() == items.len() * T::fixed_len(),
        0 <= i * T::fixed_len(),
        i * T::fixed_len() + T::fixed_len() <= list_encoding(items).len(),
        list_encoding(items).subrange(
            i * T::fixed_len(),
            i * T::fixed_len() + T::fixed_len(),
        ) == items[i].encoding(),
    decreases items.len(),
{
    let size = T::fixed_len() as int;
    let bytes = list_encoding(items);
    let rest = items.drop_first();
    law_list_len(items);
    items[0].law_fixed_len();
    assert(items.len() * size >= (i + 1) * size && (i + 1) * size == i * size + size && i * size
        >= 0) by (nonlinear_arith)
        requires
            0 <= i < items.len(),
            size >= 0,
    ;
    if i == 0 {
        assert(0 * size == 0);
        assert(bytes.subrange(0, size) =~= items[0].encoding());
    } else {
        law_item_in_list(rest, i - 1);
        assert((i - 1) * size == i * size - size) by (nonlinear_arith);
        assert(bytes.subrange(i * size, i * size + size) =~= list_encoding(rest).subrange(
            (i - 1) * size,
            (i - 1) * size + size,
        ));
    }
}

/// The encoding of a list of variable-length items is the one of their encodings.
pub proof fn law_variable_items<T: Serializable>(items: Seq<T>, encodings: Seq<Seq<u8>>)
    requires
        !T::is_fixed(),
        encodings.len() == items.len(),
        forall|i: int| 0 <= i < items.len() ==> #[trigger] encodings[i] == items[i].encoding(),
    ensures
        list_encoding(items) == variable_list_encoding(encodings),
{
    assert(item_encodings(items) =~= encodings);
}

/// Bytes decode to a list of fixed-length items if and only if each piece of their
/// length decodes, the last of which may be shorter. The error is that of the first piece
/// that does not.
pub proof fn law_list_pieces<T: Serializable>(bytes: Seq<u8>) -> (failed: int)
    requires
        T::is_fixed(),
        T::fixed_len() > 0,
    ensures
        list_decoding::<T>(bytes) matches Ok(items) ==> {
            &&& items.len() * T::fixed_len() >= bytes.len()
            &&& items.len() > 0 ==> (items.len() - 1) * T::fixed_len() < bytes.len()
            &&& forall|i: int|
                0 <= i < items.len() ==> T::decoding(
                    bytes.subrange(
                        i * T::fixed_len(),
                        if i * T::fixed_len() + T::fixed_len() <= bytes.len() {
                            i * T::fixed_len() + T::fixed_len()
                        } else {
                            bytes.len() as int
                        },
                    ),
                ) == Ok::<T, ErrorModel>(#[trigger] items[i])
        },
        list_decoding::<T>(bytes) matches Err(error) ==> {
            &&& 0 <= failed
            &&& failed * T::fixed_len() < bytes.len()
            &&& T::decoding(
                bytes.subrange(
                    failed * T::fixed_len(),
                    if failed * T::fixed_len() + T::fixed_len() <= bytes.len() {
                        failed * T::fixed_len() + T::fixed_len()
                    } else {
                        bytes.len() as int
                    },
                ),
            ) == Err::<T, ErrorModel>(error)
            &&& list_decoding::<T>(bytes.take(failed * T::fixed_len())) is Ok
        },
    decreases bytes.len(),
{
    let size = T::fixed_len() as int;
    if bytes.len() == 0 {
        assert(0 * size == 0);
        0
    } else {
        let len: int = if size < bytes.len() {
            size
        } else {
            bytes.len() as int
        };
        let rest = bytes.skip(len);
        assert(0 * size == 0);
        assert(bytes.subrange(0, len) =~= bytes.take(len));
        assert(bytes.take(0) =~= seq![]);
        if T::decoding(bytes.take(len)) is Err {
            0
        } else {
            let failed = law_list_pieces::<T>(rest);
            let item = T::decoding(bytes.take(len))->Ok_0;
            match list_decoding::<T>(rest) {
                Ok(rest_items) => {
                    let items = seq![item] + rest_items;
                    assert(items.len() * size == rest_items.len() * size + size) by (nonlinear_arith)
                        requires
                            items.len() == rest_items.len() + 1,
                    ;
                    assert((items.len() - 1) * size == rest_items.len() * size);
                    if rest_items.len() > 0 {
                        assert((rest_items.len() - 1) * size == rest_items.len() * size - size)
                            by (nonlinear_arith);
                    } else {
                        assert(rest_items.len() * size == 0) by (nonlinear_arith)
                            requires
                                rest_items.len() == 0,
                        ;
                    }
                    assert forall|i: int| 0 <= i < items.len() implies T::decoding(
                        bytes.subrange(
                            i * T::fixed_len(),
                            if i * T::fixed_len() + T::fixed_len() <= bytes.len() {
                                i * T::fixed_len() + T::fixed_len()
                            } else {
                                bytes.len() as int
                            },
                        ),
                    ) == Ok::<T, ErrorModel>(#[trigger] items[i]) by {
                        if i > 0 {
                            assert(items[i] == rest_items[i - 1]);
                            assert((i - 1) * size <= (rest_items.len() - 1) * size)
                                by (nonlinear_arith)
                                requires
                                    i <= rest_items.len(),
                                    size > 0,
                            ;
                            lemma_shifted_piece(bytes, len, size, i);
                        }
                    }
                },
                Err(_) => {
                    assert((failed + 1) * size == failed * size + size) by (nonlinear_arith);
                    assert(failed * size >= 0) by (nonlinear_arith)
                        requires
                            failed >= 0,
                            size > 0,
                    ;
                    lemma_shifted_piece(bytes, len, size, failed + 1);
                    let before = bytes.take((failed + 1) * size);
                    assert(len == size);
                    assert(before.take(size) =~= bytes.take(len));
                    assert(before.skip(size) =~= rest.take(failed * size));
                    assert(list_decoding::<T>(rest.take(failed * size)) is Ok);
                    assert(before.len() == failed * size + size);
                    assert(list_decoding::<T>(before) is Ok);
                },
            }
            failed + 1
        }
    }
}

proof fn lemma_shifted_piece(bytes: Seq<u8>, len: int, size: int, i: int)
    requires
        size > 0,
        0 < len <= bytes.len(),
        len == size || len == bytes.len(),
        len <= size,
        1 <= i,
        (i - 1) * size < bytes.len() - len,
    ensures
        ({
            let rest = bytes.skip(len);
            let end = if i * size + size <= bytes.len() {
                i * size + size
            } else {
                bytes.len() as int
            };
            let rest_end = if (i - 1) * size + size <= rest.len() {
                (i - 1) * size + size
            } else {
                rest.len() as int
            };
            bytes.subrange(i * size, end) == rest.subrange((i - 1) * size, rest_end)
        }),
{
    let rest = bytes.skip(len);
    assert((i - 1) * size == i * size - size) by (nonlinear_arith);
    assert((i - 1) * size >= 0) by (nonlinear_arith)
        requires
            i >= 1,
            size > 0,
    ;
    assert(len == size);
    let end = if i * size + size <= bytes.len() {
        i * size + size
    } else {
        bytes.len() as int
    };
    let rest_end = if (i - 1) * size + size <= rest.len() {
        (i - 1) * size + size
    } else {
        rest.len() as int
    };
    assert(bytes.subrange(i * size, end) =~= rest.subrange((i - 1) * size, rest_end));
}

/// The number of bytes of the encoding of a list.
pub fn list_bytes_len<T: Serializable>(items: &Vec<T>) -> (len: usize)
    requires
        T::fixed_len() <= usize::MAX,
        list_encoding(items@).len() <= usize::MAX,
    ensures
        len == list_encoding(items@).len(),
{
    if T::is_ssz_fixed_len() {
        return fixed_list_bytes_len(items);
    }
    let ghost parts = item_encodings(items@);
    proof {
        law_variable_list_len(parts);
    }
    let mut len: usize = 4 * items.len();
    let mut i: usize = 0;
    assert(parts.take(0) =~= seq![]);
    while i < items.len()
        invariant
            i <= items.len(),
            parts == item_encodings(items@),
            len == 4 * items.len() + concat(parts.take(i as int)).len(),
            4 * items.len() + concat(parts).len() <= usize::MAX,
        decreases items.len() - i,
    {
        proof {
            lemma_concat_take(parts, i as nat);
        }
        len = len + items[i].ssz_bytes_len();
        i = i + 1;
    }
    assert(parts.take(i as int) =~= parts);
    len
}

/// Appends the encoding of a list to `buf`.
pub fn list_append<T: Serializable>(items: &Vec<T>, buf: &mut Vec<u8>)
    requires
        list_fits(items@),
    ensures
        final(buf)@ == old(buf)@ + list_encoding(items@),
{
    if T::is_ssz_fixed_len() {
        fixed_list_append(items, buf);
        return;
    }
    let ghost expected = item_encodings(items@);
    let mut parts: Vec<Vec<u8>> = Vec::new();
    while parts.len() < items.len()
        invariant
            parts.len() <= items.len(),
            expected == item_encodings(items@),
            contents(parts@) == expected.take(parts.len() as int),
        decreases items.len() - parts.len(),
    {
        let part = items[parts.len()].as_ssz_bytes();
        parts.push(part);
        assert(contents(parts@) =~= expected.take(parts.len() as int));
    }
    assert(contents(parts@) =~= expected);
    let list = join_variable_list(&parts);
    append_bytes(buf, list.as_slice());
}

/// Decodes items, one after the other.
fn items_from_parts<T: Serializable>(parts: &Vec<Vec<u8>>) -> (result: Result<Vec<T>, DecodeError>)
    requires
        T::fixed_len() <= usize::MAX,
    ensures
        viewed_outcome(result) == items_decoding::<T>(contents(parts@)),
        result matches Ok(items) ==> all_valid(items@),
{
    let ghost all = contents(parts@);
    let mut items: Vec<T> = Vec::new();
    assert(all.skip(0) =~= all);
    proof {
        match items_decoding::<T>(all) {
            Ok(rest) => { assert(items@ + rest =~= rest); },
            Err(_) => {},
        }
    }
    while items.len() < parts.len()
        invariant
            items.len() <= parts.len(),
            T::fixed_len() <= usize::MAX,
            all == contents(parts@),
            all_valid(items@),
            items_decoding::<T>(all) == match items_decoding::<T>(all.skip(items.len() as int)) {
                Err(error) => Err(error),
                Ok(rest) => Ok::<Seq<T>, ErrorModel>(items@ + rest),
            },
        decreases parts.len() - items.len(),
    {
        let i = items.len();
        let ghost left = all.skip(i as int);
        assert(left[0] == parts@[i as int]@);
        match T::from_ssz_bytes(parts[i].as_slice()) {
            Err(error) => {
                return Err(error);
            },
            Ok(item) => {
                let ghost before = items@;
                items.push(item);
                proof {
                    assert(all.skip(items.len() as int) =~= left.drop_first());
                    match items_decoding::<T>(left.drop_first()) {
                        Ok(rest) => {
                            assert(items@ + rest =~= before + (seq![item] + rest));
                        },
                        Err(_) => {},
                    }
                }
            },
        }
    }
    assert(all.skip(items.len() as int) =~= seq![]);
    assert(items@ + Seq::<T>::empty() =~= items@);
    Ok(items)
}

/// Decodes a list from exactly `bytes`.
pub fn list_from_bytes<T: Serializable>(bytes: &[u8]) -> (result: Result<Vec<T>, DecodeError>)
    requires
        T::fixed_len() <= usize::MAX,
        T::is_fixed() ==> T::fixed_len() > 0,
    ensures
        viewed_outcome(result) == list_decoding::<T>(bytes@),
        result matches Ok(items) ==> all_valid(items@),
{
    if T::is_ssz_fixed_len() {
        return fixed_list_from_bytes(bytes);
    }
    match split_variable_list(bytes) {
        Ok(parts) => {
            proof {
                law_lists_are_cut(bytes@, contents(parts@));
            }
            items_from_parts(&parts)
        },
        Err(error) => match items_from_parts::<T>(&leading_parts(bytes)) {
            Ok(_) => Err(error),
            Err(item_error) => Err(item_error),
        },
    }
}

} // verus!
