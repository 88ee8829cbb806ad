//! Arrays of field elements.

use crate::bytes::{
    append_u32, law_little_endian, law_read_little_endian, law_u32_read_back, read_u32, u32_at,
    u32_bytes,
};
use crate::field::{canonical, element_from_u32, random_element, repeated, ORDER};
use crate::serialization::{DecodeError, ErrorModel, Serializable};
use vstd::prelude::*;

verus! {

/// `N` field elements.
#[derive(Clone, Copy, Debug, PartialEq, Eq, PartialOrd, Ord, Hash)]
pub struct FieldArray<const N: usize> {
    elements: [u32; N],
}

impl<const N: usize> View for FieldArray<N> {
    type V = Seq<u32>;

    closed spec fn view(&self) -> Seq<u32> {
        self.elements@
    }
}

impl<const N: usize> FieldArray<N> {
    /// Every element is held as its canonical representative.
    #[verifier::type_invariant]
    pub closed spec fn well_formed(self) -> bool {
        canonical(self.elements@)
    }

    /// The array of the given elements.
    pub open spec fn of(elements: Seq<u32>) -> Self {
        choose|array: Self| array@ == elements
    }

    /// An array is the array of its elements.
    pub proof fn law_of_view(self)
        ensures
            self@.len() == N,
            Self::of(self@) == self,
    {
        let other = Self::of(self@);
        assert(self@ == self@);
        assert(other@ == self@);
        assert(other.elements =~= self.elements) by {
            assert forall|i: int| 0 <= i < N implies other.elements[i] == self.elements[i] by {
                assert(other.elements@[i] == self.elements@[i]);
            }
        }
    }

    /// The array of given elements has them, in their order.
    pub proof fn law_of(elements: Seq<u32>)
        requires
            elements.len() == N,
        ensures
            Self::of(elements)@ == elements,
    {
        let filled = lemma_array_with::<N>(elements, N as nat);
        let array = FieldArray { elements: filled };
        assert(array@ =~= elements);
    }

    /// An array is valid if its elements are canonical.
    pub proof fn law_valid(self)
        ensures
            self.valid() == canonical(self@),
    {
    }

    /// The elements that `values` denote.
    pub fn new(values: [u32; N]) -> (array: Self)
        ensures
            array@ == values@.map_values(|x: u32| x % ORDER),
            canonical(array@),
    {
        let mut elements: [u32; N] = repeated(0);
        let mut i: usize = 0;
        while i < N
            invariant
                i <= N,
                forall|k: int| 0 <= k < i ==> #[trigger] elements@[k] == values@[k] % ORDER,
            decreases N - i,
        {
            elements[i] = element_from_u32(values[i]);
            i = i + 1;
        }
        assert(elements@ =~= values@.map_values(|x: u32| x % ORDER));
        FieldArray { elements }
    }

    /// The array of elements that are canonical already.
    pub(crate) fn from_elements(elements: [u32; N]) -> (array: Self)
        requires
            canonical(elements@),
        ensures
            array@ == elements@,
            array.valid(),
    {
        FieldArray { elements }
    }

    /// The array itself, which is valid.
    pub(crate) fn known_valid(self) -> (array: Self)
        ensures
            array == self,
            array.valid(),
    {
        proof {
            use_type_invariant(&self);
        }
        self
    }

    /// The canonical representatives of the elements.
    pub fn elements(&self) -> (elements: &[u32; N])
        ensures
            elements@ == self@,
            canonical(elements@),
    {
        proof {
            use_type_invariant(self);
        }
        &self.elements
    }

    /// Some array of field elements.
    pub fn random(rng: &mut rand::rngs::ThreadRng) -> (array: Self)
        ensures
            canonical(array@),
    {
        let mut elements: [u32; N] = repeated(0);
        let mut i: usize = 0;
        while i < N
            invariant
                i <= N,
                forall|k: int| 0 <= k < N ==> #[trigger] elements@[k] < ORDER,
            decreases N - i,
        {
            elements[i] = random_element(rng);
            i = i + 1;
        }
        FieldArray { elements }
    }

    /// Whether the two arrays hold the same elements.
    pub fn equals(&self, other: &Self) -> (equal: bool)
        ensures
            equal == (*self == *other),
    {
        let mut i: usize = 0;
        while i < N
            invariant
                i <= N,
                forall|k: int| 0 <= k < i ==> #[trigger] self.elements@[k] == other.elements@[k],
            decreases N - i,
        {
            if self.elements[i] != other.elements[i] {
                return false;
            }
            i = i + 1;
        }
        assert(self.elements =~= other.elements) by {
            assert forall|k: int| 0 <= k < N implies self.elements[k] == other.elements[k] by {
                assert(self.elements@[k] == other.elements@[k]);
            }
        }
        true
    }
}

/// There is an array that starts with the given elements.
proof fn lemma_array_with<const N: usize>(elements: Seq<u32>, count: nat) -> (array: [u32; N])
    requires
        elements.len() == N,
        count <= N,
    ensures
        forall|i: int| 0 <= i < count ==> #[trigger] array@[i] == elements[i],
    decreases count,
{
    if count == 0 {
        arbitrary()
    } else {
        let before: [u32; N] = lemma_array_with(elements, (count - 1) as nat);
        let array = vstd::array::spec_array_update(before, count - 1, elements[count - 1]);
        assert(array@ =~= before@.update(count - 1, elements[count - 1]));
        array
    }
}

/// The encoding of field elements: each in four bytes, one after the other.
pub open spec fn elements_encoding(elements: Seq<u32>) -> Seq<u8> {
    Seq::new(4 * elements.len(), |k: int| u32_bytes(elements[k / 4])[k % 4])
}

/// The `count` field elements that stand in `bytes` from `at` on.
pub open spec fn elements_at(bytes: Seq<u8>, at: int, count: nat) -> Seq<u32> {
    Seq::new(count, |i: int| u32_at(bytes, at + 4 * i) % ORDER)
}

/// Reading back the encoding of canonical field elements gives them, wherever it
/// stands.
pub proof fn law_elements_read_back(bytes: Seq<u8>, at: int, elements: Seq<u32>)
    requires
        canonical(elements),
        0 <= at,
        at + 4 * elements.len() <= bytes.len(),
        bytes.subrange(at, at + 4 * elements.len()) == elements_encoding(elements),
    ensures
        elements_at(bytes, at, elements.len()) == elements,
{
    let part = bytes.subrange(at, at + 4 * elements.len());
    assert forall|i: int| 0 <= i < elements.len() implies elements_at(
        bytes,
        at,
        elements.len(),
    )[i] == elements[i] by {
        let start = at + 4 * i;
        assert forall|j: int| 0 <= j < 4 implies bytes.subrange(start, start + 4)[j] == u32_bytes(
            elements[i],
        )[j] by {
            assert((4 * i + j) / 4 == i && (4 * i + j) % 4 == j);
            assert(bytes.subrange(start, start + 4)[j] == part[4 * i + j]);
        }
        assert(bytes.subrange(start, start + 4) =~= u32_bytes(elements[i]));
        law_u32_read_back(bytes, start, elements[i]);
    }
    assert(elements_at(bytes, at, elements.len()) =~= elements);
}

/// The elements that stand in bytes are the residues, modulo the order, of the
/// little-endian integers of four bytes each.
pub proof fn law_elements_at(bytes: Seq<u8>, at: int, count: nat, i: int)
    requires
        0 <= i < count,
    ensures
        elements_at(bytes, at, count).len() == count,
        elements_at(bytes, at, count)[i] == (bytes[at + 4 * i] + 0x100 * bytes[at + 4 * i + 1]
            + 0x1_0000 * bytes[at + 4 * i + 2] + 0x100_0000 * bytes[at + 4 * i + 3])
            % 0x7f00_0001,
{
    law_read_little_endian(bytes, at + 4 * i);
}

/// The encoding of elements holds each of them as a little-endian integer of four bytes.
pub proof fn law_elements_encoding(elements: Seq<u32>, i: int)
    requires
        0 <= i < elements.len(),
    ensures
        elements_encoding(elements).len() == 4 * elements.len(),
        elements_encoding(elements)[4 * i] + 0x100 * elements_encoding(elements)[4 * i + 1]
            + 0x1_0000 * elements_encoding(elements)[4 * i + 2] + 0x100_0000 * elements_encoding(
            elements,
        )[4 * i + 3] == elements[i],
{
    law_little_endian(elements[i], 0);
    assert forall|j: int| 0 <= j < 4 implies elements_encoding(elements)[4 * i + j] == u32_bytes(
        elements[i],
    )[j] by {
        assert((4 * i + j) / 4 == i && (4 * i + j) % 4 == j);
    }
    assert(elements_encoding(elements)[4 * i + 0] == u32_bytes(elements[i])[0]);
}

impl<const N: usize> FieldArray<N> {
    /// An array is encoded element after element.
    pub proof fn law_encoding(&self, i: int)
        requires
            0 <= i < N,
        ensures
            self.encoding().len() == 4 * N,
            self.encoding()[4 * i] + 0x100 * self.encoding()[4 * i + 1] + 0x1_0000
                * self.encoding()[4 * i + 2] + 0x100_0000 * self.encoding()[4 * i + 3] == self@[i],
    {
        self.law_of_view();
        law_elements_encoding(self@, i);
    }

    /// Bytes decode to an array if and only if they are four for each element. The
    /// elements are the residues, modulo the order, of their little-endian integers.
    pub proof fn law_decoding(bytes: Seq<u8>)
        ensures
            bytes.len() != 4 * N ==> <Self as Serializable>::decoding(bytes) == Err::<
                Self,
                ErrorModel,
            >(ErrorModel::InvalidByteLength { len: bytes.len() as int, expected: 4 * N as int }),
            bytes.len() == 4 * N ==> {
                &&& <Self as Serializable>::decoding(bytes) is Ok
                &&& forall|i: int|
                    0 <= i < N ==> #[trigger] <Self as Serializable>::decoding(bytes)->Ok_0@[i] == (
                    bytes[4 * i] + 0x100 * bytes[4 * i + 1] + 0x1_0000 * bytes[4 * i + 2]
                        + 0x100_0000 * bytes[4 * i + 3]) % 0x7f00_0001
            },
    {
        if bytes.len() == 4 * N {
            Self::law_of(elements_at(bytes, 0, N as nat));
            assert forall|i: int| 0 <= i < N implies #[trigger] <Self as Serializable>::decoding(
                bytes,
            )->Ok_0@[i] == (bytes[4 * i] + 0x100 * bytes[4 * i + 1] + 0x1_0000 * bytes[4 * i + 2]
                + 0x100_0000 * bytes[4 * i + 3]) % 0x7f00_0001 by {
                law_elements_at(bytes, 0, N as nat, i);
            }
        }
    }
}

/// Reads `N` field elements from `bytes`, from `offset` on.
pub fn read_fe_array<const N: usize>(bytes: &[u8], offset: usize) -> (array: FieldArray<N>)
    requires
        offset + 4 * N <= bytes.len(),
    ensures
        array@ == elements_at(bytes@, offset as int, N as nat),
        canonical(array@),
{
    let mut elements: [u32; N] = repeated(0);
    let mut i: usize = 0;
    while i < N
        invariant
            i <= N,
            offset + 4 * N <= bytes.len(),
            forall|k: int|
                0 <= k < i ==> #[trigger] elements@[k] == elements_at(
                    bytes@,
                    offset as int,
                    N as nat,
                )[k],
        decreases N - i,
    {
        elements[i] = element_from_u32(read_u32(bytes, offset + 4 * i));
        i = i + 1;
    }
    assert(elements@ =~= elements_at(bytes@, offset as int, N as nat));
    FieldArray { elements }
}

impl<const N: usize> Serializable for FieldArray<N> {
    closed spec fn valid(&self) -> bool {
        self.well_formed()
    }

    open spec fn is_fixed() -> bool {
        true
    }

    open spec fn fixed_len() -> nat {
        4 * (N as nat)
    }

    open spec fn encoding(&self) -> Seq<u8> {
        elements_encoding(self@)
    }

    open spec fn decoding(bytes: Seq<u8>) -> Result<Self, ErrorModel> {
        if bytes.len() != 4 * N {
            Err(
                ErrorModel::InvalidByteLength { len: bytes.len() as int, expected: 4 * N as int },
            )
        } else {
            Ok(Self::of(elements_at(bytes, 0, N as nat)))
        }
    }

    proof fn law_fixed_len(&self) {
        self.law_of_view();
    }

    proof fn law_round_trip(&self) {
        self.law_of_view();
        let bytes = self.encoding();
        assert(bytes.subrange(0, 4 * N as int) =~= bytes);
        law_elements_read_back(bytes, 0, self@);
    }

    fn is_ssz_fixed_len() -> (fixed: bool) {
        true
    }

    fn ssz_fixed_len() -> (len: usize) {
        4 * N
    }

    fn ssz_bytes_len(&self) -> (len: usize) {
        proof {
            self.law_of_view();
        }
        4 * N
    }

    fn ssz_append(&self, buf: &mut Vec<u8>) {
        proof {
            self.law_of_view();
        }
        let mut i: usize = 0;
        assert(buf@ =~= old(buf)@ + self.encoding().take(0));
        while i < N
            invariant
                i <= N,
                self@.len() == N,
                self@ == self.elements@,
                buf@ == old(buf)@ + self.encoding().take(4 * i as int),
            decreases N - i,
        {
            append_u32(buf, self.elements[i]);
            assert(u32_bytes(self@[i as int]) =~= self.encoding().subrange(4 * i as int, 4 * i + 4))
                by {
                assert forall|j: int| 0 <= j < 4 implies self.encoding()[4 * i + j] == u32_bytes(
                    self@[i as int],
                )[j] by {
                    assert((4 * i + j) / 4 == i as int && (4 * i + j) % 4 == j);
                }
            }
            i = i + 1;
            assert(buf@ =~= old(buf)@ + self.encoding().take(4 * i as int));
        }
        assert(self.encoding().take(4 * i as int) =~= self.encoding());
    }

    fn from_ssz_bytes(bytes: &[u8]) -> (result: Result<Self, DecodeError>) {
        if bytes.len() != 4 * N {
            return Err(DecodeError::InvalidByteLength { len: bytes.len(), expected: 4 * N });
        }
        let array = read_fe_array::<N>(bytes, 0);
        proof {
            array.law_of_view();
        }
        Ok(array)
    }
}

} // verus!
