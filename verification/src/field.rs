//! The KoalaBear field.
//!
//! A field element is held as its canonical representative, an integer below
//! [`ORDER`].

use p3_field::{PrimeCharacteristicRing, PrimeField32};
use p3_koala_bear::KoalaBear;
use rand::RngExt;
use vstd::arithmetic::div_mod::lemma_div_denominator;
use vstd::arithmetic::power::{lemma_pow0, lemma_pow1, lemma_pow_adds, lemma_pow_positive, pow};
use vstd::prelude::*;

verus! {

/// The order of the field, `2^31 - 2^24 + 1`.
pub const ORDER: u32 = 0x7f00_0001;

/// The number of bytes in which a field element is written.
pub const NUM_BYTES: usize = 4;

/// The thread-local generator of `rand`.
#[verifier::external_type_specification]
#[verifier::external_body]
pub struct ExThreadRng(rand::rngs::ThreadRng);

/// `KoalaBear::new`: the element that any 32-bit integer denotes. The canonical
/// representative of the result is the integer's residue modulo the order.
#[verifier::external_body]
pub(crate) fn element_from_u32(x: u32) -> (element: u32)
    ensures
        element == x % ORDER,
{
    KoalaBear::new(x).as_canonical_u32()
}

/// `KoalaBear::from_u64`: the element that any 64-bit integer denotes. The
/// canonical representative of the result is the integer's residue modulo the
/// order.
#[verifier::external_body]
pub(crate) fn element_from_u64(x: u64) -> (element: u32)
    ensures
        element == x as int % ORDER as int,
{
    KoalaBear::from_u64(x).as_canonical_u32()
}

/// The `+=` of `KoalaBear`: addition modulo the order.
#[verifier::external_body]
pub(crate) fn element_sum(a: u32, b: u32) -> (element: u32)
    ensures
        element == field_sum(a, b),
{
    let mut sum = KoalaBear::new(a);
    sum += KoalaBear::new(b);
    sum.as_canonical_u32()
}

/// `RngExt::random` at `KoalaBear`: some field element. Which one is up to the
/// generator.
#[verifier::external_body]
pub(crate) fn random_element(rng: &mut rand::rngs::ThreadRng) -> (element: u32)
    ensures
        element < ORDER,
{
    rng.random::<KoalaBear>().as_canonical_u32()
}

/// The sum of the elements that `a` and `b` denote.
pub open spec fn field_sum(a: u32, b: u32) -> u32 {
    ((a + b) % (ORDER as int)) as u32
}

/// Every member of `elements` is a canonical representative.
pub open spec fn canonical(elements: Seq<u32>) -> bool {
    forall|i: int| 0 <= i < elements.len() ==> #[trigger] elements[i] < ORDER
}

/// The `count` least significant digits of `n` to the base [`ORDER`], least
/// significant first.
pub open spec fn digits(n: nat, count: nat) -> Seq<u32>
    decreases count,
{
    if count == 0 {
        seq![]
    } else {
        seq![(n % (ORDER as nat)) as u32] + digits(n / (ORDER as nat), (count - 1) as nat)
    }
}

/// The number that `elements` denote as digits to the base [`ORDER`], least
/// significant first.
pub open spec fn digits_value(elements: Seq<u32>) -> nat
    decreases elements.len(),
{
    if elements.len() == 0 {
        0
    } else {
        elements[0] as nat + (ORDER as nat) * digits_value(elements.drop_first())
    }
}

/// `ORDER` to the power of `count`.
pub open spec fn order_power(count: nat) -> nat
    decreases count,
{
    if count == 0 {
        1
    } else {
        (ORDER as nat) * order_power((count - 1) as nat)
    }
}

/// There are as many digits as asked for, each below the base.
pub proof fn lemma_digits_canonical(n: nat, count: nat)
    ensures
        digits(n, count).len() == count,
        canonical(digits(n, count)),
    decreases count,
{
    if count > 0 {
        lemma_digits_canonical(n / (ORDER as nat), (count - 1) as nat);
    }
}

/// A number below `ORDER^count` is the number that its `count` digits denote, so
/// that distinct numbers have distinct digits.
pub proof fn law_digits_value(n: nat, count: nat)
    requires
        n < order_power(count),
    ensures
        digits_value(digits(n, count)) == n,
    decreases count,
{
    if count > 0 {
        let rest = n / (ORDER as nat);
        assert(rest < order_power((count - 1) as nat)) by (nonlinear_arith)
            requires
                n < order_power(count),
                order_power(count) == (ORDER as nat) * order_power((count - 1) as nat),
                rest == n / (ORDER as nat),
        ;
        law_digits_value(rest, (count - 1) as nat);
        lemma_digits_canonical(rest, (count - 1) as nat);
        assert(digits(n, count).drop_first() =~= digits(rest, (count - 1) as nat));
    }
}

/// The digit at a place is what division by that power of the order leaves.
pub proof fn law_digit_at(n: nat, count: nat, i: int)
    requires
        0 <= i < count,
    ensures
        digits(n, count).len() == count,
        digits(n, count)[i] == (n as int / pow(0x7f00_0001, i as nat)) % 0x7f00_0001,
    decreases i,
{
    lemma_digits_canonical(n, count);
    let rest = n / (ORDER as nat);
    if i == 0 {
        lemma_pow0(0x7f00_0001);
    } else {
        law_digit_at(rest, (count - 1) as nat, i - 1);
        lemma_pow_adds(0x7f00_0001, 1, (i - 1) as nat);
        lemma_pow1(0x7f00_0001);
        lemma_pow_positive(0x7f00_0001, (i - 1) as nat);
        lemma_div_denominator(n as int, 0x7f00_0001, pow(0x7f00_0001, (i - 1) as nat));
    }
}

/// The array that holds the value everywhere.
pub(crate) fn repeated<T: Copy, const N: usize>(value: T) -> (array: [T; N])
    ensures
        forall|i: int| 0 <= i < N ==> #[trigger] array@[i] == value,
{
    [value; N]
}

/// The `N` least significant digits of `n` to the base [`ORDER`], as field
/// elements.
pub fn digits_of_u128<const N: usize>(n: u128) -> (elements: [u32; N])
    ensures
        elements@ == digits(n as nat, N as nat),
{
    let mut elements: [u32; N] = repeated(0);
    let mut rest: u128 = n;
    let mut i: usize = 0;
    assert(elements@.take(0) + digits(n as nat, N as nat) =~= digits(n as nat, N as nat));
    while i < N
        invariant
            i <= N,
            elements@.take(i as int) + digits(rest as nat, (N - i) as nat) == digits(
                n as nat,
                N as nat,
            ),
        decreases N - i,
    {
        let ghost before = elements@;
        elements[i] = element_from_u64((rest % (ORDER as u128)) as u64);
        let ghost tail = digits(rest as nat, (N - i) as nat);
        rest = rest / (ORDER as u128);
        i = i + 1;
        assert(elements@.take(i as int) =~= before.take(i - 1) + seq![tail[0]]);
        assert(elements@.take(i as int) + digits(rest as nat, (N - i) as nat) =~= before.take(i - 1)
            + tail);
    }
    assert(elements@.take(i as int) + digits(rest as nat, 0) =~= elements@);
    elements
}

} // verus!
