//! Tweaks: what tells the uses of the hash function apart.

use crate::field::{digits, digits_of_u128, digits_value, law_digits_value, order_power, ORDER};
use vstd::prelude::*;

verus! {

/// The last byte of the tweak of a chain step.
pub const TWEAK_SEPARATOR_CHAIN: u8 = 0x00;

/// The last byte of the tweak of a tree node.
pub const TWEAK_SEPARATOR_TREE: u8 = 0x01;

/// The last byte of the tweak of a message.
pub const TWEAK_SEPARATOR_MSG: u8 = 0x02;

/// The number that stands for a step in a chain.
pub open spec fn chain_tweak(epoch: u32, chain_index: u8, pos_in_chain: u8) -> nat {
    (epoch * 0x100_0000 + chain_index * 0x1_0000 + pos_in_chain * 0x100
        + TWEAK_SEPARATOR_CHAIN) as nat
}

/// The number that stands for a node in a tree.
pub open spec fn tree_tweak(level: u8, pos_in_level: u32) -> nat {
    (level * 0x100_0000_0000 + pos_in_level * 0x100 + TWEAK_SEPARATOR_TREE) as nat
}

/// The number that stands for the message of an epoch.
pub open spec fn message_tweak(epoch: u32) -> nat {
    (epoch * 0x100 + TWEAK_SEPARATOR_MSG) as nat
}

/// The tweak of a chain step holds, from the lowest byte up, its separator, the
/// position in the chain, the index of the chain, and the epoch.
pub proof fn law_chain_tweak_bytes(epoch: u32, chain_index: u8, pos_in_chain: u8)
    ensures
        chain_tweak(epoch, chain_index, pos_in_chain) % 0x100 == 0,
        chain_tweak(epoch, chain_index, pos_in_chain) / 0x100 % 0x100 == pos_in_chain,
        chain_tweak(epoch, chain_index, pos_in_chain) / 0x1_0000 % 0x100 == chain_index,
        chain_tweak(epoch, chain_index, pos_in_chain) / 0x100_0000 == epoch,
{
}

/// The tweak of a tree node holds, from the lowest byte up, its separator, the
/// position in the level, and the level.
pub proof fn law_tree_tweak_bytes(level: u8, pos_in_level: u32)
    ensures
        tree_tweak(level, pos_in_level) % 0x100 == 1,
        tree_tweak(level, pos_in_level) / 0x100 % 0x1_0000_0000 == pos_in_level,
        tree_tweak(level, pos_in_level) / 0x100_0000_0000 == level,
{
}

/// The tweak of a message holds, from the lowest byte up, its separator and the
/// epoch.
pub proof fn law_message_tweak_bytes(epoch: u32)
    ensures
        message_tweak(epoch) % 0x100 == 2,
        message_tweak(epoch) / 0x100 == epoch,
{
}

/// Two digits hold every tweak.
proof fn lemma_tweaks_fit()
    ensures
        order_power(2) == ORDER as nat * ORDER as nat,
        0x100_0000_0000_0000 <= order_power(2),
{
    reveal_with_fuel(order_power, 3);
    assert(order_power(2) == ORDER as nat * ORDER as nat);
}

/// Distinct chain steps have distinct tweaks, from two digits on.
pub proof fn law_chain_tweaks_distinct(
    epoch: u32,
    chain_index: u8,
    pos_in_chain: u8,
    other_epoch: u32,
    other_chain_index: u8,
    other_pos_in_chain: u8,
    len: nat,
)
    requires
        len >= 2,
        digits(chain_tweak(epoch, chain_index, pos_in_chain), len) == digits(
            chain_tweak(other_epoch, other_chain_index, other_pos_in_chain),
            len,
        ),
    ensures
        epoch == other_epoch,
        chain_index == other_chain_index,
        pos_in_chain == other_pos_in_chain,
{
    lemma_tweak_value(chain_tweak(epoch, chain_index, pos_in_chain), len);
    lemma_tweak_value(chain_tweak(other_epoch, other_chain_index, other_pos_in_chain), len);
}

/// Distinct tree nodes have distinct tweaks, from two digits on.
pub proof fn law_tree_tweaks_distinct(
    level: u8,
    pos_in_level: u32,
    other_level: u8,
    other_pos_in_level: u32,
    len: nat,
)
    requires
        len >= 2,
        digits(tree_tweak(level, pos_in_level), len) == digits(
            tree_tweak(other_level, other_pos_in_level),
            len,
        ),
    ensures
        level == other_level,
        pos_in_level == other_pos_in_level,
{
    lemma_tweak_value(tree_tweak(level, pos_in_level), len);
    lemma_tweak_value(tree_tweak(other_level, other_pos_in_level), len);
}

/// Messages of distinct epochs have distinct tweaks, from two digits on.
pub proof fn law_message_tweaks_distinct(epoch: u32, other_epoch: u32, len: nat)
    requires
        len >= 2,
        digits(message_tweak(epoch), len) == digits(message_tweak(other_epoch), len),
    ensures
        epoch == other_epoch,
{
    lemma_tweak_value(message_tweak(epoch), len);
    lemma_tweak_value(message_tweak(other_epoch), len);
}

/// The tweaks of chain steps, tree nodes and messages never meet, from two
/// digits on.
pub proof fn law_tweaks_separated(
    epoch: u32,
    chain_index: u8,
    pos_in_chain: u8,
    level: u8,
    pos_in_level: u32,
    message_epoch: u32,
    len: nat,
)
    requires
        len >= 2,
    ensures
        digits(chain_tweak(epoch, chain_index, pos_in_chain), len) != digits(
            tree_tweak(level, pos_in_level),
            len,
        ),
        digits(chain_tweak(epoch, chain_index, pos_in_chain), len) != digits(
            message_tweak(message_epoch),
            len,
        ),
        digits(tree_tweak(level, pos_in_level), len) != digits(message_tweak(message_epoch), len),
{
    let chain = chain_tweak(epoch, chain_index, pos_in_chain);
    let tree = tree_tweak(level, pos_in_level);
    let message = message_tweak(message_epoch);
    lemma_tweak_value(chain, len);
    lemma_tweak_value(tree, len);
    lemma_tweak_value(message, len);
    lemma_separator((epoch * 0x1_0000 + chain_index * 0x100 + pos_in_chain) as nat, 0);
    lemma_separator((level * 0x1_0000_0000 + pos_in_level) as nat, 1);
    lemma_separator(message_epoch as nat, 2);
}

/// The separator is the last byte.
proof fn lemma_separator(n: nat, separator: nat)
    requires
        separator < 0x100,
    ensures
        (n * 0x100 + separator) % 0x100 == separator,
{
}

/// The digits of a tweak determine it.
proof fn lemma_tweak_value(tweak: nat, len: nat)
    requires
        len >= 2,
        tweak < 0x100_0000_0000_0000,
    ensures
        digits_value(digits(tweak, len)) == tweak,
{
    lemma_tweaks_fit();
    lemma_order_power_grows(2, len);
    law_digits_value(tweak, len);
}

pub(crate) proof fn lemma_order_power_grows(a: nat, b: nat)
    requires
        a <= b,
    ensures
        order_power(a) <= order_power(b),
        order_power(b) >= 1,
    decreases b,
{
    if b > 0 {
        if a < b {
            lemma_order_power_grows(a, (b - 1) as nat);
        } else {
            lemma_order_power_grows((b - 1) as nat, (b - 1) as nat);
        }
    }
}

/// The tweak of a chain step, as field elements.
pub fn chain_tweak_fe<const TWEAK_LEN: usize>(
    epoch: u32,
    chain_index: u8,
    pos_in_chain: u8,
) -> (tweak: [u32; TWEAK_LEN])
    ensures
        tweak@ == digits(chain_tweak(epoch, chain_index, pos_in_chain), TWEAK_LEN as nat),
{
    let acc: u128 = (epoch as u128) * 0x100_0000 + (chain_index as u128) * 0x1_0000 + (
    pos_in_chain as u128) * 0x100 + TWEAK_SEPARATOR_CHAIN as u128;
    digits_of_u128(acc)
}

/// The tweak of a tree node, as field elements.
pub fn tree_tweak_fe<const TWEAK_LEN: usize>(level: u8, pos_in_level: u32) -> (tweak: [u32;
    TWEAK_LEN])
    ensures
        tweak@ == digits(tree_tweak(level, pos_in_level), TWEAK_LEN as nat),
{
    let acc: u128 = (level as u128) * 0x100_0000_0000 + (pos_in_level as u128) * 0x100
        + TWEAK_SEPARATOR_TREE as u128;
    digits_of_u128(acc)
}

/// The tweak of a message, as field elements.
pub fn encode_epoch<const TWEAK_LEN: usize>(epoch: u32) -> (tweak: [u32; TWEAK_LEN])
    ensures
        tweak@ == digits(message_tweak(epoch), TWEAK_LEN as nat),
{
    let acc: u128 = (epoch as u128) * 0x100 + TWEAK_SEPARATOR_MSG as u128;
    digits_of_u128(acc)
}

} // verus!
