//! Generalized XMSS: a synchronized, hash-based signature scheme built from an
//! incomparable encoding, a tweakable hash and a pseudorandom function.

pub mod array;
pub mod bytes;
pub mod field;
pub mod generalized_xmss;
pub mod inc_encoding;
pub mod message_hash;
pub mod poseidon;
pub mod prf;
pub mod serialization;
pub mod standalone;
pub mod tree;
pub mod tree_encoding;
pub mod tweak;
pub mod tweak_hash;
pub mod xmss_encoding;
