# leansig

Generalized XMSS: a synchronized, hash-based signature scheme, built from any
incomparable encoding, any tweakable hash function and any pseudorandom function.
Instances over the KoalaBear field use the Poseidon1 permutations of Plonky3.

The library under `src/` is verified with Verus.

- `bytes`, `serialization`: little-endian integers and the SSZ format.
- `field`, `array`: field elements and arrays of them.
- `poseidon`, `tweak`, `tweak_hash`: compression, sponge, tweaks, chains and nodes.
- `message_hash`, `inc_encoding`: from messages to codewords.
- `prf`: the pseudorandom function behind keys and signatures.
- `tree`, `tree_encoding`: hash trees, their openings and their byte format.
- `generalized_xmss`, `xmss_encoding`: keys, signatures and their byte format.
- `standalone`: exported signatures and a verifier with fixed parameters.

`app/` is a program that verifies an exported signature or exports one.
