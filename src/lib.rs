//! A UTXO transaction circuit for decentralized private computation.
//!
//! The library lays out, over a constraint system of its own, the
//! constraints that make a multi-input, multi-output private transaction
//! valid: record membership, nullifiers, diversified addresses, output
//! nonces, the aggregated authorization key, the fee balance and the
//! local-data and predicate commitments. The cryptographic gadgets (sponge,
//! commitment, Merkle path, group addition, ...) are gates whose meaning is a
//! parameter of satisfiability, so every property proved here holds whatever
//! primitives a backend plugs in.
pub mod field;
pub mod circuit;
pub mod records;
pub mod gadgets;
pub mod utxo;
pub mod errors;
