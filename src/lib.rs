//! Data structures of a Sonic/KZG-style polynomial commitment scheme: committer and
//! verifier keys with degree-bound support, prepared forms, labeled commitments, linear
//! combinations of committed polynomials, query sets, evaluations and batch proofs.
//!
//! The structures are generic over the algebra they carry. The traits in [`algebra`]
//! describe what the structures need of a field, a group and a canonical encoding;
//! [`fp`] gives one verified instance of them.

pub mod bytes;
pub mod algebra;
pub mod fp;
pub mod digest;
pub mod basis_map;
pub mod key_format;
pub mod committer_key;
pub mod linear_combination;
pub mod verifier_key;
pub mod polynomial;
pub mod commitment;
pub mod query;
pub mod batch_proof;
