//! Streaming transforms for an elastic zk-SNARK prover: re-enumerable,
//! forward-only passes that reproduce the dense computation exactly. The
//! lookup path merges a base sequence with a sorted multiplicity pattern and
//! folds it into an algebraic-hash column; the matrix path folds a row-major
//! sparse matrix against an implicit, tensor-encoded challenge vector.

/// The scalar field boundary: the opaque field element and its trusted
/// arithmetic.
pub mod field;
/// The algebraic-hash fold and the lookup column builder.
pub mod hash;
/// The sorted-merge transform.
pub mod sorted;
/// The enumeration-pass abstraction and the stream error kinds.
pub mod stream;
/// The tensor-folded sparse-matrix transform and the tensor expansions.
pub mod tensor;
