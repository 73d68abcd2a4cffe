//! Specialized finite-field element types for two fixed prime moduli:
//! a Mersenne prime `2^31 - 1` (one 32-bit word per element) and a
//! Montgomery-friendly prime `2^64 - 2^32 + 1` (one 64-bit word per
//! element, held in Montgomery form).  Every arithmetic kernel carries a
//! contract relating it to the canonical residue it computes.

pub mod fp31;
pub mod fp_u64;
