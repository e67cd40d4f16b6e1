//! Fixed-width signed big integers built over an unsigned digit-limb
//! magnitude, with checked arithmetic, conversions to and from native
//! integers, a sign-aware total ordering, and IEEE-754-style floating-point
//! constant derivation by pure bit manipulation.

pub mod vals;
pub mod uint;
pub mod signed;
pub mod checked;
pub mod ordering;
pub mod convert;
pub mod float;
