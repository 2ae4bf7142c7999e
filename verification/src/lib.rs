//! Fixed-width unsigned and signed big integers with digit-array storage,
//! plus a software floating-point layer over the same bit storage.
pub mod bint;
pub mod buint;
pub mod digit;
pub mod errors;
pub mod float;
pub mod radix;
pub mod value;

pub use bint::BInt;
pub use buint::BUint;
pub use errors::{IntErrorKind, ParseIntError, TryFromIntError};
pub use float::{Float, FpCategory};
