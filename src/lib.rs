//! Binary codec for the NUMERIC column type of a relational database: an
//! arbitrary-precision decimal is packed into base-10000 digit groups behind a
//! fixed header, and unpacked again.

pub mod bignum;
pub mod groups;
pub mod laws;
pub mod numeric;
pub mod order;
pub mod wire;
