//! Exact arithmetic over the prime field GF(3 * 2^30 + 1) and univariate
//! polynomial algebra over that field, with verified contracts for every
//! operation.

mod field;
mod poly;
mod poly_laws;
mod util;

pub use field::FieldElement;
pub use poly::Polynomial;
pub use util::remove_trailing_elements;
pub use field::GENERATOR_VALUE;
pub use field::MODULUS;
