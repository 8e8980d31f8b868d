//! Posit arithmetic on variable-width bit strings.
//!
//! A posit is a string of bits, most significant first: a sign bit, a
//! unary regime, up to two exponent bits and a fraction. The empty string
//! is zero and the single bit `1` is NaR, the value of every undefined
//! result. Every operation is specified over the bit strings themselves.

pub mod addition;
pub mod alignment;
pub mod bitmath;
pub mod buffer;
pub mod conversion;
pub mod division;
pub mod encoding;
pub mod fields;
pub mod laws;
pub mod magnitude;
pub mod multiplication;
pub mod operators;
pub mod order;
pub mod posit;
pub mod regime;

pub use crate::buffer::BitBuf;
pub use crate::buffer::MAX_BITS;
pub use crate::fields::Fields;
pub use crate::order::Relation;
pub use crate::posit::Posit;
pub use crate::posit::MAX_LEN;
pub use crate::regime::Regime;
