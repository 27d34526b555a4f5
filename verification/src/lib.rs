//! Fixed-point numeric support library: the exact textual-literal to binary
//! conversion engine (correctly rounded parsing of decimal, binary, octal and
//! hexadecimal numerals into fixed-width bit patterns), the non-owning
//! digit-run views that back a compile-time literal decomposer, and the bit
//! representation of the quadruple-precision binary128 format.

pub mod arith;
pub mod bytes;
pub mod digits;
pub mod dec;
pub mod f128;
pub mod from_str;
pub mod laws;
pub mod nums;
pub mod radix;
pub mod wide;

pub use crate::arith::round_half_even;
pub use crate::f128::F128;
pub use crate::from_str::ParseFixedError;
