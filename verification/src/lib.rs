//! Byte-slice versions of the C library's number conversions (`strtol`,
//! `strtoul`, `strtoll`, `strtoull`, `atoi`, `atol`, `atoll`) together with the
//! integer core of `strtod`/`strtof`: token recognition, hexadecimal rounding,
//! NaN payloads and the exactness test for decimal subnormals.
//!
//! The "C" locale is assumed, and a byte past the end of a slice reads as NUL.

pub mod chars;
pub mod errors;
pub mod integer;
pub mod float_format;
pub mod rounding;
pub mod hexfloat;
pub mod nan;
pub mod strto;
pub mod decimal;
pub mod laws;
pub mod scan_laws;
pub mod syntax_laws;

pub use chars::{ascii_digit, c_str_len};
pub use errors::{Errno, set_integer_errno};
pub use integer::{
    atoi, atol, atoll, strtol, strtol_n, strtol_u_e, strtoll, strtoll_n, strtoll_u_e, strtoul,
    strtoul_n, strtoul_u_e, strtoull, strtoull_n, strtoull_u_e,
};
pub use float_format::FloatFormat;
pub use hexfloat::hex;
pub use nan::{nan, strtoull_base0_whole};
pub use strto::{scan_float, FloatScan};
pub use decimal::{decimal_is_exact, decimal_outcome};
