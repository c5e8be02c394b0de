//! Turns a payload of whitespace-separated literals (binary, hexadecimal,
//! decimal, or `ASCII(...)` markers) into one byte sequence.

pub mod ascii;
pub mod binary;
pub mod convert;
pub mod decimal;
pub mod digits;
pub mod error;
pub mod hexadecimal;
pub mod pattern;

pub use ascii::parse_str_ascii;
pub use binary::parse_binary;
pub use convert::{convert_token, convert_tokens, str_to_bytes};
pub use decimal::parse_decimal;
pub use error::{ConvertError, ErrorKind};
pub use hexadecimal::parse_hexadecimal;
pub use pattern::{is_binary, is_decimal, is_hexadecimal, is_str_ascii};
