//! EUI-48 and EUI-64 hardware identifiers with a verified hexadecimal
//! text codec.
//!
//! The codec parses a hexadecimal string (with `:` or `-` byte separators,
//! or none at all) into a fixed-width byte sequence, and renders bytes back
//! into the canonical uppercase hyphen-separated form.

pub mod addr;
pub mod codec;
pub mod laws;

pub use addr::Eui48;
pub use addr::Eui64;
pub use codec::StringToEuiError;
