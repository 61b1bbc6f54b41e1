//! The identifier types: a 6-byte EUI-48 and an 8-byte EUI-64 address,
//! with their numeric and cross-width conversions.

use vstd::prelude::*;
use vstd::string::StrSliceExecFns;

use crate::codec::StringToEuiError;
use crate::codec::canonical_string;
use crate::codec::canonical_text;
use crate::codec::decode_result_matches;
use crate::codec::hex_text;
use crate::codec::push_hex;
use crate::codec::string_to_eui;

verus! {

/// A 48-bit hardware identifier: exactly 6 bytes, big-endian.
#[derive(Eq, PartialEq, Copy, Clone, Debug, Hash)]
pub struct Eui48(pub [u8; 6]);

/// A 64-bit hardware identifier: exactly 8 bytes, big-endian.
#[derive(Eq, PartialEq, Copy, Clone, Debug, Hash)]
pub struct Eui64(pub [u8; 8]);

impl View for Eui48 {
    type V = Seq<u8>;

    open spec fn view(&self) -> Seq<u8> {
        self.0@
    }
}

impl View for Eui64 {
    type V = Seq<u8>;

    open spec fn view(&self) -> Seq<u8> {
        self.0@
    }
}

/// The big-endian bytes of the low 48 bits of `value`.
pub open spec fn u48_bytes(value: u64) -> Seq<u8> {
    seq![
        (value >> 40) as u8,
        (value >> 32) as u8,
        (value >> 24) as u8,
        (value >> 16) as u8,
        (value >> 8) as u8,
        value as u8,
    ]
}

/// The big-endian bytes of `value`.
pub open spec fn u64_bytes(value: u64) -> Seq<u8> {
    seq![
        (value >> 56) as u8,
        (value >> 48) as u8,
        (value >> 40) as u8,
        (value >> 32) as u8,
        (value >> 24) as u8,
        (value >> 16) as u8,
        (value >> 8) as u8,
        value as u8,
    ]
}

/// The unsigned 48-bit value held by 6 big-endian bytes.
pub open spec fn u48_of(bytes: Seq<u8>) -> u64 {
    ((bytes[0] as u64) << 40) | ((bytes[1] as u64) << 32) | ((bytes[2] as u64) << 24) | ((
    bytes[3] as u64) << 16) | ((bytes[4] as u64) << 8) | (bytes[5] as u64)
}

/// The unsigned 64-bit value held by 8 big-endian bytes.
pub open spec fn u64_of(bytes: Seq<u8>) -> u64 {
    ((bytes[0] as u64) << 56) | ((bytes[1] as u64) << 48) | ((bytes[2] as u64) << 40) | ((
    bytes[3] as u64) << 32) | ((bytes[4] as u64) << 24) | ((bytes[5] as u64) << 16) | ((
    bytes[6] as u64) << 8) | (bytes[7] as u64)
}

/// The EUI-64 mapping of a 6-byte address: the first three bytes keep their
/// places, the last three move to the end, and the two bytes between are
/// zero fill.
pub open spec fn eui64_of_eui48(b: Seq<u8>) -> Seq<u8> {
    seq![b[0], b[1], b[2], 0u8, 0u8, b[3], b[4], b[5]]
}

impl Eui48 {
    /// The low 48 bits of `value`, as 6 big-endian bytes.
    pub fn from(value: u64) -> (r: Eui48)
        ensures
            r@ == u48_bytes(value),
    {
        let b0 = (value >> 40) as u8;
        let b1 = (value >> 32) as u8;
        let b2 = (value >> 24) as u8;
        let b3 = (value >> 16) as u8;
        let b4 = (value >> 8) as u8;
        let b5 = value as u8;
        let r = Eui48([b0, b1, b2, b3, b4, b5]);
        proof {
            assert(r@ =~= u48_bytes(value));
        }
        r
    }

    /// Parse text into a 6-byte address.
    ///
    /// The input must be 12 characters (no separators) or 17 characters
    /// (a separator after every byte); any other length is rejected at
    /// once, and the scan of [`string_to_eui`] decides the rest.
    pub fn try_from(value: &str) -> (r: Result<Eui48, StringToEuiError>)
        ensures
            value@.len() != 12 && value@.len() != 17 ==> r == Result::<
                Eui48,
                StringToEuiError,
            >::Err(StringToEuiError::InvalidLength { length: value@.len() as usize }),
            value@.len() == 12 || value@.len() == 17 ==> decode_result_matches(
                value@,
                6,
                match r {
                    Ok(e) => Result::<Seq<u8>, StringToEuiError>::Ok(e@),
                    Err(err) => Result::<Seq<u8>, StringToEuiError>::Err(err),
                },
            ),
    {
        let len = value.unicode_len();
        if len != 12 && len != 17 {
            return Err(StringToEuiError::InvalidLength { length: len });
        }
        match string_to_eui(value, 6) {
            Ok(v) => {
                let e = Eui48([v[0], v[1], v[2], v[3], v[4], v[5]]);
                proof {
                    assert(e@ =~= v@);
                }
                Ok(e)
            },
            Err(err) => Err(err),
        }
    }

    /// The numeric value of the address: its 6 bytes read as one big-endian
    /// unsigned integer.
    pub fn to_u64(&self) -> (r: u64)
        ensures
            r == u48_of(self@),
    {
        ((self.0[0] as u64) << 40) | ((self.0[1] as u64) << 32) | ((self.0[2] as u64) << 24) | ((
        self.0[3] as u64) << 16) | ((self.0[4] as u64) << 8) | (self.0[5] as u64)
    }

    /// The canonical text of the address: uppercase, a hyphen between every
    /// pair of bytes.
    pub fn to_string(&self) -> (r: String)
        ensures
            r@ == canonical_text(self@),
    {
        canonical_string(self.0.as_slice())
    }

    /// The numeric value in uppercase hexadecimal, without separators or
    /// leading zeros.
    pub fn to_hex_upper(&self) -> (r: String)
        ensures
            r@ == hex_text(u48_of(self@), true),
    {
        let mut out = String::new();
        push_hex(self.to_u64(), true, &mut out);
        out
    }

    /// The numeric value in lowercase hexadecimal, without separators or
    /// leading zeros.
    pub fn to_hex_lower(&self) -> (r: String)
        ensures
            r@ == hex_text(u48_of(self@), false),
    {
        let mut out = String::new();
        push_hex(self.to_u64(), false, &mut out);
        out
    }
}

impl Eui64 {
    /// `value` as 8 big-endian bytes.
    pub fn from(value: u64) -> (r: Eui64)
        ensures
            r@ == u64_bytes(value),
    {
        let b0 = (value >> 56) as u8;
        let b1 = (value >> 48) as u8;
        let b2 = (value >> 40) as u8;
        let b3 = (value >> 32) as u8;
        let b4 = (value >> 24) as u8;
        let b5 = (value >> 16) as u8;
        let b6 = (value >> 8) as u8;
        let b7 = value as u8;
        let r = Eui64([b0, b1, b2, b3, b4, b5, b6, b7]);
        proof {
            assert(r@ =~= u64_bytes(value));
        }
        r
    }

    /// The EUI-64 mapping of a 6-byte address: the first three bytes keep
    /// their places, the last three move to the end, and bytes 3 and 4 are
    /// zero fill.
    pub fn from_eui48(eui48: Eui48) -> (r: Eui64)
        ensures
            r@ == eui64_of_eui48(eui48@),
    {
        let b = eui48.0;
        let r = Eui64([b[0], b[1], b[2], 0, 0, b[3], b[4], b[5]]);
        proof {
            assert(r@ =~= eui64_of_eui48(eui48@));
        }
        r
    }

    /// Parse text into an 8-byte address.
    ///
    /// The input must be 16 characters (no separators) or 23 characters
    /// (a separator after every byte); any other length is rejected at
    /// once, and the scan of [`string_to_eui`] decides the rest.
    pub fn try_from(value: &str) -> (r: Result<Eui64, StringToEuiError>)
        ensures
            value@.len() != 16 && value@.len() != 23 ==> r == Result::<
                Eui64,
                StringToEuiError,
            >::Err(StringToEuiError::InvalidLength { length: value@.len() as usize }),
            value@.len() == 16 || value@.len() == 23 ==> decode_result_matches(
                value@,
                8,
                match r {
                    Ok(e) => Result::<Seq<u8>, StringToEuiError>::Ok(e@),
                    Err(err) => Result::<Seq<u8>, StringToEuiError>::Err(err),
                },
            ),
    {
        let len = value.unicode_len();
        if len != 16 && len != 23 {
            return Err(StringToEuiError::InvalidLength { length: len });
        }
        match string_to_eui(value, 8) {
            Ok(v) => {
                let e = Eui64([v[0], v[1], v[2], v[3], v[4], v[5], v[6], v[7]]);
                proof {
                    assert(e@ =~= v@);
                }
                Ok(e)
            },
            Err(err) => Err(err),
        }
    }

    /// The numeric value of the address: its 8 bytes read as one big-endian
    /// unsigned integer.
    pub fn to_u64(&self) -> (r: u64)
        ensures
            r == u64_of(self@),
    {
        ((self.0[0] as u64) << 56) | ((self.0[1] as u64) << 48) | ((self.0[2] as u64) << 40) | ((
        self.0[3] as u64) << 32) | ((self.0[4] as u64) << 24) | ((self.0[5] as u64) << 16) | ((
        self.0[6] as u64) << 8) | (self.0[7] as u64)
    }

    /// The canonical text of the address: uppercase, a hyphen between every
    /// pair of bytes.
    pub fn to_string(&self) -> (r: String)
        ensures
            r@ == canonical_text(self@),
    {
        canonical_string(self.0.as_slice())
    }

    /// The numeric value in uppercase hexadecimal, without separators or
    /// leading zeros.
    pub fn to_hex_upper(&self) -> (r: String)
        ensures
            r@ == hex_text(u64_of(self@), true),
    {
        let mut out = String::new();
        push_hex(self.to_u64(), true, &mut out);
        out
    }

    /// The numeric value in lowercase hexadecimal, without separators or
    /// leading zeros.
    pub fn to_hex_lower(&self) -> (r: String)
        ensures
            r@ == hex_text(u64_of(self@), false),
    {
        let mut out = String::new();
        push_hex(self.to_u64(), false, &mut out);
        out
    }
}

} // verus!
