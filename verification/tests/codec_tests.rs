//! The generic decoder and encoder on their own, and the round-trip,
//! case, and truncation behaviour of the identifier types.

use eui::codec::canonical_string;
use eui::codec::string_to_eui;
use eui::codec::to_hexadecimal;
use eui::Eui48;
use eui::Eui64;
use eui::StringToEuiError;

#[test]
fn test_string_to_eui_plain() {
    assert_eq!(
        string_to_eui("4d7e54972eef", 6).unwrap(),
        vec![0x4d, 0x7e, 0x54, 0x97, 0x2e, 0xef]
    );
}

#[test]
fn test_string_to_eui_short_input_zero_fills() {
    assert_eq!(string_to_eui("4d", 6).unwrap(), vec![0x4d, 0, 0, 0, 0, 0]);
    assert_eq!(string_to_eui("4", 6).unwrap(), vec![0x40, 0, 0, 0, 0, 0]);
    assert_eq!(string_to_eui("", 6).unwrap(), vec![0, 0, 0, 0, 0, 0]);
}

#[test]
fn test_string_to_eui_too_many_digits() {
    assert_eq!(
        string_to_eui("4d7e54972eefaa", 6).err().unwrap(),
        StringToEuiError::InvalidLength { length: 14 }
    );

    assert_eq!(
        string_to_eui("4d:7e:54:97:2e:ef:aa", 6).err().unwrap(),
        StringToEuiError::InvalidLength { length: 14 }
    );
}

#[test]
fn test_string_to_eui_zero_width() {
    assert_eq!(string_to_eui("", 0).unwrap(), Vec::<u8>::new());
    assert_eq!(
        string_to_eui("a", 0).err().unwrap(),
        StringToEuiError::InvalidLength { length: 1 }
    );
}

#[test]
fn test_string_to_eui_sparse_separators() {
    assert_eq!(
        string_to_eui("4d7e5497-2e-ef", 6).unwrap(),
        vec![0x4d, 0x7e, 0x54, 0x97, 0x2e, 0xef]
    );
}

#[test]
fn test_to_hexadecimal_matches_string_to_eui() {
    assert_eq!(
        to_hexadecimal("4d:7e:54:97:2e:ef", 6).unwrap(),
        vec![0x4d, 0x7e, 0x54, 0x97, 0x2e, 0xef]
    );

    assert_eq!(
        to_hexadecimal("ad7e54972eja", 6).err().unwrap(),
        StringToEuiError::InvalidChar { char: 'j' }
    );
}

#[test]
fn test_canonical_string_of_slices() {
    assert_eq!(canonical_string(&[]), "");
    assert_eq!(canonical_string(&[0x4d]), "4D");
    assert_eq!(canonical_string(&[0x4d, 0x7e]), "4D-7E");
    assert_eq!(canonical_string(&[0x00, 0x0f, 0xf0]), "00-0F-F0");
}

#[test]
fn test_eui48_text_round_trip() {
    let eui48 = Eui48::from(85204980412143);
    assert_eq!(Eui48::try_from(eui48.to_string().as_str()).unwrap(), eui48);

    let zero = Eui48::from(0);
    assert_eq!(Eui48::try_from(zero.to_string().as_str()).unwrap(), zero);
}

#[test]
fn test_eui64_text_round_trip() {
    let eui64 = Eui64::from(5583992946972634863);
    assert_eq!(Eui64::try_from(eui64.to_string().as_str()).unwrap(), eui64);

    let full = Eui64::from(u64::MAX);
    assert_eq!(Eui64::try_from(full.to_string().as_str()).unwrap(), full);
}

#[test]
fn test_eui48_integer_round_trip() {
    assert_eq!(Eui48::from(85204980412143).to_u64(), 85204980412143);
    assert_eq!(Eui48::from(0).to_u64(), 0);
    assert_eq!(Eui48::from(0xFFFF_FFFF_FFFF).to_u64(), 0xFFFF_FFFF_FFFF);
}

#[test]
fn test_eui64_integer_round_trip() {
    assert_eq!(Eui64::from(5583992946972634863).to_u64(), 5583992946972634863);
    assert_eq!(Eui64::from(0).to_u64(), 0);
    assert_eq!(Eui64::from(u64::MAX).to_u64(), u64::MAX);
}

#[test]
fn test_eui48_from_truncates_to_48_bits() {
    assert_eq!(Eui48::from(0x1_0000_0000_0005).to_u64(), 5);
}

#[test]
fn test_decode_case_insensitive_pairs() {
    assert_eq!(
        Eui48::try_from("4d7e54972eef").unwrap(),
        Eui48::try_from("4D7E54972EEF").unwrap()
    );

    assert_eq!(
        Eui48::try_from("4d-7e-54-97-2e-eF").unwrap(),
        Eui48::try_from("4D-7E-54-97-2E-Ef").unwrap()
    );
}

#[test]
fn test_separator_forms_agree() {
    let plain = Eui48::try_from("4D7E54972EEF").unwrap();
    let hyphen = Eui48::try_from("4D-7E-54-97-2E-EF").unwrap();
    let colon = Eui48::try_from("4D:7E:54:97:2E:EF").unwrap();

    assert_eq!(plain, hyphen);
    assert_eq!(plain, colon);
    assert_eq!(plain.0, [0x4D, 0x7E, 0x54, 0x97, 0x2E, 0xEF]);
}

#[test]
fn test_trailing_separator_at_plain_length_is_accepted() {
    // Twelve characters pass the length gate, and a separator directly
    // after the eleventh digit sits after a completed byte, so the scan
    // accepts it; the missing low nibble of the last byte stays zero.
    let eui48 = Eui48::try_from("4d7e54972ee:").unwrap();
    assert_eq!(eui48.to_u64(), 0x4d7e54972ee0);
}

#[test]
fn test_hex_accessors_drop_leading_zeros() {
    assert_eq!(Eui48::from(255).to_hex_upper(), "FF");
    assert_eq!(Eui48::from(255).to_hex_lower(), "ff");
    assert_eq!(Eui48::from(0).to_hex_upper(), "0");
    assert_eq!(Eui64::from(0).to_hex_lower(), "0");
}

#[test]
fn test_eui64_from_eui48_zero_fill() {
    let eui64 = Eui64::from_eui48(Eui48::from(85204980412143));
    assert_eq!(eui64.0, [0x4D, 0x7E, 0x54, 0x00, 0x00, 0x97, 0x2E, 0xEF]);
    assert_eq!(eui64.to_u64(), 5583992946972634863);
}
