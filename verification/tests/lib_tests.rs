use std::collections::HashMap;

use eui::Eui48;
use eui::Eui64;
use eui::StringToEuiError;

#[test]
fn test_eui48_to_string() {
    let eui48 = Eui48::from(85204980412143);

    assert_eq!(eui48.to_string(), "4D-7E-54-97-2E-EF")
}

#[test]
fn test_eui64_to_string() {
    let eui64 = Eui64::from(5583992946972634863);

    assert_eq!(eui64.to_string(), "4D-7E-54-00-00-97-2E-EF")
}

#[test]
fn test_eui48_to_eui64() {
    let eui48 = Eui48::from(85204980412143);
    let eui64 = Eui64::from_eui48(eui48);

    assert_eq!(eui64.to_string(), "4D-7E-54-00-00-97-2E-EF")
}

#[test]
fn test_u64_from_eui48() {
    let eui48 = Eui48::from(85204980412143);
    assert_eq!(eui48.to_u64(), 85204980412143);
}

#[test]
fn test_u64_from_eui64() {
    let eui64 = Eui64::from(5583992946972634863);
    assert_eq!(eui64.to_u64(), 5583992946972634863);
}

#[test]
fn test_hash_eui48() {
    let eui48 = Eui48::from(85204980412143);

    let mut index_map: HashMap<Eui48, u8> = HashMap::new();
    index_map.insert(eui48, 1);

    assert_eq!(1, *index_map.get(&eui48).unwrap())
}

#[test]
fn test_hash_eui64() {
    let eui64 = Eui64::from(5583992946972634863);

    let mut index_map: HashMap<Eui64, u8> = HashMap::new();
    index_map.insert(eui64, 1);

    assert_eq!(1, *index_map.get(&eui64).unwrap())
}

#[test]
fn test_display_eui48() {
    let eui48 = Eui48::from(85204980412143);

    assert_eq!(eui48.to_string(), "4D-7E-54-97-2E-EF");
}

#[test]
fn test_display_eui64() {
    let eui64 = Eui64::from(5583992946972634863);

    assert_eq!(eui64.to_string(), "4D-7E-54-00-00-97-2E-EF");
}

#[test]
fn test_format_upper_hex_eui48() {
    let eui48 = Eui48::from(85204980412143);

    assert_eq!(eui48.to_hex_upper(), "4D7E54972EEF");
}

#[test]
fn test_format_upper_hex_eui64() {
    let eui64 = Eui64::from(5583992946972634863);

    assert_eq!(eui64.to_hex_upper(), "4D7E540000972EEF");
}

#[test]
fn test_format_lower_hex_eui48() {
    let eui48 = Eui48::from(85204980412143);

    assert_eq!(eui48.to_hex_lower(), "4d7e54972eef");
}

#[test]
fn test_format_lower_hex_eui64() {
    let eui64 = Eui64::from(5583992946972634863);

    assert_eq!(eui64.to_hex_lower(), "4d7e540000972eef");
}

#[test]
fn test_eui48_try_from_string() {
    let eui48 = Eui48::try_from("4D7E54972EEF").unwrap();

    assert_eq!(eui48.to_u64(), 85204980412143);
}

#[test]
fn test_eui64_try_from_string() {
    let eui64 = Eui64::try_from("4D7E540000972EEF").unwrap();

    assert_eq!(eui64.to_u64(), 5583992946972634863);
}

#[test]
fn test_eui48_try_from_string_with_separator() {
    let eui48_1 = Eui48::try_from("4D-7E-54-97-2E-EF").unwrap();
    let eui48_2 = Eui48::try_from("4D:7E:54:97:2E:EF").unwrap();

    assert_eq!(eui48_1.to_u64(), 85204980412143);
    assert_eq!(eui48_2.to_u64(), 85204980412143);
}

#[test]
fn test_eui64_try_from_string_with_separator() {
    let eui64_1 = Eui64::try_from("4D-7E-54-00-00-97-2E-EF").unwrap();
    let eui64_2 = Eui64::try_from("4D:7E:54:00:00:97:2E:EF").unwrap();

    assert_eq!(eui64_1.to_u64(), 5583992946972634863);
    assert_eq!(eui64_2.to_u64(), 5583992946972634863);
}

#[test]
fn test_eui48_try_from_invalid_length() {
    assert_eq!(
        Eui48::try_from("").err().unwrap(),
        StringToEuiError::InvalidLength { length: 0 }
    );

    assert_eq!(
        Eui48::try_from("4d7e54972e").err().unwrap(),
        StringToEuiError::InvalidLength { length: 10 }
    );

    assert_eq!(
        Eui48::try_from("4d7e54972eefef4d").err().unwrap(),
        StringToEuiError::InvalidLength { length: 16 }
    );

    assert_eq!(
        Eui48::try_from("4d7e54972eefef4da").err().unwrap(),
        StringToEuiError::InvalidLength { length: 17 }
    );
}

#[test]
fn test_eui64_try_from_invalid_length() {
    assert_eq!(
        Eui64::try_from("").err().unwrap(),
        StringToEuiError::InvalidLength { length: 0 }
    );

    assert_eq!(
        Eui64::try_from("4d7e54972eaa").err().unwrap(),
        StringToEuiError::InvalidLength { length: 12 }
    );

    assert_eq!(
        Eui64::try_from("4d7e54972eefef4ddd").err().unwrap(),
        StringToEuiError::InvalidLength { length: 18 }
    );
}

#[test]
fn test_eui48_try_from_invalid_character() {
    assert_eq!(
        Eui48::try_from("ad7e54972eja").err().unwrap(),
        StringToEuiError::InvalidChar { char: 'j' }
    );
}

#[test]
fn test_eui64_try_from_invalid_character() {
    assert_eq!(
        Eui64::try_from("ad7e54972ea721sa").err().unwrap(),
        StringToEuiError::InvalidChar { char: 's' }
    );
}

#[test]
fn test_eui48_try_from_invalid_separator_position() {
    assert_eq!(
        Eui48::try_from(":4d7e:54:97:2e:ef").err().unwrap(),
        StringToEuiError::InvalidSeparatorPlace
    );

    assert_eq!(
        Eui48::try_from("4d:7e:54:97:2eef:").err().unwrap(),
        StringToEuiError::InvalidSeparatorPlace
    );

    assert_eq!(
        Eui48::try_from("4d::7e54:97:2e:ef").err().unwrap(),
        StringToEuiError::InvalidSeparatorPlace
    );
}

#[test]
fn test_eui64_try_from_invalid_separator_position() {
    assert_eq!(
        Eui64::try_from(":4d7e:54:00:00:97:2e:ef").err().unwrap(),
        StringToEuiError::InvalidSeparatorPlace
    );

    assert_eq!(
        Eui64::try_from("4d:7e:54:00:00:97:2eef:").err().unwrap(),
        StringToEuiError::InvalidSeparatorPlace
    );

    assert_eq!(
        Eui64::try_from("4d::7e54:00:00:97:2e:ef").err().unwrap(),
        StringToEuiError::InvalidSeparatorPlace
    );
}

#[test]
fn test_eui48_try_from_string_different_separators() {
    assert_eq!(
        Eui48::try_from("4d:7e:54-97:2e:ef").err().unwrap(),
        StringToEuiError::OnlyOneSeparatorTypeExpected
    );
}

#[test]
fn test_eui64_try_from_string_different_separators() {
    assert_eq!(
        Eui64::try_from("4d:7e-54:00:00:97:2e-ef").err().unwrap(),
        StringToEuiError::OnlyOneSeparatorTypeExpected
    );
}
