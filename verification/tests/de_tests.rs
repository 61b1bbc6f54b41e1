//! Decoding behaviour as a serialization framework's string visitor sees
//! it: the same inputs, with the typed errors the codec reports.

use eui::Eui48;
use eui::Eui64;
use eui::StringToEuiError;

#[test]
fn test_eui48_deserialize_lowercase() {
    assert_eq!(
        Eui48::try_from("4d7e54972eef").unwrap(),
        Eui48::from(85204980412143)
    );
}

#[test]
fn test_eui48_deserialize_uppercase() {
    assert_eq!(
        Eui48::try_from("4D7E54972EEF").unwrap(),
        Eui48::from(85204980412143)
    );
}

#[test]
fn test_eui64_deserialize_lowercase() {
    assert_eq!(
        Eui64::try_from("4d7e540000972eef").unwrap(),
        Eui64::from(5583992946972634863)
    );
}

#[test]
fn test_eui64_deserialize_uppercase() {
    assert_eq!(
        Eui64::try_from("4D7E540000972EEF").unwrap(),
        Eui64::from(5583992946972634863)
    );
}

#[test]
fn test_eui48_deserialize_invalid_length() {
    assert_eq!(
        Eui48::try_from("4d7e54972e").err().unwrap(),
        StringToEuiError::InvalidLength { length: 10 }
    );

    assert_eq!(
        Eui48::try_from("4d7e54972eefef4d").err().unwrap(),
        StringToEuiError::InvalidLength { length: 16 }
    );

    assert_eq!(
        Eui48::try_from("4d7e54972eefef4da").err().unwrap(),
        StringToEuiError::InvalidLength { length: 17 }
    );
}

#[test]
fn test_eui64_deserialize_invalid_length() {
    assert_eq!(
        Eui64::try_from("4d7e54972eaa").err().unwrap(),
        StringToEuiError::InvalidLength { length: 12 }
    );

    assert_eq!(
        Eui64::try_from("4d7e54972eefef4ddd").err().unwrap(),
        StringToEuiError::InvalidLength { length: 18 }
    );
}

#[test]
fn test_eui48_deserialize_invalid_character() {
    assert_eq!(
        Eui48::try_from("ad7e54972esa").err().unwrap(),
        StringToEuiError::InvalidChar { char: 's' }
    );
}

#[test]
fn test_eui64_deserialize_invalid_character() {
    assert_eq!(
        Eui64::try_from("ad7e54972ea721sa").err().unwrap(),
        StringToEuiError::InvalidChar { char: 's' }
    );
}

#[test]
fn test_eui48_deserialize_with_separator() {
    assert_eq!(
        Eui48::try_from("4d:7e:54:97:2e:ef").unwrap(),
        Eui48::from(85204980412143)
    );

    assert_eq!(
        Eui48::try_from("4d-7e-54-97-2e-ef").unwrap(),
        Eui48::from(85204980412143)
    );
}

#[test]
fn test_eui64_deserialize_with_separator() {
    assert_eq!(
        Eui64::try_from("4d:7e:54:00:00:97:2e:ef").unwrap(),
        Eui64::from(5583992946972634863)
    );

    assert_eq!(
        Eui64::try_from("4d-7e-54-00-00-97-2e-ef").unwrap(),
        Eui64::from(5583992946972634863)
    );
}

#[test]
fn test_eui48_deserialize_invalid_separator_position() {
    assert_eq!(
        Eui48::try_from(":4d7e:54:97:2e:ef").err().unwrap(),
        StringToEuiError::InvalidSeparatorPlace
    );

    assert_eq!(
        Eui48::try_from("4d:7e:54:97:2eef:").err().unwrap(),
        StringToEuiError::InvalidSeparatorPlace
    );

    assert_eq!(
        Eui48::try_from("4d::7e54:97:2e:ef").err().unwrap(),
        StringToEuiError::InvalidSeparatorPlace
    );
}

#[test]
fn test_eui64_deserialize_invalid_separator_position() {
    assert_eq!(
        Eui64::try_from(":4d7e:54:00:00:97:2e:ef").err().unwrap(),
        StringToEuiError::InvalidSeparatorPlace
    );

    assert_eq!(
        Eui64::try_from("4d:7e:54:00:00:97:2eef:").err().unwrap(),
        StringToEuiError::InvalidSeparatorPlace
    );

    assert_eq!(
        Eui64::try_from("4d::7e54:00:00:97:2e:ef").err().unwrap(),
        StringToEuiError::InvalidSeparatorPlace
    );
}

#[test]
fn test_eui48_deserialize_different_separators() {
    assert_eq!(
        Eui64::try_from("4d:7e-54:00:00:97:2e-ef").err().unwrap(),
        StringToEuiError::OnlyOneSeparatorTypeExpected
    );
}
