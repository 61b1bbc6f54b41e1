//! The canonical text handed to a serialization framework's string encoder.

use eui::Eui48;
use eui::Eui64;

#[test]
fn test_eui48_serialize() {
    let eui48 = Eui48::from(85204980412143);
    assert_eq!(eui48.to_string(), "4D-7E-54-97-2E-EF");
}

#[test]
fn test_eui64_serialize() {
    let eui64 = Eui64::from(5583992946972634863);
    assert_eq!(eui64.to_string(), "4D-7E-54-00-00-97-2E-EF");
}
