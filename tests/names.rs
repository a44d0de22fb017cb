use scrap2_bot::text::{extract_barrel_number, name_level_of, name_number_of};

#[test]
fn barrel_number_from_file_name() {
    assert_eq!(extract_barrel_number("Barrel 12.png"), Some(12));
    assert_eq!(extract_barrel_number("barrel_7"), Some(7));
    assert_eq!(extract_barrel_number("12abc34.png"), Some(34));
    assert_eq!(extract_barrel_number("Barrel 3.5.png"), Some(3));
}

#[test]
fn barrel_number_absent_or_too_large() {
    assert_eq!(extract_barrel_number("Empty"), None);
    assert_eq!(extract_barrel_number(".5"), None);
    assert_eq!(extract_barrel_number(""), None);
    assert_eq!(extract_barrel_number("Barrel 99999999999"), None);
    assert_eq!(extract_barrel_number("Barrel 4294967295"), Some(4294967295));
}

#[test]
fn name_number_reads_last_token() {
    assert_eq!(name_number_of("Barrel 5"), Some(5));
    assert_eq!(name_number_of("Barrel 5  "), Some(5));
    assert_eq!(name_number_of("Barrel\t17"), Some(17));
    assert_eq!(name_number_of("Barrel +7"), Some(7));
    assert_eq!(name_number_of("Barrel 007"), Some(7));
    assert_eq!(name_number_of("Barrel -7"), None);
    assert_eq!(name_number_of("Barrel 5a"), None);
    assert_eq!(name_number_of("Empty"), None);
    assert_eq!(name_number_of("   "), None);
    assert_eq!(name_number_of("Barrel 4294967296"), None);
}

#[test]
fn name_level_defaults_to_zero() {
    assert_eq!(name_level_of("Barrel 9"), 9);
    assert_eq!(name_level_of("Empty"), 0);
    assert_eq!(name_level_of("Cloud"), 0);
}
