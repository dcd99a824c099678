use oui_db::{parse_mac_addr, parse_mac_addr_extend, Oui, ParseMacError, ParseOuiError};

#[test]
fn parse_full_mac_value() {
    let mac = parse_mac_addr("08:00:2b:01:02:03").unwrap();
    assert_eq!(Oui::from_addr(mac).as_int(), 0x08002b010203);
}

#[test]
fn parse_is_case_and_separator_insensitive() {
    let canonical = parse_mac_addr("aa:bb:cc:dd:ee:ff").unwrap();
    for variant in [
        "AA-BB-CC-DD-EE-FF",
        "aa.bb.CC:dd-EE:ff",
        "AABBCCDDEEFF",
        "0xAABBCCDDEEFF",
        "aabb.ccdd.eeff",
    ] {
        let mac = parse_mac_addr(variant).unwrap();
        assert_eq!(mac, canonical);
        assert_eq!(Oui::from_addr(mac).as_int(), 0xAABBCCDDEEFF);
    }
}

#[test]
fn short_input_without_zero_extend_fails() {
    for short in ["aa:bb:cc", "a", "aa-bb-cc-dd-ee", ""] {
        match parse_mac_addr(short) {
            Err(ParseMacError::InvalidLength(s)) => assert_eq!(s, short),
            other => panic!("expected InvalidLength, got {:?}", other),
        }
    }
}

#[test]
fn too_many_digits_fail() {
    match parse_mac_addr("00:11:22:33:44:55:66") {
        Err(ParseMacError::InvalidLength(s)) => assert_eq!(s, "00:11:22:33:44:55:66"),
        other => panic!("expected InvalidLength, got {:?}", other),
    }
}

#[test]
fn invalid_character_is_reported() {
    match parse_mac_addr("0x00:11:2z:33:44:55") {
        Err(ParseMacError::InvalidCharacter(s, c)) => {
            // the 0x marker is stripped before scanning
            assert_eq!(s, "00:11:2z:33:44:55");
            assert_eq!(c, 'z');
        }
        other => panic!("expected InvalidCharacter, got {:?}", other),
    }
}

#[test]
fn zero_extend_fills_trailing_zeros() {
    let mac = parse_mac_addr_extend("2C:23:3A", true).unwrap();
    assert_eq!(mac, parse_mac_addr("2c:23:3a:00:00:00").unwrap());
}

#[test]
fn prefix_parse_defaults_to_24_bits() {
    let p = Oui::from_str("2C:23:3A").unwrap();
    assert_eq!(p.length(), 24);
    assert_eq!(p.as_int(), 0x2C233A000000);
}

#[test]
fn prefix_mask_has_leading_ones() {
    // parsing "AA:BB:CC/28" and re-deriving its mask yields 28 leading one-bits
    let p = Oui::from_str("AA:BB:CC/28").unwrap();
    assert_eq!(p.length(), 28);
    assert_eq!(p.mask(), 0xFFFF_FFF0_0000);
    assert_eq!(p.mask().count_ones(), 28);
}

#[test]
fn prefix_length_out_of_range_is_rejected() {
    match Oui::from_str("AA:BB:CC/50") {
        Err(ParseOuiError::PrefixLengthValue(l, s)) => {
            assert_eq!(l, 50);
            assert_eq!(s, "AA:BB:CC/50");
        }
        other => panic!("expected PrefixLengthValue, got {:?}", other),
    }
    assert!(matches!(
        Oui::from_str("AA:BB:CC/12"),
        Err(ParseOuiError::PrefixLengthValue(12, _))
    ));
}

#[test]
fn prefix_length_not_numeric_is_rejected() {
    match Oui::from_str("AA:BB:CC/abc") {
        Err(ParseOuiError::PrefixLengthParsing(s)) => assert_eq!(s, "AA:BB:CC/abc"),
        other => panic!("expected PrefixLengthParsing, got {:?}", other),
    }
}

#[test]
fn prefix_bad_mac_portion_is_wrapped() {
    assert!(matches!(
        Oui::from_str("zz:00:00/24"),
        Err(ParseOuiError::MacParsing(ParseMacError::InvalidCharacter(_, 'z')))
    ));
}

#[test]
fn containment_follows_mask_nesting() {
    let coarse = Oui::from_str("AA:BB:CC").unwrap();
    let fine = Oui::from_str("AA:BB:CC:D0:00:00/28").unwrap();
    let inside = Oui::from_addr(parse_mac_addr("aa:bb:cc:dd:ee:ff").unwrap());
    let outside = Oui::from_addr(parse_mac_addr("aa:bb:cd:00:00:00").unwrap());
    assert!(coarse.contains(&fine));
    assert!(coarse.contains(&inside));
    assert!(fine.contains(&inside));
    assert!(!fine.contains(&coarse));
    assert!(!coarse.contains(&outside));
}

#[test]
fn from_int_enforces_48_bits() {
    let p = Oui::from_int(0x08002b010203).unwrap();
    assert_eq!(p.as_int(), 0x08002b010203);
    assert_eq!(p.length(), 48);
    assert!(matches!(
        Oui::from_int(0x1_0000_0000_0000),
        Err(ParseOuiError::InvalidIntegerValue(0x1_0000_0000_0000))
    ));
}

#[test]
fn with_length_validates_range() {
    let p = Oui::from_int(0x08002b000000).unwrap();
    assert_eq!(p.with_length(28).unwrap().length(), 28);
    assert!(matches!(
        p.with_length(49),
        Err(ParseOuiError::PrefixLengthValue(49, _))
    ));
}

#[test]
fn mac_round_trips_through_prefix() {
    let mac = parse_mac_addr("08:00:2b:01:02:03").unwrap();
    let p = Oui::from_addr(mac);
    assert_eq!(p.as_mac(), mac);
}
