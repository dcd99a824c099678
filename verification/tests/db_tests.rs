use oui_db::{parse_mac_addr, OuiDb, OuiMeta, ParseOuiDbError};

fn embedded() -> OuiDb {
    OuiDb::parse_from_string(OuiDb::EMBEDDED_DB_TEXT).unwrap()
}

#[test]
fn embedded_db_builds() {
    OuiDb::parse_from_string(OuiDb::EMBEDDED_DB_TEXT).unwrap();
}

#[test]
fn match_no_long_name() {
    // 00:00:17	Oracle
    let mac = parse_mac_addr("00:00:17:aa:bb:cc").unwrap();
    assert_eq!(
        embedded().search(mac),
        Some(OuiMeta {
            short: "Oracle",
            long: None,
            comment: None,
        })
    );
}

#[test]
fn match_prefix_zeros() {
    let mac = parse_mac_addr("00:00:00:00:00:00").unwrap();
    assert_eq!(
        embedded().search(mac),
        Some(OuiMeta {
            short: "00:00:00",
            long: Some("Officially Xerox, but 0:0:0:0:0:0 is more common"),
            comment: None,
        })
    );
}

#[test]
fn match_prefix_exact() {
    // 2C:23:3A	HewlettP	Hewlett Packard
    let mac = parse_mac_addr("2c:23:3a:00:00:00").unwrap();
    assert_eq!(
        embedded().search(mac),
        Some(OuiMeta {
            short: "HewlettP",
            long: Some("Hewlett Packard"),
            comment: None,
        })
    );
}

#[test]
fn match_prefix_basic() {
    // 2C:23:3A	HewlettP	Hewlett Packard
    let mac = parse_mac_addr("2c:23:3a:aa:bb:cc").unwrap();
    assert_eq!(
        embedded().search(mac),
        Some(OuiMeta {
            short: "HewlettP",
            long: Some("Hewlett Packard"),
            comment: None,
        })
    );
}

#[test]
fn match_prefix_extended() {
    // 8C:47:6E:30:00:00/28	Shanghai	Shanghai Satellite Communication Technology Co.,Ltd
    let mac = parse_mac_addr("8c:47:6e:3a:bb:cc").unwrap();
    assert_eq!(
        embedded().search(mac),
        Some(OuiMeta {
            short: "Shanghai",
            long: Some("Shanghai Satellite Communication Technology Co.,Ltd"),
            comment: None,
        })
    );
}

#[test]
fn match_commented() {
    // 08:00:87	XyplexTe	Xyplex	# terminal servers
    let mac = parse_mac_addr("08:00:87:aa:bb:cc").unwrap();
    assert_eq!(
        embedded().search(mac),
        Some(OuiMeta {
            short: "XyplexTe",
            long: Some("Xyplex"),
            comment: Some("terminal servers"),
        })
    );
}

#[test]
fn match_unicode() {
    // 8C:1F:64:CB:20:00/36	DyncirSo	Dyncir Soluções Tecnológicas Ltda
    let mac = parse_mac_addr("8c:1f:64:cb:2b:cc").unwrap();
    assert_eq!(
        embedded().search(mac),
        Some(OuiMeta {
            short: "DyncirSo",
            long: Some("Dyncir Soluções Tecnológicas Ltda"),
            comment: None,
        })
    );
}

#[test]
fn resolve_mac_to_superprefix_when_missing_subprefix() {
    // 2C:27:9E	IEEERegi	IEEE Registration Authority, split into /28
    // blocks without one covering 2C:27:9E:F0:00:00/28
    let mac = parse_mac_addr("2c:27:9e:fa:bb:cc").unwrap();
    assert_eq!(
        embedded().search(mac),
        Some(OuiMeta {
            short: "IEEERegi",
            long: Some("IEEE Registration Authority"),
            comment: None,
        })
    );
}

#[test]
fn match_none() {
    // B0:C5:59	SamsungE ... / B0:C5:CA	IEEERegi ... and nothing covering B0:C5:5A
    let mac = parse_mac_addr("b0:c5:5a:aa:bb:cc").unwrap();
    assert_eq!(embedded().search(mac), None);
}

#[test]
fn search_same_query_twice_is_identical() {
    let db = embedded();
    let mac = parse_mac_addr("08:00:87:01:02:03").unwrap();
    let first = db.search(mac);
    let second = db.search(mac);
    assert_eq!(first, second);
    assert_eq!(db.search_prefix(mac), db.search_prefix(mac));
}

#[test]
fn build_is_order_insensitive() {
    let text_a = "08:00:87\tXyplexTe\tXyplex\t# terminal servers\n2C:23:3A\tHewlettP\tHewlett Packard\n8C:47:6E\tIEEERegi\tIEEE Registration Authority\n8C:47:6E:30:00:00/28\tShanghai\tShanghai Satellite\n";
    let text_b = "8C:47:6E:30:00:00/28\tShanghai\tShanghai Satellite\n8C:47:6E\tIEEERegi\tIEEE Registration Authority\n08:00:87\tXyplexTe\tXyplex\t# terminal servers\n2C:23:3A\tHewlettP\tHewlett Packard\n";
    let db_a = OuiDb::parse_from_string(text_a).unwrap();
    let db_b = OuiDb::parse_from_string(text_b).unwrap();
    assert_eq!(db_a.raw_prefixes(), db_b.raw_prefixes());
    for probe in [
        "08:00:87:aa:bb:cc",
        "2c:23:3a:00:00:01",
        "8c:47:6e:3a:bb:cc",
        "8c:47:6e:aa:bb:cc",
        "b0:c5:5a:aa:bb:cc",
    ] {
        let mac = parse_mac_addr(probe).unwrap();
        assert_eq!(db_a.search(mac), db_b.search(mac));
    }
}

#[test]
fn raw_prefixes_are_sorted_ascending() {
    let db = embedded();
    let all = db.raw_prefixes();
    assert_eq!(all.len(), 12);
    for w in all.windows(2) {
        assert!(w[0].0.as_int() <= w[1].0.as_int());
    }
}

#[test]
fn bad_field_count_is_reported() {
    let r = OuiDb::parse_from_string("onlyonefield\n");
    match r {
        Err(ParseOuiDbError::BadFieldCount(line, count, text)) => {
            assert_eq!(line, 0);
            assert_eq!(count, 1);
            assert_eq!(text, "onlyonefield");
        }
        other => panic!("expected BadFieldCount, got {:?}", other),
    }
}

#[test]
fn bad_prefix_is_reported_with_line() {
    let r = OuiDb::parse_from_string("08:00:87\tXyplexTe\nzz:00:00\tBroken\n");
    match r {
        Err(ParseOuiDbError::OuiParsing(line, _, text)) => {
            assert_eq!(line, 1);
            assert_eq!(text, "zz:00:00\tBroken");
        }
        other => panic!("expected OuiParsing, got {:?}", other),
    }
}

#[test]
fn duplicate_entries_are_rejected() {
    let r = OuiDb::parse_from_string("08:00:87\tXyplexTe\n08:00:87\tAgain\n");
    assert_eq!(r.unwrap_err(), ParseOuiDbError::DuplicatedEntries);
}

#[test]
fn same_address_different_length_is_no_duplicate() {
    let db = OuiDb::parse_from_string("08:00:87\tXyplexTe\n08:00:87:00:00:00/28\tFiner\tFiner Block\n").unwrap();
    let mac = parse_mac_addr("08:00:87:00:00:01").unwrap();
    assert_eq!(db.search(mac).unwrap().short, "Finer");
    let mac2 = parse_mac_addr("08:00:87:f0:00:01").unwrap();
    assert_eq!(db.search(mac2).unwrap().short, "XyplexTe");
}

#[test]
fn blank_and_comment_lines_are_skipped() {
    let db = OuiDb::parse_from_string("\n# header\n   \n08:00:87\tXyplexTe\n\n").unwrap();
    assert_eq!(db.raw_prefixes().len(), 1);
}

#[test]
fn meta_accessors_and_ownership_round_trip() {
    let db = embedded();
    let mac = parse_mac_addr("08:00:87:aa:bb:cc").unwrap();
    let meta = db.search(mac).unwrap();
    assert_eq!(*meta.manuf(), "XyplexTe");
    assert_eq!(meta.manuf_long(), Some(&"Xyplex"));
    assert_eq!(meta.comment(), Some(&"terminal servers"));
    let owned: OuiMeta<String> = meta.to_owned();
    assert_eq!(owned.as_ref(), meta);
}
