use askalono::{Error, LicenseType, Store, TextData};

fn doc(id: &str, text: &str, deprecated: bool, header: Option<&str>) -> String {
    let mut d = format!(
        "{{\"licenseId\": {:?}, \"licenseText\": {:?}, \"isDeprecatedLicenseId\": {}",
        id, text, deprecated
    );
    if let Some(h) = header {
        d.push_str(&format!(", \"standardLicenseHeader\": {:?}", h));
    }
    d.push('}');
    d
}

#[test]
fn loads_a_license_with_its_header() {
    let mut store = Store::new();
    let d = doc("Lic-1.0", "the full text of the license", false, Some("a short header"));
    assert_eq!(store.load_spdx_document(&d, false), Ok(()));
    assert_eq!(store.licenses(), vec!["Lic-1.0".to_string()]);
    let entry = store.get_entry("Lic-1.0").unwrap();
    assert!(!entry.original.has_text());
    assert_eq!(entry.headers.len(), 1);
    assert!(!entry.headers[0].has_text());
    let m = store.analyze(&TextData::new("a short header")).unwrap();
    assert_eq!(m.license_type, LicenseType::Header);
}

#[test]
fn deprecated_licenses_are_skipped() {
    let mut store = Store::new();
    let d = doc("Old-1.0", "some text here", true, None);
    assert_eq!(store.load_spdx_document(&d, true), Ok(()));
    assert!(store.is_empty());
}

#[test]
fn same_text_becomes_an_alias() {
    let mut store = Store::new();
    store
        .load_spdx_document(&doc("A-1.0", "identical license words", false, None), true)
        .unwrap();
    store
        .load_spdx_document(&doc("A-1.0-only", "identical license words", false, None), true)
        .unwrap();
    assert_eq!(store.len(), 1);
    assert_eq!(store.aliases("A-1.0").unwrap(), &vec!["A-1.0-only".to_string()]);
    assert!(store.get_original("A-1.0").unwrap().has_text());
}

#[test]
fn missing_fields_are_errors() {
    let mut store = Store::new();
    assert_eq!(
        store.load_spdx_document("{\"licenseText\": \"t\", \"isDeprecatedLicenseId\": false}", true),
        Err(Error::MissingField)
    );
    assert_eq!(
        store.load_spdx_document("{\"licenseId\": \"X\", \"licenseText\": \"t\"}", true),
        Err(Error::MissingField)
    );
    assert_eq!(
        store.load_spdx_document("{\"licenseId\": \"X\", \"isDeprecatedLicenseId\": false}", true),
        Err(Error::MissingField)
    );
    assert_eq!(store.load_spdx_document("not json", true), Err(Error::MissingField));
    assert!(store.is_empty());
}

#[test]
fn loading_twice_keeps_names_and_texts() {
    let docs = [
        doc("B-1.0", "first license body words", false, Some("first header")),
        doc("C-2.0", "second license body words", false, None),
    ];
    let mut store = Store::new();
    for d in &docs {
        store.load_spdx_document(d, false).unwrap();
    }
    let names = store.licenses();
    for d in &docs {
        store.load_spdx_document(d, false).unwrap();
    }
    assert_eq!(store.licenses(), names);
    assert_eq!(store.aliases("B-1.0").unwrap().len(), 0);
    assert_eq!(store.aliases("C-2.0").unwrap().len(), 0);
    let m = store.analyze(&TextData::new("second license body words")).unwrap();
    assert_eq!(m.name, "C-2.0");
    assert_eq!(store.get_entry("B-1.0").unwrap().headers.len(), 1);
}

#[test]
fn alias_is_recorded_once() {
    let mut store = Store::new();
    let first = doc("D-1.0", "shared license words here", false, None);
    let second = doc("D-1.0-only", "shared license words here", false, None);
    for d in [&first, &second, &first, &second] {
        store.load_spdx_document(d, true).unwrap();
    }
    assert_eq!(store.len(), 1);
    assert_eq!(store.aliases("D-1.0").unwrap(), &vec!["D-1.0-only".to_string()]);
}

#[test]
fn headers_keep_text_with_the_license() {
    let mut store = Store::new();
    let d = doc("E-1.0", "the body of the license", false, Some("the header of it"));
    store.load_spdx_document(&d, true).unwrap();
    let entry = store.get_entry("E-1.0").unwrap();
    assert!(entry.original.has_text());
    assert!(entry.headers[0].has_text());
}
