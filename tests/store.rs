use askalono::{Error, LicenseType, Score, Store, TextData};

fn as_f32(s: Score) -> f32 {
    s.numerator() as f32 / s.denominator() as f32
}

#[test]
fn empty_match() {
    let mut store = Store::new();
    store.add_license("license-1".to_string(), TextData::new("aaaaa\nbbbbb\nccccc"));
    let text = TextData::new("");
    let matched = store.analyze(&text).unwrap();

    assert_eq!(0f32, as_f32(matched.score));
}

#[test]
fn analyze_on_empty_store_fails() {
    let store = Store::new();
    assert!(store.is_empty());
    assert_eq!(store.analyze(&TextData::new("anything")).err(), Some(Error::NoMatch));
}

#[test]
fn add_replace_and_list_licenses() {
    let mut store = Store::new();
    store.add_license("b".to_string(), TextData::new("one two three"));
    store.add_license("a".to_string(), TextData::new("four five six"));
    store.add_license("b".to_string(), TextData::new("seven eight nine"));
    assert_eq!(store.len(), 2);
    assert_eq!(store.licenses(), vec!["b".to_string(), "a".to_string()]);
    let original = store.get_original("b").unwrap();
    assert_eq!(original.text_processed(), Some("seven eight nine"));
    assert!(store.get_original("c").is_none());
}

#[test]
fn variants_and_aliases() {
    let mut store = Store::new();
    store.add_license("x".to_string(), TextData::new("full license text here"));
    assert_eq!(
        store.add_variant("y", LicenseType::Header, TextData::new("h")),
        Err(Error::UnknownLicense)
    );
    assert_eq!(
        store.add_variant("x", LicenseType::Original, TextData::new("h")),
        Err(Error::InvalidVariant)
    );
    assert_eq!(
        store.add_variant("x", LicenseType::Header, TextData::new("short notice of it")),
        Ok(())
    );
    assert_eq!(
        store.add_variant("x", LicenseType::Alternate, TextData::new("full license text there")),
        Ok(())
    );
    assert_eq!(store.aliases("x").unwrap().len(), 0);
    store.add_license("w".to_string(), TextData::new("another text"));
    assert_eq!(store.aliases("w"), Ok(&vec![]));
    assert_eq!(store.set_aliases("x", vec!["x-old".to_string()]), Ok(()));
    assert_eq!(store.aliases("x").unwrap(), &vec!["x-old".to_string()]);
    assert_eq!(store.aliases("z").err(), Some(Error::UnknownLicense));
    assert_eq!(store.set_aliases("z", vec![]), Err(Error::UnknownLicense));

    let m = store.analyze(&TextData::new("short notice of it")).unwrap();
    assert_eq!(m.name, "x");
    assert_eq!(m.license_type, LicenseType::Header);
    assert_eq!(as_f32(m.score), 1.0);

    let m = store.analyze(&TextData::new("full license text there")).unwrap();
    assert_eq!(m.license_type, LicenseType::Alternate);
}

#[test]
fn ties_go_to_the_first_added() {
    let mut store = Store::new();
    store.add_license("first".to_string(), TextData::new("same words here"));
    store.add_license("second".to_string(), TextData::new("same words here"));
    let m = store.analyze(&TextData::new("same words here")).unwrap();
    assert_eq!(m.name, "first");
    assert_eq!(m.license_type, LicenseType::Original);
}

#[test]
fn header_detection() {
    let header = "Licensed under the Apache License, Version 2.0 (the \"License\");\n\
you may not use this file except in compliance with the License.\n\
You may obtain a copy of the License at\n\
\n\
    http://www.apache.org/licenses/LICENSE-2.0\n\
\n\
Unless required by applicable law or agreed to in writing, software\n\
distributed under the License is distributed on an \"AS IS\" BASIS,\n\
WITHOUT WARRANTIES OR CONDITIONS OF ANY KIND, either express or implied.\n\
See the License for the specific language governing permissions and\n\
limitations under the License.";
    let mut store = Store::new();
    store.add_license(
        "Apache-2.0".to_string(),
        TextData::new("Apache License\nVersion 2.0, January 2004\nTERMS AND CONDITIONS FOR USE, REPRODUCTION, AND DISTRIBUTION"),
    );
    store.add_license("MIT".to_string(), TextData::new("Permission is hereby granted, free of charge"));
    store
        .add_variant("Apache-2.0", LicenseType::Header, TextData::new(header))
        .unwrap();
    let m = store.analyze(&TextData::new(header)).unwrap();
    assert_eq!(m.name, "Apache-2.0");
    assert_eq!(m.license_type, LicenseType::Header);
    assert!(as_f32(m.score) > 0.95);
}
