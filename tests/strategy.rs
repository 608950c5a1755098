use askalono::{Error, LicenseType, ScanMode, ScanStrategy, Score, Store, TextData};

fn as_f32(s: Score) -> f32 {
    s.numerator() as f32 / s.denominator() as f32
}

fn create_dummy_store() -> Store {
    let mut store = Store::new();
    store.add_license("license-1".to_string(), TextData::new("aaaaa\nbbbbb\nccccc"));
    store.add_license(
        "license-2".to_string(),
        TextData::new("1234 5678 1234\n0000\n1010101010\n\n8888 9999"),
    );
    store
}

#[test]
fn strategy_can_construct() {
    let store = Store::new();
    ScanStrategy::new(&store);
    ScanStrategy::new(&store).confidence_threshold(Score::new(1, 2));
    ScanStrategy::new(&store)
        .shallow_limit(Score::new(99, 100))
        .optimize(true)
        .max_passes(100);
}

#[test]
fn shallow_scan() {
    let store = create_dummy_store();
    let test_data = TextData::new("lorem ipsum\naaaaa bbbbb\nccccc\nhello");

    // the above text should have a result with a confidence minimum of 0.5
    let strategy = ScanStrategy::new(&store)
        .confidence_threshold(Score::new(1, 2))
        .shallow_limit(Score::new(0, 1));
    let result = strategy.scan(&test_data).unwrap();
    assert!(
        as_f32(result.score) > 0.5,
        "score must meet threshold; was {}",
        as_f32(result.score)
    );
    assert_eq!(
        result.license.expect("result has a license").name,
        "license-1"
    );

    // but it won't pass with a threshold of 0.8
    let strategy = ScanStrategy::new(&store)
        .confidence_threshold(Score::new(8, 10))
        .shallow_limit(Score::new(0, 1));
    let result = strategy.scan(&test_data).unwrap();
    assert!(result.license.is_none(), "result license is None");
}

#[test]
fn single_optimize() {
    let store = create_dummy_store();
    // this TextData matches license-2 with an overall score of ~0.46 and optimized
    // score of ~0.57
    let test_data =
        TextData::new("lorem\nipsum abc def ghi jkl\n1234 5678 1234\n0000\n1010101010\n\n8888 9999\nwhatsit hello\narst neio qwfp colemak is the best keyboard layout");

    // check that we can spot the gibberish license in the sea of other gibberish
    let strategy = ScanStrategy::new(&store)
        .confidence_threshold(Score::new(1, 2))
        .optimize(true)
        .shallow_limit(Score::new(1, 1));
    let result = strategy.scan(&test_data).unwrap();
    assert!(result.license.is_none(), "result license is None");
    assert_eq!(result.containing.len(), 1);
    let contained = &result.containing[0];
    assert_eq!(contained.license.name, "license-2");
    assert!(
        as_f32(contained.score) > 0.5,
        "contained score is greater than threshold"
    );
}

#[test]
fn find_multiple_licenses_elimination() {
    let store = create_dummy_store();
    let test_data =
        TextData::new("lorem\nipsum abc def ghi jkl\n1234 5678 1234\n0000\n1010101010\n\n8888 9999\nwhatsit hello\narst neio qwfp colemak is the best keyboard layout\naaaaa\nbbbbb\nccccc");

    let strategy = ScanStrategy::new(&store)
        .mode(ScanMode::Elimination)
        .confidence_threshold(Score::new(1, 2))
        .optimize(true)
        .shallow_limit(Score::new(1, 1));
    let result = strategy.scan(&test_data).unwrap();
    assert!(result.license.is_none(), "result license is None");
    assert_eq!(2, result.containing.len());

    // inspect the array and ensure we got both licenses
    let mut found1 = 0;
    let mut found2 = 0;
    for (_, contained) in result.containing.iter().enumerate() {
        match contained.license.name {
            "license-1" => {
                assert!(as_f32(contained.score) > 0.5, "license-1 score meets threshold");
                found1 += 1;
            }
            "license-2" => {
                assert!(as_f32(contained.score) > 0.5, "license-2 score meets threshold");
                found2 += 1;
            }
            _ => {
                panic!("somehow got an unknown license name");
            }
        }
    }

    assert!(
        found1 == 1 && found2 == 1,
        "found both licenses exactly once"
    );
}

#[test]
fn find_multiple_licenses_topdown() {
    let store = create_dummy_store();
    let test_data =
        TextData::new("lorem\nipsum abc def ghi jkl\n1234 5678 1234\n0000\n1010101010\n\n8888 9999\nwhatsit hello\narst neio qwfp colemak is the best keyboard layout\naaaaa\nbbbbb\nccccc");

    let strategy = ScanStrategy::new(&store)
        .mode(ScanMode::TopDown)
        .confidence_threshold(Score::new(1, 2))
        .step_size(1);
    let result = strategy.scan(&test_data).unwrap();
    assert!(result.license.is_none(), "result license is None");
    println!("{:?}", result);
    assert_eq!(2, result.containing.len());

    // inspect the array and ensure we got both licenses
    let mut found1 = 0;
    let mut found2 = 0;
    for (_, contained) in result.containing.iter().enumerate() {
        match contained.license.name {
            "license-1" => {
                assert!(as_f32(contained.score) > 0.5, "license-1 score meets threshold");
                found1 += 1;
            }
            "license-2" => {
                assert!(as_f32(contained.score) > 0.5, "license-2 score meets threshold");
                found2 += 1;
            }
            _ => {
                panic!("somehow got an unknown license name");
            }
        }
    }

    assert!(
        found1 == 1 && found2 == 1,
        "found both licenses exactly once"
    );
    // in the order the licenses appear in the document
    assert_eq!(result.containing[0].license.name, "license-2");
    assert_eq!(result.containing[1].license.name, "license-1");
    assert!(result.containing[0].line_range.1 <= result.containing[1].line_range.0);
}

#[test]
fn scan_on_empty_store_fails() {
    let store = Store::new();
    let strategy = ScanStrategy::new(&store);
    assert_eq!(strategy.scan(&TextData::new("text")).unwrap_err(), Error::NoMatch);
}

#[test]
fn elimination_without_text_fails() {
    let store = create_dummy_store();
    let text = TextData::new("zzz yyy\nxxx").without_text();
    let strategy = ScanStrategy::new(&store).optimize(true).shallow_limit(Score::new(1, 1));
    assert_eq!(strategy.scan(&text).unwrap_err(), Error::MissingText);
}

#[test]
fn exact_match_stops_early() {
    let store = create_dummy_store();
    let text = TextData::new("aaaaa\nbbbbb\nccccc");
    let strategy = ScanStrategy::new(&store).optimize(true);
    let result = strategy.scan(&text).unwrap();
    assert_eq!(as_f32(result.score), 1.0);
    let l = result.license.unwrap();
    assert_eq!(l.name, "license-1");
    assert_eq!(l.kind, LicenseType::Original);
    assert!(result.containing.is_empty());
}
