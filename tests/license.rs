use askalono::{Error, LicenseType, Score, TextData};

fn as_f32(s: Score) -> f32 {
    s.numerator() as f32 / s.denominator() as f32
}

#[test]
fn optimize_bounds() {
    let license_text = "this is a license text\nor it pretends to be one\nit's just a test";
    let sample_text = "this is a license text\nor it pretends to be one\nit's just a test\nwords\n\nhere is some\ncode\nhello();\n\n//a comment too";
    let license = TextData::new(license_text).without_text();
    let sample = TextData::new(sample_text);

    let (optimized, _) = sample.optimize_bounds(&license).unwrap();
    println!("{:?}", optimized.lines_view());
    println!("{:?}", optimized.lines());
    assert_eq!((0, 3), optimized.lines_view());

    // add more to the string, try again (avoid int trunc screwups)
    let sample_text = format!("{}\none more line", sample_text);
    let sample = TextData::new(sample_text.as_str());
    let (optimized, _) = sample.optimize_bounds(&license).unwrap();
    println!("{:?}", optimized.lines_view());
    println!("{:?}", optimized.lines());
    assert_eq!((0, 3), optimized.lines_view());

    // add to the beginning too
    let sample_text = format!("some content\nat\n\nthe beginning\n{}", sample_text);
    let sample = TextData::new(sample_text.as_str());
    let (optimized, _) = sample.optimize_bounds(&license).unwrap();
    println!("{:?}", optimized.lines_view());
    println!("{:?}", optimized.lines());
    // end bounds at 7 and 8 have the same score, since they're empty lines (not
    // counted). askalono is not smart enough to trim this as close as it
    // can.
    assert!(
        (4, 7) == optimized.lines_view() || (4, 8) == optimized.lines_view(),
        "bounds are (4, 7) or (4, 8)"
    );
}

// if a view is set on the text data, optimize_bounds must not find text
// outside of that range
#[test]
fn optimize_doesnt_grow_view() {
    let sample_text = "0\n1\n2\naaa aaa\naaa\naaa\naaa\n7\n8";
    let license_text = "aaa aaa aaa aaa aaa";
    let sample = TextData::new(sample_text);
    let license = TextData::new(license_text).without_text();

    // sanity: the optimized bounds should be at (3, 7)
    let (optimized, _) = sample.optimize_bounds(&license).unwrap();
    assert_eq!((3, 7), optimized.lines_view());

    // this should still work
    let sample = sample.with_view(3, 7).unwrap();
    let (optimized, _) = sample.optimize_bounds(&license).unwrap();
    assert_eq!((3, 7), optimized.lines_view());

    // but if we shrink the view further, it shouldn't be outside that range
    let sample = sample.with_view(4, 6).unwrap();
    let (optimized, _) = sample.optimize_bounds(&license).unwrap();
    assert_eq!((4, 6), optimized.lines_view());

    // restoring the view should still be OK too
    let sample = sample.with_view(0, 9).unwrap();
    let (optimized, _) = sample.optimize_bounds(&license).unwrap();
    assert_eq!((3, 7), optimized.lines_view());
}

// ensure we don't choke on small TextData matches
#[test]
fn match_small() {
    let a = TextData::new("a b");
    let b = TextData::new("a\nlong\nlicense\nfile\n\n\n\n\nabcdefg");

    let x = a.match_score(&b);
    let y = b.match_score(&a);

    assert_eq!(as_f32(x), as_f32(y));
}

// don't choke on empty TextData either
#[test]
fn match_empty() {
    let a = TextData::new("");
    let b = TextData::new("a\nlong\nlicense\nfile\n\n\n\n\nabcdefg");

    let x = a.match_score(&b);
    let y = b.match_score(&a);

    assert_eq!(as_f32(x), as_f32(y));
}

#[test]
fn view_and_white_out() {
    let a = TextData::new("aaa\nbbb\nccc\nddd");
    assert_eq!(Some("aaa bbb ccc ddd"), a.text_processed());

    let b = a.with_view(1, 3).unwrap();
    assert_eq!(2, b.lines().unwrap().len());
    assert_eq!(Some("bbb ccc"), b.text_processed());

    let c = b.white_out().unwrap();
    assert_eq!(Some("aaa ddd"), c.text_processed());
}

#[test]
fn identity_view_keeps_bigrams() {
    let a = TextData::new("one two\nthree four\nfive six");
    let (lo, hi) = a.lines_view();
    let b = a.with_view(lo, hi).unwrap();
    assert!(a.eq_data(&b));
    assert_eq!(a.text_processed(), b.text_processed());
}

#[test]
fn missing_text_errors() {
    let a = TextData::new("one two\nthree").without_text();
    assert_eq!(a.lines_view(), (0, 0));
    assert_eq!(a.text_processed(), None);
    assert!(!a.has_text());
    assert_eq!(a.with_view(0, 0).unwrap_err(), Error::MissingText);
    assert_eq!(a.white_out().unwrap_err(), Error::MissingText);
    assert_eq!(a.lines().unwrap_err(), Error::MissingText);
    let other = TextData::new("one two");
    assert_eq!(a.optimize_bounds(&other).unwrap_err(), Error::MissingText);
}

#[test]
fn optimization_stays_within_view_and_does_not_worsen() {
    let sample = TextData::new("x y\naaa aaa\naaa\nz w").with_view(1, 3).unwrap();
    let license = TextData::new("aaa aaa aaa");
    let before = sample.match_score(&license);
    let (optimized, score) = sample.optimize_bounds(&license).unwrap();
    let (lo, hi) = optimized.lines_view();
    assert!(1 <= lo && lo <= hi && hi <= 3);
    assert!(before.at_most(&score));
    assert_eq!(as_f32(score), 1.0);
}

#[test]
fn license_type_descriptions() {
    assert_eq!(LicenseType::Original.description(), "original text");
    assert_eq!(LicenseType::Header.description(), "license header");
    assert_eq!(LicenseType::Alternate.description(), "alternate text");
}

#[test]
fn locate_header_in_source_file() {
    let header = "Licensed under the Apache License, Version 2.0 (the \"License\");\n\
you may not use this file except in compliance with the License.\n\
You may obtain a copy of the License at\n\
\n\
    http://www.apache.org/licenses/LICENSE-2.0\n\
\n\
Unless required by applicable law or agreed to in writing, software\n\
distributed under the License is distributed on an \"AS IS\" BASIS,\n\
WITHOUT WARRANTIES OR CONDITIONS OF ANY KIND, either express or implied.\n\
See the License for the specific language governing permissions and\n\
limitations under the License.";
    let commented: Vec<String> = header.split('\n').map(|l| format!("// {}", l)).collect();
    let text = format!("// Copyright 2018 me\n{}\nfn main(){{}}\n", commented.join("\n"));
    let sample = TextData::new(&text);
    let license = TextData::new(header);
    let (optimized, score) = sample.optimize_bounds(&license).unwrap();
    let (lo, hi) = optimized.lines_view();
    assert!(lo <= 2 && lo >= 0, "start was {}", lo);
    assert!((11..=13).contains(&hi), "end was {}", hi);
    assert!(as_f32(score) > 0.95);
}

// on longer views the ternary search assumes a single peak; here the score
// along the end index dips before it rises, and the search settles lower
#[test]
fn optimization_can_settle_below_the_whole_view() {
    let sample = TextData::new("a b c\nn1\nn2\nn3\nn4\nd e f g h i");
    let license = TextData::new("a b c d e f g h i");
    let whole = sample.match_score(&license);
    assert_eq!((whole.numerator(), whole.denominator()), (14, 20));
    let (optimized, score) = sample.optimize_bounds(&license).unwrap();
    assert_eq!(optimized.lines_view(), (0, 1));
    assert_eq!((score.numerator(), score.denominator()), (4, 10));
}
