use askalono::{NgramSet, Score};

fn as_f32(s: Score) -> f32 {
    s.numerator() as f32 / s.denominator() as f32
}

#[test]
fn ngram_can_construct() {
    let set = NgramSet::new(2);
    assert_eq!(set.len(), 0);
    assert_eq!(set.n(), 2);
}

#[test]
fn no_nan() {
    let a = NgramSet::from_str("", 2);
    let b = NgramSet::from_str("", 2);

    let score = a.dice(&b);

    assert!(!as_f32(score).is_nan());
}

#[test]
fn same_size() {
    let a = NgramSet::from_str("", 2);
    let b = NgramSet::from_str("", 3);

    let score = a.dice(&b);

    assert_eq!(0f32, as_f32(score));
}

#[test]
fn identical() {
    let a = NgramSet::from_str("one two three apple banana", 2);
    let b = NgramSet::from_str("one two three apple banana", 2);

    let score = a.dice(&b);

    assert_eq!(1f32, as_f32(score));
}

#[test]
fn grams_are_counted_with_repeats() {
    let set = NgramSet::from_str("a b a b", 2);
    assert_eq!(set.len(), 3);
    assert_eq!(set.get("a b"), 2);
    assert_eq!(set.get("b a"), 1);
    assert_eq!(set.get("b b"), 0);
    assert!(!set.is_empty());
}

#[test]
fn dice_exact_fraction() {
    // {a b, b c} against {a b, b d}: 2 * 1 / (2 + 2)
    let a = NgramSet::from_str("a b c", 2);
    let b = NgramSet::from_str("a b d", 2);
    let s = a.dice(&b);
    assert_eq!((s.numerator(), s.denominator()), (2, 4));
    let t = b.dice(&a);
    assert_eq!((t.numerator(), t.denominator()), (2, 4));
}

#[test]
fn dice_with_itself_is_one_unless_empty() {
    let a = NgramSet::from_str("x y z", 2);
    let s = a.dice(&a);
    assert_eq!(s.numerator(), s.denominator());
    let e = NgramSet::from_str("single", 2);
    assert!(e.is_empty());
    assert_eq!(e.dice(&e).numerator(), 0);
}

#[test]
fn analyze_adds_to_existing_grams() {
    let mut set = NgramSet::new(2);
    set.analyze("p q");
    set.analyze("p q r");
    assert_eq!(set.get("p q"), 2);
    assert_eq!(set.get("q r"), 1);
    assert_eq!(set.len(), 3);
    assert!(set.same_as(&NgramSet::from_str("p q r p q", 2)) == false);
    let mut other = NgramSet::new(2);
    other.analyze("q r");
    other.analyze("p q p q");
    assert_eq!(other.get("q p"), 1);
}

#[test]
fn score_comparisons() {
    let half = Score::new(1, 2);
    let two_quarters = Score::new(2, 4);
    let nine_tenths = Score::new(9, 10);
    assert!(half.less_than(&nine_tenths));
    assert!(!nine_tenths.less_than(&half));
    assert!(half.at_most(&two_quarters));
    assert!(!half.less_than(&two_quarters));
    assert_eq!(Score::zero().numerator(), 0);
}
