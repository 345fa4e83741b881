//! The pragma grammar: `name` or `name(value)`; `allow` takes a warning
//! kind, `filter` takes `*` or a comma-separated name list.

use gecko::{AnnotationKind, WarningKind};

#[test]
fn allow_unchecked_data_parses() {
    match AnnotationKind::from_str("allow(unchecked_data)") {
        Ok(AnnotationKind::Allow(WarningKind::UncheckedData)) => {}
        other => panic!("unexpected parse: {:?}", other),
    }
}

#[test]
fn allow_accepts_the_hyphenated_spelling() {
    match AnnotationKind::from_str("allow(unchecked-data)") {
        Ok(AnnotationKind::Allow(WarningKind::UncheckedData)) => {}
        other => panic!("unexpected parse: {:?}", other),
    }
    match AnnotationKind::from_str("allow(unchecked-params)") {
        Ok(AnnotationKind::Allow(WarningKind::UncheckedParams)) => {}
        other => panic!("unexpected parse: {:?}", other),
    }
}

#[test]
fn filter_star_clears_everything() {
    match AnnotationKind::from_str("filter(*)") {
        Ok(AnnotationKind::FilterAll) => {}
        other => panic!("unexpected parse: {:?}", other),
    }
}

#[test]
fn filter_names_are_split_and_trimmed() {
    match AnnotationKind::from_str("filter(amount, recipient ,memo)") {
        Ok(AnnotationKind::Filter(names)) => {
            assert_eq!(names, vec!["amount", "recipient", "memo"]);
        }
        other => panic!("unexpected parse: {:?}", other),
    }
}

#[test]
fn the_pragma_wrapper_text_is_tolerated() {
    // the scan starts at the first word character, as the annotation
    // comment carries the pragma inside `#[..]`
    match AnnotationKind::from_str("#[filter(amount)]") {
        Ok(AnnotationKind::Filter(names)) => {
            assert_eq!(names, vec!["amount"]);
        }
        other => panic!("unexpected parse: {:?}", other),
    }
}

#[test]
fn allow_without_a_value_is_an_error() {
    match AnnotationKind::from_str("allow") {
        Err(e) => assert_eq!(e, "missing value for 'allow' annotation"),
        other => panic!("unexpected parse: {:?}", other),
    }
    match AnnotationKind::from_str("allow(everything)") {
        Err(e) => assert_eq!(e, "missing value for 'allow' annotation"),
        other => panic!("unexpected parse: {:?}", other),
    }
}

#[test]
fn filter_without_names_is_an_error() {
    match AnnotationKind::from_str("filter()") {
        Err(e) => assert_eq!(e, "missing value for 'filter' annotation"),
        other => panic!("unexpected parse: {:?}", other),
    }
}

#[test]
fn unknown_base_words_are_rejected() {
    match AnnotationKind::from_str("expect(amount)") {
        Err(e) => assert_eq!(e, "unrecognized annotation"),
        other => panic!("unexpected parse: {:?}", other),
    }
}

#[test]
fn text_without_any_word_is_malformed() {
    match AnnotationKind::from_str(";; ##!") {
        Err(e) => assert_eq!(e, "malformed annotation"),
        other => panic!("unexpected parse: {:?}", other),
    }
}
