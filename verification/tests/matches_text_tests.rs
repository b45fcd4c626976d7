use omegat_core::matches_text::{is_number, substitute_numbers};

#[derive(PartialEq)]
enum Class {
    Digit,
    Space,
    Other,
}

fn class(c: char) -> Class {
    if c.is_numeric() {
        Class::Digit
    } else if c.is_whitespace() {
        Class::Space
    } else {
        Class::Other
    }
}

/// Runs of digits, of spaces and of other characters, kept verbatim.
fn verbatim(text: &str) -> Vec<String> {
    let mut out: Vec<String> = Vec::new();
    let mut cur = String::new();
    let mut last: Option<Class> = None;
    for c in text.chars() {
        let k = class(c);
        if last.as_ref().map_or(false, |l| *l != k) {
            out.push(std::mem::take(&mut cur));
        }
        cur.push(c);
        last = Some(k);
    }
    if !cur.is_empty() {
        out.push(cur);
    }
    out
}

#[test]
fn fullwidth_source_digit_becomes_halfwidth_in_latin_target() {
    assert_eq!(
        substitute_numbers(
            &verbatim("これは例文９です"),
            &verbatim("これは例文8です"),
            &verbatim("This is a sample sentence 8")
        ),
        "This is a sample sentence 9"
    );
}

#[test]
fn differing_number_counts_keep_the_translation() {
    assert_eq!(
        substitute_numbers(&verbatim("5 and 6"), &verbatim("5"), &verbatim("cinq 5")),
        "cinq 5"
    );
}

#[test]
fn numbers_follow_their_match_partners() {
    assert_eq!(
        substitute_numbers(&verbatim("from 3 to 4"), &verbatim("from 1 to 2"), &verbatim("von 1 bis 2")),
        "von 3 bis 4"
    );
}

#[test]
fn number_recognition() {
    assert!(is_number("12"));
    assert!(is_number("-3"));
    assert!(is_number("１２"));
    assert!(is_number("1.5e3"));
    assert!(is_number("1."));
    assert!(is_number(".5"));
    assert!(is_number("inf"));
    assert!(is_number("NaN"));
    assert!(!is_number("abc"));
    assert!(!is_number(""));
    assert!(!is_number("."));
    assert!(!is_number("e5"));
    assert!(!is_number("1e"));
}
