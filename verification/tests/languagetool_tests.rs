use omegat_core::languagetool::{lt_finish, lt_language_class, lt_request, lt_request_for, lt_start, parse_lt_json,
    LtRequest, LtStart, UNCONFIGURED_MESSAGE};

#[test]
fn checker_class_by_language_and_country() {
    assert_eq!(lt_language_class("en-US"), Some("org.languagetool.language.AmericanEnglish"));
    assert_eq!(lt_language_class("en-CA"), Some("org.languagetool.language.CanadianEnglish"));
    assert_eq!(lt_language_class("en-GB"), Some("org.languagetool.language.English"));
    assert_eq!(lt_language_class("en"), Some("org.languagetool.language.English"));
    assert_eq!(lt_language_class("be"), Some("org.languagetool.language.Belarusian"));
    assert_eq!(lt_language_class("fr-CA"), Some("org.languagetool.language.French"));
    assert_eq!(lt_language_class("de"), None);
    assert_eq!(lt_language_class(""), None);
}


#[test]
fn parses_lt_fixture_fields() {
    let raw = r#"{"matches":[{"message":"Possible typo","offset":0,"length":4,"rule":{"id":"MORFOLOGIK_RULE_EN_US"}}]}"#;
    let hits = parse_lt_json(raw).unwrap();
    assert!(hits[0].contains("Possible typo"));
    assert!(hits[0].contains("MORFOLOGIK_RULE_EN_US"));
    assert!(hits[0].contains("@0"));
}

#[test]
fn lt_reply_lines_use_defaults() {
    let raw = r#"{"matches":[{}, {"message":"m","rule":"R","offset":12}, {"offset":1.5}, {"offset":-3}]}"#;
    assert_eq!(
        parse_lt_json(raw).unwrap(),
        vec![
            "LanguageTool match [-] @0".to_string(),
            "m [R] @12".to_string(),
            "LanguageTool match [-] @0".to_string(),
            "LanguageTool match [-] @-3".to_string(),
        ]
    );
    assert!(parse_lt_json(r#"{"software":{}}"#).unwrap().is_empty());
    assert!(parse_lt_json("not json").is_err());
}

#[test]
fn lt_request_builds_url_and_form() {
    let (url, body) = lt_request("http://lt:8081//", "a b&c", "en-US");
    assert_eq!(url, "http://lt:8081/v2/check");
    assert_eq!(body, "language=en-US&text=a%20b%26c");
    assert_eq!(lt_request("http://x/v2/check?k=1", "t", "fr").0, "http://x/v2/check?k=1");
    match lt_request_for("fixture:/tmp/lt.json", "t", "fr") {
        LtRequest::Fixture(p) => assert_eq!(p, "/tmp/lt.json"),
        _ => panic!("fixture expected"),
    }
}

#[test]
fn lt_check_steps() {
    match lt_start(None, "text", false, 2, "a.txt") {
        LtStart::Done(Some(v)) => {
            assert_eq!(v.len(), 1);
            assert_eq!(v[0].message, UNCONFIGURED_MESSAGE);
            assert_eq!(v[0].severity, "info");
            assert_eq!(v[0].index, 2);
        },
        _ => panic!("unconfigured expected"),
    }
    assert!(matches!(lt_start(Some("http://x"), "  ", false, 0, "f"), LtStart::Done(Some(v)) if v.is_empty()));
    assert!(matches!(lt_start(Some("http://x"), "t", true, 0, "f"), LtStart::Done(None)));
    assert!(matches!(lt_start(Some("http://x"), "t", false, 0, "f"), LtStart::Ask(u) if u == "http://x"));
    let found = lt_finish(Ok(vec!["m [R] @0".to_string()]), false, 1, "f").unwrap();
    assert_eq!(found[0].severity, "warn");
    assert_eq!(found[0].kind, "languagetool");
    let down = lt_finish(Err("timeout".to_string()), false, 1, "f").unwrap();
    assert_eq!(down[0].message, "LanguageTool unavailable: timeout");
    assert!(lt_finish(Err("x".to_string()), true, 1, "f").is_none());
}
