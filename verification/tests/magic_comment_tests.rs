use omegat_core::magic_comment::parse;
use omegat_core::pattern_consts::lang_and_country;

fn kv(k: &str, v: &str) -> (String, String) {
    (k.to_string(), v.to_string())
}

#[test]
fn settings_between_markers_sorted_by_key() {
    assert_eq!(
        parse(Some("# -*- mode: po; coding: utf-8 ; mode : text -*- tail")),
        vec![kv("coding", "utf-8"), kv("mode", "text")]
    );
}

#[test]
fn incomplete_comments_have_no_settings() {
    assert!(parse(None).is_empty());
    assert!(parse(Some("no markers")).is_empty());
    assert!(parse(Some("-*- coding: utf-8")).is_empty());
    assert!(parse(Some("-*- ; novalue; -*-")).is_empty());
}

#[test]
fn language_tags_split_into_language_and_country() {
    assert_eq!(lang_and_country("en"), Some(("en".to_string(), None)));
    assert_eq!(lang_and_country("pt_BR"), Some(("pt".to_string(), Some("BR".to_string()))));
    assert_eq!(lang_and_country("zh-Hant-TW"), Some(("zh".to_string(), Some("TW".to_string()))));
    assert_eq!(lang_and_country("not a tag"), None);
}
