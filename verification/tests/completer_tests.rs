use omegat_core::completer::history_complete;

fn texts(prefix: &str, translations: &[&str]) -> Vec<String> {
    history_complete(translations, prefix).into_iter().map(|i| i.text).collect()
}

#[test]
fn completer_uses_prefix_of_seen_words() {
    let hits = history_complete(&["Bonjour le monde"], "mon");
    assert_eq!(hits[0].text, "monde");
    assert_eq!(hits[0].kind, "history");
    assert_eq!(hits[0].detail, "history-completer");
}

#[test]
fn completions_are_distinct_case_insensitive_and_longer_than_the_prefix() {
    assert_eq!(texts("Mo", &["mode Monde mode", "mo monde's"]), vec!["mode", "Monde", "monde's"]);
    assert!(texts("", &["anything"]).is_empty());
    assert!(texts("abc", &["abc ABC"]).is_empty());
    assert_eq!(texts("é", &["école, éa"]), vec!["école", "éa"]);
}
