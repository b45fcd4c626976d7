use omegat_core::matching::{find_matches, find_matches_threshold, score_pair, similarity, TmEntry, Token};

fn words(text: &str, _lang: &str) -> Vec<Token> {
    text.split(|c: char| !c.is_alphanumeric())
        .filter(|w| !w.is_empty())
        .map(|w| Token { text: w.to_string(), stem: w.to_lowercase() })
        .collect()
}

fn entry(source: &str, translation: &str, note: Option<&str>) -> TmEntry {
    TmEntry {
        source: source.to_string(),
        translation: translation.to_string(),
        penalty: 0,
        note: note.map(|n| n.to_string()),
        props: Vec::new(),
    }
}

#[test]
fn exact_is_100() {
    assert_eq!(score_pair("abc", "abc", "en", &words).0, 100);
}

#[test]
fn token_edit_hello_word() {
    let (s, _, _) = score_pair("Hello world", "Hello word", "en", &words);
    assert_eq!(s, 50);
}

#[test]
fn penalty_folder_lowers_score() {
    let extra = vec![(
        entry("Hello world", "X", Some("penalty:10")),
        "penalty-010/ref.tmx".to_string(),
    )];
    let hits = find_matches_threshold("Hello world", &[], &extra, "en", 30, 5, &words);
    assert_eq!(hits[0].score, 90);
}

#[test]
fn character_similarity_values() {
    assert_eq!(similarity("abcd", "abcd"), 100);
    assert_eq!(similarity("", "abc"), 0);
    assert_eq!(similarity("abcd", "abce"), 75);
}

#[test]
fn below_threshold_is_dropped() {
    let memory = vec![entry("completely different", "Y", None)];
    let hits = find_matches_threshold("Hello world", &memory, &[], "en", 30, 5, &words);
    assert!(hits.is_empty());
}

#[test]
fn finds_near() {
    let mem = vec![entry("Hello world", "Bonjour le monde", None)];
    let hits = find_matches("Hello word", &mem, &[], "en", &words);
    assert!(!hits.is_empty());
    assert_eq!(hits[0].score, 50);
}
