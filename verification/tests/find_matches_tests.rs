use omegat_core::find_matches::{search, search_simple, SearchRequest, TokenSets};
use omegat_core::matching::TmEntry;
use omegat_core::segment::{SrxRule, SrxTable};

fn words(text: &str) -> Vec<String> {
    text.split(|c: char| !c.is_alphanumeric())
        .filter(|w| !w.is_empty())
        .map(|w| w.to_lowercase())
        .collect()
}

fn tokens(text: &str, _tokenizer: &str) -> TokenSets {
    let w = words(text);
    TokenSets { stem: w.clone(), no_stem: w.clone(), all: w }
}

fn same_language(_entry_lang: &str, _target: &str) -> bool {
    true
}

fn entry(source: &str, translation: &str) -> TmEntry {
    TmEntry {
        source: source.to_string(),
        translation: translation.to_string(),
        penalty: 0,
        note: None,
        props: Vec::new(),
    }
}

#[test]
fn near_memory_entry_is_found() {
    let memory = vec![entry("Hello world", "Bonjour le monde"), entry("Unrelated text here", "X")];
    let req = SearchRequest::new("Hello word", &memory, &[], "en", "en", "fr");
    let hits = search(&req, &tokens, &same_language, None);
    assert_eq!(hits.len(), 1);
    assert_eq!(hits[0].score, 50);
    assert_eq!(hits[0].comes_from, "MEMORY");
}

#[test]
fn sentences_are_matched_one_by_one_and_glued() {
    let memory = vec![entry("Hello world.", "Bonjour le monde."), entry("Good morning.", "Bonjour.")];
    let rules = SrxTable {
        rules: vec![SrxRule { breaks: true, before: r"\.".to_string(), after: r"\s".to_string() }],
    };
    let hits = search_simple(
        "Hello world. Good morning.", &memory, &[], "en", "en", "fr", 30, 5, false, true, 0,
        &tokens, &same_language, Some(&rules),
    );
    assert!(hits.iter().any(|h| h.comes_from == "SUBSEGMENTS" && h.translation == "Bonjour le monde. Bonjour."));
}

#[test]
fn hits_are_capped_and_distinct() {
    let memory = vec![
        entry("Hello world", "A"),
        entry("Hello world", "A"),
        entry("Hello word", "B"),
        entry("Hello worlds", "C"),
        entry("Hello there world", "D"),
    ];
    let hits = search_simple(
        "Hello world", &memory, &[], "en", "en", "fr", 30, 2, false, false, 0, &tokens, &same_language, None,
    );
    assert!(hits.len() <= 2);
    for i in 0..hits.len() {
        for j in (i + 1)..hits.len() {
            assert!(!(hits[i].source == hits[j].source && hits[i].translation == hits[j].translation));
        }
    }
}
