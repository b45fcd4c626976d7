use omegat_core::glossary::GlossarySearcher;
use omegat_core::glossary::{is_cjk_match, marks_for_entry, parse_glossary, GlossaryEntry};

#[test]
fn tbx_pairs() {
    let raw = r#"<martif><term>cat</term><term>chat</term></martif>"#;
    let entries = parse_glossary(raw);
    assert_eq!(entries[0].source, "cat");
    assert_eq!(entries[0].target, "chat");
    assert_eq!(entries[0].comment, "tbx");
}

#[test]
fn tsv_lines_skip_comments_and_short_lines() {
    let entries = parse_glossary("# header\nrunning\tcourir\tverb\n\nalone\n dog \t chien \n");
    assert_eq!(entries.len(), 2);
    assert_eq!(entries[0].source, "running");
    assert_eq!(entries[0].target, "courir");
    assert_eq!(entries[0].comment, "verb");
    assert_eq!(entries[1].source, "dog");
    assert_eq!(entries[1].target, "chien");
    assert_eq!(entries[1].comment, "");
    assert_eq!(entries[1].loc_terms(), vec!["chien".to_string()]);
}

#[test]
fn rendering_bolds_priority_terms_and_numbers_comments() {
    let e = GlossaryEntry::new("cat", "chat", "animal").with_priority(true);
    assert_eq!(e.render_to_html(), "<html><p>cat = <b>chat</b><br>1. animal</p></html>");
    let plain = GlossaryEntry::new("dog", "chien", "");
    assert_eq!(plain.render_to_html(), "<html><p>dog = chien</p></html>");
}

#[test]
fn marks_ignore_case_and_use_byte_offsets() {
    let entries = vec![GlossaryEntry::new("Dog", "chien", ""), GlossaryEntry::new("bird", "oiseau", "")];
    let marks = marks_for_entry(Some("Le dog et le chat"), &entries, true, true).unwrap();
    assert_eq!(marks.len(), 1);
    assert_eq!((marks[0].start, marks[0].end), (3, 6));
    assert!(marks_for_entry(Some("x"), &entries, false, true).is_none());
    assert!(marks_for_entry(None, &entries, true, true).is_none());
    assert!(marks_for_entry(Some("x"), &[], true, true).is_none());
}

#[test]
fn cjk_terms_match_by_containment() {
    assert!(is_cjk_match("これは日本語です", "日本語"));
    assert!(!is_cjk_match("これは英語です", "日本語"));
    assert!(!is_cjk_match("a dog", "dog"));
}

fn words(text: &str) -> Vec<String> {
    text.to_lowercase()
        .split(|c: char| !c.is_alphanumeric())
        .filter(|w| !w.is_empty())
        .map(|w| w.to_string())
        .collect()
}

#[test]
fn english_exact_source_match() {
    let searcher = GlossarySearcher::new("en", "fr", "org.omegat.tokenizer.LuceneEnglishTokenizer");
    let entries = vec![GlossaryEntry::new("dog", "chien", "")];
    let hits = searcher.search_source_matches(&words, "The dog barked", &entries);
    assert_eq!(hits.len(), 1);
    assert_eq!(hits[0].target, "chien");
}

#[test]
fn cjk_contains_when_source_not_space_delimited() {
    let searcher = GlossarySearcher::new("ja", "en", "org.omegat.tokenizer.LuceneJapaneseTokenizer");
    let entries = vec![GlossaryEntry::new("日本語", "Japanese", "")];
    let hits = searcher.search_source_matches(&words, "これは日本語です", &entries);
    assert_eq!(hits.len(), 1);
}

#[test]
fn multiword_terms_need_the_whole_run() {
    let searcher = GlossarySearcher::new("en", "fr", "t");
    let entries = vec![
        GlossaryEntry::new("red wine", "vin rouge", ""),
        GlossaryEntry::new("white wine", "vin blanc", ""),
    ];
    let hits = searcher.search_source_matches(&words, "A glass of red wine", &entries);
    assert_eq!(hits.len(), 1);
    assert_eq!(hits[0].target, "vin rouge");
    assert!(searcher.search_source_matches(&words, "red and wine", &entries).is_empty());
}

#[test]
fn upper_case_terms_keep_their_case() {
    let searcher = GlossarySearcher::new("en", "fr", "t");
    let entries = vec![GlossaryEntry::new("US", "États-Unis", "")];
    assert!(searcher.search_source_matches(&words, "tell us more", &entries).is_empty());
    assert_eq!(searcher.search_source_matches(&words, "made in the US", &entries).len(), 1);
    let mut loose = GlossarySearcher::new("en", "fr", "t");
    loose.require_similar_case = false;
    assert_eq!(loose.search_source_matches(&words, "tell us more", &entries).len(), 1);
}

#[test]
fn priority_then_longer_source_first() {
    let searcher = GlossarySearcher::new("en", "fr", "t");
    let entries = vec![
        GlossaryEntry::new("apple", "pomme", ""),
        GlossaryEntry::new("apple tree", "pommier", ""),
        GlossaryEntry::new("tree", "arbre", "").with_priority(true),
    ];
    let hits = searcher.search_source_matches(&words, "an apple tree", &entries);
    let targets: Vec<&str> = hits.iter().map(|e| e.target.as_str()).collect();
    assert_eq!(targets, vec!["arbre", "pommier", "pomme"]);
}

#[test]
fn alternative_definitions_merge_by_source() {
    let searcher = GlossarySearcher::new("en", "fr", "t");
    let entries = vec![
        GlossaryEntry::new("cat", "chat", ""),
        GlossaryEntry::new("Cat", "chatte", ""),
        GlossaryEntry::new("cat", "chat", ""),
    ];
    let hits = searcher.search_source_matches(&words, "the cat sat", &entries);
    assert_eq!(hits.len(), 1);
    assert_eq!(hits[0].target, "chat / chatte");
    let mut separate = GlossarySearcher::new("en", "fr", "t");
    separate.merge_alt_definitions = false;
    assert_eq!(separate.search_source_matches(&words, "the cat sat", &entries).len(), 3);
}

#[test]
fn target_matches_list_the_used_translations() {
    let searcher = GlossarySearcher::new("en", "fr", "t");
    let entry = GlossaryEntry::new("dog", "chien", "");
    assert_eq!(searcher.search_target_matches(&words, "Le chien aboie", &entry), vec!["chien".to_string()]);
    assert!(searcher.search_target_matches(&words, "Le chat", &entry).is_empty());
}
