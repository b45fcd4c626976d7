use omegat_core::search::{
    SearchMode,
    find_matches, glob_to_regex, search_replace_matches, search_string, SearchMatch, ProjectSearchEntry, SearchExpression, SearchKind, SearchOrigin, SearchSource,
    SearchSourceKind, Searcher,
};

#[test]
fn glob_wildcards_and_metacharacters() {
    assert_eq!(glob_to_regex("a*b?", false), r"a[^\t\n\x0B\f\r ]*b[^\t\n\x0B\f\r ]");
    assert_eq!(glob_to_regex("a.b (c)", true), "a\\.b(?: |\u{00A0})\\(c\\)");
    assert_eq!(glob_to_regex("x*", true), r"x[^\t\n\x0B\f\r \u{00A0}]*");
}

#[test]
fn expression_kinds_share_defaults() {
    let e = SearchExpression::keyword("two words", false);
    assert_eq!(e.kind, SearchKind::Keyword);
    assert_eq!(e.number_of_results, 1000);
    assert!(e.search_source && e.search_target && !e.whole_words);
    assert_eq!(SearchExpression::regex("a+", true).kind, SearchKind::Regex);
    assert_eq!(SearchExpression::exact("a", true).kind, SearchKind::Exact);
}

#[test]
fn entries_and_sources() {
    let p = ProjectSearchEntry::project(3, "a.txt", "src", Some("tgt"));
    assert_eq!(p.origin, SearchOrigin::Project { entry_number: 3, file: "a.txt".to_string() });
    let o = ProjectSearchEntry::orphan("src", None);
    assert_eq!(o.origin, SearchOrigin::Orphan { preamble: "Orphan segment".to_string() });
    assert_eq!(o.translation, None);
    let s = SearchSource::glossary("glossary.txt", vec![p.clone()]);
    assert_eq!(s.kind, SearchSourceKind::Glossary);
    assert_eq!(s.entries, vec![p]);
}

#[test]
fn results_wait_for_a_completed_run() {
    let mut s = Searcher::with_entries(SearchExpression::exact("x", false), vec![]);
    assert!(!s.is_search_completed());
    assert!(s.get_search_results().is_err());
    assert!(s.get_found_matches().is_err());
    assert!(s.get_partial_results().is_empty());
    s.set_sources(vec![SearchSource::text_file("notes.txt", vec![])]);
    assert!(s.get_search_results().is_err());
    assert_eq!(s.get_expression().query, "x");
}

fn same_width(s: &str) -> String {
    s.to_string()
}

fn same_case(s: &str, _locale: &str) -> String {
    s.to_string()
}

fn spans(v: &[SearchMatch]) -> Vec<(usize, usize)> {
    v.iter().map(|m| (m.start, m.end)).collect()
}

#[test]
fn exact_search_regions_follow_case_option() {
    let loose = search_replace_matches("Hello world hello", &SearchExpression::exact("hello", false), &same_width, &same_case);
    assert_eq!(spans(&loose), vec![(0, 5), (12, 17)]);
    let strict = search_replace_matches("Hello world hello", &SearchExpression::exact("hello", true), &same_width, &same_case);
    assert_eq!(spans(&strict), vec![(12, 17)]);
    assert!(strict.iter().all(|m| m.replacement.is_empty()));
}

#[test]
fn keyword_search_needs_every_word() {
    let text = "Hello brave world";
    assert!(!search_string(text, &SearchExpression::keyword("Hello missing", false), &same_width, &same_case));
    assert!(search_string(text, &SearchExpression::keyword("Hello world", false), &same_width, &same_case));
    let both = search_replace_matches(text, &SearchExpression::keyword("world Hello", false), &same_width, &same_case);
    assert_eq!(spans(&both), vec![(0, 5), (12, 17)]);
}

#[test]
fn whole_word_search_skips_word_parts() {
    let mut e = SearchExpression::exact("cat", false);
    assert_eq!(spans(&search_replace_matches("catalog cat", &e, &same_width, &same_case)), vec![(0, 3), (8, 11)]);
    e.whole_words = true;
    assert_eq!(spans(&search_replace_matches("catalog cat", &e, &same_width, &same_case)), vec![(8, 11)]);
    assert!(!search_string("catalog", &e, &same_width, &same_case));
}

#[test]
fn regex_search_drops_empty_regions() {
    let e = SearchExpression::regex("a+", true);
    assert_eq!(spans(&search_replace_matches("caaab a", &e, &same_width, &same_case)), vec![(1, 4), (6, 7)]);
    assert!(!search_string("bcd", &SearchExpression::regex("x*", true), &same_width, &same_case));
}

#[test]
fn regions_count_utf16_units() {
    let e = SearchExpression::exact("cat", true);
    assert_eq!(spans(&search_replace_matches("\u{1F600}cat", &e, &same_width, &same_case)), vec![(2, 5)]);
}

#[test]
fn collapse_merges_overlapping_regions() {
    let e = SearchExpression::keyword("ab bc", false);
    assert_eq!(spans(&search_replace_matches("abc", &e, &same_width, &same_case)), vec![(0, 2), (1, 3)]);
    let merged = find_matches(Some("abc"), &e, true, "und", &same_width, &same_case);
    assert_eq!(spans(&merged), vec![(0, 3)]);
    assert!(find_matches(None, &e, true, "und", &same_width, &same_case).is_empty());
}

#[test]
fn replacement_rides_on_each_region() {
    let mut e = SearchExpression::exact("todo", false);
    e.replacement = Some("done".to_string());
    let found = search_replace_matches("todo and TODO", &e, &same_width, &same_case);
    assert_eq!(spans(&found), vec![(0, 4), (9, 13)]);
    assert!(found.iter().all(|m| m.replacement == "done"));
    let mut r = SearchExpression::regex("(\\w+)@", true);
    r.replacement = Some("<$1>".to_string());
    let found = search_replace_matches("ab@ cd@", &r, &same_width, &same_case);
    assert_eq!(spans(&found), vec![(0, 3), (4, 7)]);
    assert_eq!(found[0].replacement, "<ab>");
    assert_eq!(found[1].replacement, "<cd>");
}

#[test]
fn searcher_keeps_what_one_text_gave() {
    let mut s = Searcher::new(SearchExpression::exact("b", false));
    assert!(s.search_string(Some("abcb"), true, &same_width, &same_case));
    assert!(!s.search_string(None, true, &same_width, &same_case));
    assert!(!s.is_search_completed());
}

fn entry_with(source: &str, translation: Option<&str>) -> ProjectSearchEntry {
    ProjectSearchEntry::project(3, "a.txt", source, translation)
}

#[test]
fn match_entry_reports_each_field() {
    let s = Searcher::new(SearchExpression::exact("Hello", false));
    let mut e = entry_with("Hello world", Some("Bonjour"));
    e.note = Some("say hello".to_string());
    let r = s.match_entry(&e, &same_width, &same_case).expect("found");
    assert_eq!(r.entry_number, 3);
    assert_eq!(r.preamble.as_deref(), Some("a.txt"));
    assert_eq!(spans(&r.source_matches), vec![(0, 5)]);
    assert!(r.target_matches.is_empty());
    assert_eq!(spans(&r.note_matches), vec![(4, 9)]);
    assert_eq!(r.property, None);
    assert!(s.match_entry(&entry_with("Goodbye", Some("Au revoir")), &same_width, &same_case).is_none());
}

#[test]
fn match_entry_joins_source_and_target_for_split_keywords() {
    let s = Searcher::new(SearchExpression::keyword("Hello Bonjour", false));
    let r = s.match_entry(&entry_with("Hello world", Some("Bonjour")), &same_width, &same_case).expect("found");
    assert_eq!(spans(&r.source_matches), vec![(0, 5), (12, 19)]);
    assert!(r.target_matches.is_empty());
}

#[test]
fn match_entry_searches_properties_until_a_hit() {
    let s = Searcher::new(SearchExpression::exact("beta", false));
    let mut e = entry_with("nothing", None);
    e.properties = vec![("k1".to_string(), "alpha".to_string()), ("k2".to_string(), "beta gamma".to_string())];
    let r = s.match_entry(&e, &same_width, &same_case).expect("found");
    assert_eq!(r.property.as_deref(), Some("beta gamma"));
    assert_eq!(spans(&r.property_matches), vec![(0, 4)]);
    assert_eq!(e.property_values(), vec!["alpha".to_string(), "beta gamma".to_string(), "a.txt".to_string()]);
}

#[test]
fn match_entry_author_and_date_filters() {
    let mut x = SearchExpression::exact("Hello", false);
    x.search_author = true;
    x.author = Some("alice".to_string());
    let s = Searcher::new(x.clone());
    let mut e = entry_with("Hello", None);
    assert!(s.match_entry(&e, &same_width, &same_case).is_none());
    e.changer = Some("Alice B".to_string());
    assert!(s.match_entry(&e, &same_width, &same_case).is_some());
    let mut dated = x.clone();
    dated.search_author = false;
    dated.date_before = Some(100);
    let s = Searcher::new(dated.clone());
    assert!(s.match_entry(&e, &same_width, &same_case).is_none());
    e.change_date = Some(50);
    assert!(s.match_entry(&e, &same_width, &same_case).is_some());
    dated.date_after = Some(50);
    assert!(Searcher::new(dated).match_entry(&e, &same_width, &same_case).is_none());
}

#[test]
fn match_entry_replace_mode_looks_at_one_field() {
    let mut x = SearchExpression::exact("a", false);
    x.mode = SearchMode::Replace;
    let s = Searcher::new(x);
    let r = s.match_entry(&entry_with("a a", Some("aa")), &same_width, &same_case).expect("found");
    assert!(r.source_matches.is_empty());
    assert_eq!(spans(&r.target_matches), vec![(0, 1), (1, 2)]);
    let r = s.match_entry(&entry_with("a a", None), &same_width, &same_case).expect("found");
    assert_eq!(spans(&r.source_matches), vec![(0, 1), (2, 3)]);
    let orphan = ProjectSearchEntry::orphan("a", None);
    let r = s.match_entry(&orphan, &same_width, &same_case).expect("found");
    assert_eq!(r.entry_number, -2);
    assert_eq!(r.preamble.as_deref(), Some("Orphan segment"));
}
