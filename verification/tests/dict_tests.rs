use omegat_core::dict::{parse_dsl, parse_stardict_idx};

#[test]
fn dsl_lookup() {
    let raw = "hello\n  a greeting\nworld\n  the earth\n";
    let hits = parse_dsl(raw, "hel", "t.dsl");
    assert_eq!(hits[0].word, "hello");
    assert!(hits[0].definition.contains("greeting"));
}

#[test]
fn stardict_idx() {
    let mut idx = Vec::new();
    idx.extend(b"cat\0");
    idx.extend(0u32.to_be_bytes());
    idx.extend(3u32.to_be_bytes());
    let dict = b"felidae extra";
    let hits = parse_stardict_idx(&idx, dict, "cat", "x.ifo");
    assert_eq!(hits[0].definition, "fel");
}
