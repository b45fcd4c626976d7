use omegat_core::segment::{
    load_srx_rules, parse_srx, parse_srx_document, split_sentences, split_with_srx, table_for, unescape_xml,
    SrxRule, SrxTable,
};

fn rule(breaks: bool, before: &str, after: &str) -> SrxRule {
    SrxRule { breaks, before: before.to_string(), after: after.to_string() }
}

fn sentence_rules() -> SrxTable {
    SrxTable { rules: vec![rule(true, r"[\.\?\!]+", r"\s")] }
}

#[test]
fn splits_sentences() {
    let parts = split_sentences("Hello world. How are you? Fine.", true, &sentence_rules());
    assert!(parts.len() >= 2, "{parts:?}");
}

#[test]
fn paragraph_mode() {
    let parts = split_sentences("Hello world. How are you?", false, &sentence_rules());
    assert_eq!(parts.len(), 1);
}

#[test]
fn mr_does_not_break_when_rule_present() {
    let table = SrxTable {
        rules: vec![rule(false, r"Mr\.", r"\s"), rule(true, r"[\.\?\!]+", r"\s")],
    };
    let parts = split_with_srx("Mr. Smith went home. Next.", &table);
    assert!(parts.iter().any(|p| p.contains("Mr. Smith")), "{parts:?}");
    assert!(parts.len() >= 2, "{parts:?}");
}

const SRX: &str = r#"<srx><header cascade="yes"/><body><languagerules>
<languagerule languagerulename="English">
<rule break="no">
<beforebreak>Mr\.</beforebreak>
<afterbreak>\s</afterbreak>
</rule>
</languagerule>
<languagerule languagerulename="Default">
<rule break="yes">
<beforebreak>[\.\?\!]+</beforebreak>
<afterbreak>\s</afterbreak>
</rule>
</languagerule>
</languagerules>
<maprules>
<languagemap languagepattern="EN.*" languagerulename="English"/>
<languagemap languagepattern=".*" languagerulename="Default"/>
</maprules></body></srx>"#;

#[test]
fn srx_text_cascades_through_matching_maps() {
    let doc = parse_srx_document(SRX);
    assert!(doc.cascade);
    assert_eq!(doc.languages.len(), 2);
    assert_eq!(doc.maps.len(), 2);
    let en = table_for(&doc, "en_US");
    assert_eq!(en.rules.len(), 2);
    assert!(!en.rules[0].breaks);
    assert_eq!(en.rules[0].before, r"Mr\.");
    let de = parse_srx(SRX, "de");
    assert_eq!(de.rules.len(), 1);
    assert!(de.rules[0].breaks);
    let parts = split_with_srx("Mr. Smith went home. Next.", &en);
    assert_eq!(parts.len(), 2);
}

#[test]
fn srx_without_maps_uses_named_then_default() {
    let raw = SRX.replace("<languagemap languagepattern=\"EN.*\" languagerulename=\"English\"/>", "")
        .replace("<languagemap languagepattern=\".*\" languagerulename=\"Default\"/>", "");
    let doc = parse_srx_document(&raw);
    assert!(doc.maps.is_empty());
    assert_eq!(table_for(&doc, "English").rules.len(), 2);
    assert_eq!(table_for(&doc, "fr").rules.len(), 1);
    // Without maps the named set and `Default` both apply, so asking for
    // `Default` itself yields its rules twice.
    let defaults = load_srx_rules(&raw);
    assert_eq!(
        defaults,
        vec![(r"[\.\?\!]+".to_string(), true), (r"[\.\?\!]+".to_string(), true)]
    );
}

#[test]
fn rule_sides_lose_line_breaks_and_entities() {
    assert_eq!(unescape_xml("\n a&amp;b \r\n"), " a&b ");
}
