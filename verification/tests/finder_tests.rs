use omegat_core::finder::{expand, parse_finder_xml};

#[test]
fn parses_finder_xml() {
    let xml = r#"<items><item><name>Wiktionary</name><url>https://en.wiktionary.org/wiki/{selection}</url><scope>selection</scope></item></items>"#;
    let items = parse_finder_xml(xml);
    assert_eq!(items[0].name, "Wiktionary");
    assert_eq!(items[0].urls.len(), 1);
    let u = expand(&items[0], "cat", "", "").unwrap();
    assert!(u.contains("cat"));
    let cmd = parse_finder_xml(r#"<item><name>echo</name><command>echo {sourceText}</command></item>"#);
    let exp = expand(&cmd[0], "x", "hello world", "").unwrap();
    assert!(exp.contains("hello"));
}

#[test]
fn finder_items_read_attributes_entities_and_flags() {
    let xml = [
        r#"<items>"#,
        r#"<item name="A &amp; B" keystroke="ctrl K" nopopup="true"><url target="ascii_only">http://a/?q={selection}&amp;x=1</url><url>http://b/{target}</url></item>"#,
        r#"<item><name> Both </name><url target="both">u</url><url target="ascii_only">v</url></item>"#,
        r#"</items>"#,
    ]
    .join("");
    let items = parse_finder_xml(&xml);
    assert_eq!(items.len(), 2);
    assert_eq!(items[0].name, "A & B");
    assert_eq!(items[0].keystroke.as_deref(), Some("ctrl K"));
    assert_eq!(items[0].scope, "selection");
    assert!(items[0].nopopup && items[0].ascii_only && !items[0].non_ascii_only);
    assert_eq!(items[0].urls, vec!["http://a/?q={selection}&x=1".to_string(), "http://b/{target}".to_string()]);
    assert_eq!(items[0].url.as_deref(), Some("http://a/?q={selection}&x=1"));
    assert_eq!(items[0].command, None);
    assert_eq!(items[1].name, "Both");
    assert!(!items[1].ascii_only);
    assert_eq!(expand(&items[0], "a b", "", "é").as_deref(), Some("http://a/?q=a%20b&x=1"));
    assert_eq!(expand(&items[0], "", "", "").unwrap(), "http://a/?q=&x=1");
    assert!(parse_finder_xml("<items></items>").is_empty());
}

#[test]
fn expand_fills_every_placeholder() {
    let items = parse_finder_xml("<item><command>run {source} {target} {selection}</command></item>");
    assert_eq!(expand(&items[0], "s/t", "a b", "c").unwrap(), "run a%20b c s%2Ft");
    let none = parse_finder_xml("<item><name>n</name></item>");
    assert_eq!(expand(&none[0], "x", "y", "z"), None);
}
