use omegat_core::entity_util::{chars_to_entities, entities_to_chars};

#[test]
fn named_and_numeric_references_decode() {
    assert_eq!(entities_to_chars("a &lt;b&gt; &amp; c"), "a <b> & c");
    assert_eq!(entities_to_chars("&#65;&#x42;&#X43;"), "ABC");
    assert_eq!(entities_to_chars("&OElig;uvre&nbsp;!"), "\u{0152}uvre\u{00A0}!");
}

#[test]
fn unknown_or_broken_references_stay() {
    assert_eq!(entities_to_chars("fish & chips"), "fish & chips");
    assert_eq!(entities_to_chars("&bogus; x"), "&bogus; x");
    assert_eq!(entities_to_chars("&#xD800;"), "&#xD800;");
    assert_eq!(entities_to_chars("&#99999999999;"), "&#99999999999;");
}

#[test]
fn markup_escapes_except_protected() {
    assert_eq!(chars_to_entities("a<b>&c\u{00A0}", "UTF-8", &[]), "a&lt;b&gt;&amp;c&nbsp;");
    assert_eq!(chars_to_entities("<br>x<y", "UTF-8", &["<br>"]), "<br>x&lt;y");
}

#[test]
fn escaping_then_decoding_gives_the_text_back() {
    for s in ["a<b>&c\u{00A0}d", "&amp; already", "", "plain", "&lt;&", "x&#65;y"] {
        assert_eq!(entities_to_chars(&chars_to_entities(s, "UTF-8", &[])), s);
    }
}
