use omegat_core::mixed_eol::MixedEolReader;

#[test]
fn dominant_line_end_splits_and_mixing_is_reported() {
    let mut r = MixedEolReader::from_text("a\r\nb\r\nc\nd", "\n");
    assert_eq!(r.detected_eol, "\r\n");
    assert!(r.mixed);
    assert_eq!(r.read_line(), Some("a".to_string()));
    assert_eq!(r.read_line(), Some("b".to_string()));
    assert_eq!(r.read_line(), Some("c\nd".to_string()));
    assert_eq!(r.read_line(), None);
}

#[test]
fn platform_line_end_without_line_ends_or_on_a_tie() {
    let r = MixedEolReader::from_text("one line", "\r\n");
    assert_eq!(r.detected_eol, "\r\n");
    assert!(!r.mixed);
    let t = MixedEolReader::from_text("a\rb\nc", "\n");
    assert_eq!(t.detected_eol, "\n");
    assert!(t.mixed);
}
