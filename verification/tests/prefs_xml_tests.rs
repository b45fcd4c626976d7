use omegat_core::prefs::{prefs_xml_text, JavaPreferences};

#[test]
fn preferences_file_elements_are_read() {
    let raw = "<?xml version=\"1.0\" encoding=\"UTF-8\" ?>\n<omegat>\n<preference version=\"1.0\">\n\
               <a.b>1</a.b>\n<x>first</x>\n<bad>v</other>\n<x>second</x>\n<empty></empty>\n\
               </preference>\n</omegat>\n";
    let p = JavaPreferences::prefs_of_xml(raw).unwrap();
    assert_eq!(p.get_preference(Some("a.b")), "1");
    assert_eq!(p.get_preference(Some("x")), "second");
    assert!(!p.exists_preference("bad"));
    assert!(p.exists_preference("empty"));
    assert!(!p.exists_preference("preference"));
    assert!(!p.exists_preference("omegat"));
}

#[test]
fn preferences_written_then_read_back() {
    let mut p = JavaPreferences::new();
    p.set_preference(Some("k1"), Some("v1"));
    p.set_preference(Some("k2"), Some("true"));
    let text = prefs_xml_text(&p);
    assert_eq!(
        text,
        "<?xml version=\"1.0\" encoding=\"UTF-8\" ?>\n<omegat>\n<preference version=\"1.0\">\n<k1>v1</k1>\n<k2>true</k2>\n</preference>\n</omegat>\n"
    );
    let back = JavaPreferences::prefs_of_xml(&text).unwrap();
    assert_eq!(back.get_preference(Some("k1")), "v1");
    assert!(back.is_preference("k2"));
}
