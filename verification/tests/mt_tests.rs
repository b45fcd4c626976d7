use omegat_core::mt::response::{parse_engine, parse_recorded_or_engine};
use omegat_core::mt::request::mt_request;
use omegat_core::mt::{auth_headers, base64_basic, engines, set_glossary_map, MtCache, MtCreds};

fn check_auth_headers() {
    let google = auth_headers(
        "google",
        &MtCreds { google_key: Some("k".into()), ..Default::default() },
        false,
    )
    .unwrap();
    assert!(google.iter().any(|(k, v)| k == "X-HTTP-Method-Override" && v == "GET"));
    let ibm = auth_headers(
        "ibmwatson",
        &MtCreds { ibm_login: Some("apikey".into()), ibm_password: Some("secret".into()), ..Default::default() },
        false,
    )
    .unwrap();
    assert!(ibm.iter().any(|(k, v)| k == "X-Watson-Learning-Opt-Out" && v == "true"));
    assert!(ibm.iter().any(|(k, v)| k == "Authorization" && v.starts_with("Basic ")));
    let yandex = auth_headers(
        "yandex",
        &MtCreds { yandex_iam: Some("tok".into()), ..Default::default() },
        false,
    )
    .unwrap();
    assert_eq!(yandex[0], ("Authorization".into(), "Bearer tok".into()));
}

#[test]
fn seven_connector_modules() {
    assert_eq!(engines().len(), 7);
    for id in ["google", "ibmwatson", "mymemory", "mymemory-human", "apertium", "yandex", "belazar"] {
        assert!(engines().iter().any(|e| e.id == id), "{id}");
    }
}

#[test]
fn mt_auth_headers_match_java_connectors() {
    check_auth_headers();
}

#[test]
fn mod_auth_headers_match_java_connectors() {
    check_auth_headers();
}

#[test]
fn missing_keys_and_unknown_engines_are_refused() {
    assert_eq!(
        auth_headers("google", &MtCreds::default(), false),
        Err("google.api.key missing".to_string())
    );
    assert!(auth_headers("google", &MtCreds::default(), true).is_ok());
    assert_eq!(
        auth_headers("yandex", &MtCreds::default(), false),
        Err("Yandex IAM token missing".to_string())
    );
    assert_eq!(auth_headers("apertium", &MtCreds::default(), false), Ok(vec![]));
    assert_eq!(auth_headers("deepl", &MtCreds::default(), false), Err("unknown engine deepl".to_string()));
}

#[test]
fn basic_credentials_in_base64() {
    assert_eq!(base64_basic("apikey:secret"), "YXBpa2V5OnNlY3JldA==");
    assert_eq!(base64_basic(""), "");
    assert_eq!(base64_basic("ab"), "YWI=");
    assert_eq!(base64_basic("abc"), "YWJj");
    let ibm = auth_headers(
        "ibmwatson",
        &MtCreds { ibm_login: Some("apikey".into()), ibm_password: Some("secret".into()), ..Default::default() },
        false,
    )
    .unwrap();
    assert_eq!(ibm[0].1, "Basic YXBpa2V5OnNlY3JldA==");
}

#[test]
fn glossary_supplier_reaches_every_engine() {
    let mut e = engines();
    set_glossary_map(&mut e, Some("project"));
    assert!(e.iter().all(|t| t.glossary_supplier.as_deref() == Some("project")));
    set_glossary_map(&mut e, None);
    assert!(e.iter().all(|t| t.glossary_supplier.is_none()));
}

#[test]
fn cache_returns_what_was_put() {
    let mut c = MtCache::new();
    assert_eq!(c.get("k"), None);
    c.put("k".to_string(), "v1".to_string());
    c.put("j".to_string(), "w".to_string());
    c.put("k".to_string(), "v2".to_string());
    assert_eq!(c.get("k"), Some("v2".to_string()));
    assert_eq!(c.get("j"), Some("w".to_string()));
}

#[test]
fn request_urls_and_bodies() {
    let q = mt_request("mymemory", "Hello world", "en", "fr", None, None, None).unwrap();
    assert_eq!(q.method, "GET");
    assert_eq!(q.url, "https://api.mymemory.translated.net/get?q=Hello%20world&langpair=en|fr");
    assert!(q.body.is_none());
    let q = mt_request("apertium", "a/é~", "en", "es", None, None, None).unwrap();
    assert_eq!(q.url, "https://www.apertium.org/apy/translate?q=a%2F%C3%A9~&langpair=en|es");
    let q = mt_request("google", "say \"hi\"", "en", "fr", Some("k y"), None, None).unwrap();
    assert_eq!(q.method, "POST");
    assert_eq!(q.url, "https://translation.googleapis.com/language/translate/v2?key=k%20y");
    assert_eq!(q.body.as_deref(), Some("{\"q\":\"say \\\"hi\\\"\",\"source\":\"en\",\"target\":\"fr\"}"));
    assert_eq!(mt_request("google", "x", "en", "fr", None, None, None).err().as_deref(), Some("OMEGAT_GOOGLE_KEY"));
    let q = mt_request("ibmwatson", "a\\b", "en", "de", None, Some("http://ibm.local"), None).unwrap();
    assert_eq!(q.url, "http://ibm.local");
    assert_eq!(q.body.as_deref(), Some("{\"text\":[\"a\\\\b\"],\"source\":\"en\",\"target\":\"de\"}"));
    let q = mt_request("yandex", "x", "en", "ru", None, None, None).unwrap();
    assert_eq!(q.url, "https://translate.api.cloud.yandex.net/translate/v2/translate");
    assert_eq!(q.body.as_deref(), Some("{\"texts\":[\"x\"],\"sourceLanguageCode\":\"en\",\"targetLanguageCode\":\"ru\"}"));
    let q = mt_request("belazar", "a b", "ru", "be", None, None, None).unwrap();
    assert_eq!(q.url, "http://www.belazar.by/translate?text=a%20b&sl=ru&tl=be");
    assert_eq!(mt_request("foo", "x", "en", "fr", None, None, None).err().as_deref(), Some("unknown engine foo"));
}

#[test]
fn parses_each_engine_fixture() {
    let samples = [
        ("google", r#"{"data":{"translations":[{"translatedText":"Bonjour"}]}}"#),
        ("ibmwatson", r#"{"translations":[{"translation":"Bonjour"}]}"#),
        ("mymemory", r#"{"responseData":{"translatedText":"Bonjour"}}"#),
        ("mymemory-human", r#"{"responseData":{"translatedText":"Bonjour"}}"#),
        ("apertium", r#"{"responseData":{"translatedText":"Bonjour"}}"#),
        ("yandex", r#"{"translations":[{"text":"Bonjour"}]}"#),
        ("belazar", r#"{"text":"Bonjour"}"#),
    ];
    for (id, raw) in samples {
        assert_eq!(parse_engine(id, raw).unwrap(), "Bonjour", "{id}");
    }
}

#[test]
fn error_body_is_not_a_translation() {
    let raw = r#"{"error":{"message":"API key not valid"}}"#;
    let err = parse_recorded_or_engine("google", raw).unwrap_err();
    assert!(err.contains("API key not valid"));
}

#[test]
fn recorded_response_and_plain_text() {
    let raw = r#"{"request":{"q":"Hi"},"response":{"translations":[{"translation":"Salut &amp; bonjour"}]}}"#;
    assert_eq!(parse_recorded_or_engine("ibmwatson", raw).unwrap(), "Salut & bonjour");
    let raw = r#"{"response":{"errorMessage":"quota"}}"#;
    assert_eq!(parse_recorded_or_engine("yandex", raw).unwrap_err(), "yandex error: quota");
    assert_eq!(parse_recorded_or_engine("belazar", "not json").unwrap(), "not json");
    assert_eq!(parse_engine("google", "not json").unwrap_err(), "google response missing translation");
    assert_eq!(parse_engine("apertium", r#"{"translatedText":"Hola"}"#).unwrap(), "Hola");
}
