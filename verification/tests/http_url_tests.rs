use omegat_core::http_url::{decode_http_urls, encode_http_urls};

#[test]
fn non_ascii_urls_are_percent_encoded() {
    assert_eq!(
        encode_http_urls("go https://ex.com/caf\u{e9}/x?q=a\u{e9}&r=1 now"),
        "go https://ex.com/caf%C3%A9/x?q=a%C3%A9&r=1 now"
    );
    assert_eq!(encode_http_urls("see https://ex.com/a_b.html"), "see https://ex.com/a_b.html");
    assert_eq!(encode_http_urls("no links"), "no links");
}

#[test]
fn decoding_undoes_the_escapes() {
    assert_eq!(
        decode_http_urls("go https://ex.com/caf%C3%A9/x?q=a%C3%A9&r=1 now"),
        "go https://ex.com/caf\u{e9}/x?q=a\u{e9}&r=1 now"
    );
    assert_eq!(decode_http_urls("https://ex.com/a+b%2"), "https://ex.com/a b%2");
}

#[test]
fn text_without_urls_is_unchanged() {
    let t = "plain text, no link here: é ü 100%";
    assert_eq!(encode_http_urls(t), t);
    assert_eq!(decode_http_urls(t), t);
}
