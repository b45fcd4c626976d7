//! The HTTP request each engine is asked with: method, URL and body.
use vstd::prelude::*;
use vstd::utf8::encode_utf8;
use crate::text::{str_eq, concat_str, replace_all, replace_str};
use crate::mt::{apertium, belazar, google, ibmwatson, mymemory, yandex};

verus! {

/// A byte that URL encoding leaves as it is: ASCII letters, digits, `-`, `.`, `_`, `~`.
pub open spec fn url_unreserved(b: u8) -> bool {
    (48 <= b <= 57) || (65 <= b <= 90) || (97 <= b <= 122) || b == 45 || b == 46 || b == 95 || b == 126
}

/// The upper-case hexadecimal digit of `d` (below 16).
pub open spec fn hex_upper(d: u8) -> char {
    if d < 10 { (48 + d) as char } else { (55 + d) as char }
}

/// Bytes percent-encoded: unreserved bytes kept, every other byte as `%XX`.
pub open spec fn percent_encoded(bytes: Seq<u8>) -> Seq<char>
    decreases bytes.len(),
{
    if bytes.len() == 0 {
        Seq::empty()
    } else {
        let b = bytes.last();
        percent_encoded(bytes.drop_last()) + if url_unreserved(b) {
            seq![b as char]
        } else {
            seq!['%', hex_upper(b / 16), hex_upper(b % 16)]
        }
    }
}

/// `urlencoding::encode`: each byte of the UTF-8 text percent-encoded except
/// ASCII letters, digits and `-`, `.`, `_`, `~` (as the crate documents and
/// its `encode_into` does).
#[verifier::external_body]
pub(crate) fn url_encode(s: &str) -> (r: String)
    ensures
        r@ == percent_encoded(encode_utf8(s@)),
{
    urlencoding::encode(s).into_owned()
}

/// Text inside a JSON string: backslashes and double quotes escaped.
pub open spec fn json_escaped(s: Seq<char>) -> Seq<char> {
    replace_all(replace_all(s, "\\"@, "\\\\"@), "\""@, "\\\""@)
}

fn json_escape(s: &str) -> (r: String)
    ensures
        r@ == json_escaped(s@),
{
    let a = replace_str(s, "\\", "\\\\");
    replace_str(a.as_str(), "\"", "\\\"")
}

/// `endpoint?q=..&langpair=sl|tl`, each value URL-encoded.
pub open spec fn langpair_url(endpoint: Seq<char>, source: Seq<char>, sl: Seq<char>, tl: Seq<char>) -> Seq<char> {
    endpoint + "?q="@ + percent_encoded(encode_utf8(source)) + "&langpair="@ + percent_encoded(encode_utf8(sl)) + "|"@
        + percent_encoded(encode_utf8(tl))
}

/// The request for asking `engine` to translate `source` from `sl` to `tl`,
/// as (method, URL, body). `google_key` is the key from the settings or the
/// environment; `ibm_url` and `yandex_url` replace the default endpoints.
/// Google without a key, and an unknown engine, are errors.
pub open spec fn mt_request_of(
    engine: Seq<char>,
    source: Seq<char>,
    sl: Seq<char>,
    tl: Seq<char>,
    google_key: Option<Seq<char>>,
    ibm_url: Option<Seq<char>>,
    yandex_url: Option<Seq<char>>,
) -> Result<(Seq<char>, Seq<char>, Option<Seq<char>>), Seq<char>> {
    if engine == "mymemory"@ || engine == "mymemory-human"@ {
        Ok(("GET"@, langpair_url(mymemory::ENDPOINT@, source, sl, tl), None))
    } else if engine == "apertium"@ {
        Ok(("GET"@, langpair_url(apertium::ENDPOINT@, source, sl, tl), None))
    } else if engine == "google"@ {
        match google_key {
            None => Err("OMEGAT_GOOGLE_KEY"@),
            Some(key) => Ok((
                "POST"@,
                google::ENDPOINT@ + "?key="@ + percent_encoded(encode_utf8(key)),
                Some("{\"q\":\""@ + json_escaped(source) + "\",\"source\":\""@ + sl + "\",\"target\":\""@ + tl + "\"}"@),
            )),
        }
    } else if engine == "ibmwatson"@ {
        Ok((
            "POST"@,
            match ibm_url { Some(u) => u, None => ibmwatson::ENDPOINT@ },
            Some("{\"text\":[\""@ + json_escaped(source) + "\"],\"source\":\""@ + sl + "\",\"target\":\""@ + tl + "\"}"@),
        ))
    } else if engine == "yandex"@ {
        Ok((
            "POST"@,
            match yandex_url { Some(u) => u, None => yandex::ENDPOINT@ },
            Some("{\"texts\":[\""@ + json_escaped(source) + "\"],\"sourceLanguageCode\":\""@ + sl
                + "\",\"targetLanguageCode\":\""@ + tl + "\"}"@),
        ))
    } else if engine == "belazar"@ {
        Ok(("GET"@, belazar::ENDPOINT@ + "?text="@ + percent_encoded(encode_utf8(source)) + "&sl="@ + sl + "&tl="@ + tl, None))
    } else {
        Err("unknown engine "@ + engine)
    }
}

/// An HTTP request to an engine.
pub struct MtRequest {
    pub method: String,
    pub url: String,
    pub body: Option<String>,
}

pub open spec fn opt_view(o: Option<&str>) -> Option<Seq<char>> {
    match o { Some(s) => Some(s@), None => None }
}

pub open spec fn request_view(q: MtRequest) -> (Seq<char>, Seq<char>, Option<Seq<char>>) {
    (q.method@, q.url@, match q.body { Some(b) => Some(b@), None => None })
}

fn langpair_url_exec(endpoint: &str, source: &str, sl: &str, tl: &str) -> (r: String)
    ensures
        r@ == langpair_url(endpoint@, source@, sl@, tl@),
{
    let mut u = concat_str(endpoint, "?q=");
    u = concat_str(u.as_str(), url_encode(source).as_str());
    u = concat_str(u.as_str(), "&langpair=");
    u = concat_str(u.as_str(), url_encode(sl).as_str());
    u = concat_str(u.as_str(), "|");
    concat_str(u.as_str(), url_encode(tl).as_str())
}

fn json_body(head: &str, source: &str, mid: &str, sl: &str, mid2: &str, tl: &str, tail: &str) -> (r: String)
    ensures
        r@ == head@ + json_escaped(source@) + mid@ + sl@ + mid2@ + tl@ + tail@,
{
    let mut b = concat_str(head, json_escape(source).as_str());
    b = concat_str(b.as_str(), mid);
    b = concat_str(b.as_str(), sl);
    b = concat_str(b.as_str(), mid2);
    b = concat_str(b.as_str(), tl);
    concat_str(b.as_str(), tail)
}

/// The HTTP request that asks `engine` for a translation (see `mt_request_of`).
pub fn mt_request(
    engine: &str,
    source: &str,
    sl: &str,
    tl: &str,
    google_key: Option<&str>,
    ibm_url: Option<&str>,
    yandex_url: Option<&str>,
) -> (r: Result<MtRequest, String>)
    ensures
        match mt_request_of(engine@, source@, sl@, tl@, opt_view(google_key), opt_view(ibm_url), opt_view(yandex_url)) {
            Ok(q) => r matches Ok(x) && request_view(x) == q,
            Err(e) => r matches Err(x) && x@ == e,
        },
{
    if str_eq(engine, "mymemory") || str_eq(engine, "mymemory-human") {
        Ok(MtRequest { method: "GET".to_owned(), url: langpair_url_exec(mymemory::ENDPOINT, source, sl, tl), body: None })
    } else if str_eq(engine, "apertium") {
        Ok(MtRequest { method: "GET".to_owned(), url: langpair_url_exec(apertium::ENDPOINT, source, sl, tl), body: None })
    } else if str_eq(engine, "google") {
        match google_key {
            None => Err("OMEGAT_GOOGLE_KEY".to_owned()),
            Some(key) => {
                let url = concat_str(concat_str(google::ENDPOINT, "?key=").as_str(), url_encode(key).as_str());
                let body = json_body("{\"q\":\"", source, "\",\"source\":\"", sl, "\",\"target\":\"", tl, "\"}");
                Ok(MtRequest { method: "POST".to_owned(), url, body: Some(body) })
            },
        }
    } else if str_eq(engine, "ibmwatson") {
        let url = match ibm_url { Some(u) => u.to_owned(), None => ibmwatson::ENDPOINT.to_owned() };
        let body = json_body("{\"text\":[\"", source, "\"],\"source\":\"", sl, "\",\"target\":\"", tl, "\"}");
        Ok(MtRequest { method: "POST".to_owned(), url, body: Some(body) })
    } else if str_eq(engine, "yandex") {
        let url = match yandex_url { Some(u) => u.to_owned(), None => yandex::ENDPOINT.to_owned() };
        let body = json_body("{\"texts\":[\"", source, "\"],\"sourceLanguageCode\":\"", sl, "\",\"targetLanguageCode\":\"", tl,
            "\"}");
        Ok(MtRequest { method: "POST".to_owned(), url, body: Some(body) })
    } else if str_eq(engine, "belazar") {
        let mut url = concat_str(belazar::ENDPOINT, "?text=");
        url = concat_str(url.as_str(), url_encode(source).as_str());
        url = concat_str(url.as_str(), "&sl=");
        url = concat_str(url.as_str(), sl);
        url = concat_str(url.as_str(), "&tl=");
        url = concat_str(url.as_str(), tl);
        Ok(MtRequest { method: "GET".to_owned(), url, body: None })
    } else {
        Err(concat_str("unknown engine ", engine))
    }
}

} // verus!
