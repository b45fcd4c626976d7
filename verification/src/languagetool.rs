//! The LanguageTool language class that checks a project language.
use vstd::prelude::*;
use crate::language::{Language, language_of, country_of};
use crate::text::{str_eq, str_contains, concat_str, contains, trim, trim_str, chars_of, string_of, extend_chars,
    all_digits, digits_value, is_digit};
use crate::mt::response::{JsonValue, json_parse_of, json_field, json_pointer, json_text, parse_json_reporting, field,
    pointer, text_of, toks_view, opt_ref};
use crate::mt::request::{percent_encoded, url_encode};
use vstd::utf8::encode_utf8;

verus! {

/// The checker class for a language and country: American and Canadian
/// English by country, other English, Belarusian and French by language.
pub open spec fn lt_class(lang: Seq<char>, country: Seq<char>) -> Option<Seq<char>> {
    if lang == "en"@ && country == "US"@ {
        Some("org.languagetool.language.AmericanEnglish"@)
    } else if lang == "en"@ && country == "CA"@ {
        Some("org.languagetool.language.CanadianEnglish"@)
    } else if lang == "en"@ {
        Some("org.languagetool.language.English"@)
    } else if lang == "be"@ {
        Some("org.languagetool.language.Belarusian"@)
    } else if lang == "fr"@ {
        Some("org.languagetool.language.French"@)
    } else {
        None
    }
}

/// The LanguageTool class that checks texts of the language `code`, where
/// there is one.
pub fn lt_language_class(code: &str) -> (r: Option<&'static str>)
    ensures
        match lt_class(language_of(code@), country_of(code@)) {
            Some(c) => r matches Some(x) && x@ == c,
            None => r is None,
        },
{
    let lang = Language::new(Some(code));
    let l = lang.get_language_code();
    let c = lang.get_country_code();
    if str_eq(l, "en") && str_eq(c, "US") {
        Some("org.languagetool.language.AmericanEnglish")
    } else if str_eq(l, "en") && str_eq(c, "CA") {
        Some("org.languagetool.language.CanadianEnglish")
    } else if str_eq(l, "en") {
        Some("org.languagetool.language.English")
    } else if str_eq(l, "be") {
        Some("org.languagetool.language.Belarusian")
    } else if str_eq(l, "fr") {
        Some("org.languagetool.language.French")
    } else {
        None
    }
}


/// The text of an integer that fits in an `i64`: an optional minus sign,
/// then digits within range.
pub open spec fn i64_text(t: Seq<char>) -> bool {
    if t.len() > 0 && t[0] == '-' {
        all_digits(t.drop_first()) && digits_value(t.drop_first()) <= 9223372036854775808
    } else {
        all_digits(t) && digits_value(t) <= 9223372036854775807
    }
}

/// A match's offset as printed: its integer value where it is one that fits
/// in an `i64`, else 0.
pub open spec fn offset_text(o: Option<JsonValue>) -> Seq<char> {
    match o {
        Some(JsonValue::Number(t)) => if i64_text(t@) { t@ } else { "0"@ },
        _ => "0"@,
    }
}

/// One LanguageTool match as a line: `message [rule] @offset`, with
/// "LanguageTool match", "-" and 0 where a part is missing; the rule is
/// `rule.id`, else `rule` itself where it is a string.
pub open spec fn lt_match_text(m: JsonValue) -> Seq<char> {
    let msg = match json_text(json_field(m, "message"@)) {
        Some(t) => t,
        None => "LanguageTool match"@,
    };
    let rule = match json_text(json_pointer(m, seq!["rule"@, "id"@])) {
        Some(t) => t,
        None => match json_text(json_field(m, "rule"@)) {
            Some(t) => t,
            None => "-"@,
        },
    };
    msg + " ["@ + rule + "] @"@ + offset_text(json_field(m, "offset"@))
}

/// The lines of every entry of a reply's `matches` array (none without one).
pub open spec fn lt_match_texts(v: JsonValue) -> Seq<Seq<char>> {
    match json_field(v, "matches"@) {
        Some(JsonValue::Array(a)) => Seq::new(a@.len(), |i: int| lt_match_text(a@[i])),
        _ => Seq::empty(),
    }
}

pub open spec fn strings_view(v: Seq<String>) -> Seq<Seq<char>> {
    Seq::new(v.len(), |i: int| v[i]@)
}

fn i64_text_exec(t: &str) -> (r: bool)
    ensures
        r == i64_text(t@),
{
    let v = chars_of(t);
    let neg = v.len() > 0 && v[0] == '-';
    let start: usize = if neg { 1 } else { 0 };
    let ghost d = if neg { t@.drop_first() } else { t@ };
    let limit: u128 = if neg { 9223372036854775808 } else { 9223372036854775807 };
    if v.len() <= start {
        assert(d.len() == 0);
        return false;
    }
    proof {
        if neg {
            assert(d =~= t@.drop_first());
        } else {
            assert(d =~= t@);
        }
    }
    let mut val: u128 = 0;
    let mut i: usize = start;
    assert(v@.subrange(start as int, start as int) =~= Seq::<char>::empty());
    while i < v.len()
        invariant
            start <= i <= v@.len(),
            v@ == t@,
            d == v@.subrange(start as int, v@.len() as int),
            val == digits_value(v@.subrange(start as int, i as int)),
            val <= limit,
            limit <= 9223372036854775808,
            neg == (t@.len() > 0 && t@[0] == '-'),
            d == (if neg { t@.drop_first() } else { t@ }),
            limit == (if neg { 9223372036854775808u128 } else { 9223372036854775807u128 }),
            start == (if neg { 1usize } else { 0usize }),
            forall|k: int| start <= k < i ==> is_digit(#[trigger] v@[k]),
        decreases v@.len() - i,
    {
        let c = v[i];
        assert(d[i - start] == c);
        if !('0' <= c && c <= '9') {
            assert(!is_digit(d[i - start]));
            return false;
        }
        let ghost sub = v@.subrange(start as int, i + 1);
        assert(sub.drop_last() =~= v@.subrange(start as int, i as int));
        assert(sub.last() == c);
        let next = val * 10 + ((c as u32) - 48) as u128;
        assert(next == digits_value(sub));
        if next > limit {
            proof {
                assert(d.subrange(0, i + 1 - start) =~= sub);
                if all_digits(d) {
                    lemma_digits_grow(d, (i + 1 - start) as int);
                }
            }
            return false;
        }
        val = next;
        i = i + 1;
    }
    assert(v@.subrange(start as int, i as int) =~= d);
    proof {
        if neg {
            assert(d =~= t@.drop_first());
        }
    }
    true
}

/// A string of digits has a value of at least 0.
proof fn lemma_digits_nonneg(s: Seq<char>)
    requires
        forall|i: int| 0 <= i < s.len() ==> is_digit(#[trigger] s[i]),
    ensures
        digits_value(s) >= 0,
    decreases s.len(),
{
    if s.len() > 0 {
        lemma_digits_nonneg(s.drop_last());
        assert(is_digit(s[s.len() - 1]));
    }
}

/// A digit string's value is at least that of any prefix.
proof fn lemma_digits_grow(d: Seq<char>, n: int)
    requires
        0 <= n <= d.len(),
        all_digits(d),
    ensures
        digits_value(d.subrange(0, n)) <= digits_value(d),
    decreases d.len() - n,
{
    if n < d.len() {
        lemma_digits_grow(d, n + 1);
        let s = d.subrange(0, n + 1);
        assert(s.drop_last() =~= d.subrange(0, n));
        assert(is_digit(d[n]));
        lemma_digits_nonneg(d.subrange(0, n));
    } else {
        assert(d.subrange(0, n) =~= d);
    }
}

fn lt_match_text_exec(m: &JsonValue) -> (r: String)
    ensures
        r@ == lt_match_text(*m),
{
    let msg = match text_of(field(m, "message")) {
        Some(t) => t,
        None => "LanguageTool match".to_string(),
    };
    let toks = ["rule", "id"];
    assert(toks_view(toks@) =~= seq!["rule"@, "id"@]);
    let rule = match text_of(pointer(m, &toks)) {
        Some(t) => t,
        None => match text_of(field(m, "rule")) {
            Some(t) => t,
            None => "-".to_string(),
        },
    };
    let off: String = match field(m, "offset") {
        Some(JsonValue::Number(t)) => if i64_text_exec(t.as_str()) { t.as_str().to_owned() } else { "0".to_string() },
        _ => "0".to_string(),
    };
    let a = concat_str(msg.as_str(), " [");
    let b = concat_str(a.as_str(), rule.as_str());
    let c = concat_str(b.as_str(), "] @");
    concat_str(c.as_str(), off.as_str())
}

/// A LanguageTool reply read: one line per match, or the parser's error
/// where the reply is not JSON.
pub fn parse_lt_json(raw: &str) -> (r: Result<Vec<String>, String>)
    ensures
        match json_parse_of(raw@) {
            None => r is Err,
            Some(v) => r matches Ok(m) && strings_view(m@) == lt_match_texts(v),
        },
{
    let v = match parse_json_reporting(raw) {
        Ok(v) => v,
        Err(e) => { return Err(e); },
    };
    let mut out: Vec<String> = Vec::new();
    match field(&v, "matches") {
        Some(JsonValue::Array(a)) => {
            let mut i: usize = 0;
            while i < a.len()
                invariant
                    i <= a@.len(),
                    out@.len() == i,
                    strings_view(out@) == Seq::new(i as nat, |k: int| lt_match_text(a@[k])),
                decreases a@.len() - i,
            {
                let t = lt_match_text_exec(&a[i]);
                let ghost before = out@;
                out.push(t);
                assert forall|k: int| 0 <= k < i + 1 implies strings_view(out@)[k] == lt_match_text(a@[k]) by {
                    if k < i {
                        assert(out@[k] == before[k]);
                        assert(strings_view(before)[k] == lt_match_text(a@[k]));
                    }
                }
                assert(strings_view(out@) =~= Seq::new((i + 1) as nat, |k: int| lt_match_text(a@[k])));
                i = i + 1;
            }
            assert(Seq::new(i as nat, |k: int| lt_match_text(a@[k])) =~= lt_match_texts(v));
        },
        _ => {
            assert(strings_view(out@) =~= lt_match_texts(v));
        },
    }
    Ok(out)
}

/// The endpoint with every trailing `/` removed.
pub open spec fn without_trailing_slashes(s: Seq<char>) -> Seq<char>
    decreases s.len(),
{
    if s.len() > 0 && s.last() == '/' { without_trailing_slashes(s.drop_last()) } else { s }
}

/// The check URL: the endpoint where it already names `/v2/check`, else
/// the endpoint (trailing slashes dropped) with `/v2/check` appended.
pub open spec fn lt_check_url(endpoint: Seq<char>) -> Seq<char> {
    if contains(endpoint, "/v2/check"@) { endpoint } else { without_trailing_slashes(endpoint) + "/v2/check"@ }
}

pub open spec fn url_text(s: Seq<char>) -> Seq<char> {
    percent_encoded(encode_utf8(s))
}

/// The request a check makes: the URL it posts to and its form body.
pub fn lt_request(endpoint: &str, text: &str, lang: &str) -> (r: (String, String))
    ensures
        r.0@ == lt_check_url(endpoint@),
        r.1@ == "language="@ + url_text(lang@) + "&text="@ + url_text(text@),
{
    let url = if str_contains(endpoint, "/v2/check") {
        endpoint.to_owned()
    } else {
        let v = chars_of(endpoint);
        let mut n = v.len();
        assert(v@.subrange(0, n as int) =~= v@);
        while n > 0 && v[n - 1] == '/'
            invariant
                n <= v@.len(),
                v@ == endpoint@,
                without_trailing_slashes(endpoint@) == without_trailing_slashes(v@.subrange(0, n as int)),
            decreases n,
        {
            assert(v@.subrange(0, n as int).drop_last() =~= v@.subrange(0, n - 1));
            n = n - 1;
        }
        let mut w: Vec<char> = Vec::new();
        let head = crate::text::slice_vec(&v, 0, n);
        extend_chars(&mut w, &head);
        let base = string_of(&w);
        assert(base@ == without_trailing_slashes(endpoint@));
        concat_str(base.as_str(), "/v2/check")
    };
    let l = url_encode(lang);
    let t = url_encode(text);
    let a = concat_str("language=", l.as_str());
    let b = concat_str(a.as_str(), "&text=");
    (url, concat_str(b.as_str(), t.as_str()))
}

/// A checker finding for a segment, as the editor shows it.
pub struct LtIssue {
    pub kind: String,
    pub index: usize,
    pub file: String,
    pub message: String,
    pub severity: String,
}

pub open spec fn issue_is(i: LtIssue, index: usize, file: Seq<char>, message: Seq<char>, severity: Seq<char>) -> bool {
    i.kind@ == "languagetool"@ && i.index == index && i.file@ == file && i.message@ == message && i.severity@ == severity
}

fn issue(index: usize, file: &str, message: &str, severity: &str) -> (r: LtIssue)
    ensures
        issue_is(r, index, file@, message@, severity@),
{
    LtIssue {
        kind: "languagetool".to_string(),
        index,
        file: file.to_owned(),
        message: message.to_owned(),
        severity: severity.to_owned(),
    }
}

pub const UNCONFIGURED_MESSAGE: &'static str =
    "LanguageTool is not configured. Set languagetool_url to an HTTP v2/check endpoint. The embedded LT JAR is not used.";

/// What a check does before asking the checker: nothing more once
/// cancelled, the unconfigured notice without an endpoint, no findings for
/// blank text, else ask the endpoint.
pub enum LtStart {
    Done(Option<Vec<LtIssue>>),
    Ask(String),
}

pub fn lt_start(endpoint: Option<&str>, text: &str, cancelled: bool, index: usize, file: &str) -> (r: LtStart)
    ensures
        cancelled ==> r matches LtStart::Done(None),
        !cancelled && (endpoint is None || endpoint->0@.len() == 0) ==> (r matches LtStart::Done(Some(v))
            && v@.len() == 1 && issue_is(v@[0], index, file@, UNCONFIGURED_MESSAGE@, "info"@)),
        !cancelled && (endpoint matches Some(e) && e@.len() > 0) && trim(text@).len() == 0
            ==> (r matches LtStart::Done(Some(v)) && v@.len() == 0),
        !cancelled && (endpoint matches Some(e) && e@.len() > 0) && trim(text@).len() > 0
            ==> (r matches LtStart::Ask(u) && u@ == endpoint->0@),
{
    if cancelled {
        return LtStart::Done(None);
    }
    let url = match endpoint {
        Some(e) => if e.unicode_len() > 0 { e } else {
            return LtStart::Done(Some(vec![issue(index, file, UNCONFIGURED_MESSAGE, "info")]));
        },
        None => {
            return LtStart::Done(Some(vec![issue(index, file, UNCONFIGURED_MESSAGE, "info")]));
        },
    };
    if trim_str(text).unicode_len() == 0 {
        return LtStart::Done(Some(Vec::new()));
    }
    LtStart::Ask(url.to_owned())
}

/// The findings a check reports once the checker replied: a warning per
/// match; nothing once cancelled while it failed; else an information issue
/// saying why the checker was unavailable.
pub fn lt_finish(reply: Result<Vec<String>, String>, cancelled: bool, index: usize, file: &str)
    -> (r: Option<Vec<LtIssue>>)
    ensures
        match reply {
            Ok(ms) => r matches Some(v) && v@.len() == ms@.len()
                && forall|k: int| 0 <= k < v@.len() ==> #[trigger] issue_is(v@[k], index, file@, ms@[k]@, "warn"@),
            Err(e) => if cancelled { r is None } else {
                r matches Some(v) && v@.len() == 1
                    && issue_is(v@[0], index, file@, "LanguageTool unavailable: "@ + e@, "info"@)
            },
        },
{
    match reply {
        Ok(ms) => {
            let mut out: Vec<LtIssue> = Vec::new();
            let mut k: usize = 0;
            while k < ms.len()
                invariant
                    k <= ms@.len(),
                    out@.len() == k,
                    forall|j: int| 0 <= j < k ==> #[trigger] issue_is(out@[j], index, file@, ms@[j]@, "warn"@),
                decreases ms@.len() - k,
            {
                out.push(issue(index, file, ms[k].as_str(), "warn"));
                k = k + 1;
            }
            Some(out)
        },
        Err(e) => {
            if cancelled {
                None
            } else {
                let m = concat_str("LanguageTool unavailable: ", e.as_str());
                Some(vec![issue(index, file, m.as_str(), "info")])
            }
        },
    }
}

/// Where a check gets its reply: a recorded reply file for a `fixture:`
/// endpoint, else a POST of the form body to the check URL.
pub enum LtRequest {
    Fixture(String),
    Post { url: String, body: String },
}

pub open spec fn fixture_prefix() -> Seq<char> {
    "fixture:"@
}

pub fn lt_request_for(endpoint: &str, text: &str, lang: &str) -> (r: LtRequest)
    ensures
        crate::text::starts_with(endpoint@, fixture_prefix()) ==> (r matches LtRequest::Fixture(p)
            && p@ == endpoint@.subrange(fixture_prefix().len() as int, endpoint@.len() as int)),
        !crate::text::starts_with(endpoint@, fixture_prefix()) ==> (r matches LtRequest::Post { url, body }
            && url@ == lt_check_url(endpoint@) && body@ == "language="@ + url_text(lang@) + "&text="@ + url_text(text@)),
{
    let v = chars_of(endpoint);
    let pre = chars_of("fixture:");
    if crate::text::starts_with_exec(&v, &pre) {
        let rest = crate::text::slice_vec(&v, pre.len(), v.len());
        return LtRequest::Fixture(string_of(&rest));
    }
    let (url, body) = lt_request(endpoint, text, lang);
    LtRequest::Post { url, body }
}

} // verus!
