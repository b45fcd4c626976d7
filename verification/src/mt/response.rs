//! Reading an engine's reply: the translation, or the engine's error.
use vstd::prelude::*;
use crate::text::{str_eq, concat_str};
use crate::regex_ops::{html_decoded, decode_html};

verus! {

/// A JSON value as plain data; numbers keep their text, objects their
/// key/value pairs in the order the parser gives them.
pub enum JsonValue {
    Null,
    Bool(bool),
    Number(String),
    Str(String),
    Array(Vec<JsonValue>),
    Object(Vec<(String, JsonValue)>),
}

#[verifier::external_type_specification]
#[verifier::external_body]
pub struct ExSerdeValue(serde_json::Value);

/// What `serde_json::from_str::<serde_json::Value>` gives for a text, as a
/// `JsonValue`; `None` where the text is not JSON.
pub uninterp spec fn json_parse_of(raw: Seq<char>) -> Option<JsonValue>;

/// `serde_json::from_str::<serde_json::Value>`, the value converted to a
/// `JsonValue`; named `json_parse_of`.
#[verifier::external_body]
fn parse_json(raw: &str) -> (r: Option<JsonValue>)
    ensures
        r == json_parse_of(raw@),
{
    serde_json::from_str::<serde_json::Value>(raw).ok().map(|v| json_value_of(&v))
}

/// `serde_json::from_str::<serde_json::Value>` keeping the parser's error
/// text (`serde_json::Error`'s `Display`); the value as `parse_json` gives
/// it. What the error text says is left unstated.
#[verifier::external_body]
pub(crate) fn parse_json_reporting(raw: &str) -> (r: Result<JsonValue, String>)
    ensures
        match json_parse_of(raw@) {
            Some(v) => r == Ok::<JsonValue, String>(v),
            None => r is Err,
        },
{
    serde_json::from_str::<serde_json::Value>(raw).map(|v| json_value_of(&v)).map_err(|e| e.to_string())
}

/// Converts a `serde_json::Value` into a `JsonValue`, variant for variant
/// (a number by its text); used by the two parsing wrappers only.
#[verifier::external_body]
fn json_value_of(v: &serde_json::Value) -> JsonValue {
    match v {
        serde_json::Value::Null => JsonValue::Null,
        serde_json::Value::Bool(b) => JsonValue::Bool(*b),
        serde_json::Value::Number(n) => JsonValue::Number(n.to_string()),
        serde_json::Value::String(s) => JsonValue::Str(s.clone()),
        serde_json::Value::Array(a) => JsonValue::Array(a.iter().map(json_value_of).collect()),
        serde_json::Value::Object(m) => JsonValue::Object(m.iter().map(|(k, x)| (k.clone(), json_value_of(x))).collect()),
    }
}

/// The value under the first `key` of an object's pairs, from index `i` on.
pub open spec fn pair_value(ps: Seq<(String, JsonValue)>, key: Seq<char>, i: int) -> Option<JsonValue>
    decreases ps.len() - i,
{
    if i < 0 || i >= ps.len() {
        None
    } else if ps[i].0@ == key {
        Some(ps[i].1)
    } else {
        pair_value(ps, key, i + 1)
    }
}

/// `Value::get(key)`: an object's member.
pub open spec fn json_field(v: JsonValue, key: Seq<char>) -> Option<JsonValue> {
    match v {
        JsonValue::Object(ps) => pair_value(ps@, key, 0),
        _ => None,
    }
}

/// One step of a JSON pointer: an object's member, or element 0 of an array
/// for the token `0`.
pub open spec fn json_token(v: JsonValue, tok: Seq<char>) -> Option<JsonValue> {
    match v {
        JsonValue::Object(ps) => pair_value(ps@, tok, 0),
        JsonValue::Array(a) => if tok == "0"@ && a@.len() > 0 { Some(a@[0]) } else { None },
        _ => None,
    }
}

/// `Value::pointer` with the given tokens.
pub open spec fn json_pointer(v: JsonValue, toks: Seq<Seq<char>>) -> Option<JsonValue>
    decreases toks.len(),
{
    if toks.len() == 0 {
        Some(v)
    } else {
        match json_token(v, toks[0]) {
            Some(w) => json_pointer(w, toks.drop_first()),
            None => None,
        }
    }
}

/// `as_str` of an optional value.
pub open spec fn json_text(o: Option<JsonValue>) -> Option<Seq<char>> {
    match o {
        Some(JsonValue::Str(s)) => Some(s@),
        _ => None,
    }
}

pub open spec fn or_else(a: Option<JsonValue>, b: Option<JsonValue>) -> Option<JsonValue> {
    match a { Some(x) => Some(x), None => b }
}

/// The translation an engine's reply holds, before entity decoding.
pub open spec fn engine_text(engine: Seq<char>, v: JsonValue) -> Option<Seq<char>> {
    if engine == "google"@ {
        json_text(json_pointer(v, seq!["data"@, "translations"@, "0"@, "translatedText"@]))
    } else if engine == "ibmwatson"@ {
        json_text(json_pointer(v, seq!["translations"@, "0"@, "translation"@]))
    } else if engine == "mymemory"@ || engine == "mymemory-human"@ {
        json_text(json_pointer(v, seq!["responseData"@, "translatedText"@]))
    } else if engine == "apertium"@ {
        json_text(or_else(json_pointer(v, seq!["responseData"@, "translatedText"@]),
            json_pointer(v, seq!["translatedText"@])))
    } else if engine == "yandex"@ {
        json_text(json_pointer(v, seq!["translations"@, "0"@, "text"@]))
    } else if engine == "belazar"@ {
        match json_text(json_field(v, "text"@)) {
            Some(t) => Some(t),
            None => json_text(Some(v)),
        }
    } else {
        json_text(json_field(v, "text"@))
    }
}

/// The translation of a reply value, HTML entities decoded, or the error
/// that it holds none.
pub open spec fn engine_result(engine: Seq<char>, v: JsonValue) -> Result<Seq<char>, Seq<char>> {
    match engine_text(engine, v) {
        Some(t) => Ok(html_decoded(t)),
        None => Err(engine + " response missing translation"@),
    }
}

/// The engine's own error message in a reply, if it holds one.
pub open spec fn error_message(engine: Seq<char>, v: JsonValue) -> Option<Seq<char>> {
    let m = or_else(json_pointer(v, seq!["error"@, "message"@]),
        or_else(json_pointer(v, seq!["error"@, "error"@]), json_field(v, "errorMessage"@)));
    match json_text(m) {
        Some(s) => Some(engine + " error: "@ + s),
        None => None,
    }
}

/// The result of a raw reply (a recorded exchange whose `response` member is
/// the reply, or the reply itself): the engine's error where the reply holds
/// one, else its translation; text that is not JSON is read as a JSON string.
pub open spec fn recorded_result(engine: Seq<char>, raw: Seq<char>, parsed: Option<JsonValue>) -> Result<Seq<char>, Seq<char>> {
    match parsed {
        Some(v) => match json_field(v, "response"@) {
            Some(resp) => match error_message(engine, resp) {
                Some(e) => Err(e),
                None => engine_result(engine, resp),
            },
            None => match error_message(engine, v) {
                Some(e) => Err(e),
                None => engine_result(engine, v),
            },
        },
        None => if engine == "belazar"@ {
            Ok(html_decoded(raw))
        } else {
            Err(engine + " response missing translation"@)
        },
    }
}

pub(crate) fn field<'a>(v: &'a JsonValue, key: &str) -> (r: Option<&'a JsonValue>)
    ensures
        match r { Some(w) => json_field(*v, key@) == Some(*w), None => json_field(*v, key@) is None },
{
    match v {
        JsonValue::Object(ps) => {
            let mut i: usize = 0;
            while i < ps.len()
                invariant
                    i <= ps@.len(),
                    *v == JsonValue::Object(*ps),
                    pair_value(ps@, key@, 0) == pair_value(ps@, key@, i as int),
                decreases ps@.len() - i,
            {
                if str_eq(ps[i].0.as_str(), key) {
                    return Some(&ps[i].1);
                }
                i = i + 1;
            }
            None
        },
        _ => None,
    }
}

pub(crate) fn token<'a>(v: &'a JsonValue, tok: &str) -> (r: Option<&'a JsonValue>)
    ensures
        match r { Some(w) => json_token(*v, tok@) == Some(*w), None => json_token(*v, tok@) is None },
{
    match v {
        JsonValue::Object(_) => field(v, tok),
        JsonValue::Array(a) => {
            if str_eq(tok, "0") && a.len() > 0 { Some(&a[0]) } else { None }
        },
        _ => None,
    }
}

pub open spec fn toks_view(t: Seq<&str>) -> Seq<Seq<char>> {
    t.map_values(|x: &str| x@)
}

pub(crate) fn pointer<'a>(v: &'a JsonValue, toks: &[&str]) -> (r: Option<&'a JsonValue>)
    ensures
        match r {
            Some(w) => json_pointer(*v, toks_view(toks@)) == Some(*w),
            None => json_pointer(*v, toks_view(toks@)) is None,
        },
{
    let mut cur = v;
    let mut i: usize = 0;
    assert(toks_view(toks@).subrange(0, toks@.len() as int) =~= toks_view(toks@));
    while i < toks.len()
        invariant
            i <= toks@.len(),
            json_pointer(*v, toks_view(toks@)) == json_pointer(*cur, toks_view(toks@).subrange(i as int, toks@.len() as int)),
        decreases toks@.len() - i,
    {
        let ghost rest = toks_view(toks@).subrange(i as int, toks@.len() as int);
        assert(rest.drop_first() =~= toks_view(toks@).subrange(i + 1, toks@.len() as int));
        match token(cur, toks[i]) {
            Some(w) => { cur = w; },
            None => { return None; },
        }
        i = i + 1;
    }
    assert(toks_view(toks@).subrange(i as int, toks@.len() as int) =~= Seq::<Seq<char>>::empty());
    Some(cur)
}

pub(crate) fn text_of(o: Option<&JsonValue>) -> (r: Option<String>)
    ensures
        match r {
            Some(s) => json_text(match o { Some(w) => Some(*w), None => None }) == Some(s@),
            None => json_text(match o { Some(w) => Some(*w), None => None }) is None,
        },
{
    match o {
        Some(JsonValue::Str(s)) => Some(s.as_str().to_owned()),
        _ => None,
    }
}

pub open spec fn opt_ref(o: Option<&JsonValue>) -> Option<JsonValue> {
    match o { Some(w) => Some(*w), None => None }
}

pub(crate) fn or_ref<'a>(a: Option<&'a JsonValue>, b: Option<&'a JsonValue>) -> (r: Option<&'a JsonValue>)
    ensures
        opt_ref(r) == or_else(opt_ref(a), opt_ref(b)),
{
    match a { Some(x) => Some(x), None => b }
}

/// The translation an engine's reply holds, before entity decoding.
fn engine_text_exec(engine: &str, v: &JsonValue) -> (r: Option<String>)
    ensures
        match r { Some(s) => engine_text(engine@, *v) == Some(s@), None => engine_text(engine@, *v) is None },
{
    if str_eq(engine, "google") {
        let t = ["data", "translations", "0", "translatedText"];
        assert(toks_view(t@) =~= seq!["data"@, "translations"@, "0"@, "translatedText"@]);
        text_of(pointer(v, &t))
    } else if str_eq(engine, "ibmwatson") {
        let t = ["translations", "0", "translation"];
        assert(toks_view(t@) =~= seq!["translations"@, "0"@, "translation"@]);
        text_of(pointer(v, &t))
    } else if str_eq(engine, "mymemory") || str_eq(engine, "mymemory-human") {
        let t = ["responseData", "translatedText"];
        assert(toks_view(t@) =~= seq!["responseData"@, "translatedText"@]);
        text_of(pointer(v, &t))
    } else if str_eq(engine, "apertium") {
        let t = ["responseData", "translatedText"];
        assert(toks_view(t@) =~= seq!["responseData"@, "translatedText"@]);
        let u = ["translatedText"];
        assert(toks_view(u@) =~= seq!["translatedText"@]);
        text_of(or_ref(pointer(v, &t), pointer(v, &u)))
    } else if str_eq(engine, "yandex") {
        let t = ["translations", "0", "text"];
        assert(toks_view(t@) =~= seq!["translations"@, "0"@, "text"@]);
        text_of(pointer(v, &t))
    } else if str_eq(engine, "belazar") {
        match text_of(field(v, "text")) {
            Some(t) => Some(t),
            None => text_of(Some(v)),
        }
    } else {
        text_of(field(v, "text"))
    }
}

/// The translation in an engine's reply value, HTML entities decoded; an
/// error where the reply holds none.
pub fn parse_engine_response(engine: &str, v: &JsonValue) -> (r: Result<String, String>)
    ensures
        match engine_result(engine@, *v) {
            Ok(t) => r matches Ok(x) && x@ == t,
            Err(e) => r matches Err(x) && x@ == e,
        },
{
    match engine_text_exec(engine, v) {
        Some(t) => Ok(decode_html(t.as_str())),
        None => Err(concat_str(engine, " response missing translation")),
    }
}

/// The engine's own error message in a reply value, if it holds one.
pub fn parse_error_body(engine: &str, v: &JsonValue) -> (r: Option<String>)
    ensures
        match error_message(engine@, *v) {
            Some(e) => r matches Some(x) && x@ == e,
            None => r is None,
        },
{
    let t = ["error", "message"];
    assert(toks_view(t@) =~= seq!["error"@, "message"@]);
    let u = ["error", "error"];
    assert(toks_view(u@) =~= seq!["error"@, "error"@]);
    let m = or_ref(pointer(v, &t), or_ref(pointer(v, &u), field(v, "errorMessage")));
    match text_of(m) {
        Some(s) => Some(concat_str(concat_str(engine, " error: ").as_str(), s.as_str())),
        None => None,
    }
}

proof fn lemma_text_value(engine: Seq<char>, s: String)
    ensures
        engine_text(engine, JsonValue::Str(s)) == (if engine == "belazar"@ { Some(s@) } else { None::<Seq<char>> }),
{
    let v = JsonValue::Str(s);
    reveal_strlit("belazar");
    reveal_strlit("google");
    reveal_strlit("ibmwatson");
    reveal_strlit("mymemory");
    reveal_strlit("mymemory-human");
    reveal_strlit("apertium");
    reveal_strlit("yandex");
    assert(json_field(v, "text"@) is None);
    assert(json_pointer(v, seq!["data"@, "translations"@, "0"@, "translatedText"@]) is None);
    assert(json_pointer(v, seq!["translations"@, "0"@, "translation"@]) is None);
    assert(json_pointer(v, seq!["responseData"@, "translatedText"@]) is None);
    assert(json_pointer(v, seq!["translatedText"@]) is None);
    assert(json_pointer(v, seq!["translations"@, "0"@, "text"@]) is None);
    if engine == "belazar"@ {
        assert("belazar"@.len() == 7 && "google"@.len() == 6 && "ibmwatson"@.len() == 9 && "mymemory"@.len() == 8);
        assert("mymemory-human"@.len() == 14 && "apertium"@.len() == 8 && "yandex"@.len() == 6);
        assert(engine != "google"@);
        assert(engine != "ibmwatson"@);
        assert(engine != "mymemory"@ && engine != "mymemory-human"@);
        assert(engine != "apertium"@ && engine != "yandex"@);
        assert(json_text(Some(v)) == Some(s@));
    }
}

/// The translation in a raw reply text (see `parse_engine_response`); text
/// that is not JSON is read as a JSON string.
pub fn parse_engine(engine: &str, raw: &str) -> (r: Result<String, String>)
    ensures
        match json_parse_of(raw@) {
            Some(v) => match engine_result(engine@, v) {
                Ok(t) => r matches Ok(x) && x@ == t,
                Err(e) => r matches Err(x) && x@ == e,
            },
            None => match (if engine@ == "belazar"@ { Ok(html_decoded(raw@)) } else {
                Err(engine@ + " response missing translation"@) }) {
                Ok(t) => r matches Ok(x) && x@ == t,
                Err(e) => r matches Err(x) && x@ == e,
            },
        },
{
    match parse_json(raw) {
        Some(v) => parse_engine_response(engine, &v),
        None => {
            let v = JsonValue::Str(raw.to_owned());
            assert(engine_text(engine@, v) == (if engine@ == "belazar"@ { Some(raw@) } else { None::<Seq<char>> })) by {
                lemma_text_value(engine@, v->Str_0);
            }
            parse_engine_response(engine, &v)
        },
    }
}

/// The result of a raw reply or recorded exchange: the engine's error where
/// it holds one, else the translation (see `recorded_result`).
pub fn parse_recorded_or_engine(engine: &str, raw: &str) -> (r: Result<String, String>)
    ensures
        match recorded_result(engine@, raw@, json_parse_of(raw@)) {
            Ok(t) => r matches Ok(x) && x@ == t,
            Err(e) => r matches Err(x) && x@ == e,
        },
{
    match parse_json(raw) {
        Some(v) => {
            match field(&v, "response") {
                Some(resp) => match parse_error_body(engine, resp) {
                    Some(e) => Err(e),
                    None => parse_engine_response(engine, resp),
                },
                None => match parse_error_body(engine, &v) {
                    Some(e) => Err(e),
                    None => parse_engine_response(engine, &v),
                },
            }
        },
        None => {
            let v = JsonValue::Str(raw.to_owned());
            assert(engine_text(engine@, v) == (if engine@ == "belazar"@ { Some(raw@) } else { None::<Seq<char>> })) by {
                lemma_text_value(engine@, v->Str_0);
            }
            parse_engine_response(engine, &v)
        },
    }
}

} // verus!
