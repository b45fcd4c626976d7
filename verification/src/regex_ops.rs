//! Calls into the `regex` crate, behind a compiled-pattern type of this library.
use vstd::prelude::*;

verus! {

#[verifier::external_type_specification]
#[verifier::external_body]
pub struct ExRegex(regex::Regex);

/// Whether `pattern` is accepted by the regex engine.
pub uninterp spec fn regex_valid(pattern: Seq<char>) -> bool;

/// Whether `text` holds a match of the (valid) `pattern`.
pub uninterp spec fn regex_match(pattern: Seq<char>, text: Seq<char>) -> bool;

/// The characters that have a meaning in a regular expression.
pub open spec fn is_meta_character(c: char) -> bool {
    c == '\\' || c == '.' || c == '+' || c == '*' || c == '?' || c == '(' || c == ')' || c == '|' || c == '['
        || c == ']' || c == '{' || c == '}' || c == '^' || c == '$' || c == '#' || c == '&' || c == '-' || c == '~'
}

/// Escaped form of `text` that matches it literally: a backslash before each
/// meta character, every other character unchanged.
pub open spec fn regex_escaped(text: Seq<char>) -> Seq<char>
    decreases text.len(),
{
    if text.len() == 0 {
        Seq::empty()
    } else {
        regex_escaped(text.drop_last()) + if is_meta_character(text.last()) {
            seq!['\\', text.last()]
        } else {
            seq![text.last()]
        }
    }
}

/// A compiled regular expression together with the text it was compiled from.
pub struct Pattern {
    re: regex::Regex,
    source: String,
}

impl Pattern {
    pub closed spec fn source(&self) -> Seq<char> {
        self.source@
    }
}

/// `regex::Regex::new`: `Some` exactly when the engine accepts `pattern`.
#[verifier::external_body]
pub fn compile(pattern: &str) -> (r: Option<Pattern>)
    ensures
        r is Some <==> regex_valid(pattern@),
        r matches Some(p) ==> p.source() == pattern@,
{
    regex::Regex::new(pattern).ok().map(|re| Pattern { re, source: pattern.to_owned() })
}

/// `regex::Regex::is_match`.
#[verifier::external_body]
pub fn is_match(p: &Pattern, text: &str) -> (r: bool)
    ensures
        r == regex_match(p.source(), text@),
{
    p.re.is_match(text)
}

/// `regex::escape` (which calls `regex_syntax::escape`): each character that
/// `is_meta_character` names gets a backslash before it.
#[verifier::external_body]
pub fn escape(text: &str) -> (r: String)
    ensures
        r@ == regex_escaped(text@),
{
    regex::escape(text)
}

/// Whether `text` has a match of `pattern`; `None` when the pattern is refused.
pub fn regex_is_match(pattern: &str, text: &str) -> (r: Option<bool>)
    ensures
        r is Some <==> regex_valid(pattern@),
        r matches Some(b) ==> b == regex_match(pattern@, text@),
{
    match compile(pattern) {
        Some(p) => Some(is_match(&p, text)),
        None => None,
    }
}


/// Byte spans of every match of a (valid) pattern in a text, left to right.
pub uninterp spec fn regex_spans(pattern: Seq<char>, text: Seq<char>) -> Seq<(usize, usize)>;

/// `regex::Regex::find_iter`: the byte span of each match, in order; named
/// `regex_spans`. The matches do not overlap, come left to right, and each
/// lies within the text (as the crate documents).
#[verifier::external_body]
pub fn find_spans(p: &Pattern, text: &str) -> (r: Vec<(usize, usize)>)
    ensures
        r@ == regex_spans(p.source(), text@),
        forall|i: int| 0 <= i < r@.len() ==> r@[i].0 <= r@[i].1 && r@[i].1 <= vstd::utf8::encode_utf8(text@).len(),
        forall|i: int, j: int| 0 <= i < j < r@.len() ==> r@[i].1 <= r@[j].0,
{
    p.re.find_iter(text).map(|m| (m.start(), m.end())).collect()
}

/// The capture groups of every match of a (valid) pattern, left to right;
/// group 0 is the whole match, a group that did not take part is `None`.
pub uninterp spec fn regex_captures(pattern: Seq<char>, text: Seq<char>) -> Seq<Seq<Option<Seq<char>>>>;

pub open spec fn groups_view(v: Seq<Vec<Option<String>>>) -> Seq<Seq<Option<Seq<char>>>> {
    v.map_values(|g: Vec<Option<String>>| g@.map_values(|o: Option<String>| match o { Some(s) => Some(s@), None => None }))
}

/// `regex::Regex::captures_iter`: every match's groups as text; named
/// `regex_captures`.
#[verifier::external_body]
pub fn captures_all(p: &Pattern, text: &str) -> (r: Vec<Vec<Option<String>>>)
    ensures
        groups_view(r@) == regex_captures(p.source(), text@),
{
    p.re.captures_iter(text)
        .map(|c| c.iter().map(|m| m.map(|m| m.as_str().to_owned())).collect())
        .collect()
}

/// What `html_escape::decode_html_entities` gives.
pub uninterp spec fn html_decoded(text: Seq<char>) -> Seq<char>;

/// `html_escape::decode_html_entities`: the text with HTML entities decoded;
/// named `html_decoded`.
#[verifier::external_body]
pub fn decode_html(text: &str) -> (r: String)
    ensures
        r@ == html_decoded(text@),
{
    html_escape::decode_html_entities(text).into_owned()
}


/// Each match's replacement text: `replacement` with `$n`/`${name}` filled in
/// from the match's groups (`Captures::expand`).
pub uninterp spec fn regex_expansions(pattern: Seq<char>, text: Seq<char>, replacement: Seq<char>) -> Seq<Seq<char>>;

pub open spec fn texts_view(v: Seq<String>) -> Seq<Seq<char>> {
    v.map_values(|s: String| s@)
}

/// `Captures::expand` on every match of `captures_iter`, in order; named
/// `regex_expansions`. `captures_iter` and `find_iter` walk the same
/// matches, so there is one text per match of `regex_spans`.
#[verifier::external_body]
pub fn expansions(p: &Pattern, text: &str, replacement: &str) -> (r: Vec<String>)
    ensures
        texts_view(r@) == regex_expansions(p.source(), text@, replacement@),
        r@.len() == regex_spans(p.source(), text@).len(),
{
    p.re.captures_iter(text).map(|c| {
        let mut out = String::new();
        c.expand(replacement, &mut out);
        out
    }).collect()
}

/// Whether a character is alphabetic or numeric (Unicode).
pub uninterp spec fn char_alphanumeric(c: char) -> bool;

/// `char::is_alphanumeric`; named `char_alphanumeric`.
#[verifier::external_body]
pub fn is_alphanumeric(c: char) -> (r: bool)
    ensures
        r == char_alphanumeric(c),
{
    c.is_alphanumeric()
}

} // verus!
