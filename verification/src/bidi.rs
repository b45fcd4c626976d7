//! Bidirectional-text helpers: right-to-left languages and embedding marks.
use vstd::prelude::*;
use crate::language::{Language, language_of};
use crate::text::{chars_of, chars_eq, lower_ascii_chars, lower_ascii_seq, extend_chars, string_of};

verus! {

pub const BIDI_LRE: &'static str = "\u{202a}";
pub const BIDI_RLE: &'static str = "\u{202b}";
pub const BIDI_PDF: &'static str = "\u{202c}";
pub const BIDI_LRM: &'static str = "\u{200e}";
pub const BIDI_RLM: &'static str = "\u{200f}";

#[derive(Debug, Clone, Copy, PartialEq, Eq, Structural)]
pub enum Orientation {
    AllLtr,
    AllRtl,
    Differ,
}

/// Language codes written right to left (compared case-insensitively).
pub open spec fn is_rtl_language(l: Seq<char>) -> bool {
    let x = lower_ascii_seq(l);
    ||| x == seq!['a', 'r'] || x == seq!['h', 'e'] || x == seq!['f', 'a'] || x == seq!['u', 'r']
    ||| x == seq!['y', 'i'] || x == seq!['i', 'w'] || x == seq!['j', 'i']
}

pub open spec fn rtl(code: Seq<char>) -> bool {
    is_rtl_language(language_of(code))
}

/// Whether the language of `code` is written right to left.
pub fn is_rtl(code: &str) -> (r: bool)
    ensures
        r == rtl(code@),
{
    let lang = Language::new(Some(code));
    let l = chars_of(lang.get_language_code());
    let x = lower_ascii_chars(&l);
    chars_eq(&x, &['a', 'r']) || chars_eq(&x, &['h', 'e']) || chars_eq(&x, &['f', 'a'])
        || chars_eq(&x, &['u', 'r']) || chars_eq(&x, &['y', 'i']) || chars_eq(&x, &['i', 'w'])
        || chars_eq(&x, &['j', 'i'])
}

pub fn is_locale_rtl(locale: &str) -> (r: bool)
    ensures
        r == rtl(locale@),
{
    is_rtl(locale)
}

/// `text` between left-to-right embedding and pop marks.
pub fn add_ltr_bidi_around(text: &str) -> (r: String)
    ensures
        r@ == seq!['\u{202a}'] + text@ + seq!['\u{202c}'],
{
    let mut v = vec!['\u{202a}'];
    let t = chars_of(text);
    extend_chars(&mut v, &t);
    v.push('\u{202c}');
    string_of(&v)
}

/// `text` between right-to-left embedding and pop marks.
pub fn add_rtl_bidi_around(text: &str) -> (r: String)
    ensures
        r@ == seq!['\u{202b}'] + text@ + seq!['\u{202c}'],
{
    let mut v = vec!['\u{202b}'];
    let t = chars_of(text);
    extend_chars(&mut v, &t);
    v.push('\u{202c}');
    string_of(&v)
}

pub open spec fn orientation_spec(source: Option<Seq<char>>, target: Option<Seq<char>>, locale: Seq<char>) -> Orientation {
    match (source, target) {
        (None, None) => if rtl(locale) { Orientation::AllRtl } else { Orientation::AllLtr },
        (Some(s), Some(t)) => if rtl(s) && rtl(t) {
            Orientation::AllRtl
        } else if !rtl(s) && !rtl(t) {
            Orientation::AllLtr
        } else {
            Orientation::Differ
        },
        _ => Orientation::Differ,
    }
}

pub open spec fn opt_view(o: Option<&str>) -> Option<Seq<char>> {
    match o {
        Some(s) => Some(s@),
        None => None,
    }
}

/// Orientation of a source/target pair; with neither given, that of the UI locale.
pub fn orientation_type(source: Option<&str>, target: Option<&str>, locale: &str) -> (r: Orientation)
    ensures
        r == orientation_spec(opt_view(source), opt_view(target), locale@),
{
    match (source, target) {
        (None, None) => {
            if is_locale_rtl(locale) {
                Orientation::AllRtl
            } else {
                Orientation::AllLtr
            }
        },
        (Some(src), Some(tgt)) => {
            let s = is_rtl(src);
            let t = is_rtl(tgt);
            if s && t {
                Orientation::AllRtl
            } else if !s && !t {
                Orientation::AllLtr
            } else {
                Orientation::Differ
            }
        },
        _ => Orientation::Differ,
    }
}

pub fn is_mixed_orientation(o: Orientation) -> (r: bool)
    ensures
        r == (o == Orientation::Differ),
{
    o == Orientation::Differ
}

} // verus!
