//! Shared patterns: a language tag with an optional script and country.
use vstd::prelude::*;
use crate::regex_ops::{compile, captures_all, regex_valid, regex_captures, groups_view};

verus! {

/// The language (and country) tag pattern: a language of one to eight
/// letters, then optionally a script of four letters and a country or
/// region of one to eight letters or digits, joined by `-` or `_`.
pub open spec fn lang_and_country_pattern() -> Seq<char> {
    "^([A-Za-z]{1,8})(?:(?:-|_)(?:[A-Za-z]{4}(?:-|_))?([A-Za-z0-9]{1,8}))?$"@
}

/// The language and the optional country of a tag that the pattern takes
/// (from its first match), or `None`.
pub open spec fn lang_country_of(s: Seq<char>) -> Option<(Seq<char>, Option<Seq<char>>)> {
    let caps = regex_captures(lang_and_country_pattern(), s);
    if !regex_valid(lang_and_country_pattern()) || caps.len() == 0 || caps[0].len() < 2 || caps[0][1] is None {
        None
    } else {
        Some((caps[0][1]->0, if caps[0].len() > 2 { caps[0][2] } else { None }))
    }
}

/// Splits a language tag into its language and optional country.
pub fn lang_and_country(s: &str) -> (r: Option<(String, Option<String>)>)
    ensures
        match r {
            Some((l, c)) => lang_country_of(s@) == Some((l@, match c { Some(x) => Some(x@), None => None::<Seq<char>> })),
            None => lang_country_of(s@) is None,
        },
{
    let p = match compile("^([A-Za-z]{1,8})(?:(?:-|_)(?:[A-Za-z]{4}(?:-|_))?([A-Za-z0-9]{1,8}))?$") {
        Some(p) => p,
        None => return None,
    };
    let caps = captures_all(&p, s);
    let ghost cv = groups_view(caps@);
    if caps.len() == 0 || caps[0].len() < 2 {
        return None;
    }
    assert(cv[0].len() == caps@[0]@.len());
    let first = &caps[0];
    let lang = match &first[1] {
        Some(l) => l.clone(),
        None => {
            assert(cv[0][1] is None);
            return None;
        },
    };
    let country = if first.len() > 2 {
        match &first[2] {
            Some(c) => Some(c.clone()),
            None => None,
        }
    } else {
        None
    };
    proof {
        assert(cv[0][1] == Some(lang@));
    }
    Some((lang, country))
}

} // verus!
