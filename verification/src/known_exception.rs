//! An error identified by a message code with parameters.
use vstd::prelude::*;
use crate::text::{chars_of, chars_eq};

verus! {

pub struct KnownException {
    pub code: String,
    pub params: Vec<String>,
    pub cause: Option<String>,
}

pub open spec fn strs_view(s: Seq<&str>) -> Seq<Seq<char>> {
    s.map_values(|x: &str| x@)
}

pub open spec fn strings_view(s: Seq<String>) -> Seq<Seq<char>> {
    s.map_values(|x: String| x@)
}

/// Owned copies of a list of string slices.
pub fn to_strings(params: &[&str]) -> (r: Vec<String>)
    ensures
        strings_view(r@) == strs_view(params@),
{
    let mut r: Vec<String> = Vec::new();
    let mut i: usize = 0;
    while i < params.len()
        invariant
            i <= params.len(),
            r@.len() == i,
            forall|k: int| 0 <= k < i ==> #[trigger] r@[k]@ == params@[k]@,
        decreases params.len() - i,
    {
        r.push(params[i].to_owned());
        i = i + 1;
    }
    assert(strings_view(r@) =~= strs_view(params@));
    r
}

impl KnownException {
    pub fn new(code: &str, params: &[&str]) -> (e: Self)
        ensures
            e.code@ == code@,
            strings_view(e.params@) == strs_view(params@),
            e.cause is None,
    {
        KnownException { code: code.to_owned(), params: to_strings(params), cause: None }
    }

    pub fn with_cause(cause: &str, code: &str, params: &[&str]) -> (e: Self)
        ensures
            e.code@ == code@,
            strings_view(e.params@) == strs_view(params@),
            e.cause matches Some(c) && c@ == cause@,
    {
        let mut e = Self::new(code, params);
        e.cause = Some(cause.to_owned());
        e
    }

    /// The message code itself.
    pub fn message(&self) -> (r: &str)
        ensures
            r@ == self.code@,
    {
        self.code.as_str()
    }

    /// The message in the default locale: `TF_ERROR` reads `Error`, other codes read as themselves.
    pub fn localized_message(&self) -> (r: String)
        ensures
            self.code@ == "TF_ERROR"@ ==> r@ == "Error"@,
            self.code@ != "TF_ERROR"@ ==> r@ == self.code@,
    {
        let c = chars_of(self.code.as_str());
        let t = chars_of("TF_ERROR");
        if chars_eq(&c, &t) {
            "Error".to_owned()
        } else {
            self.code.clone()
        }
    }
}

} // verus!
