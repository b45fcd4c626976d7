//! Translate API v2 connector.
use vstd::prelude::*;
use crate::mt::headers_view;

verus! {

pub const ID: &'static str = "google";
pub const ENDPOINT: &'static str = "https://translation.googleapis.com/language/translate/v2";

/// The request headers: the method override that makes a POST act as GET.
/// Without a key (and outside recorded-fixture mode) the engine is refused.
pub fn auth_headers(key_present: bool, fixture_dir_set: bool) -> (r: Result<Vec<(String, String)>, String>)
    ensures
        match r {
            Ok(h) => (key_present || fixture_dir_set) && headers_view(h@) == seq![("X-HTTP-Method-Override"@, "GET"@)],
            Err(e) => !key_present && !fixture_dir_set && e@ == "google.api.key missing"@,
        },
{
    if !key_present && !fixture_dir_set {
        return Err("google.api.key missing".to_string());
    }
    let h = vec![("X-HTTP-Method-Override".to_string(), "GET".to_string())];
    assert(headers_view(h@) =~= seq![("X-HTTP-Method-Override"@, "GET"@)]);
    Ok(h)
}

} // verus!
