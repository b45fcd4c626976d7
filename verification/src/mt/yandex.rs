//! Yandex Cloud translation connector.
use vstd::prelude::*;
use crate::text::concat_str;
use crate::mt::headers_view;

verus! {

pub const ID: &'static str = "yandex";
pub const ENDPOINT: &'static str = "https://translate.api.cloud.yandex.net/translate/v2/translate";

/// The request headers: a bearer IAM token. Without a token (and outside
/// recorded-fixture mode) the engine is refused.
pub fn auth_headers(iam: &str, fixture_dir_set: bool) -> (r: Result<Vec<(String, String)>, String>)
    ensures
        match r {
            Ok(h) => (iam@.len() > 0 || fixture_dir_set) && headers_view(h@) == seq![("Authorization"@, "Bearer "@ + iam@)],
            Err(e) => iam@.len() == 0 && !fixture_dir_set && e@ == "Yandex IAM token missing"@,
        },
{
    if iam.is_empty() && !fixture_dir_set {
        return Err("Yandex IAM token missing".to_string());
    }
    let h = vec![("Authorization".to_string(), concat_str("Bearer ", iam))];
    assert(headers_view(h@) =~= seq![("Authorization"@, "Bearer "@ + iam@)]);
    Ok(h)
}

} // verus!
