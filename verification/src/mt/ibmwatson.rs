//! IBM Watson language translator connector.
use vstd::prelude::*;
use vstd::utf8::encode_utf8;
use crate::text::concat_str;
use crate::mt::{headers_view, base64_of, base64_basic};

verus! {

pub const ID: &'static str = "ibmwatson";
pub const ENDPOINT: &'static str = "https://api.us-south.language-translator.watson.cloud.ibm.com/v3/translate";

/// The request headers: HTTP basic authorization with `login:password`,
/// learning opt-out and JSON. Without a password (and outside
/// recorded-fixture mode) the engine is refused.
pub fn auth_headers(login: &str, password: &str, fixture_dir_set: bool) -> (r: Result<Vec<(String, String)>, String>)
    ensures
        match r {
            Ok(h) => (password@.len() > 0 || fixture_dir_set) && headers_view(h@) == seq![
                ("Authorization"@, "Basic "@ + base64_of(encode_utf8(login@ + ":"@ + password@))),
                ("X-Watson-Learning-Opt-Out"@, "true"@),
                ("Accept"@, "application/json"@),
            ],
            Err(e) => password@.len() == 0 && !fixture_dir_set && e@ == "IBM Watson API key missing"@,
        },
{
    if password.is_empty() && !fixture_dir_set {
        return Err("IBM Watson API key missing".to_string());
    }
    let creds = concat_str(concat_str(login, ":").as_str(), password);
    let token = base64_basic(creds.as_str());
    let auth = concat_str("Basic ", token.as_str());
    let h = vec![
        ("Authorization".to_string(), auth),
        ("X-Watson-Learning-Opt-Out".to_string(), "true".to_string()),
        ("Accept".to_string(), "application/json".to_string()),
    ];
    assert(headers_view(h@) =~= seq![
        ("Authorization"@, "Basic "@ + base64_of(encode_utf8(login@ + ":"@ + password@))),
        ("X-Watson-Learning-Opt-Out"@, "true"@),
        ("Accept"@, "application/json"@),
    ]);
    Ok(h)
}

} // verus!
