//! MyMemory machine-translation connector.
use vstd::prelude::*;

verus! {

pub const ID: &'static str = "mymemory";
pub const ENDPOINT: &'static str = "https://api.mymemory.translated.net/get";

} // verus!
