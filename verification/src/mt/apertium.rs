//! Apertium connector.
use vstd::prelude::*;

verus! {

pub const ID: &'static str = "apertium";
pub const ENDPOINT: &'static str = "https://www.apertium.org/apy/translate";

} // verus!
