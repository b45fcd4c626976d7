//! Belazar connector.
use vstd::prelude::*;

verus! {

pub const ID: &'static str = "belazar";
pub const ENDPOINT: &'static str = "http://www.belazar.by/translate";

} // verus!
