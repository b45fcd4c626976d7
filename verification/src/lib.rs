use vstd::prelude::*;

pub mod text;
pub mod levenshtein;
pub mod language;
pub mod bidi;
pub mod ostrings;
pub mod matches_var;
pub mod known_exception;
pub mod regex_ops;
pub mod file_util;
pub mod cli_params;
pub mod issues;
pub mod store;
pub mod prefs;
pub mod align;
pub mod durable_fifo;
pub mod hashing;
pub mod clock;
pub mod path_order;
pub mod durable_transaction;
pub mod matching;
pub mod find_matches;
pub mod external_tm;
pub mod dict;
pub mod segment;
pub mod matches_text;
pub mod entity_util;
pub mod mt;
pub mod glossary;
pub mod completer;
pub mod finder;
pub mod languagetool;
pub mod search;
pub mod pattern_consts;
pub mod magic_comment;
pub mod mixed_eol;
pub mod file_progress;
pub mod http_url;
pub mod properties;
pub mod project_file;

verus! {
} // verus!
