//! Build/version strings.
use vstd::prelude::*;
use crate::text::{chars_of, chars_eq, extend_chars, string_of};

verus! {

/// Development-build suffix: `[revision @ branch]`, empty for detached,
/// release and unfiltered builds.
pub fn dev_build_marker(revision: &str, branch: &str) -> (r: String)
    ensures
        (branch@.len() == 0 || branch@ == seq!['H', 'E', 'A', 'D'] || branch@ == "@gitbranch@"@)
            ==> r@.len() == 0,
        !(branch@.len() == 0 || branch@ == seq!['H', 'E', 'A', 'D'] || branch@ == "@gitbranch@"@)
            ==> r@ == seq!['['] + revision@ + seq![' ', '@', ' '] + branch@ + seq![']'],
{
    let b = chars_of(branch);
    let g = chars_of("@gitbranch@");
    if b.len() == 0 || chars_eq(&b, &['H', 'E', 'A', 'D']) || chars_eq(&b, &g) {
        String::new()
    } else {
        let mut v = vec!['['];
        let r = chars_of(revision);
        extend_chars(&mut v, &r);
        extend_chars(&mut v, &[' ', '@', ' ']);
        extend_chars(&mut v, &b);
        v.push(']');
        string_of(&v)
    }
}

} // verus!
