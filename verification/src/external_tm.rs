//! External translation-memory folders: `tm/auto`, `tm/enforce`, `tm/mt`,
//! `tm/penalty-NNN`, `tmx2source`.
use vstd::prelude::*;
use crate::text::{replace_all, replace_str, split_char, split_chars, starts_with, contains, ends_with,
    parse_i32, parse_i32_spec, str_eq, str_contains, str_starts_with, concat_str, chars_of, string_of,
    lower_ascii_seq, to_ascii_lowercase, ends_with_exec, starts_with_exec, slice_vec};
use crate::path_order::{};

verus! {

/// The origin with `\` read as `/`.
pub open spec fn slashed(origin: Seq<char>) -> Seq<char> {
    replace_all(origin, seq!['\\'], seq!['/'])
}

/// The penalty named by the first `penalty-NNN` folder among the pieces.
pub open spec fn penalty_in(pieces: Seq<Seq<char>>) -> int
    decreases pieces.len(),
{
    if pieces.len() == 0 {
        0
    } else {
        let p = pieces[0];
        if starts_with(p, "penalty-"@) && parse_i32_spec(p.subrange(8, p.len() as int)) is Some {
            parse_i32_spec(p.subrange(8, p.len() as int))->0
        } else {
            penalty_in(pieces.drop_first())
        }
    }
}

/// The penalty of a `penalty-NNN` folder on the origin's path, else 0.
pub fn penalty_from_origin(origin: &str) -> (r: i32)
    ensures
        r as int == penalty_in(split_char(slashed(origin@), '/')),
{
    let o = replace_str(origin, "\\", "/");
    proof { reveal_strlit("\\"); reveal_strlit("/"); }
    assert("\\"@ =~= seq!['\\']);
    assert("/"@ =~= seq!['/']);
    let ov = chars_of(o.as_str());
    let pieces = split_chars(&ov, '/');
    let ghost ps = split_char(slashed(origin@), '/');
    let prefix = chars_of("penalty-");
    proof { reveal_strlit("penalty-"); }
    let mut i: usize = 0;
    assert(ps.subrange(0, ps.len() as int) =~= ps);
    assert(prefix@.len() == 8);
    while i < pieces.len()
        invariant
            i <= pieces@.len(),
            ps == split_char(slashed(origin@), '/'),
            pieces@.len() == ps.len(),
            forall|k: int| 0 <= k < pieces@.len() ==> #[trigger] pieces@[k]@ == ps[k],
            prefix@ == "penalty-"@,
            prefix@.len() == 8,
            penalty_in(ps) == penalty_in(ps.subrange(i as int, ps.len() as int)),
        decreases pieces@.len() - i,
    {
        let ghost rest = ps.subrange(i as int, ps.len() as int);
        assert(rest.drop_first() =~= ps.subrange(i + 1, ps.len() as int));
        assert(rest[0] == ps[i as int]);
        let p = &pieces[i];
        if starts_with_exec(p, &prefix) {
            let tail = slice_vec(p, 8, p.len());
            let t = string_of(&tail);
            assert(t@ == rest[0].subrange(8, rest[0].len() as int));
            match parse_i32(t.as_str()) {
                Some(v) => {
                    assert(penalty_in(rest) == v as int);
                    return v;
                },
                None => {},
            }
        }
        i = i + 1;
    }
    0
}

/// Whether the origin lies in folder `name` (at its start or below another folder).
pub open spec fn folder_is_spec(origin: Seq<char>, name: Seq<char>) -> bool {
    let o = slashed(origin);
    o == name || starts_with(o, name + seq!['/']) || contains(o, seq!['/'] + name + seq!['/'])
}

pub fn folder_is(origin: &str, name: &str) -> (r: bool)
    ensures
        r == folder_is_spec(origin@, name@),
{
    let o = replace_str(origin, "\\", "/");
    proof { reveal_strlit("\\"); reveal_strlit("/"); }
    assert("\\"@ =~= seq!['\\']);
    assert("/"@ =~= seq!['/']);
    let a = concat_str(name, "/");
    let b0 = concat_str("/", name);
    let b = concat_str(b0.as_str(), "/");
    str_eq(o.as_str(), name) || str_starts_with(o.as_str(), a.as_str()) || str_contains(o.as_str(), b.as_str())
}

/// The file name of a `/`-separated path: its last component, unless that
/// is the root or `..`.
pub open spec fn file_name_of(path: Seq<char>) -> Option<Seq<char>> {
    let c = crate::path_order::components(path);
    if c.len() == 0 { None } else {
        match c.last() {
            None => None,
            Some(n) => if n == seq!['.', '.'] { None } else { Some(n) },
        }
    }
}

pub open spec fn supported_name(name: Seq<char>) -> bool {
    let n = lower_ascii_seq(name);
    ends_with(n, ".tmx"@) || ends_with(n, ".po"@) || ends_with(n, ".lang"@) || ends_with(n, ".xlf"@)
        || ends_with(n, ".xliff"@)
}

/// The file name of a `/`-separated path (see `file_name_of`).
pub fn file_name(path: &str) -> (r: Option<String>)
    ensures
        r matches Some(n) ==> file_name_of(path@) == Some(n@),
        r is None ==> file_name_of(path@) is None,
{
    let comps = crate::path_order::components_of(path);
    let n = comps.names.len();
    proof {
        let v = comps.view();
        assert(v == crate::path_order::components(path@));
        if n > 0 {
            assert(v.last() == Some(comps.names@[n - 1]@));
        } else {
            assert(v.len() == 0 || v.last() is None);
        }
    }
    if n == 0 {
        return None;
    }
    let last = &comps.names[n - 1];
    if last.len() == 2 && last[0] == '.' && last[1] == '.' {
        assert(last@ =~= seq!['.', '.']);
        return None;
    }
    proof {
        if last@ == seq!['.', '.'] {
            assert(last@.len() == 2);
        }
    }
    Some(string_of(last))
}

/// Whether a file can be read as an external memory, by its extension.
pub fn is_supported(path: &str) -> (r: bool)
    ensures
        r == supported_name(match file_name_of(path@) { Some(n) => n, None => Seq::empty() }),
{
    let name = match file_name(path) {
        Some(n) => n,
        None => String::new(),
    };
    let lower = to_ascii_lowercase(name.as_str());
    let l = chars_of(lower.as_str());
    ends_with_exec(&l, &chars_of(".tmx")) || ends_with_exec(&l, &chars_of(".po")) || ends_with_exec(&l, &chars_of(".lang"))
        || ends_with_exec(&l, &chars_of(".xlf")) || ends_with_exec(&l, &chars_of(".xliff"))
}


/// A folder penalty is a parsed `i32`.
pub proof fn lemma_penalty_in_range(pieces: Seq<Seq<char>>)
    ensures
        i32::MIN <= penalty_in(pieces) <= i32::MAX,
    decreases pieces.len(),
{
    if pieces.len() > 0 {
        let p = pieces[0];
        if !(starts_with(p, "penalty-"@) && parse_i32_spec(p.subrange(8, p.len() as int)) is Some) {
            lemma_penalty_in_range(pieces.drop_first());
        } else {
            crate::text::lemma_parse_i32_range(p.subrange(8, p.len() as int));
        }
    }
}

/// A `penalty-` folder names its number: the first path piece of that form
/// whose rest parses gives the penalty, pieces before it of another form
/// are passed over.
pub proof fn law_penalty_folder(skipped: Seq<char>, digits: Seq<char>, rest: Seq<Seq<char>>, n: int)
    requires
        !starts_with(skipped, "penalty-"@),
        parse_i32_spec(digits) == Some(n),
    ensures
        penalty_in(seq!["penalty-"@ + digits] + rest) == n,
        penalty_in(seq![skipped, "penalty-"@ + digits] + rest) == n,
{
    reveal_strlit("penalty-");
    let p = "penalty-"@ + digits;
    assert(p.subrange(0, 8) =~= "penalty-"@);
    assert(p.subrange(8, p.len() as int) =~= digits);
    let l1 = seq![p] + rest;
    let l2 = seq![skipped, p] + rest;
    assert(l1[0] == p);
    assert(l2[0] == skipped);
    assert(l2.drop_first() =~= l1);
    assert(penalty_in(l1) == n);
    assert(penalty_in(l2) == penalty_in(l2.drop_first()));
}

} // verus!
