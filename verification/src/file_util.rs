//! Path-string utilities: masks, relative paths, unique names, line endings.
use vstd::prelude::*;
use crate::text::{
    starts_with, ends_with, chars_of, string_of, slice_vec, extend_chars, starts_with_exec,
    ends_with_exec, chars_eq, split_char, split_chars, vecs_view, zero_padded, zero_padded_exec,
};
use crate::external_tm::{file_name_of, file_name};
use crate::regex_ops::{regex_match, regex_valid, regex_is_match};

verus! {

/// `\` separators turned into `/`.
pub open spec fn unix_seps(s: Seq<char>) -> Seq<char> {
    s.map_values(|c: char| if c == '\\' { '/' } else { c })
}

pub fn unix_seps_exec(s: &[char]) -> (r: Vec<char>)
    ensures
        r@ == unix_seps(s@),
{
    let mut r: Vec<char> = Vec::new();
    let mut i: usize = 0;
    while i < s.len()
        invariant
            i <= s.len(),
            r@ == unix_seps(s@.subrange(0, i as int)),
        decreases s.len() - i,
    {
        r.push(if s[i] == '\\' { '/' } else { s[i] });
        i = i + 1;
        assert(unix_seps(s@.subrange(0, i as int)) =~= unix_seps(s@.subrange(0, i - 1)).push(
            if s@[i - 1] == '\\' { '/' } else { s@[i - 1] },
        ));
    }
    assert(s@.subrange(0, s.len() as int) =~= s@);
    r
}

pub open spec fn is_letter(c: char) -> bool {
    ('a' <= c && c <= 'z') || ('A' <= c && c <= 'Z')
}

/// `X:/...` with an ASCII drive letter.
pub open spec fn is_drive_path(p: Seq<char>) -> bool {
    p.len() >= 3 && is_letter(p[0]) && p[1] == ':' && p[2] == '/'
}

/// A path is relative unless it starts with `/` or a drive letter (after `\` → `/`).
pub open spec fn relative_spec(path: Seq<char>) -> bool {
    let p = unix_seps(path);
    !(p.len() >= 1 && p[0] == '/') && !is_drive_path(p)
}

pub fn is_relative(path: &str) -> (r: bool)
    ensures
        r == relative_spec(path@),
{
    let v = chars_of(path);
    let p = unix_seps_exec(&v);
    let linux = p.len() >= 1 && p[0] == '/';
    let windows = p.len() >= 3 && (('a' <= p[0] && p[0] <= 'z') || ('A' <= p[0] && p[0] <= 'Z'))
        && p[1] == ':' && p[2] == '/';
    !linux && !windows
}

/// First position at or after `from` holding a line feed, else the length.
pub open spec fn line_end(s: Seq<char>, from: int) -> int
    decreases s.len() - from,
{
    if from >= s.len() || from < 0 { s.len() as int } else if s[from] == '\n' { from } else { line_end(s, from + 1) }
}

pub proof fn lemma_line_end(s: Seq<char>, from: int)
    requires
        0 <= from <= s.len(),
    ensures
        from <= line_end(s, from) <= s.len(),
    decreases s.len() - from,
{
    if from < s.len() && s[from] != '\n' {
        lemma_line_end(s, from + 1);
    }
}

/// With a drive letter the drive is dropped (up to the first line feed); other paths only get `/` separators.
pub open spec fn absolute_for_system_spec(path: Seq<char>) -> Seq<char> {
    let p = unix_seps(path);
    if is_drive_path(p) { p.subrange(2, line_end(p, 2)) } else { p }
}

pub fn absolute_for_system(path: &str) -> (r: String)
    ensures
        r@ == absolute_for_system_spec(path@),
{
    let v = chars_of(path);
    let p = unix_seps_exec(&v);
    let windows = p.len() >= 3 && (('a' <= p[0] && p[0] <= 'z') || ('A' <= p[0] && p[0] <= 'Z'))
        && p[1] == ':' && p[2] == '/';
    if windows {
        let mut e: usize = 2;
        while e < p.len() && p[e] != '\n'
            invariant
                2 <= e <= p.len(),
                line_end(p@, 2) == line_end(p@, e as int),
            decreases p.len() - e,
        {
            e = e + 1;
        }
        let g = slice_vec(&p, 2, e);
        string_of(&g)
    } else {
        string_of(&p)
    }
}

pub open spec fn is_ascii_alnum(c: char) -> bool {
    ('a' <= c && c <= 'z') || ('A' <= c && c <= 'Z') || ('0' <= c && c <= '9')
}

/// Regex text for the mask characters from position `i` on.
pub open spec fn mask_body(c: Seq<char>, i: int) -> Seq<char>
    decreases c.len() - i,
{
    if i < 0 || i >= c.len() {
        Seq::empty()
    } else {
        let rest = c.subrange(i, c.len() as int);
        let cp = c[i];
        if is_ascii_alnum(cp) {
            seq![cp] + mask_body(c, i + 1)
        } else if cp == '/' {
            if starts_with(rest, seq!['/', '*', '*', '/']) {
                "(?:/|/.*/)"@ + mask_body(c, i + 4)
            } else if starts_with(rest, seq!['/', '*', '*']) {
                "(?:|/.*)"@ + mask_body(c, i + 3)
            } else {
                seq![cp] + mask_body(c, i + 1)
            }
        } else if cp == '?' {
            "[^/]"@ + mask_body(c, i + 1)
        } else if cp == '*' {
            if starts_with(rest, seq!['*', '*', '/']) {
                "(?:|.*/)"@ + mask_body(c, i + 3)
            } else if starts_with(rest, seq!['*', '*']) {
                ".*"@ + mask_body(c, i + 2)
            } else {
                "[^/]*"@ + mask_body(c, i + 1)
            }
        } else {
            seq!['\\', cp] + mask_body(c, i + 1)
        }
    }
}

/// The mask as anchored-by-caller regex text: `**/` is prefixed unless the
/// mask starts with `/`, and `**` is appended after a trailing `/`.
pub open spec fn compile_mask_spec(mask: Seq<char>) -> Seq<char> {
    let m1 = if starts_with(mask, seq!['/']) { mask } else { seq!['*', '*', '/'] + mask };
    let m2 = if ends_with(m1, seq!['/']) { m1 + seq!['*', '*'] } else { m1 };
    mask_body(m2, 0)
}

pub fn compile_file_mask(mask: &str) -> (r: String)
    ensures
        r@ == compile_mask_spec(mask@),
{
    let v = chars_of(mask);
    let slash = vec!['/'];
    assert(slash@ =~= seq!['/']);
    let ghost m1 = if starts_with(mask@, seq!['/']) { mask@ } else { seq!['*', '*', '/'] + mask@ };
    let mut c: Vec<char> = if starts_with_exec(&v, &slash) {
        v
    } else {
        let mut t = vec!['*', '*', '/'];
        extend_chars(&mut t, &v);
        t
    };
    assert(c@ =~= m1);
    if ends_with_exec(&c, &slash) {
        c.push('*');
        c.push('*');
        assert(c@ =~= m1 + seq!['*', '*']);
    }
    let mut m: Vec<char> = Vec::new();
    let mut i: usize = 0;
    while i < c.len()
        invariant
            i <= c.len(),
            mask_body(c@, 0) == m@ + mask_body(c@, i as int),
        decreases c.len() - i,
    {
        let cp = c[i];
        let ghost old_m = m@;
        let ghost rest = c@.subrange(i as int, c@.len() as int);
        let rv = slice_vec(&c, i, c.len());
        if ('a' <= cp && cp <= 'z') || ('A' <= cp && cp <= 'Z') || ('0' <= cp && cp <= '9') {
            m.push(cp);
            i = i + 1;
        } else if cp == '/' {
            if starts_with_exec(&rv, &['/', '*', '*', '/']) {
                let p = chars_of("(?:/|/.*/)");
                extend_chars(&mut m, &p);
                i = i + 4;
            } else if starts_with_exec(&rv, &['/', '*', '*']) {
                let p = chars_of("(?:|/.*)");
                extend_chars(&mut m, &p);
                i = i + 3;
            } else {
                m.push(cp);
                i = i + 1;
            }
        } else if cp == '?' {
            let p = chars_of("[^/]");
            extend_chars(&mut m, &p);
            i = i + 1;
        } else if cp == '*' {
            if starts_with_exec(&rv, &['*', '*', '/']) {
                let p = chars_of("(?:|.*/)");
                extend_chars(&mut m, &p);
                i = i + 3;
            } else if starts_with_exec(&rv, &['*', '*']) {
                let p = chars_of(".*");
                extend_chars(&mut m, &p);
                i = i + 2;
            } else {
                let p = chars_of("[^/]*");
                extend_chars(&mut m, &p);
                i = i + 1;
            }
        } else {
            m.push('\\');
            m.push(cp);
            i = i + 1;
        }
        proof {
            assert(m@ + mask_body(c@, i as int) =~= old_m + (m@.subrange(old_m.len() as int, m@.len() as int) + mask_body(c@, i as int)));
        }
    }
    assert(mask_body(c@, c@.len() as int) =~= Seq::<char>::empty());
    assert(m@ =~= mask_body(c@, 0));
    string_of(&m)
}

/// The pattern text `^mask$` handed to the regex engine.
pub open spec fn anchored_mask(mask: Seq<char>) -> Seq<char> {
    seq!['^'] + compile_mask_spec(mask) + seq!['$']
}

/// Whether `path` matches the file mask `pattern`; a mask whose regex does not compile matches nothing.
pub fn file_mask_matches(pattern: &str, path: &str) -> (r: bool)
    ensures
        r == (regex_valid(anchored_mask(pattern@)) && regex_match(anchored_mask(pattern@), path@)),
{
    let m = compile_file_mask(pattern);
    let mut a = vec!['^'];
    let mv = chars_of(m.as_str());
    extend_chars(&mut a, &mv);
    a.push('$');
    assert(a@ =~= anchored_mask(pattern@));
    let re = string_of(&a);
    match regex_is_match(re.as_str(), path) {
        Some(b) => b,
        None => false,
    }
}

/// `base.join(p)` on `/`-separated path text.
pub open spec fn path_join(base: Seq<char>, p: Seq<char>) -> Seq<char> {
    if starts_with(p, seq!['/']) {
        p
    } else if base.len() == 0 || ends_with(base, seq!['/']) {
        base + p
    } else {
        base + seq!['/'] + p
    }
}

pub fn path_join_exec(base: &[char], p: &[char]) -> (r: Vec<char>)
    ensures
        r@ == path_join(base@, p@),
{
    let slash = vec!['/'];
    assert(slash@ =~= seq!['/']);
    if starts_with_exec(p, &slash) {
        let r = slice_vec(p, 0, p.len());
        assert(r@ =~= p@);
        r
    } else {
        let mut r = slice_vec(base, 0, base.len());
        assert(r@ =~= base@);
        if !(base.len() == 0 || ends_with_exec(base, &slash)) {
            r.push('/');
        }
        extend_chars(&mut r, p);
        r
    }
}

/// `~/rest` resolved against `home` when one is known; other paths unchanged.
pub open spec fn expand_tilde_spec(path: Seq<char>, home: Option<Seq<char>>) -> Seq<char> {
    if starts_with(path, seq!['~', '/']) && home is Some {
        path_join(home.unwrap(), path.subrange(2, path.len() as int))
    } else {
        path
    }
}

/// `~/` expansion with the home directory passed in by the caller.
pub fn expand_tilde_home_dir(path: &str, home: Option<&str>) -> (r: String)
    ensures
        r@ == expand_tilde_spec(path@, match home { Some(h) => Some(h@), None => None }),
{
    let v = chars_of(path);
    match home {
        Some(h) => {
            if starts_with_exec(&v, &['~', '/']) {
                let hv = chars_of(h);
                let rest = slice_vec(&v, 2, v.len());
                let j = path_join_exec(&hv, &rest);
                string_of(&j)
            } else {
                path.to_owned()
            }
        },
        None => path.to_owned(),
    }
}

} // verus!
verus! {

/// Segments joined with `/`.
pub open spec fn join_slash(parts: Seq<Seq<char>>) -> Seq<char>
    decreases parts.len(),
{
    if parts.len() == 0 {
        Seq::empty()
    } else if parts.len() == 1 {
        parts[0]
    } else {
        join_slash(parts.drop_last()) + seq!['/'] + parts.last()
    }
}

/// Resolves `.` and `..` segments left to right; `None` when `..` climbs above the start.
pub open spec fn resolve_segments(segs: Seq<Seq<char>>, k: int, stack: Seq<Seq<char>>) -> Option<Seq<Seq<char>>>
    decreases segs.len() - k,
{
    if k < 0 || k >= segs.len() {
        Some(stack)
    } else if segs[k].len() == 0 || segs[k] == seq!['.'] {
        resolve_segments(segs, k + 1, stack)
    } else if segs[k] == seq!['.', '.'] {
        if stack.len() == 0 { None } else { resolve_segments(segs, k + 1, stack.drop_last()) }
    } else {
        resolve_segments(segs, k + 1, stack.push(segs[k]))
    }
}

/// Apache-style normalization with `/` separators and no trailing separator.
pub open spec fn normalize_spec(path: Seq<char>) -> Option<Seq<char>> {
    let raw = unix_seps(path);
    if starts_with(raw, seq!['/', '/']) || starts_with(raw, seq!['.', '.', '/']) || raw == seq!['.', '.'] {
        None
    } else {
        let absolute = starts_with(raw, seq!['/']);
        match resolve_segments(split_char(raw, '/'), 0, Seq::empty()) {
            None => None,
            Some(parts) => if parts.len() == 0 {
                if absolute { Some(seq!['/']) } else { Some(Seq::empty()) }
            } else if absolute {
                Some(seq!['/'] + join_slash(parts))
            } else {
                Some(join_slash(parts))
            },
        }
    }
}

pub(crate) fn join_slash_exec(parts: &Vec<Vec<char>>) -> (r: Vec<char>)
    ensures
        r@ == join_slash(parts@.map_values(|p: Vec<char>| p@)),
{
    let ghost pv = parts@.map_values(|p: Vec<char>| p@);
    let mut r: Vec<char> = Vec::new();
    let mut i: usize = 0;
    while i < parts.len()
        invariant
            i <= parts.len(),
            pv == parts@.map_values(|p: Vec<char>| p@),
            r@ == join_slash(pv.subrange(0, i as int)),
        decreases parts.len() - i,
    {
        if i > 0 {
            r.push('/');
        }
        extend_chars(&mut r, &parts[i]);
        proof {
            let s = pv.subrange(0, i + 1);
            assert(s.drop_last() =~= pv.subrange(0, i as int));
            if i == 0 {
                assert(r@ =~= join_slash(s));
            }
        }
        i = i + 1;
    }
    assert(pv.subrange(0, parts.len() as int) =~= pv);
    r
}

pub fn normalize_no_end_separator(path: &str) -> (r: Option<String>)
    ensures
        match r {
            Some(s) => normalize_spec(path@) == Some(s@),
            None => normalize_spec(path@) is None,
        },
{
    let v = chars_of(path);
    let raw = unix_seps_exec(&v);
    let dd = vec!['.', '.'];
    assert(dd@ =~= seq!['.', '.']);
    let s2 = vec!['/', '/'];
    assert(s2@ =~= seq!['/', '/']);
    let s3 = vec!['.', '.', '/'];
    assert(s3@ =~= seq!['.', '.', '/']);
    let s1 = vec!['/'];
    assert(s1@ =~= seq!['/']);
    let dot = vec!['.'];
    assert(dot@ =~= seq!['.']);
    if starts_with_exec(&raw, &s2) || starts_with_exec(&raw, &s3) || chars_eq(&raw, &dd) {
        return None;
    }
    let absolute = starts_with_exec(&raw, &s1);
    let segs = split_chars(&raw, '/');
    let ghost sv = split_char(raw@, '/');
    let mut parts: Vec<Vec<char>> = Vec::new();
    assert(parts@.map_values(|p: Vec<char>| p@) =~= Seq::<Seq<char>>::empty());
    let mut k: usize = 0;
    while k < segs.len()
        invariant
            k <= segs.len(),
            segs@.len() == sv.len(),
            forall|j: int| 0 <= j < segs@.len() ==> #[trigger] segs@[j]@ == sv[j],
            dd@ == seq!['.', '.'],
            dot@ == seq!['.'],
            resolve_segments(sv, 0, Seq::empty()) is None ==> normalize_spec(path@) is None,
            resolve_segments(sv, 0, Seq::empty()) == resolve_segments(sv, k as int, parts@.map_values(|p: Vec<char>| p@)),
        decreases segs.len() - k,
    {
        let seg = &segs[k];
        let ghost st = parts@.map_values(|p: Vec<char>| p@);
        if seg.len() == 0 || chars_eq(seg, &dot) {
        } else if chars_eq(seg, &dd) {
            if parts.len() == 0 {
                assert(sv[k as int] == seq!['.', '.']);
                assert(resolve_segments(sv, k as int, st) is None);
                return None;
            }
            parts.pop();
            assert(parts@.map_values(|p: Vec<char>| p@) =~= st.drop_last());
        } else {
            let cp = slice_vec(seg, 0, seg.len());
            assert(cp@ =~= sv[k as int]);
            parts.push(cp);
            assert(parts@.map_values(|p: Vec<char>| p@) =~= st.push(sv[k as int]));
        }
        k = k + 1;
    }
    if parts.len() == 0 {
        return if absolute { Some(string_of(&s1)) } else { Some(String::new()) };
    }
    let j = join_slash_exec(&parts);
    if absolute {
        let mut o = vec!['/'];
        extend_chars(&mut o, &j);
        Some(string_of(&o))
    } else {
        Some(string_of(&j))
    }
}

/// Line ending used by `bytes`: CRLF if present, else CR, else LF.
pub open spec fn eol_spec(b: Seq<u8>) -> Option<Seq<char>> {
    if exists|i: int| 0 <= i < b.len() - 1 && #[trigger] b[i] == 13 && b[i + 1] == 10 {
        Some(seq!['\r', '\n'])
    } else if exists|i: int| 0 <= i < b.len() && b[i] == 13 {
        Some(seq!['\r'])
    } else if exists|i: int| 0 <= i < b.len() && b[i] == 10 {
        Some(seq!['\n'])
    } else {
        None
    }
}

pub fn get_eol(bytes: &[u8]) -> (r: Option<&'static str>)
    ensures
        match r {
            Some(s) => eol_spec(bytes@) == Some(s@),
            None => eol_spec(bytes@) is None,
        },
{
    let mut crlf = false;
    let mut cr = false;
    let mut lf = false;
    let mut i: usize = 0;
    while i < bytes.len()
        invariant
            i <= bytes.len(),
            crlf == exists|j: int| 0 <= j < i && j + 1 < bytes.len() && #[trigger] bytes@[j] == 13 && bytes@[j + 1] == 10,
            cr == exists|j: int| 0 <= j < i && bytes@[j] == 13,
            lf == exists|j: int| 0 <= j < i && bytes@[j] == 10,
        decreases bytes.len() - i,
    {
        if bytes[i] == 13 {
            cr = true;
            if i + 1 < bytes.len() && bytes[i + 1] == 10 {
                crlf = true;
            }
        }
        if bytes[i] == 10 {
            lf = true;
        }
        i = i + 1;
    }
    proof { reveal_strlit("\r\n"); reveal_strlit("\r"); reveal_strlit("\n"); }
    if crlf {
        Some("\r\n")
    } else if cr {
        Some("\r")
    } else if lf {
        Some("\n")
    } else {
        None
    }
}


/// Index of the last `sep` strictly before position `k`, or -1.
pub open spec fn last_sep_before(s: Seq<char>, sep: char, k: int) -> int
    decreases k,
{
    if k <= 0 || k > s.len() {
        -1
    } else if s[k - 1] == sep {
        k - 1
    } else {
        last_sep_before(s, sep, k - 1)
    }
}

/// Walks `n` separators further left from `start`; the whole text where
/// there are not enough.
pub open spec fn tail_from(s: Seq<char>, sep: char, start: int, n: nat) -> Seq<char>
    decreases n,
{
    if n == 0 {
        s.subrange(start + 1, s.len() as int)
    } else {
        let j = last_sep_before(s, sep, start);
        if j < 0 {
            s
        } else {
            tail_from(s, sep, j, (n - 1) as nat)
        }
    }
}

/// The last `n` `sep`-separated segments of `s` (all of `s` where it has
/// fewer separators).
pub open spec fn tail_segments(s: Seq<char>, sep: char, n: nat) -> Seq<char> {
    tail_from(s, sep, s.len() as int, n)
}

proof fn lemma_last_sep_before(s: Seq<char>, sep: char, k: int)
    requires
        0 <= k <= s.len(),
    ensures
        -1 <= last_sep_before(s, sep, k) < k,
        last_sep_before(s, sep, k) >= 0 ==> s[last_sep_before(s, sep, k)] == sep,
    decreases k,
{
    if k > 0 && s[k - 1] != sep {
        lemma_last_sep_before(s, sep, k - 1);
    }
}

fn last_sep_before_exec(s: &[char], sep: char, k: usize) -> (r: Option<usize>)
    requires
        k <= s@.len(),
    ensures
        match r {
            Some(j) => last_sep_before(s@, sep, k as int) == j as int && j < k,
            None => last_sep_before(s@, sep, k as int) == -1,
        },
{
    let mut i = k;
    while i > 0
        invariant
            i <= k <= s@.len(),
            last_sep_before(s@, sep, k as int) == last_sep_before(s@, sep, i as int),
        decreases i,
    {
        if s[i - 1] == sep {
            return Some(i - 1);
        }
        i = i - 1;
    }
    None
}

/// The last `n` (at least one) `sep`-separated segments of `s`.
pub fn get_tail_segments(s: &[char], sep: char, n: usize) -> (r: Vec<char>)
    requires
        n >= 1,
    ensures
        r@ == tail_segments(s@, sep, n as nat),
{
    let mut start = s.len();
    let mut i: usize = 0;
    while i < n
        invariant
            n >= 1,
            i <= n,
            start <= s@.len(),
            i > 0 ==> start < s@.len(),
            tail_from(s@, sep, start as int, (n - i) as nat) == tail_segments(s@, sep, n as nat),
        decreases n - i,
    {
        match last_sep_before_exec(s, sep, start) {
            None => {
                return slice_vec(s, 0, s.len());
            },
            Some(j) => {
                start = j;
            },
        }
        i = i + 1;
    }
    slice_vec(s, start + 1, s.len())
}

/// Another entry of `w` equals entry `i`.
pub open spec fn has_twin(w: Seq<Seq<char>>, i: int) -> bool {
    exists|j: int| 0 <= j < w.len() && j != i && #[trigger] w[j] == w[i]
}

/// The normalized form of each path (empty where it does not normalize).
pub open spec fn full_paths(paths: Seq<String>) -> Seq<Seq<char>> {
    Seq::new(paths.len(), |i: int| match normalize_spec(paths[i]@) {
        Some(p) => p,
        None => Seq::empty(),
    })
}

/// The current tail of each path.
pub open spec fn tails_of(full: Seq<Seq<char>>, seg: Seq<nat>) -> Seq<Seq<char>> {
    Seq::new(full.len(), |i: int| tail_segments(full[i], '/', seg[i]))
}

/// One widening step: each tail that another tail equals grows by a segment
/// (while it can still grow).
pub open spec fn widened(full: Seq<Seq<char>>, seg: Seq<nat>) -> Seq<nat> {
    let w = tails_of(full, seg);
    Seq::new(seg.len(), |i: int| if has_twin(w, i) && seg[i] <= full[i].len() && seg[i] < usize::MAX { seg[i] + 1 } else { seg[i] })
}

/// How far the widening can still go.
pub open spec fn room(full: Seq<Seq<char>>, seg: Seq<nat>, k: int) -> int
    decreases k,
{
    if k <= 0 {
        0
    } else {
        room(full, seg, k - 1) + (full[k - 1].len() + 1 - seg[k - 1])
    }
}

pub open spec fn seg_ok(full: Seq<Seq<char>>, seg: Seq<nat>) -> bool {
    seg.len() == full.len() && forall|i: int| 0 <= i < seg.len() ==> 1 <= #[trigger] seg[i] <= full[i].len() + 1
}

pub proof fn lemma_room_drops(full: Seq<Seq<char>>, seg: Seq<nat>, seg2: Seq<nat>, k: int, i: int)
    requires
        seg_ok(full, seg),
        seg_ok(full, seg2),
        0 <= k <= seg.len(),
        forall|j: int| 0 <= j < seg.len() ==> seg[j] <= #[trigger] seg2[j],
    ensures
        room(full, seg2, k) <= room(full, seg, k),
        0 <= i < k && seg[i] < seg2[i] ==> room(full, seg2, k) < room(full, seg, k),
        room(full, seg2, k) >= 0,
    decreases k,
{
    if k > 0 {
        lemma_room_drops(full, seg, seg2, k - 1, i);
        assert(seg[k - 1] <= seg2[k - 1]);
        assert(seg2[k - 1] <= full[k - 1].len() + 1);
    }
}

/// A widening step that changes a tail uses up room.
pub proof fn lemma_widening_shrinks_room(full: Seq<Seq<char>>, seg: Seq<nat>)
    requires
        seg_ok(full, seg),
        tails_of(full, widened(full, seg)) != tails_of(full, seg),
    ensures
        seg_ok(full, widened(full, seg)),
        0 <= room(full, widened(full, seg), seg.len() as int) < room(full, seg, seg.len() as int),
{
    let seg2 = widened(full, seg);
    let w = tails_of(full, seg);
    let w2 = tails_of(full, seg2);
    assert(seg_ok(full, seg2));
    if forall|i: int| 0 <= i < w.len() ==> w2[i] == w[i] {
        assert(w2 =~= w);
    }
    let i = choose|i: int| 0 <= i < w.len() && w2[i] != w[i];
    assert(seg2[i] != seg[i]);
    lemma_room_drops(full, seg, seg2, seg.len() as int, i);
}

/// Widens tails until no equal tail can grow any further.
pub open spec fn settle(full: Seq<Seq<char>>, seg: Seq<nat>) -> Seq<nat>
    decreases room(full, seg, seg.len() as int),
{
    let seg2 = widened(full, seg);
    if seg_ok(full, seg) && tails_of(full, seg2) != tails_of(full, seg) {
        proof {
            lemma_widening_shrinks_room(full, seg);
        }
        settle(full, seg2)
    } else {
        seg
    }
}

/// The shortest path tails that tell the paths apart, as far as the
/// trailing segments can; a path whose tail is empty is given whole.
pub open spec fn unique_names_spec(paths: Seq<String>) -> Seq<Seq<char>> {
    let full = full_paths(paths);
    let w = tails_of(full, settle(full, Seq::new(full.len(), |i: int| 1nat)));
    Seq::new(paths.len(), |i: int| if w[i].len() == 0 { paths[i]@ } else { w[i] })
}

pub open spec fn nat_seq(v: Seq<usize>) -> Seq<nat> {
    Seq::new(v.len(), |i: int| v[i] as nat)
}

/// Whether another entry of `w` equals entry `i`.
fn has_twin_exec(w: &Vec<Vec<char>>, i: usize) -> (r: bool)
    requires
        i < w@.len(),
    ensures
        r == has_twin(vecs_view(w@), i as int),
{
    let ghost wv = vecs_view(w@);
    let mut j: usize = 0;
    while j < w.len()
        invariant
            i < w@.len(),
            j <= w@.len(),
            wv == vecs_view(w@),
            forall|k: int| 0 <= k < j && k != i ==> wv[k] != wv[i as int],
        decreases w@.len() - j,
    {
        if j != i && chars_eq(&w[j], &w[i]) {
            assert(wv[j as int] == wv[i as int]);
            return true;
        }
        j = j + 1;
    }
    false
}

/// Short names for a list of paths: the fewest trailing segments that tell
/// equal names apart; a path with no usable tail is given as it was.
pub fn get_unique_names(paths: &[String]) -> (r: Vec<String>)
    ensures
        r@.len() == paths@.len(),
        forall|i: int| 0 <= i < r@.len() ==> #[trigger] r@[i]@ == unique_names_spec(paths@)[i],
{
    let n = paths.len();
    let ghost full = full_paths(paths@);
    let mut fulls: Vec<Vec<char>> = Vec::new();
    let mut seg: Vec<usize> = Vec::new();
    let mut working: Vec<Vec<char>> = Vec::new();
    let mut i: usize = 0;
    while i < n
        invariant
            n == paths@.len(),
            full == full_paths(paths@),
            i <= n,
            fulls@.len() == i && seg@.len() == i && working@.len() == i,
            forall|k: int| 0 <= k < i ==> #[trigger] fulls@[k]@ == full[k],
            forall|k: int| 0 <= k < i ==> #[trigger] seg@[k] == 1,
            forall|k: int| 0 <= k < i ==> #[trigger] working@[k]@ == tail_segments(full[k], '/', 1),
        decreases n - i,
    {
        let f = match normalize_no_end_separator(paths[i].as_str()) {
            Some(p) => chars_of(p.as_str()),
            None => Vec::new(),
        };
        assert(f@ == full[i as int]);
        let t = get_tail_segments(&f, '/', 1);
        fulls.push(f);
        seg.push(1);
        working.push(t);
        i = i + 1;
    }
    let ghost seg0 = nat_seq(seg@);
    assert(seg0 =~= Seq::new(full.len(), |i: int| 1nat));
    assert(vecs_view(working@) =~= tails_of(full, seg0));
    loop
        invariant
            n == paths@.len() && n == full.len(),
            full == full_paths(paths@),
            fulls@.len() == n && seg@.len() == n && working@.len() == n,
            forall|k: int| 0 <= k < n ==> #[trigger] fulls@[k]@ == full[k],
            seg_ok(full, nat_seq(seg@)),
            vecs_view(working@) == tails_of(full, nat_seq(seg@)),
            settle(full, seg0) == settle(full, nat_seq(seg@)),
            seg0 == Seq::new(full.len(), |i: int| 1nat),
        ensures
            vecs_view(working@) == tails_of(full, settle(full, seg0)),
            working@.len() == n,
        decreases room(full, nat_seq(seg@), n as int),
    {
        let ghost sv = nat_seq(seg@);
        let ghost wv = vecs_view(working@);
        let ghost sv2 = widened(full, sv);
        let mut seg2: Vec<usize> = Vec::new();
        let mut working2: Vec<Vec<char>> = Vec::new();
        let mut did_trim = false;
        let mut k: usize = 0;
        while k < n
            invariant
                n == full.len() && n == working@.len() && n == seg@.len() && n == fulls@.len(),
                forall|q: int| 0 <= q < n ==> #[trigger] fulls@[q]@ == full[q],
                sv == nat_seq(seg@),
                wv == vecs_view(working@),
                wv == tails_of(full, sv),
                sv2 == widened(full, sv),
                seg_ok(full, sv),
                k <= n,
                seg2@.len() == k && working2@.len() == k,
                forall|q: int| 0 <= q < k ==> #[trigger] seg2@[q] as nat == sv2[q],
                forall|q: int| 0 <= q < k ==> #[trigger] working2@[q]@ == tail_segments(full[q], '/', sv2[q]),
                did_trim <==> exists|q: int| 0 <= q < k && #[trigger] working2@[q]@ != wv[q],
            decreases n - k,
        {
            let twin = has_twin_exec(&working, k);
            let ghost old_w2 = working2@;
            let ghost old_trim = did_trim;
            let cur = seg[k];
            let len = fulls[k].len();
            assert(sv[k as int] == cur as nat);
            assert(full[k as int].len() == len);
            if twin && cur <= len && cur < usize::MAX {
                assert(sv2[k as int] == cur + 1);
                let t = get_tail_segments(&fulls[k], '/', cur + 1);
                let same = chars_eq(&t, &working[k]);
                if !same {
                    did_trim = true;
                }
                seg2.push(cur + 1);
                working2.push(t);
                assert(working2@[k as int]@ == tail_segments(full[k as int], '/', sv2[k as int]));
                assert(same <==> working2@[k as int]@ == wv[k as int]);
            } else {
                assert(sv2[k as int] == cur);
                let t = slice_vec(&working[k], 0, working[k].len());
                seg2.push(cur);
                working2.push(t);
                assert(working2@[k as int]@ == wv[k as int]);
            }
            assert(forall|q: int| 0 <= q < k ==> #[trigger] working2@[q]@ == old_w2[q]@);
            proof {
                if old_trim {
                    let q = choose|q: int| 0 <= q < k && #[trigger] old_w2[q]@ != wv[q];
                    assert(working2@[q]@ != wv[q]);
                } else if did_trim {
                    assert(working2@[k as int]@ != wv[k as int]);
                } else {
                    assert forall|q: int| 0 <= q < k + 1 implies #[trigger] working2@[q]@ == wv[q] by {
                        if q < k {
                            assert(old_w2[q]@ == wv[q]);
                        }
                    }
                }
            }
            k = k + 1;
        }
        proof {
            assert(nat_seq(seg2@) =~= sv2);
            assert(vecs_view(working2@) =~= tails_of(full, sv2));
            if !did_trim {
                assert(tails_of(full, sv2) =~= tails_of(full, sv));
            } else {
                let q = choose|q: int| 0 <= q < n && #[trigger] working2@[q]@ != wv[q];
                assert(vecs_view(working2@)[q] != wv[q]);
                lemma_widening_shrinks_room(full, sv);
            }
        }
        if !did_trim {
            break;
        }
        seg = seg2;
        working = working2;
    }
    let ghost w = tails_of(full, settle(full, seg0));
    let mut out: Vec<String> = Vec::new();
    let mut i: usize = 0;
    while i < n
        invariant
            n == paths@.len() && n == working@.len(),
            vecs_view(working@) == w,
            w == tails_of(full_paths(paths@), settle(full_paths(paths@), seg0)),
            seg0 == Seq::new(full_paths(paths@).len(), |i: int| 1nat),
            i <= n,
            out@.len() == i,
            forall|k: int| 0 <= k < i ==> #[trigger] out@[k]@ == unique_names_spec(paths@)[k],
        decreases n - i,
    {
        if working[i].len() == 0 {
            out.push(paths[i].clone());
            assert(out@[i as int]@ == paths@[i as int]@);
        } else {
            out.push(string_of(&working[i]));
        }
        assert(w[i as int] == working@[i as int]@);
        i = i + 1;
    }
    out
}

/// Year, month and day of a day count since 1970-01-01 (the civil-calendar
/// formula of the proleptic Gregorian calendar).
pub open spec fn civil_from_days(days: int) -> (int, int, int) {
    let z = days + 719468;
    let era = z / 146097;
    let doe = z - era * 146097;
    let yoe = (doe - doe / 1460 + doe / 36524 - doe / 146096) / 365;
    let y = yoe + era * 400;
    let doy = doe - (365 * yoe + yoe / 4 - yoe / 100);
    let mp = (5 * doy + 2) / 153;
    let d = doy - (153 * mp + 2) / 5 + 1;
    let m = if mp < 10 { mp + 3 } else { mp - 9 };
    (if m <= 2 { y + 1 } else { y }, m, d)
}

/// `YYYYMMDDHHmm` (UTC) of a non-negative count of seconds.
pub open spec fn stamp_text(secs: int) -> Seq<char> {
    let days = secs / 86400;
    let rem = secs % 86400;
    let (y, m, d) = civil_from_days(days);
    zero_padded(y as nat, 4) + zero_padded(m as nat, 2) + zero_padded(d as nat, 2)
        + zero_padded((rem / 3600) as nat, 2) + zero_padded(((rem % 3600) / 60) as nat, 2)
}

/// `<name>.<YYYYMMDDHHmm>.bak`, the name being `file` where the path has none
/// and the time the modification time, clamped at the epoch.
pub open spec fn backup_name(path: Seq<char>, millis: int) -> Seq<char> {
    let name = match file_name_of(path) {
        Some(n) => n,
        None => "file"@,
    };
    let secs = if millis < 0 { 0 } else { millis / 1000 };
    name + "."@ + stamp_text(secs) + ".bak"@
}

fn civil_exec(days: i64) -> (r: (i64, i64, i64))
    requires
        0 <= days <= i64::MAX / 86400,
    ensures
        (r.0 as int, r.1 as int, r.2 as int) == civil_from_days(days as int),
        r.0 >= 0 && r.1 >= 0 && r.2 >= 0,
{
    let z = days + 719468;
    let era = z / 146097;
    let doe = z - era * 146097;
    assert(0 <= doe < 146097);
    let yoe = (doe - doe / 1460 + doe / 36524 - doe / 146096) / 365;
    assert(0 <= yoe <= 400);
    let y = yoe + era * 400;
    let doy = doe - (365 * yoe + yoe / 4 - yoe / 100);
    assert(doy >= 0);
    let mp = (5 * doy + 2) / 153;
    let d = doy - (153 * mp + 2) / 5 + 1;
    let m = if mp < 10 { mp + 3 } else { mp - 9 };
    assert(d >= 1);
    assert(m >= 0);
    (if m <= 2 { y + 1 } else { y }, m, d)
}

fn stamp_exec(secs: i64) -> (r: Vec<char>)
    requires
        secs >= 0,
    ensures
        r@ == stamp_text(secs as int),
{
    let days = secs / 86400;
    let rem = secs % 86400;
    let (y, m, d) = civil_exec(days);
    let mut out = zero_padded_exec(y as u64, 4);
    let m_t = zero_padded_exec(m as u64, 2);
    extend_chars(&mut out, &m_t);
    let d_t = zero_padded_exec(d as u64, 2);
    extend_chars(&mut out, &d_t);
    let h_t = zero_padded_exec((rem / 3600) as u64, 2);
    extend_chars(&mut out, &h_t);
    let n_t = zero_padded_exec(((rem % 3600) / 60) as u64, 2);
    extend_chars(&mut out, &n_t);
    out
}

/// The backup name `<name>.<YYYYMMDDHHmm>.bak` for a file, from its last
/// modification time in milliseconds (UTC).
pub fn get_backup_filename(original: &str, last_modified_millis: i64) -> (r: String)
    ensures
        r@ == backup_name(original@, last_modified_millis as int),
{
    let mut out = match file_name(original) {
        Some(n) => chars_of(n.as_str()),
        None => {
            let f = vec!['f', 'i', 'l', 'e'];
            proof { reveal_strlit("file"); }
            assert(f@ =~= "file"@);
            f
        },
    };
    let secs: i64 = if last_modified_millis < 0 { 0 } else { last_modified_millis / 1000 };
    out.push('.');
    let stamp = stamp_exec(secs);
    extend_chars(&mut out, &stamp);
    let tail = vec!['.', 'b', 'a', 'k'];
    extend_chars(&mut out, &tail);
    proof {
        reveal_strlit(".bak");
        reveal_strlit(".");
        assert(tail@ =~= ".bak"@);
        assert(out@ =~= backup_name(original@, last_modified_millis as int));
    }
    string_of(&out)
}

/// The names of a component list (a root contributes no name).
pub open spec fn comp_names(c: Seq<Option<Seq<char>>>) -> Seq<Seq<char>> {
    Seq::new(c.len(), |i: int| match c[i] {
        Some(n) => n,
        None => Seq::empty(),
    })
}

/// A component list written as a path with `/` separators.
pub open spec fn render_components(c: Seq<Option<Seq<char>>>) -> Seq<char> {
    if c.len() > 0 && c[0] is None {
        seq!['/'] + join_slash(comp_names(c.drop_first()))
    } else {
        join_slash(comp_names(c))
    }
}

/// The path of `file` relative to `root`, where the components of `root`
/// begin those of `file`.
pub open spec fn relative_to(root: Seq<char>, file: Seq<char>) -> Option<Seq<char>> {
    let rc = crate::path_order::components(root);
    let fc = crate::path_order::components(file);
    if rc.len() <= fc.len() && fc.subrange(0, rc.len() as int) == rc {
        Some(unix_seps(render_components(fc.subrange(rc.len() as int, fc.len() as int))))
    } else {
        None
    }
}

pub open spec fn opt_views(v: Seq<Option<Vec<char>>>) -> Seq<Option<Seq<char>>> {
    Seq::new(v.len(), |i: int| match v[i] {
        Some(x) => Some(x@),
        None => None,
    })
}

fn component_list(c: &crate::path_order::Components) -> (r: Vec<Option<Vec<char>>>)
    ensures
        opt_views(r@) == c.view(),
{
    let mut r: Vec<Option<Vec<char>>> = Vec::new();
    if c.absolute {
        r.push(None);
    }
    let ghost start = r@.len();
    let ghost names = vecs_view(c.names@).map_values(|n: Seq<char>| Some(n));
    let mut i: usize = 0;
    while i < c.names.len()
        invariant
            i <= c.names@.len(),
            start == (if c.absolute { 1int } else { 0int }),
            names == vecs_view(c.names@).map_values(|n: Seq<char>| Some(n)),
            r@.len() == start + i,
            c.absolute ==> opt_views(r@)[0] is None,
            forall|k: int| 0 <= k < i ==> #[trigger] opt_views(r@)[start + k] == names[k],
        decreases c.names@.len() - i,
    {
        let x = slice_vec(&c.names[i], 0, c.names[i].len());
        let ghost before = r@;
        r.push(Some(x));
        proof {
            assert(names[i as int] == Some(c.names@[i as int]@));
            assert(opt_views(r@)[start + i] == Some(x@));
            assert forall|k: int| 0 <= k < i implies #[trigger] opt_views(r@)[start + k] == names[k] by {
                assert(r@[start + k] == before[start + k]);
                assert(opt_views(before)[start + k] == names[k]);
            }
            if c.absolute {
                assert(r@[0] == before[0]);
                assert(opt_views(before)[0] is None);
            }
        }
        i = i + 1;
    }
    proof {
        let o = opt_views(r@);
        if c.absolute {
            let t = seq![None::<Seq<char>>] + names;
            assert(o.len() == t.len());
            assert forall|k: int| 0 <= k < o.len() implies o[k] == t[k] by {
                if k >= 1 {
                    assert(o[1 + (k - 1)] == names[k - 1]);
                }
            }
            assert(o =~= t);
        } else {
            assert forall|k: int| 0 <= k < o.len() implies o[k] == names[k] by {
                assert(o[0 + k] == names[k]);
            }
            assert(o =~= names);
        }
    }
    r
}

fn same_component(a: &Option<Vec<char>>, b: &Option<Vec<char>>) -> (r: bool)
    ensures
        r <==> opt_views(seq![*a])[0] == opt_views(seq![*b])[0],
{
    match (a, b) {
        (None, None) => true,
        (Some(x), Some(y)) => chars_eq(x, y),
        _ => false,
    }
}

/// The path of `file` under `root`, with `/` separators; both are taken as
/// given (resolved beforehand by the caller).
pub fn compute_relative_path(root: &str, file: &str) -> (r: Result<String, String>)
    ensures
        match r {
            Ok(s) => relative_to(root@, file@) == Some(s@),
            Err(e) => relative_to(root@, file@) is None && e@ == "not under root"@,
        },
{
    let rcs = crate::path_order::components_of(root);
    let fcs = crate::path_order::components_of(file);
    let rc = component_list(&rcs);
    let fc = component_list(&fcs);
    let ghost rv = opt_views(rc@);
    let ghost fv = opt_views(fc@);
    let mut prefix = rc.len() <= fc.len();
    if prefix {
        let mut i: usize = 0;
        while i < rc.len()
            invariant
                rc@.len() <= fc@.len(),
                i <= rc@.len(),
                rv == opt_views(rc@) && fv == opt_views(fc@),
                prefix <==> forall|k: int| 0 <= k < i ==> #[trigger] fv[k] == rv[k],
            decreases rc@.len() - i,
        {
            let same = same_component(&fc[i], &rc[i]);
            assert(opt_views(seq![fc@[i as int]])[0] == fv[i as int]);
            assert(opt_views(seq![rc@[i as int]])[0] == rv[i as int]);
            if !same {
                prefix = false;
            }
            i = i + 1;
        }
        if prefix {
            assert(fv.subrange(0, rv.len() as int) =~= rv);
        } else {
            proof {
                let k = choose|k: int| 0 <= k < rc@.len() && #[trigger] fv[k] != rv[k];
                assert(fv.subrange(0, rv.len() as int)[k] != rv[k]);
            }
        }
    }
    if !prefix {
        let e = "not under root".to_string();
        return Err(e);
    }
    let ghost rest = fv.subrange(rv.len() as int, fv.len() as int);
    let mut start = rc.len();
    let mut out: Vec<char> = Vec::new();
    let lead = start < fc.len() && fc[start].is_none();
    if lead {
        out.push('/');
        start = start + 1;
    }
    let mut names: Vec<Vec<char>> = Vec::new();
    let mut k = start;
    while k < fc.len()
        invariant
            start <= k <= fc@.len(),
            fv == opt_views(fc@),
            vecs_view(names@) =~= comp_names(fv.subrange(start as int, k as int)),
        decreases fc@.len() - k,
    {
        let ghost before = vecs_view(names@);
        let item: Vec<char> = match &fc[k] {
            Some(x) => slice_vec(x, 0, x.len()),
            None => Vec::new(),
        };
        proof {
            let sub = fv.subrange(start as int, k + 1);
            assert(sub[k - start] == fv[k as int]);
            assert(item@ == comp_names(sub)[k - start]);
            assert(sub.drop_last() =~= fv.subrange(start as int, k as int));
        }
        names.push(item);
        proof {
            assert(vecs_view(names@) =~= before.push(item@));
        }
        k = k + 1;
    }
    let j = join_slash_exec(&names);
    assert(names@.map_values(|p: Vec<char>| p@) =~= vecs_view(names@));
    extend_chars(&mut out, &j);
    proof {
        if lead {
            assert(rest.drop_first() =~= fv.subrange(start as int, fv.len() as int));
        } else {
            assert(rest =~= fv.subrange(start as int, fv.len() as int));
        }
        assert(out@ == render_components(rest));
    }
    let u = unix_seps_exec(&out);
    Ok(string_of(&u))
}
} // verus!
