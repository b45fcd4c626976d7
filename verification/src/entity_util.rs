//! HTML character entities: decoding `&name;` references and escaping markup.
use vstd::prelude::*;
use crate::text::{chars_of, string_of, slice_vec, extend_chars, chars_eq, starts_with, starts_with_exec, matches_at_exec};

verus! {

pub assume_specification[core::char::from_u32](i: u32) -> (r: Option<char>)
    ensures
        r is Some <==> (i <= 0x10FFFF && !(0xD800 <= i && i <= 0xDFFF)),
        r matches Some(c) ==> c as int == i as int,
;

/// The value of a digit in the given radix (10 or 16).
pub open spec fn radix_digit(c: char, radix: int) -> Option<int> {
    if '0' <= c && c <= '9' {
        Some(c as int - '0' as int)
    } else if radix == 16 && 'a' <= c && c <= 'f' {
        Some(c as int - 'a' as int + 10)
    } else if radix == 16 && 'A' <= c && c <= 'F' {
        Some(c as int - 'A' as int + 10)
    } else {
        None
    }
}

pub open spec fn radix_value(s: Seq<char>, radix: int) -> Option<int>
    decreases s.len(),
{
    if s.len() == 0 {
        Some(0)
    } else {
        match (radix_value(s.drop_last(), radix), radix_digit(s.last(), radix)) {
            (Some(v), Some(d)) => Some(v * radix + d),
            _ => None,
        }
    }
}

/// `u32::from_str_radix`: an optional `+`, then at least one digit, the
/// value fitting in `u32`.
pub open spec fn parse_u32_radix(s: Seq<char>, radix: int) -> Option<int> {
    let u = if s.len() > 0 && s[0] == '+' { s.drop_first() } else { s };
    if u.len() == 0 {
        None
    } else {
        match radix_value(u, radix) {
            Some(v) => if v <= u32::MAX { Some(v) } else { None },
            None => None,
        }
    }
}

/// A code point as a one-character text, where it is a scalar value.
pub open spec fn code_point_text(n: Option<int>) -> Option<Seq<char>> {
    match n {
        Some(v) => if v <= 0x10FFFF && !(0xD800 <= v && v <= 0xDFFF) { Some(seq![v as char]) } else { None },
        None => None,
    }
}

/// The text an entity name (between `&` and `;`) stands for.
pub open spec fn decode_entity(name: Seq<char>) -> Option<Seq<char>> {
    if starts_with(name, "#x"@) || starts_with(name, "#X"@) {
        code_point_text(parse_u32_radix(name.subrange(2, name.len() as int), 16))
    } else if starts_with(name, "#"@) {
        code_point_text(parse_u32_radix(name.drop_first(), 10))
    } else if name == "lt"@ {
        Some("<"@)
    } else if name == "gt"@ {
        Some(">"@)
    } else if name == "amp"@ {
        Some("&"@)
    } else if name == "quot"@ {
        Some(seq!['"'])
    } else if name == "nbsp"@ {
        Some(seq!['\u{00A0}'])
    } else if name == "OElig"@ {
        Some(seq!['\u{0152}'])
    } else if name == "oelig"@ {
        Some(seq!['\u{0153}'])
    } else if name == "Scaron"@ {
        Some(seq!['\u{0160}'])
    } else if name == "scaron"@ {
        Some(seq!['\u{0161}'])
    } else if name == "Yuml"@ {
        Some(seq!['\u{0178}'])
    } else {
        None
    }
}

/// The index of the first `c`, or the length.
pub open spec fn index_of(s: Seq<char>, c: char) -> int
    decreases s.len(),
{
    if s.len() == 0 {
        0
    } else if s[0] == c {
        0
    } else {
        1 + index_of(s.drop_first(), c)
    }
}

/// Entity references replaced by their characters, left to right; an `&`
/// that starts no known reference stays.
pub open spec fn entities_decoded(s: Seq<char>) -> Seq<char>
    decreases s.len(),
{
    let a = index_of(s, '&');
    if a >= s.len() || a < 0 {
        s
    } else {
        let after = s.subrange(a + 1, s.len() as int);
        let k = index_of(after, ';');
        if 0 <= k < after.len() && decode_entity(after.subrange(0, k)) is Some {
            s.subrange(0, a) + decode_entity(after.subrange(0, k))->0
                + entities_decoded(after.subrange(k + 1, after.len() as int))
        } else {
            s.subrange(0, a) + seq!['&'] + entities_decoded(after)
        }
    }
}


proof fn lemma_index_of(s: Seq<char>, c: char)
    ensures
        0 <= index_of(s, c) <= s.len(),
        forall|i: int| 0 <= i < index_of(s, c) ==> s[i] != c,
        index_of(s, c) < s.len() ==> s[index_of(s, c)] == c,
    decreases s.len(),
{
    if s.len() > 0 && s[0] != c {
        lemma_index_of(s.drop_first(), c);
        assert forall|i: int| 0 <= i < index_of(s, c) implies s[i] != c by {
            if i > 0 {
                assert(s[i] == s.drop_first()[i - 1]);
            }
        }
    }
}

proof fn lemma_index_of_unique(s: Seq<char>, c: char, k: int)
    requires
        0 <= k <= s.len(),
        forall|i: int| 0 <= i < k ==> s[i] != c,
        k < s.len() ==> s[k] == c,
    ensures
        index_of(s, c) == k,
    decreases s.len(),
{
    if s.len() > 0 && s[0] != c {
        assert forall|i: int| 0 <= i < k - 1 implies s.drop_first()[i] != c by {
            assert(s.drop_first()[i] == s[i + 1]);
        }
        lemma_index_of_unique(s.drop_first(), c, k - 1);
    }
}

fn index_of_exec(s: &[char], from: usize, c: char) -> (r: usize)
    requires
        from <= s@.len(),
    ensures
        r as int == from + index_of(s@.subrange(from as int, s@.len() as int), c),
        from <= r <= s@.len(),
{
    let mut i = from;
    while i < s.len()
        invariant
            from <= i <= s@.len(),
            forall|k: int| from <= k < i ==> s@[k] != c,
        decreases s@.len() - i,
    {
        if s[i] == c {
            proof {
                let t = s@.subrange(from as int, s@.len() as int);
                assert forall|k: int| 0 <= k < i - from implies t[k] != c by {
                    assert(t[k] == s@[k + from]);
                }
                assert(t[i - from] == s@[i as int]);
                lemma_index_of_unique(t, c, i - from);
            }
            return i;
        }
        i = i + 1;
    }
    proof {
        let t = s@.subrange(from as int, s@.len() as int);
        assert forall|k: int| 0 <= k < i - from implies t[k] != c by {
            assert(t[k] == s@[k + from]);
        }
        if i < s@.len() {
            assert(t[i - from] == s@[i as int]);
        }
        lemma_index_of_unique(t, c, i - from);
    }
    i
}

fn radix_digit_exec(c: char, radix: u64) -> (r: Option<u64>)
    requires
        radix == 10 || radix == 16,
    ensures
        match r {
            Some(d) => radix_digit(c, radix as int) == Some(d as int) && d < radix,
            None => radix_digit(c, radix as int) is None,
        },
{
    if '0' <= c && c <= '9' {
        Some((c as u32 - '0' as u32) as u64)
    } else if radix == 16 && 'a' <= c && c <= 'f' {
        Some((c as u32 - 'a' as u32 + 10) as u64)
    } else if radix == 16 && 'A' <= c && c <= 'F' {
        Some((c as u32 - 'A' as u32 + 10) as u64)
    } else {
        None
    }
}

proof fn lemma_radix_grows(s: Seq<char>, radix: int, k: int)
    requires
        radix == 10 || radix == 16,
        0 <= k <= s.len(),
        radix_value(s.subrange(0, k), radix) matches Some(v) && v > u32::MAX,
    ensures
        radix_value(s, radix) is None || radix_value(s, radix)->0 > u32::MAX,
    decreases s.len() - k,
{
    if k < s.len() {
        let p = s.subrange(0, k + 1);
        assert(p.drop_last() =~= s.subrange(0, k));
        if radix_value(p, radix) is Some {
            lemma_radix_grows(s, radix, k + 1);
        } else {
            lemma_radix_none(s, radix, k + 1);
        }
    } else {
        assert(s.subrange(0, k) =~= s);
    }
}

proof fn lemma_radix_none(s: Seq<char>, radix: int, k: int)
    requires
        0 <= k <= s.len(),
        radix_value(s.subrange(0, k), radix) is None,
    ensures
        radix_value(s, radix) is None,
    decreases s.len() - k,
{
    if k < s.len() {
        let p = s.subrange(0, k + 1);
        assert(p.drop_last() =~= s.subrange(0, k));
        lemma_radix_none(s, radix, k + 1);
    } else {
        assert(s.subrange(0, k) =~= s);
    }
}

fn parse_radix_exec(s: &[char], from: usize, to: usize, radix: u64) -> (r: Option<u32>)
    requires
        from <= to <= s@.len(),
        radix == 10 || radix == 16,
    ensures
        match r {
            Some(v) => parse_u32_radix(s@.subrange(from as int, to as int), radix as int) == Some(v as int),
            None => parse_u32_radix(s@.subrange(from as int, to as int), radix as int) is None,
        },
{
    let ghost t = s@.subrange(from as int, to as int);
    let start: usize = if from < to && s[from] == '+' { from + 1 } else { from };
    let ghost u = if t.len() > 0 && t[0] == '+' { t.drop_first() } else { t };
    assert(u =~= s@.subrange(start as int, to as int));
    if start == to {
        return None;
    }
    let mut v: u64 = 0;
    let mut i = start;
    while i < to
        invariant
            start <= i <= to <= s@.len(),
            radix == 10 || radix == 16,
            u == s@.subrange(start as int, to as int),
            t == s@.subrange(from as int, to as int),
            u == (if t.len() > 0 && t[0] == '+' { t.drop_first() } else { t }),
            u.len() > 0,
            radix_value(u.subrange(0, i - start), radix as int) == Some(v as int),
            v <= u32::MAX,
        decreases to - i,
    {
        let ghost p = u.subrange(0, i - start + 1);
        assert(p.drop_last() =~= u.subrange(0, i - start));
        assert(p.last() == s@[i as int]);
        match radix_digit_exec(s[i], radix) {
            None => {
                proof { lemma_radix_none(u, radix as int, i - start + 1); }
                return None;
            },
            Some(d) => {
                let w = v * radix + d;
                if w > 0xFFFF_FFFF {
                    proof {
                        assert(radix_value(p, radix as int) == Some(w as int));
                        lemma_radix_grows(u, radix as int, i - start + 1);
                    }
                    return None;
                }
                v = w;
            },
        }
        i = i + 1;
    }
    assert(u.subrange(0, u.len() as int) =~= u);
    Some(v as u32)
}

fn code_point_exec(n: Option<u32>) -> (r: Option<Vec<char>>)
    ensures
        match r {
            Some(t) => code_point_text(match n { Some(v) => Some(v as int), None => None }) == Some(t@),
            None => code_point_text(match n { Some(v) => Some(v as int), None => None }) is None,
        },
{
    match n {
        None => None,
        Some(v) => match core::char::from_u32(v) {
            Some(c) => {
                let t = vec![c];
                assert(t@ =~= seq![(v as int) as char]);
                Some(t)
            },
            None => None,
        },
    }
}

fn lit(s: &str) -> (r: Vec<char>)
    ensures
        r@ == s@,
{
    chars_of(s)
}

fn decode_entity_exec(s: &[char], from: usize, to: usize) -> (r: Option<Vec<char>>)
    requires
        from <= to <= s@.len(),
    ensures
        match r {
            Some(t) => decode_entity(s@.subrange(from as int, to as int)) == Some(t@),
            None => decode_entity(s@.subrange(from as int, to as int)) is None,
        },
{
    let ghost name = s@.subrange(from as int, to as int);
    let n = slice_vec(s, from, to);
    proof {
        reveal_strlit("#x"); reveal_strlit("#X"); reveal_strlit("#");
        reveal_strlit("lt"); reveal_strlit("gt"); reveal_strlit("amp"); reveal_strlit("quot");
        reveal_strlit("nbsp"); reveal_strlit("OElig"); reveal_strlit("oelig");
        reveal_strlit("Scaron"); reveal_strlit("scaron"); reveal_strlit("Yuml");
        reveal_strlit("<"); reveal_strlit(">"); reveal_strlit("&");
    }
    let hx = lit("#x");
    let hx2 = lit("#X");
    let hash = lit("#");
    if starts_with_exec(&n, &hx) || starts_with_exec(&n, &hx2) {
        proof {
            assert(s@.subrange(from + 2, to as int) =~= name.subrange(2, name.len() as int));
        }
        return code_point_exec(parse_radix_exec(s, from + 2, to, 16));
    }
    if starts_with_exec(&n, &hash) {
        proof {
            assert(s@.subrange(from + 1, to as int) =~= name.drop_first());
        }
        return code_point_exec(parse_radix_exec(s, from + 1, to, 10));
    }
    if chars_eq(&n, &lit("lt")) {
        return Some(lit("<"));
    }
    if chars_eq(&n, &lit("gt")) {
        return Some(lit(">"));
    }
    if chars_eq(&n, &lit("amp")) {
        return Some(lit("&"));
    }
    if chars_eq(&n, &lit("quot")) {
        return Some(vec!['"']);
    }
    if chars_eq(&n, &lit("nbsp")) {
        return Some(vec!['\u{00A0}']);
    }
    if chars_eq(&n, &lit("OElig")) {
        return Some(vec!['\u{0152}']);
    }
    if chars_eq(&n, &lit("oelig")) {
        return Some(vec!['\u{0153}']);
    }
    if chars_eq(&n, &lit("Scaron")) {
        return Some(vec!['\u{0160}']);
    }
    if chars_eq(&n, &lit("scaron")) {
        return Some(vec!['\u{0161}']);
    }
    if chars_eq(&n, &lit("Yuml")) {
        return Some(vec!['\u{0178}']);
    }
    None
}

/// Entity references (`&lt;`, `&#65;`, `&#x41;` and a few named ones)
/// replaced by their characters; an `&` that starts no known reference is
/// kept as it is.
pub fn entities_to_chars(input: &str) -> (r: String)
    ensures
        r@ == entities_decoded(input@),
{
    let s = chars_of(input);
    let n = s.len();
    let mut out: Vec<char> = Vec::new();
    let mut pos: usize = 0;
    assert(s@.subrange(0, n as int) =~= s@);
    while pos < n
        invariant
            n == s@.len(),
            pos <= n,
            entities_decoded(s@) == out@ + entities_decoded(s@.subrange(pos as int, n as int)),
        decreases n - pos,
    {
        let ghost rest = s@.subrange(pos as int, n as int);
        let a = index_of_exec(&s, pos, '&');
        if a == n {
            let t = slice_vec(&s, pos, n);
            extend_chars(&mut out, &t);
            assert(entities_decoded(rest) == rest);
            assert(out@ + entities_decoded(s@.subrange(n as int, n as int)) =~= out@);
            pos = n;
        } else {
            let ghost after = rest.subrange(a - pos + 1, rest.len() as int);
            assert(after =~= s@.subrange(a + 1, n as int));
            assert(rest.subrange(0, a - pos) =~= s@.subrange(pos as int, a as int));
            let pre = slice_vec(&s, pos, a);
            extend_chars(&mut out, &pre);
            let semi = index_of_exec(&s, a + 1, ';');
            let dec = if semi < n { decode_entity_exec(&s, a + 1, semi) } else { None };
            proof {
                assert(after.subrange(0, semi - a - 1) =~= s@.subrange(a + 1, semi as int));
            }
            match dec {
                Some(ch) => {
                    extend_chars(&mut out, &ch);
                    assert(after.subrange(semi - a, after.len() as int) =~= s@.subrange(semi + 1, n as int));
                    pos = semi + 1;
                },
                None => {
                    out.push('&');
                    pos = a + 1;
                },
            }
        }
    }
    string_of(&out)
}

pub open spec fn strs_view(p: Seq<&str>) -> Seq<Seq<char>> {
    Seq::new(p.len(), |i: int| p[i]@)
}

/// The first protected text (from index `j` on) that `s` begins with.
pub open spec fn first_protected(s: Seq<char>, prot: Seq<Seq<char>>, j: int) -> Option<Seq<char>>
    decreases prot.len() - j,
{
    if j < 0 || j >= prot.len() {
        None
    } else if prot[j].len() > 0 && starts_with(s, prot[j]) {
        Some(prot[j])
    } else {
        first_protected(s, prot, j + 1)
    }
}

/// The entity for `<`, `>`, `&` and no-break space; other characters as they are.
pub open spec fn escape_char(c: char) -> Seq<char> {
    if c == '<' {
        "&lt;"@
    } else if c == '>' {
        "&gt;"@
    } else if c == '&' {
        "&amp;"@
    } else if c == '\u{00A0}' {
        "&nbsp;"@
    } else {
        seq![c]
    }
}

/// The text with markup characters escaped, protected texts copied as they
/// are where they begin.
pub open spec fn entities_encoded(s: Seq<char>, prot: Seq<Seq<char>>) -> Seq<char>
    decreases s.len(),
{
    if s.len() == 0 {
        Seq::empty()
    } else {
        match first_protected(s, prot, 0) {
            Some(p) => if 0 < p.len() <= s.len() {
                p + entities_encoded(s.subrange(p.len() as int, s.len() as int), prot)
            } else {
                escape_char(s[0]) + entities_encoded(s.drop_first(), prot)
            },
            None => escape_char(s[0]) + entities_encoded(s.drop_first(), prot),
        }
    }
}

proof fn lemma_first_protected(s: Seq<char>, prot: Seq<Seq<char>>, j: int)
    requires
        0 <= j,
    ensures
        first_protected(s, prot, j) matches Some(p) ==> 0 < p.len() <= s.len() && starts_with(s, p),
    decreases prot.len() - j,
{
    if j < prot.len() && !(prot[j].len() > 0 && starts_with(s, prot[j])) {
        lemma_first_protected(s, prot, j + 1);
    }
}

fn escape_char_exec(c: char) -> (r: Vec<char>)
    ensures
        r@ == escape_char(c),
{
    proof {
        reveal_strlit("&lt;"); reveal_strlit("&gt;"); reveal_strlit("&amp;"); reveal_strlit("&nbsp;");
    }
    if c == '<' {
        lit("&lt;")
    } else if c == '>' {
        lit("&gt;")
    } else if c == '&' {
        lit("&amp;")
    } else if c == '\u{00A0}' {
        lit("&nbsp;")
    } else {
        vec![c]
    }
}

/// Markup characters (`<`, `>`, `&`, no-break space) written as entities,
/// the protected texts copied unchanged where they begin (the first listed
/// wins). The encoding is not consulted.
pub fn chars_to_entities(input: &str, encoding: &str, protected: &[&str]) -> (r: String)
    requires
        forall|i: int| 0 <= i < protected@.len() ==> (#[trigger] protected@[i])@.len() > 0,
    ensures
        r@ == entities_encoded(input@, strs_view(protected@)),
{
    let ghost pv = strs_view(protected@);
    let s = chars_of(input);
    let mut prot: Vec<Vec<char>> = Vec::new();
    let mut j: usize = 0;
    while j < protected.len()
        invariant
            j <= protected@.len(),
            pv == strs_view(protected@),
            prot@.len() == j,
            forall|k: int| 0 <= k < j ==> #[trigger] prot@[k]@ == pv[k],
        decreases protected@.len() - j,
    {
        prot.push(chars_of(protected[j]));
        j = j + 1;
    }
    let n = s.len();
    let mut out: Vec<char> = Vec::new();
    let mut pos: usize = 0;
    assert(s@.subrange(0, n as int) =~= s@);
    while pos < n
        invariant
            n == s@.len(),
            pos <= n,
            prot@.len() == pv.len(),
            forall|k: int| 0 <= k < pv.len() ==> #[trigger] prot@[k]@ == pv[k],
            entities_encoded(s@, pv) == out@ + entities_encoded(s@.subrange(pos as int, n as int), pv),
        decreases n - pos,
    {
        let ghost rest = s@.subrange(pos as int, n as int);
        let mut found: Option<usize> = None;
        let mut k: usize = 0;
        while k < prot.len() && found.is_none()
            invariant
                k <= prot@.len(),
                prot@.len() == pv.len(),
                forall|q: int| 0 <= q < pv.len() ==> #[trigger] prot@[q]@ == pv[q],
                rest == s@.subrange(pos as int, n as int),
                pos < n == s@.len(),
                found is None ==> first_protected(rest, pv, 0) == first_protected(rest, pv, k as int),
                found matches Some(q) ==> q < prot@.len() && first_protected(rest, pv, 0) == Some(pv[q as int]),
            decreases prot@.len() - k,
        {
            let hit = prot[k].len() > 0 && matches_at_exec(&s, &prot[k], pos);
            proof {
                if prot@[k as int]@.len() <= rest.len() {
                    assert(rest.subrange(0, pv[k as int].len() as int) =~= s@.subrange(pos as int, pos + pv[k as int].len()));
                }
            }
            if hit {
                proof {
                    assert(starts_with(rest, pv[k as int]));
                    assert(first_protected(rest, pv, k as int) == Some(pv[k as int]));
                }
                found = Some(k);
            }
            k = k + 1;
        }
        proof { lemma_first_protected(rest, pv, 0); }
        match found {
            Some(q) => {
                let p = &prot[q];
                assert(p@ == pv[q as int]);
                extend_chars(&mut out, p);
                proof {
                    assert(rest.len() > 0);
                    assert(rest.subrange(p@.len() as int, rest.len() as int) =~= s@.subrange(pos + p@.len(), n as int));
                }
                pos = pos + p.len();
            },
            None => {
                assert(first_protected(rest, pv, 0) is None);
                let e = escape_char_exec(s[pos]);
                extend_chars(&mut out, &e);
                proof {
                    assert(rest[0] == s@[pos as int]);
                    assert(rest.drop_first() =~= s@.subrange(pos + 1, n as int));
                }
                pos = pos + 1;
            },
        }
    }
    assert(entities_encoded(s@.subrange(n as int, n as int), pv) =~= Seq::<char>::empty());
    assert(out@ + Seq::<char>::empty() =~= out@);
    string_of(&out)
}

proof fn lemma_index_of_prefixed(c: char, r: Seq<char>, x: char)
    requires
        c != x,
    ensures
        index_of(seq![c] + r, x) == 1 + index_of(r, x),
{
    assert((seq![c] + r).drop_first() =~= r);
}

/// A character that is not `&` passes through decoding unchanged.
proof fn lemma_decode_plain(c: char, r: Seq<char>)
    requires
        c != '&',
    ensures
        entities_decoded(seq![c] + r) == seq![c] + entities_decoded(r),
{
    let t = seq![c] + r;
    lemma_index_of_prefixed(c, r, '&');
    lemma_index_of(r, '&');
    let a = index_of(t, '&');
    let ar = index_of(r, '&');
    if ar >= r.len() {
        assert(entities_decoded(r) == r);
        assert(entities_decoded(t) == t);
    } else {
        let after = t.subrange(a + 1, t.len() as int);
        let after_r = r.subrange(ar + 1, r.len() as int);
        assert(after =~= after_r);
        assert(t.subrange(0, a) =~= seq![c] + r.subrange(0, ar));
        let k = index_of(after, ';');
        if 0 <= k < after.len() && decode_entity(after.subrange(0, k)) is Some {
            assert(entities_decoded(t) =~= seq![c] + (r.subrange(0, ar) + decode_entity(after.subrange(0, k))->0
                + entities_decoded(after.subrange(k + 1, after.len() as int))));
        } else {
            assert(entities_decoded(t) =~= seq![c] + (r.subrange(0, ar) + seq!['&'] + entities_decoded(after)));
        }
    }
}

/// An entity reference `&name;` decodes to what the name stands for.
proof fn lemma_decode_reference(name: Seq<char>, r: Seq<char>)
    requires
        name.len() > 0,
        forall|i: int| 0 <= i < name.len() ==> name[i] != ';' && name[i] != '&',
        decode_entity(name) is Some,
    ensures
        entities_decoded(seq!['&'] + name + seq![';'] + r) == decode_entity(name)->0 + entities_decoded(r),
{
    let t = seq!['&'] + name + seq![';'] + r;
    lemma_index_of_unique(t, '&', 0);
    let after = t.subrange(1, t.len() as int);
    assert(after =~= name + seq![';'] + r);
    assert forall|i: int| 0 <= i < name.len() implies after[i] != ';' by {
        assert(after[i] == name[i]);
    }
    assert(after[name.len() as int] == ';');
    lemma_index_of_unique(after, ';', name.len() as int);
    assert(after.subrange(0, name.len() as int) =~= name);
    assert(after.subrange(name.len() as int + 1, after.len() as int) =~= r);
    assert(t.subrange(0, 0) =~= Seq::<char>::empty());
    assert(entities_decoded(t) =~= Seq::<char>::empty() + decode_entity(name)->0 + entities_decoded(r));
}

proof fn lemma_not_numeric(name: Seq<char>)
    requires
        name.len() > 0,
        name[0] != '#',
    ensures
        !starts_with(name, "#x"@) && !starts_with(name, "#X"@) && !starts_with(name, "#"@),
{
    reveal_strlit("#x"); reveal_strlit("#X"); reveal_strlit("#");
    if starts_with(name, "#x"@) { assert(name.subrange(0, 2)[0] == name[0]); }
    if starts_with(name, "#X"@) { assert(name.subrange(0, 2)[0] == name[0]); }
    if starts_with(name, "#"@) { assert(name.subrange(0, 1)[0] == name[0]); }
}

proof fn lemma_decode_escaped(c: char, r: Seq<char>)
    ensures
        entities_decoded(escape_char(c) + r) == seq![c] + entities_decoded(r),
{
    reveal_strlit("&lt;"); reveal_strlit("&gt;"); reveal_strlit("&amp;"); reveal_strlit("&nbsp;");
    reveal_strlit("lt"); reveal_strlit("gt"); reveal_strlit("amp"); reveal_strlit("nbsp");
    reveal_strlit("#x"); reveal_strlit("#X"); reveal_strlit("#");
    reveal_strlit("<"); reveal_strlit(">"); reveal_strlit("&");
    lemma_not_numeric("lt"@);
    lemma_not_numeric("gt"@);
    lemma_not_numeric("amp"@);
    lemma_not_numeric("nbsp"@);
    reveal_strlit("quot");
    assert("gt"@ != "lt"@) by { assert("gt"@[0] != "lt"@[0]); }
    assert("amp"@ != "lt"@ && "amp"@ != "gt"@) by { assert("amp"@.len() != "lt"@.len()); }
    assert("nbsp"@ != "lt"@ && "nbsp"@ != "gt"@ && "nbsp"@ != "amp"@) by { assert("nbsp"@.len() != "lt"@.len()); }
    assert("nbsp"@ != "quot"@) by { assert("nbsp"@[0] != "quot"@[0]); }
    if c == '<' {
        assert("&lt;"@ + r =~= seq!['&'] + "lt"@ + seq![';'] + r);
        lemma_decode_reference("lt"@, r);
        assert(decode_entity("lt"@) == Some("<"@));
        assert("<"@ =~= seq![c]);
    } else if c == '>' {
        assert("&gt;"@ + r =~= seq!['&'] + "gt"@ + seq![';'] + r);
        lemma_decode_reference("gt"@, r);
        assert("lt"@ != "gt"@);
        assert(decode_entity("gt"@) == Some(">"@));
        assert(">"@ =~= seq![c]);
    } else if c == '&' {
        assert("&amp;"@ + r =~= seq!['&'] + "amp"@ + seq![';'] + r);
        lemma_decode_reference("amp"@, r);
        assert(decode_entity("amp"@) == Some("&"@));
        assert("&"@ =~= seq![c]);
    } else if c == '\u{00A0}' {
        assert("&nbsp;"@ + r =~= seq!['&'] + "nbsp"@ + seq![';'] + r);
        lemma_decode_reference("nbsp"@, r);
        assert(decode_entity("nbsp"@) == Some(seq!['\u{00A0}']));
    } else {
        lemma_decode_plain(c, r);
    }
}

/// Decoding undoes escaping: for every text, turning its markup characters
/// into entities (with nothing protected) and decoding the entities again
/// gives the text back.
pub proof fn law_entities_round_trip(s: Seq<char>)
    ensures
        entities_decoded(entities_encoded(s, Seq::empty())) == s,
    decreases s.len(),
{
    if s.len() > 0 {
        assert(first_protected(s, Seq::empty(), 0) is None);
        law_entities_round_trip(s.drop_first());
        lemma_decode_escaped(s[0], entities_encoded(s.drop_first(), Seq::empty()));
        assert(seq![s[0]] + s.drop_first() =~= s);
    } else {
        assert(entities_encoded(s, Seq::empty()) =~= Seq::<char>::empty());
        assert(entities_decoded(Seq::<char>::empty()) =~= Seq::<char>::empty());
        assert(s =~= Seq::<char>::empty());
    }
}

/// The first `c` of `x + y` is where `y`'s first `c` is, when `x` has none.
proof fn lemma_index_of_after(x: Seq<char>, y: Seq<char>, c: char)
    requires
        forall|i: int| 0 <= i < x.len() ==> x[i] != c,
    ensures
        index_of(x + y, c) == x.len() + index_of(y, c),
    decreases x.len(),
{
    if x.len() > 0 {
        assert((x + y).drop_first() =~= x.drop_first() + y);
        lemma_index_of_after(x.drop_first(), y, c);
    } else {
        assert(x + y =~= y);
    }
}

/// A named reference between text without `&` and any rest decodes to its
/// character, the rest being decoded in turn.
proof fn lemma_named_reference(x: Seq<char>, name: Seq<char>, ch: char, y: Seq<char>)
    requires
        forall|i: int| 0 <= i < x.len() ==> x[i] != '&',
        forall|i: int| 0 <= i < name.len() ==> name[i] != ';',
        decode_entity(name) == Some(seq![ch]),
    ensures
        entities_decoded(x + seq!['&'] + name + seq![';'] + y) == x + seq![ch] + entities_decoded(y),
{
    let s = x + seq!['&'] + name + seq![';'] + y;
    let rest = name + seq![';'] + y;
    assert(s =~= x + (seq!['&'] + rest));
    lemma_index_of_after(x, seq!['&'] + rest, '&');
    assert(index_of(seq!['&'] + rest, '&') == 0);
    let after = s.subrange(x.len() as int + 1, s.len() as int);
    assert(after =~= name + (seq![';'] + y));
    lemma_index_of_after(name, seq![';'] + y, ';');
    assert(index_of(seq![';'] + y, ';') == 0);
    assert(after.subrange(0, name.len() as int) =~= name);
    assert(after.subrange(name.len() as int + 1, after.len() as int) =~= y);
    assert(s.subrange(0, x.len() as int) =~= x);
}

proof fn lemma_not_starts(s: Seq<char>, p: Seq<char>)
    requires
        s.len() > 0,
        p.len() > 0,
        s[0] != p[0],
    ensures
        !starts_with(s, p),
{
    if starts_with(s, p) {
        assert(s.subrange(0, p.len() as int)[0] == p[0]);
    }
}

/// The named references decode to their standard characters: `&lt;` to
/// `<`, `&gt;` to `>`, `&amp;` to `&`, `&quot;` to `"` and `&nbsp;` to a
/// no-break space, wherever they stand after text without `&`.
pub proof fn law_named_entities_decode(x: Seq<char>, y: Seq<char>)
    requires
        forall|i: int| 0 <= i < x.len() ==> x[i] != '&',
    ensures
        entities_decoded(x + seq!['&', 'l', 't', ';'] + y) == x + seq!['<'] + entities_decoded(y),
        entities_decoded(x + seq!['&', 'g', 't', ';'] + y) == x + seq!['>'] + entities_decoded(y),
        entities_decoded(x + seq!['&', 'a', 'm', 'p', ';'] + y) == x + seq!['&'] + entities_decoded(y),
        entities_decoded(x + seq!['&', 'q', 'u', 'o', 't', ';'] + y) == x + seq!['"'] + entities_decoded(y),
        entities_decoded(x + seq!['&', 'n', 'b', 's', 'p', ';'] + y) == x + seq!['\u{00A0}'] + entities_decoded(y),
{
    reveal_strlit("#x");
    reveal_strlit("#X");
    reveal_strlit("#");
    reveal_strlit("lt");
    reveal_strlit("gt");
    reveal_strlit("amp");
    reveal_strlit("quot");
    reveal_strlit("nbsp");
    reveal_strlit("<");
    reveal_strlit(">");
    reveal_strlit("&");
    let lt = seq!['l', 't'];
    let gt = seq!['g', 't'];
    let amp = seq!['a', 'm', 'p'];
    let quot = seq!['q', 'u', 'o', 't'];
    let nbsp = seq!['n', 'b', 's', 'p'];
    assert(lt =~= "lt"@);
    assert(gt =~= "gt"@);
    assert(amp =~= "amp"@);
    assert(quot =~= "quot"@);
    assert(nbsp =~= "nbsp"@);
    assert("#"@ =~= seq!['#']);
    assert("#x"@ =~= seq!['#', 'x']);
    assert("#X"@ =~= seq!['#', 'X']);
    lemma_not_starts(lt, "#"@); lemma_not_starts(gt, "#"@); lemma_not_starts(amp, "#"@);
    lemma_not_starts(quot, "#"@); lemma_not_starts(nbsp, "#"@);
    lemma_not_starts(lt, "#x"@); lemma_not_starts(gt, "#x"@); lemma_not_starts(amp, "#x"@);
    lemma_not_starts(quot, "#x"@); lemma_not_starts(nbsp, "#x"@);
    lemma_not_starts(lt, "#X"@); lemma_not_starts(gt, "#X"@); lemma_not_starts(amp, "#X"@);
    lemma_not_starts(quot, "#X"@); lemma_not_starts(nbsp, "#X"@);
    assert("<"@ =~= seq!['<']);
    assert(">"@ =~= seq!['>']);
    assert("&"@ =~= seq!['&']);
    lemma_named_reference(x, lt, '<', y);
    lemma_named_reference(x, gt, '>', y);
    lemma_named_reference(x, amp, '&', y);
    lemma_named_reference(x, quot, '"', y);
    lemma_named_reference(x, nbsp, '\u{00A0}', y);
    assert(x + seq!['&', 'l', 't', ';'] + y =~= x + seq!['&'] + lt + seq![';'] + y);
    assert(x + seq!['&', 'g', 't', ';'] + y =~= x + seq!['&'] + gt + seq![';'] + y);
    assert(x + seq!['&', 'a', 'm', 'p', ';'] + y =~= x + seq!['&'] + amp + seq![';'] + y);
    assert(x + seq!['&', 'q', 'u', 'o', 't', ';'] + y =~= x + seq!['&'] + quot + seq![';'] + y);
    assert(x + seq!['&', 'n', 'b', 's', 'p', ';'] + y =~= x + seq!['&'] + nbsp + seq![';'] + y);
}

/// Escaping splits over concatenation when nothing is protected.
proof fn lemma_encoded_concat(x: Seq<char>, y: Seq<char>)
    ensures
        entities_encoded(x + y, Seq::empty()) == entities_encoded(x, Seq::empty()) + entities_encoded(y, Seq::empty()),
    decreases x.len(),
{
    if x.len() > 0 {
        assert(first_protected(x + y, Seq::empty(), 0) is None);
        assert(first_protected(x, Seq::empty(), 0) is None);
        assert((x + y).drop_first() =~= x.drop_first() + y);
        lemma_encoded_concat(x.drop_first(), y);
        assert(entities_encoded(x + y, Seq::empty()) =~= escape_char(x[0]) + entities_encoded(x.drop_first() + y, Seq::empty()));
    } else {
        assert(x + y =~= y);
        assert(entities_encoded(x, Seq::empty()) =~= Seq::<char>::empty());
    }
}

/// With nothing protected, each character is escaped on its own: `<` as
/// `&lt;`, `>` as `&gt;`, `&` as `&amp;`, a no-break space as `&nbsp;`, and
/// any other character (quotes among them) left as it is.
pub proof fn law_escapes_each_char(x: Seq<char>, c: char, y: Seq<char>)
    ensures
        entities_encoded(x + seq![c] + y, Seq::empty()) == entities_encoded(x, Seq::empty())
            + (if c == '<' { seq!['&', 'l', 't', ';'] } else if c == '>' { seq!['&', 'g', 't', ';'] }
               else if c == '&' { seq!['&', 'a', 'm', 'p', ';'] } else if c == '\u{00A0}' { seq!['&', 'n', 'b', 's', 'p', ';'] }
               else { seq![c] })
            + entities_encoded(y, Seq::empty()),
{
    reveal_strlit("&lt;");
    reveal_strlit("&gt;");
    reveal_strlit("&amp;");
    reveal_strlit("&nbsp;");
    lemma_encoded_concat(x + seq![c], y);
    lemma_encoded_concat(x, seq![c]);
    assert(first_protected(seq![c], Seq::empty(), 0) is None);
    assert(seq![c].drop_first() =~= Seq::<char>::empty());
    assert(entities_encoded(Seq::<char>::empty(), Seq::empty()) =~= Seq::<char>::empty());
    assert(entities_encoded(seq![c], Seq::empty()) =~= escape_char(c));
    assert("&lt;"@ =~= seq!['&', 'l', 't', ';']);
    assert("&gt;"@ =~= seq!['&', 'g', 't', ';']);
    assert("&amp;"@ =~= seq!['&', 'a', 'm', 'p', ';']);
    assert("&nbsp;"@ =~= seq!['&', 'n', 'b', 's', 'p', ';']);
}

/// The digit character for a value below 16 (lower-case letters above 9).
pub open spec fn digit_char(d: int) -> char {
    if d == 0 { '0' } else if d == 1 { '1' } else if d == 2 { '2' } else if d == 3 { '3' }
    else if d == 4 { '4' } else if d == 5 { '5' } else if d == 6 { '6' } else if d == 7 { '7' }
    else if d == 8 { '8' } else if d == 9 { '9' } else if d == 10 { 'a' } else if d == 11 { 'b' }
    else if d == 12 { 'c' } else if d == 13 { 'd' } else if d == 14 { 'e' } else { 'f' }
}

/// A number written in the given radix (10 or 16) without leading zeros.
pub open spec fn radix_text(n: nat, radix: nat) -> Seq<char>
    decreases n,
{
    if radix < 2 || n < radix {
        seq![digit_char(n as int)]
    } else {
        proof {
            assert(n / radix < n) by (nonlinear_arith)
                requires radix >= 2, n >= radix;
        }
        radix_text(n / radix, radix).push(digit_char((n % radix) as int))
    }
}

/// A number's digits read back give the number; none of them is `;`, `+`,
/// `x` or `X`.
proof fn lemma_radix_text(n: nat, radix: nat)
    requires
        radix == 10 || radix == 16,
    ensures
        radix_value(radix_text(n, radix), radix as int) == Some(n as int),
        radix_text(n, radix).len() > 0,
        forall|i: int| 0 <= i < radix_text(n, radix).len() ==> {
            let c = #[trigger] radix_text(n, radix)[i];
            c != ';' && c != '+' && c != 'x' && c != 'X' && c != '&'
        },
    decreases n,
{
    let t = radix_text(n, radix);
    if n < radix {
        assert(t.drop_last() =~= Seq::<char>::empty());
        assert(radix_digit(digit_char(n as int), radix as int) == Some(n as int));
        assert(radix_value(t.drop_last(), radix as int) == Some(0int));
        assert(0int * radix + n == n);
    } else {
        lemma_radix_text(n / radix, radix);
        let d = (n % radix) as int;
        assert(radix_digit(digit_char(d), radix as int) == Some(d));
        assert(t.drop_last() =~= radix_text(n / radix, radix));
        assert((n / radix) * radix + d == n) by (nonlinear_arith)
            requires radix > 0, d == n % radix;
        assert(t.last() == digit_char(d));
        assert(radix_value(t, radix as int) == Some(((n / radix) as int) * (radix as int) + d));
        assert forall|i: int| 0 <= i < t.len() implies {
            let c = #[trigger] t[i];
            c != ';' && c != '+' && c != 'x' && c != 'X' && c != '&'
        } by {
            if i < t.len() - 1 {
                assert(t[i] == radix_text(n / radix, radix)[i]);
            }
        }
    }
}

/// Numeric references decode to the character with that code point,
/// written in decimal after `&#` or in hexadecimal after `&#x`, wherever
/// they stand after text without `&`.
pub proof fn law_numeric_entities_decode(x: Seq<char>, c: char, y: Seq<char>)
    requires
        forall|i: int| 0 <= i < x.len() ==> x[i] != '&',
    ensures
        entities_decoded(x + seq!['&', '#'] + radix_text(c as nat, 10) + seq![';'] + y)
            == x + seq![c] + entities_decoded(y),
        entities_decoded(x + seq!['&', '#', 'x'] + radix_text(c as nat, 16) + seq![';'] + y)
            == x + seq![c] + entities_decoded(y),
{
    reveal_strlit("#x");
    reveal_strlit("#X");
    reveal_strlit("#");
    assert("#"@ =~= seq!['#']);
    assert("#x"@ =~= seq!['#', 'x']);
    assert("#X"@ =~= seq!['#', 'X']);
    let v = c as nat;
    assert(v <= 0x10FFFF && !(0xD800 <= v && v <= 0xDFFF));
    assert((v as int) as char == c);
    lemma_radix_text(v, 10);
    lemma_radix_text(v, 16);
    let dec = radix_text(v, 10);
    let hex = radix_text(v, 16);
    let n1 = seq!['#'] + dec;
    let n2 = seq!['#', 'x'] + hex;
    assert(n1[1] == dec[0]);
    assert(!starts_with(n1, "#x"@)) by {
        if starts_with(n1, "#x"@) {
            assert(n1.subrange(0, 2)[1] == n1[1]);
        }
    }
    assert(!starts_with(n1, "#X"@)) by {
        if starts_with(n1, "#X"@) {
            assert(n1.subrange(0, 2)[1] == n1[1]);
        }
    }
    assert(n1.subrange(0, 1) =~= seq!['#']);
    assert(starts_with(n1, "#"@));
    assert(n1.drop_first() =~= dec);
    assert(dec[0] != '+');
    assert(decode_entity(n1) == Some(seq![c]));
    assert(n2.subrange(0, 2) =~= seq!['#', 'x']);
    assert(starts_with(n2, "#x"@));
    assert(n2.subrange(2, n2.len() as int) =~= hex);
    assert(hex[0] != '+');
    assert(decode_entity(n2) == Some(seq![c]));
    assert forall|i: int| 0 <= i < n1.len() implies n1[i] != ';' by {
        if i > 0 {
            assert(n1[i] == dec[i - 1]);
        }
    }
    assert forall|i: int| 0 <= i < n2.len() implies n2[i] != ';' by {
        if i > 1 {
            assert(n2[i] == hex[i - 2]);
        }
    }
    lemma_named_reference(x, n1, c, y);
    lemma_named_reference(x, n2, c, y);
    assert(x + seq!['&'] + n1 + seq![';'] + y =~= x + seq!['&', '#'] + dec + seq![';'] + y);
    assert(x + seq!['&'] + n2 + seq![';'] + y =~= x + seq!['&', '#', 'x'] + hex + seq![';'] + y);
}

/// An `&` with no `;` after it starts no reference: it stays, and the text
/// after it is decoded in turn.
pub proof fn law_lone_ampersand_stays(x: Seq<char>, y: Seq<char>)
    requires
        forall|i: int| 0 <= i < x.len() ==> x[i] != '&',
        forall|i: int| 0 <= i < y.len() ==> y[i] != ';',
    ensures
        entities_decoded(x + seq!['&'] + y) == x + seq!['&'] + entities_decoded(y),
{
    let s = x + seq!['&'] + y;
    assert(s =~= x + (seq!['&'] + y));
    lemma_index_of_after(x, seq!['&'] + y, '&');
    assert(index_of(seq!['&'] + y, '&') == 0);
    let after = s.subrange(x.len() as int + 1, s.len() as int);
    assert(after =~= y);
    lemma_index_of(y, ';');
    if index_of(y, ';') < y.len() {
        assert(y[index_of(y, ';')] == ';');
    }
    assert(s.subrange(0, x.len() as int) =~= x);
}

} // verus!
