//! Carrying the numbers of the current source into a fuzzy match's translation.
use vstd::prelude::*;
use crate::text::{chars_of, string_of, slice_vec, extend_chars, chars_eq, lower_ascii_seq, lower_ascii_chars};

verus! {

/// The value of a decimal digit: ASCII, fullwidth, Arabic-Indic or extended
/// Arabic-Indic.
pub open spec fn decimal_digit(c: char) -> Option<int> {
    let u = c as int;
    if 0x30 <= u <= 0x39 {
        Some(u - 0x30)
    } else if 0xFF10 <= u <= 0xFF19 {
        Some(u - 0xFF10)
    } else if 0x0660 <= u <= 0x0669 {
        Some(u - 0x0660)
    } else if 0x06F0 <= u <= 0x06F9 {
        Some(u - 0x06F0)
    } else {
        None
    }
}

/// The value of a run of decimal digits, `None` where one is not a digit.
pub open spec fn digits_value_of(s: Seq<char>) -> Option<int>
    decreases s.len(),
{
    if s.len() == 0 {
        Some(0)
    } else {
        match (digits_value_of(s.drop_last()), decimal_digit(s.last())) {
            (Some(v), Some(d)) => Some(v * 10 + d),
            _ => None,
        }
    }
}

/// Whether every prefix value of the digits stays within `i32`.
pub open spec fn digits_fit_i32(s: Seq<char>) -> bool
    decreases s.len(),
{
    if s.len() == 0 {
        true
    } else {
        digits_fit_i32(s.drop_last()) && match digits_value_of(s) {
            Some(v) => v <= i32::MAX,
            None => false,
        }
    }
}

/// The text without a leading `+` or `-`.
pub open spec fn unsigned_part(s: Seq<char>) -> Seq<char> {
    if s.len() > 0 && (s[0] == '-' || s[0] == '+') { s.drop_first() } else { s }
}

/// An integer in decimal digits of any of the scripts above, with an
/// optional sign, whose magnitude fits in `i32`.
pub open spec fn is_int_text(s: Seq<char>) -> bool {
    let u = unsigned_part(s);
    u.len() > 0 && digits_value_of(u) is Some && digits_fit_i32(u)
}

pub open spec fn is_ascii_digit(c: char) -> bool {
    '0' <= c && c <= '9'
}

pub open spec fn all_ascii_digits(s: Seq<char>, from: int, to: int) -> bool {
    forall|i: int| from <= i < to ==> #[trigger] is_ascii_digit(s[i])
}

/// The index of the first `c` (either of two), or the length.
pub open spec fn first_of(s: Seq<char>, c1: char, c2: char) -> int
    decreases s.len(),
{
    if s.len() == 0 {
        0
    } else if s[0] == c1 || s[0] == c2 {
        0
    } else {
        1 + first_of(s.drop_first(), c1, c2)
    }
}

/// A decimal literal: digits with at most one `.`, at least one digit, then
/// an optional exponent `e` or `E`, an optional sign and digits.
pub open spec fn is_decimal_literal(s: Seq<char>) -> bool {
    let e = first_of(s, 'e', 'E');
    let m = s.subrange(0, e);
    let d = first_of(m, '.', '.');
    &&& all_ascii_digits(m, 0, d)
    &&& (if d == m.len() { m.len() > 0 } else { m.len() > 1 && all_ascii_digits(m, d + 1, m.len() as int) })
    &&& (e == s.len() || {
        let rest = unsigned_part(s.subrange(e + 1, s.len() as int));
        rest.len() > 0 && all_ascii_digits(rest, 0, rest.len() as int)
    })
}

/// The text accepted by `str::parse::<f64>`, as its documentation gives
/// the grammar: an optional sign, then `inf`, `infinity` or `nan` in any
/// case, or a decimal literal.
pub open spec fn is_float_text(s: Seq<char>) -> bool {
    let u = unsigned_part(s);
    let l = lower_ascii_seq(u);
    l == "inf"@ || l == "infinity"@ || l == "nan"@ || is_decimal_literal(u)
}

/// A number as the matcher counts one.
pub open spec fn is_number_text(s: Seq<char>) -> bool {
    is_int_text(s) || is_float_text(s)
}


proof fn lemma_first_of(s: Seq<char>, c1: char, c2: char)
    ensures
        0 <= first_of(s, c1, c2) <= s.len(),
        forall|i: int| 0 <= i < first_of(s, c1, c2) ==> s[i] != c1 && s[i] != c2,
        first_of(s, c1, c2) < s.len() ==> (s[first_of(s, c1, c2)] == c1 || s[first_of(s, c1, c2)] == c2),
    decreases s.len(),
{
    if s.len() > 0 && s[0] != c1 && s[0] != c2 {
        lemma_first_of(s.drop_first(), c1, c2);
        assert forall|i: int| 0 <= i < first_of(s, c1, c2) implies s[i] != c1 && s[i] != c2 by {
            if i > 0 {
                assert(s[i] == s.drop_first()[i - 1]);
            }
        }
    }
}

fn first_of_exec(s: &[char], from: usize, to: usize, c1: char, c2: char) -> (r: usize)
    requires
        from <= to <= s@.len(),
    ensures
        r as int == from + first_of(s@.subrange(from as int, to as int), c1, c2),
        from <= r <= to,
{
    let ghost t = s@.subrange(from as int, to as int);
    proof { lemma_first_of(t, c1, c2); }
    let mut i = from;
    while i < to
        invariant
            from <= i <= to <= s@.len(),
            t == s@.subrange(from as int, to as int),
            0 <= first_of(t, c1, c2) <= t.len(),
            forall|k: int| 0 <= k < first_of(t, c1, c2) ==> t[k] != c1 && t[k] != c2,
            first_of(t, c1, c2) < t.len() ==> (t[first_of(t, c1, c2)] == c1 || t[first_of(t, c1, c2)] == c2),
            i - from <= first_of(t, c1, c2),
        decreases to - i,
    {
        if s[i] == c1 || s[i] == c2 {
            assert(t[i - from] == s@[i as int]);
            return i;
        }
        assert(t[i - from] == s@[i as int]);
        i = i + 1;
    }
    i
}

fn all_digits_exec(s: &[char], from: usize, to: usize) -> (r: bool)
    requires
        from <= to <= s@.len(),
    ensures
        r == all_ascii_digits(s@, from as int, to as int),
{
    let mut i = from;
    while i < to
        invariant
            from <= i <= to <= s@.len(),
            all_ascii_digits(s@, from as int, i as int),
        decreases to - i,
    {
        if !(s[i] >= '0' && s[i] <= '9') {
            assert(!is_ascii_digit(s@[i as int]));
            return false;
        }
        i = i + 1;
    }
    true
}

proof fn lemma_digits_sub(s: Seq<char>, off: int, end: int, a: int, b: int)
    requires
        0 <= off <= end <= s.len(),
        0 <= a <= b <= end - off,
    ensures
        all_ascii_digits(s.subrange(off, end), a, b) == all_ascii_digits(s, off + a, off + b),
{
    let t = s.subrange(off, end);
    if all_ascii_digits(t, a, b) {
        assert forall|i: int| off + a <= i < off + b implies #[trigger] is_ascii_digit(s[i]) by {
            assert(s[i] == t[i - off]);
            assert(is_ascii_digit(t[i - off]));
        }
    }
    if all_ascii_digits(s, off + a, off + b) {
        assert forall|i: int| a <= i < b implies #[trigger] is_ascii_digit(t[i]) by {
            assert(t[i] == s[i + off]);
            assert(is_ascii_digit(s[i + off]));
        }
    }
}

fn decimal_digit_exec(c: char) -> (r: Option<u32>)
    ensures
        match r {
            Some(d) => decimal_digit(c) == Some(d as int) && d < 10,
            None => decimal_digit(c) is None,
        },
{
    let u = c as u32;
    if 0x30 <= u && u <= 0x39 {
        Some(u - 0x30)
    } else if 0xFF10 <= u && u <= 0xFF19 {
        Some(u - 0xFF10)
    } else if 0x0660 <= u && u <= 0x0669 {
        Some(u - 0x0660)
    } else if 0x06F0 <= u && u <= 0x06F9 {
        Some(u - 0x06F0)
    } else {
        None
    }
}

fn is_int_exec(s: &[char]) -> (r: bool)
    ensures
        r == is_int_text(s@),
{
    let start: usize = if s.len() > 0 && (s[0] == '-' || s[0] == '+') { 1 } else { 0 };
    let ghost u = unsigned_part(s@);
    assert(u =~= s@.subrange(start as int, s@.len() as int));
    if start == s.len() {
        return false;
    }
    let mut n: i64 = 0;
    let mut i = start;
    while i < s.len()
        invariant
            start <= i <= s@.len(),
            u == s@.subrange(start as int, s@.len() as int),
            u == unsigned_part(s@),
            digits_value_of(u.subrange(0, i - start)) == Some(n as int),
            digits_fit_i32(u.subrange(0, i - start)),
            0 <= n <= i32::MAX,
        decreases s@.len() - i,
    {
        let ghost pre = u.subrange(0, i - start + 1);
        assert(pre.drop_last() =~= u.subrange(0, i - start));
        assert(pre.last() == s@[i as int]);
        match decimal_digit_exec(s[i]) {
            None => {
                proof {
                    assert(decimal_digit(pre.last()) is None);
                    assert(digits_value_of(pre) is None);
                    lemma_prefix_fails(u, i - start + 1);
                }
                return false;
            },
            Some(d) => {
                let v = n * 10 + d as i64;
                if v > 2147483647 {
                    proof {
                        assert(digits_value_of(pre) == Some(v as int));
                        assert(!digits_fit_i32(pre));
                        lemma_prefix_unfit(u, i - start + 1);
                    }
                    return false;
                }
                n = v;
            },
        }
        i = i + 1;
    }
    assert(u.subrange(0, u.len() as int) =~= u);
    true
}

proof fn lemma_prefix_fails(u: Seq<char>, k: int)
    requires
        0 < k <= u.len(),
        digits_value_of(u.subrange(0, k)) is None,
    ensures
        digits_value_of(u) is None,
    decreases u.len() - k,
{
    if k < u.len() {
        let p = u.subrange(0, k + 1);
        assert(p.drop_last() =~= u.subrange(0, k));
        lemma_prefix_fails(u, k + 1);
    } else {
        assert(u.subrange(0, k) =~= u);
    }
}

proof fn lemma_prefix_unfit(u: Seq<char>, k: int)
    requires
        0 < k <= u.len(),
        !digits_fit_i32(u.subrange(0, k)),
    ensures
        !digits_fit_i32(u),
    decreases u.len() - k,
{
    if k < u.len() {
        let p = u.subrange(0, k + 1);
        assert(p.drop_last() =~= u.subrange(0, k));
        lemma_prefix_unfit(u, k + 1);
    } else {
        assert(u.subrange(0, k) =~= u);
    }
}

fn is_decimal_exec(s: &[char], start: usize) -> (r: bool)
    requires
        start <= s@.len(),
    ensures
        r == is_decimal_literal(s@.subrange(start as int, s@.len() as int)),
{
    let ghost t = s@.subrange(start as int, s@.len() as int);
    let n = s.len();
    let e = first_of_exec(s, start, n, 'e', 'E');
    assert(e - start == first_of(t, 'e', 'E'));
    let ghost m = t.subrange(0, e - start);
    assert(m =~= s@.subrange(start as int, e as int));
    let d = first_of_exec(s, start, e, '.', '.');
    assert(d - start == first_of(m, '.', '.'));
    let ok_a = all_digits_exec(s, start, d);
    proof {
        lemma_digits_sub(s@, start as int, e as int, 0, d - start);
    }
    assert(ok_a == all_ascii_digits(m, 0, d - start));
    let ok_b = if d == e {
        e > start
    } else {
        proof {
            lemma_digits_sub(s@, start as int, e as int, d - start + 1, e - start);
        }
        e - start > 1 && all_digits_exec(s, d + 1, e)
    };
    let ok_c = if e == n {
        true
    } else {
        let rs: usize = if e + 1 < n && (s[e + 1] == '-' || s[e + 1] == '+') { e + 2 } else { e + 1 };
        proof {
            let q = t.subrange(e - start + 1, t.len() as int);
            let rest = unsigned_part(q);
            assert(rest =~= s@.subrange(rs as int, n as int));
            lemma_digits_sub(s@, rs as int, n as int, 0, n - rs);
        }
        rs < n && all_digits_exec(s, rs, n)
    };
    ok_a && ok_b && ok_c
}

/// Whether the text reads as a number: an integer as `Integer.parseInt`
/// takes it (with fullwidth and Arabic-Indic digits) or a float as
/// `str::parse::<f64>` takes it.
pub fn is_number(text: &str) -> (r: bool)
    ensures
        r == is_number_text(text@),
{
    let s = chars_of(text);
    is_number_chars(&s)
}

fn is_number_chars(s: &[char]) -> (r: bool)
    ensures
        r == is_number_text(s@),
{
    if is_int_exec(&s) {
        return true;
    }
    let start: usize = if s.len() > 0 && (s[0] == '-' || s[0] == '+') { 1 } else { 0 };
    let ghost u = unsigned_part(s@);
    assert(u =~= s@.subrange(start as int, s@.len() as int));
    let rest = slice_vec(&s, start, s.len());
    let l = lower_ascii_chars(&rest);
    let inf = vec!['i', 'n', 'f'];
    let infinity = vec!['i', 'n', 'f', 'i', 'n', 'i', 't', 'y'];
    let nan = vec!['n', 'a', 'n'];
    proof {
        reveal_strlit("inf");
        reveal_strlit("infinity");
        reveal_strlit("nan");
        assert(inf@ =~= "inf"@);
        assert(infinity@ =~= "infinity"@);
        assert(nan@ =~= "nan"@);
    }
    if chars_eq(&l, &inf) || chars_eq(&l, &infinity) || chars_eq(&l, &nan) {
        return true;
    }
    is_decimal_exec(&s, start)
}

pub open spec fn tok_views(t: Seq<String>) -> Seq<Seq<char>> {
    Seq::new(t.len(), |i: int| t[i]@)
}

pub open spec fn vv(t: Seq<Vec<char>>) -> Seq<Seq<char>> {
    Seq::new(t.len(), |i: int| t[i]@)
}

pub open spec fn is_ascii_int(s: Seq<char>) -> bool {
    s.len() > 0 && all_ascii_digits(s, 0, s.len() as int)
}

/// Tokens with `<digits> . <digits>` joined into one decimal token.
pub open spec fn merge_decimals(t: Seq<Seq<char>>) -> Seq<Seq<char>>
    decreases t.len(),
{
    if t.len() == 0 {
        Seq::empty()
    } else if t.len() > 2 && is_ascii_int(t[0]) && t[1] == seq!['.'] && is_ascii_int(t[2]) {
        seq![t[0] + seq!['.'] + t[2]] + merge_decimals(t.subrange(3, t.len() as int))
    } else {
        seq![t[0]] + merge_decimals(t.subrange(1, t.len() as int))
    }
}

/// The number tokens, in order.
pub open spec fn numbers_in(t: Seq<Seq<char>>) -> Seq<Seq<char>>
    decreases t.len(),
{
    if t.len() == 0 {
        Seq::empty()
    } else if is_number_text(t.last()) {
        numbers_in(t.drop_last()).push(t.last())
    } else {
        numbers_in(t.drop_last())
    }
}

/// Fullwidth forms of ASCII (U+FF01 to U+FF5E) turned into ASCII.
pub open spec fn width_char(c: char) -> char {
    if 0xFF01 <= c as int <= 0xFF5E { (c as int - 0xFEE0) as char } else { c }
}

pub open spec fn normalize_width(s: Seq<char>) -> Seq<char> {
    Seq::new(s.len(), |i: int| width_char(s[i]))
}

pub open spec fn is_fullwidth_digit(c: char) -> bool {
    '\u{FF10}' <= c && c <= '\u{FF19}'
}

pub open spec fn has_fullwidth_digit(t: Seq<char>) -> bool {
    exists|i: int| 0 <= i < t.len() && #[trigger] is_fullwidth_digit(t[i])
}

pub open spec fn fullwidth_digit(c: char) -> char {
    if '0' <= c && c <= '9' { (c as int + 0xFEE0) as char } else { c }
}

/// A number written in the digit width of `template`.
pub open spec fn width_of(number: Seq<char>, template: Seq<char>) -> Seq<char> {
    if has_fullwidth_digit(template) {
        Seq::new(number.len(), |i: int| fullwidth_digit(number[i]))
    } else {
        normalize_width(number)
    }
}

/// The first unused source number equal to `t`, from index `i` on.
pub open spec fn pick_from(src: Seq<Seq<char>>, used: Seq<bool>, t: Seq<char>, i: int) -> Option<int>
    decreases src.len() - i,
{
    if i < 0 || i >= src.len() {
        None
    } else if src[i] == t && !used[i] {
        Some(i)
    } else {
        pick_from(src, used, t, i + 1)
    }
}

/// Pairs each of the first `j` target numbers with the first unused equal
/// source number (0 where none is left), as (used marks, pairing).
pub open spec fn assign(src: Seq<Seq<char>>, tgt: Seq<Seq<char>>, j: int) -> (Seq<bool>, Seq<int>)
    decreases j,
{
    if j <= 0 {
        (Seq::new(src.len(), |i: int| false), Seq::empty())
    } else {
        let (used, out) = assign(src, tgt, j - 1);
        match pick_from(src, used, tgt[j - 1], 0) {
            Some(i) => (used.update(i, true), out.push(i)),
            None => (used, out.push(0)),
        }
    }
}

/// The target tokens with their `i`-th number onward replaced by the paired
/// source numbers.
pub open spec fn render_numbers(toks: Seq<Seq<char>>, src: Seq<Seq<char>>, map: Seq<int>, i: int) -> Seq<char>
    decreases toks.len(),
{
    if toks.len() == 0 {
        Seq::empty()
    } else if is_number_text(toks[0]) {
        width_of(src[map[i]], toks[0]) + render_numbers(toks.drop_first(), src, map, i + 1)
    } else {
        toks[0] + render_numbers(toks.drop_first(), src, map, i)
    }
}

/// The tokens written one after another.
pub open spec fn concat_all(t: Seq<Seq<char>>) -> Seq<char>
    decreases t.len(),
{
    if t.len() == 0 { Seq::empty() } else { concat_all(t.drop_last()) + t.last() }
}

pub open spec fn same_elements(a: Seq<Seq<char>>, b: Seq<Seq<char>>) -> bool {
    forall|x: Seq<char>| a.contains(x) == b.contains(x)
}

/// The translation of a fuzzy match with its numbers taken from the current
/// source, where the match source, the current source and the match
/// translation hold as many numbers and the match holds the same numbers on
/// both sides (up to width); else the match translation as it is.
pub open spec fn substituted(src: Seq<Seq<char>>, sm: Seq<Seq<char>>, tm: Seq<Seq<char>>) -> Seq<char> {
    let s = merge_decimals(src);
    let m = merge_decimals(sm);
    let t = merge_decimals(tm);
    let sn = numbers_in(s);
    let mn = numbers_in(m);
    let tn = numbers_in(t);
    let nm = Seq::new(mn.len(), |i: int| normalize_width(mn[i]));
    let nt = Seq::new(tn.len(), |i: int| normalize_width(tn[i]));
    if mn.len() != sn.len() || mn.len() != tn.len() || !same_elements(nm, nt) {
        concat_all(tm)
    } else {
        render_numbers(t, sn, assign(nm, nt, nt.len() as int).1, 0)
    }
}

proof fn lemma_vv_push(s: Seq<Vec<char>>, x: Vec<char>)
    ensures
        vv(s.push(x)) =~= vv(s).push(x@),
{
    assert forall|k: int| 0 <= k < s.len() + 1 implies vv(s.push(x))[k] == vv(s).push(x@)[k] by {
        if k < s.len() {
            assert(s.push(x)[k] == s[k]);
        }
    }
}

fn token_chars(t: &[String]) -> (r: Vec<Vec<char>>)
    ensures
        vv(r@) == tok_views(t@),
{
    let mut r: Vec<Vec<char>> = Vec::new();
    let mut i: usize = 0;
    while i < t.len()
        invariant
            i <= t@.len(),
            vv(r@) == tok_views(t@).subrange(0, i as int),
        decreases t@.len() - i,
    {
        let ghost old_r = r@;
        let c = chars_of(t[i].as_str());
        r.push(c);
        proof { lemma_vv_push(old_r, c); }
        assert(vv(r@) =~= tok_views(t@).subrange(0, i + 1));
        i = i + 1;
    }
    assert(tok_views(t@).subrange(0, t@.len() as int) =~= tok_views(t@));
    r
}

fn is_ascii_int_exec(s: &[char]) -> (r: bool)
    ensures
        r == is_ascii_int(s@),
{
    s.len() > 0 && all_digits_exec(s, 0, s.len())
}

fn merge_exec(t: &Vec<Vec<char>>) -> (r: Vec<Vec<char>>)
    ensures
        vv(r@) == merge_decimals(vv(t@)),
{
    let ghost tv = vv(t@);
    let dot = vec!['.'];
    assert(dot@ =~= seq!['.']);
    let mut out: Vec<Vec<char>> = Vec::new();
    let mut i: usize = 0;
    assert(tv.subrange(0, tv.len() as int) =~= tv);
    while i < t.len()
        invariant
            i <= t@.len(),
            tv == vv(t@),
            dot@ == seq!['.'],
            merge_decimals(tv) == vv(out@) + merge_decimals(tv.subrange(i as int, tv.len() as int)),
        decreases t@.len() - i,
    {
        let ghost rest = tv.subrange(i as int, tv.len() as int);
        let ghost before = vv(out@);
        if t.len() - i > 2 && is_ascii_int_exec(&t[i]) && chars_eq(&t[i + 1], &dot) && is_ascii_int_exec(&t[i + 2]) {
            let mut m = slice_vec(&t[i], 0, t[i].len());
            m.push('.');
            extend_chars(&mut m, &t[i + 2]);
            let ghost old_o = out@;
            let ghost mv = m;
            out.push(m);
            proof {
                lemma_vv_push(old_o, mv);
                assert(tv[i as int] == t@[i as int]@ && tv[i + 2] == t@[i + 2]@);
                assert(mv@ =~= tv[i as int] + seq!['.'] + tv[i + 2]);
            }
            proof {
                assert(rest[0] == tv[i as int] && rest[1] == tv[i + 1] && rest[2] == tv[i + 2]);
                assert(rest.subrange(3, rest.len() as int) =~= tv.subrange(i + 3, tv.len() as int));
                assert(vv(out@) =~= before.push(tv[i as int] + seq!['.'] + tv[i + 2]));
                assert(before + merge_decimals(rest) =~= vv(out@) + merge_decimals(tv.subrange(i + 3, tv.len() as int)));
            }
            i = i + 3;
        } else {
            let ghost old_o = out@;
            let c = slice_vec(&t[i], 0, t[i].len());
            let ghost cv = c;
            out.push(c);
            proof {
                lemma_vv_push(old_o, cv);
                assert(tv[i as int] == t@[i as int]@);
                assert(cv@ =~= tv[i as int]);
                assert(rest[0] == tv[i as int]);
                if rest.len() > 2 {
                    assert(rest[1] == tv[i + 1] && rest[2] == tv[i + 2]);
                }
                assert(rest.subrange(1, rest.len() as int) =~= tv.subrange(i + 1, tv.len() as int));
                assert(vv(out@) =~= before.push(tv[i as int]));
                assert(before + merge_decimals(rest) =~= vv(out@) + merge_decimals(tv.subrange(i + 1, tv.len() as int)));
            }
            i = i + 1;
        }
    }
    assert(merge_decimals(tv.subrange(i as int, tv.len() as int)) =~= Seq::<Seq<char>>::empty());
    assert(vv(out@) + Seq::<Seq<char>>::empty() =~= vv(out@));
    out
}

fn numbers_exec(t: &Vec<Vec<char>>) -> (r: Vec<Vec<char>>)
    ensures
        vv(r@) == numbers_in(vv(t@)),
{
    let ghost tv = vv(t@);
    let mut out: Vec<Vec<char>> = Vec::new();
    let mut i: usize = 0;
    while i < t.len()
        invariant
            i <= t@.len(),
            tv == vv(t@),
            vv(out@) == numbers_in(tv.subrange(0, i as int)),
        decreases t@.len() - i,
    {
        let ghost p = tv.subrange(0, i + 1);
        assert(p.drop_last() =~= tv.subrange(0, i as int));
        assert(p.last() == tv[i as int]);
        let ghost before = vv(out@);
        if is_number_chars(&t[i]) {
            let ghost old_o = out@;
            let c = slice_vec(&t[i], 0, t[i].len());
            let ghost cv = c;
            out.push(c);
            proof {
                lemma_vv_push(old_o, cv);
                assert(tv[i as int] == t@[i as int]@);
                assert(cv@ =~= tv[i as int]);
            }
            assert(vv(out@) =~= before.push(tv[i as int]));
        }
        i = i + 1;
    }
    assert(tv.subrange(0, tv.len() as int) =~= tv);
    out
}

fn width_char_exec(c: char) -> (r: char)
    ensures
        r == width_char(c),
{
    let u = c as u32;
    if 0xFF01 <= u && u <= 0xFF5E {
        let v: u32 = u - 0xFEE0;
        assert(0x21 <= v <= 0x7E);
        let b: u8 = v as u8;
        b as char
    } else {
        c
    }
}

fn normalize_width_exec(s: &[char]) -> (r: Vec<char>)
    ensures
        r@ == normalize_width(s@),
{
    let mut r: Vec<char> = Vec::new();
    let mut i: usize = 0;
    while i < s.len()
        invariant
            i <= s@.len(),
            r@ =~= Seq::new(i as nat, |k: int| width_char(s@[k])),
        decreases s@.len() - i,
    {
        r.push(width_char_exec(s[i]));
        i = i + 1;
    }
    r
}

fn normalize_all(t: &Vec<Vec<char>>) -> (r: Vec<Vec<char>>)
    ensures
        vv(r@) == Seq::new(vv(t@).len(), |i: int| normalize_width(vv(t@)[i])),
{
    let mut r: Vec<Vec<char>> = Vec::new();
    let mut i: usize = 0;
    while i < t.len()
        invariant
            i <= t@.len(),
            vv(r@) =~= Seq::new(i as nat, |k: int| normalize_width(vv(t@)[k])),
        decreases t@.len() - i,
    {
        let ghost old_r = r@;
        let c = normalize_width_exec(&t[i]);
        r.push(c);
        proof { lemma_vv_push(old_r, c); }
        i = i + 1;
    }
    r
}

fn contains_exec(v: &Vec<Vec<char>>, x: &[char]) -> (r: bool)
    ensures
        r == vv(v@).contains(x@),
{
    let mut i: usize = 0;
    while i < v.len()
        invariant
            i <= v@.len(),
            forall|k: int| 0 <= k < i ==> vv(v@)[k] != x@,
        decreases v@.len() - i,
    {
        if chars_eq(&v[i], x) {
            assert(vv(v@)[i as int] == x@);
            return true;
        }
        i = i + 1;
    }
    false
}

fn subset_exec(a: &Vec<Vec<char>>, b: &Vec<Vec<char>>) -> (r: bool)
    ensures
        r == forall|x: Seq<char>| vv(a@).contains(x) ==> vv(b@).contains(x),
{
    let mut i: usize = 0;
    while i < a.len()
        invariant
            i <= a@.len(),
            forall|k: int| 0 <= k < i ==> vv(b@).contains(#[trigger] vv(a@)[k]),
        decreases a@.len() - i,
    {
        if !contains_exec(b, &a[i]) {
            assert(vv(a@).contains(vv(a@)[i as int]));
            return false;
        }
        i = i + 1;
    }
    proof {
        assert forall|x: Seq<char>| vv(a@).contains(x) implies vv(b@).contains(x) by {
            let k = choose|k: int| 0 <= k < vv(a@).len() && vv(a@)[k] == x;
        }
    }
    true
}

pub open spec fn ints(v: Seq<usize>) -> Seq<int> {
    Seq::new(v.len(), |i: int| v[i] as int)
}

proof fn lemma_pick(src: Seq<Seq<char>>, used: Seq<bool>, t: Seq<char>, i: int)
    requires
        0 <= i,
    ensures
        pick_from(src, used, t, i) matches Some(k) ==> i <= k < src.len() && src[k] == t,
    decreases src.len() - i,
{
    if i < src.len() && !(src[i] == t && !used[i]) {
        lemma_pick(src, used, t, i + 1);
    }
}

proof fn lemma_assign(src: Seq<Seq<char>>, tgt: Seq<Seq<char>>, j: int)
    requires
        0 <= j <= tgt.len(),
    ensures
        assign(src, tgt, j).0.len() == src.len(),
        assign(src, tgt, j).1.len() == j,
        forall|k: int| 0 <= k < j ==> 0 <= #[trigger] assign(src, tgt, j).1[k] && (assign(src, tgt, j).1[k] < src.len() || assign(src, tgt, j).1[k] == 0),
    decreases j,
{
    if j > 0 {
        lemma_assign(src, tgt, j - 1);
        let (used, out) = assign(src, tgt, j - 1);
        lemma_pick(src, used, tgt[j - 1], 0);
    }
}

fn pick_exec(src: &Vec<Vec<char>>, used: &Vec<bool>, t: &[char]) -> (r: Option<usize>)
    requires
        used@.len() == src@.len(),
    ensures
        match r {
            Some(i) => pick_from(vv(src@), used@, t@, 0) == Some(i as int),
            None => pick_from(vv(src@), used@, t@, 0) is None,
        },
{
    let mut i: usize = 0;
    while i < src.len()
        invariant
            i <= src@.len(),
            used@.len() == src@.len(),
            pick_from(vv(src@), used@, t@, 0) == pick_from(vv(src@), used@, t@, i as int),
        decreases src@.len() - i,
    {
        if !used[i] && chars_eq(&src[i], t) {
            assert(vv(src@)[i as int] == t@);
            return Some(i);
        }
        assert(!(vv(src@)[i as int] == t@ && !used@[i as int]));
        i = i + 1;
    }
    None
}

fn assign_exec(src: &Vec<Vec<char>>, tgt: &Vec<Vec<char>>) -> (r: Vec<usize>)
    ensures
        ints(r@) == assign(vv(src@), vv(tgt@), tgt@.len() as int).1,
{
    let ghost sv = vv(src@);
    let ghost tv = vv(tgt@);
    let mut used: Vec<bool> = Vec::new();
    let mut i: usize = 0;
    while i < src.len()
        invariant
            i <= src@.len(),
            used@ =~= Seq::new(i as nat, |k: int| false),
        decreases src@.len() - i,
    {
        used.push(false);
        i = i + 1;
    }
    let mut out: Vec<usize> = Vec::new();
    let mut j: usize = 0;
    assert(ints(out@) =~= Seq::<int>::empty());
    while j < tgt.len()
        invariant
            j <= tgt@.len(),
            sv == vv(src@) && tv == vv(tgt@),
            used@ == assign(sv, tv, j as int).0,
            ints(out@) == assign(sv, tv, j as int).1,
        decreases tgt@.len() - j,
    {
        proof { lemma_assign(sv, tv, j as int); }
        let ghost old_out = ints(out@);
        assert(tv[j as int] == tgt@[j as int]@);
        match pick_exec(src, &used, &tgt[j]) {
            Some(k) => {
                proof { lemma_pick(sv, used@, tv[j as int], 0); }
                used.set(k, true);
                out.push(k);
            },
            None => {
                out.push(0);
            },
        }
        assert(ints(out@) =~= assign(sv, tv, j + 1).1);
        j = j + 1;
    }
    out
}

proof fn lemma_numbers_prefix(t: Seq<Seq<char>>, k: int)
    requires
        0 <= k <= t.len(),
    ensures
        numbers_in(t.subrange(0, k)).len() <= numbers_in(t).len(),
    decreases t.len() - k,
{
    if k < t.len() {
        let p = t.subrange(0, k + 1);
        assert(p.drop_last() =~= t.subrange(0, k));
        lemma_numbers_prefix(t, k + 1);
    } else {
        assert(t.subrange(0, k) =~= t);
    }
}

fn has_fullwidth_digit_exec(t: &[char]) -> (r: bool)
    ensures
        r == has_fullwidth_digit(t@),
{
    let mut i: usize = 0;
    while i < t.len()
        invariant
            i <= t@.len(),
            forall|k: int| 0 <= k < i ==> !#[trigger] is_fullwidth_digit(t@[k]),
        decreases t@.len() - i,
    {
        let c = t[i];
        assert(c == t@[i as int]);
        if '\u{FF10}' <= c && c <= '\u{FF19}' {
            assert(is_fullwidth_digit(t@[i as int]));
            return true;
        }
        i = i + 1;
    }
    false
}

fn fullwidth_digit_exec(c: char) -> (r: char)
    ensures
        r == fullwidth_digit(c),
{
    if c == '0' { '\u{FF10}' } else if c == '1' { '\u{FF11}' } else if c == '2' { '\u{FF12}' }
    else if c == '3' { '\u{FF13}' } else if c == '4' { '\u{FF14}' } else if c == '5' { '\u{FF15}' }
    else if c == '6' { '\u{FF16}' } else if c == '7' { '\u{FF17}' } else if c == '8' { '\u{FF18}' }
    else if c == '9' { '\u{FF19}' } else { c }
}

fn width_of_exec(number: &[char], template: &[char]) -> (r: Vec<char>)
    ensures
        r@ == width_of(number@, template@),
{
    if has_fullwidth_digit_exec(template) {
        let mut r: Vec<char> = Vec::new();
        let mut i: usize = 0;
        while i < number.len()
            invariant
                i <= number@.len(),
                r@ =~= Seq::new(i as nat, |k: int| fullwidth_digit(number@[k])),
            decreases number@.len() - i,
        {
            r.push(fullwidth_digit_exec(number[i]));
            i = i + 1;
        }
        r
    } else {
        normalize_width_exec(number)
    }
}

fn render_exec(toks: &Vec<Vec<char>>, src: &Vec<Vec<char>>, map: &Vec<usize>) -> (r: Vec<char>)
    requires
        numbers_in(vv(toks@)).len() == map@.len(),
        forall|k: int| 0 <= k < map@.len() ==> #[trigger] map@[k] < src@.len(),
    ensures
        r@ == render_numbers(vv(toks@), vv(src@), ints(map@), 0),
{
    let ghost tv = vv(toks@);
    let ghost sv = vv(src@);
    let ghost mv = ints(map@);
    let mut out: Vec<char> = Vec::new();
    let mut k: usize = 0;
    let mut i: usize = 0;
    assert(tv.subrange(0, tv.len() as int) =~= tv);
    assert(numbers_in(tv.subrange(0, 0)) =~= Seq::<Seq<char>>::empty());
    while k < toks.len()
        invariant
            k <= toks@.len(),
            tv == vv(toks@) && sv == vv(src@) && mv == ints(map@),
            numbers_in(tv).len() == map@.len(),
            forall|q: int| 0 <= q < map@.len() ==> #[trigger] map@[q] < src@.len(),
            numbers_in(tv.subrange(0, k as int)).len() == i,
            render_numbers(tv, sv, mv, 0) == out@ + render_numbers(tv.subrange(k as int, tv.len() as int), sv, mv, i as int),
        decreases toks@.len() - k,
    {
        let ghost rest = tv.subrange(k as int, tv.len() as int);
        let ghost p = tv.subrange(0, k + 1);
        proof {
            assert(p.drop_last() =~= tv.subrange(0, k as int));
            assert(rest[0] == tv[k as int] && p.last() == tv[k as int]);
            assert(rest.drop_first() =~= tv.subrange(k + 1, tv.len() as int));
            assert(tv[k as int] == toks@[k as int]@);
            lemma_numbers_prefix(tv, k + 1);
        }
        let ghost before = out@;
        if is_number_chars(&toks[k]) {
            assert(numbers_in(p).len() == i + 1);
            assert(numbers_in(p).len() <= numbers_in(tv).len());
            assert(i < map.len());
            let idx = map[i];
            let w = width_of_exec(&src[idx], &toks[k]);
            assert(sv[idx as int] == src@[idx as int]@);
            extend_chars(&mut out, &w);
            i = i + 1;
        } else {
            extend_chars(&mut out, &toks[k]);
        }
        k = k + 1;
    }
    assert(render_numbers(tv.subrange(k as int, tv.len() as int), sv, mv, i as int) =~= Seq::<char>::empty());
    assert(out@ + Seq::<char>::empty() =~= out@);
    out
}

fn concat_exec(t: &Vec<Vec<char>>) -> (r: Vec<char>)
    ensures
        r@ == concat_all(vv(t@)),
{
    let ghost tv = vv(t@);
    let mut out: Vec<char> = Vec::new();
    let mut i: usize = 0;
    while i < t.len()
        invariant
            i <= t@.len(),
            tv == vv(t@),
            out@ == concat_all(tv.subrange(0, i as int)),
        decreases t@.len() - i,
    {
        let ghost p = tv.subrange(0, i + 1);
        assert(p.drop_last() =~= tv.subrange(0, i as int));
        assert(p.last() == t@[i as int]@);
        extend_chars(&mut out, &t[i]);
        i = i + 1;
    }
    assert(tv.subrange(0, tv.len() as int) =~= tv);
    out
}

/// The translation of a fuzzy match with the numbers of the current source
/// put in place of its own, in the digit width of the number they replace,
/// where the match source, the current source and the match translation
/// hold as many numbers and the match holds the same numbers on both sides;
/// else the match translation unchanged. Each text comes as its verbatim
/// tokens (their concatenation is the text).
pub fn substitute_numbers(source: &[String], source_match: &[String], target_match: &[String]) -> (r: String)
    ensures
        r@ == substituted(tok_views(source@), tok_views(source_match@), tok_views(target_match@)),
{
    let src_t = token_chars(source);
    let sm_t = token_chars(source_match);
    let tm_t = token_chars(target_match);
    let src_toks = merge_exec(&src_t);
    let sm_toks = merge_exec(&sm_t);
    let tm_toks = merge_exec(&tm_t);
    let src_nums = numbers_exec(&src_toks);
    let sm_nums = numbers_exec(&sm_toks);
    let tm_nums = numbers_exec(&tm_toks);
    let ghost mn = vv(sm_nums@);
    let ghost tn = vv(tm_nums@);
    if sm_nums.len() != src_nums.len() || sm_nums.len() != tm_nums.len() {
        let c = concat_exec(&tm_t);
        return string_of(&c);
    }
    let norm_sm = normalize_all(&sm_nums);
    let norm_tm = normalize_all(&tm_nums);
    assert(vv(norm_sm@) =~= Seq::new(mn.len(), |i: int| normalize_width(mn[i])));
    assert(vv(norm_tm@) =~= Seq::new(tn.len(), |i: int| normalize_width(tn[i])));
    let same = subset_exec(&norm_sm, &norm_tm) && subset_exec(&norm_tm, &norm_sm);
    proof {
        let a = vv(norm_sm@);
        let b = vv(norm_tm@);
        if same {
            assert(same_elements(a, b));
        } else {
            if same_elements(a, b) {
                assert(forall|x: Seq<char>| a.contains(x) ==> b.contains(x));
                assert(forall|x: Seq<char>| b.contains(x) ==> a.contains(x));
            }
        }
    }
    if !same {
        let c = concat_exec(&tm_t);
        return string_of(&c);
    }
    let map = assign_exec(&norm_sm, &norm_tm);
    proof {
        lemma_assign(vv(norm_sm@), vv(norm_tm@), norm_tm@.len() as int);
        assert forall|k: int| 0 <= k < map@.len() implies #[trigger] map@[k] < src_nums@.len() by {
            assert(ints(map@)[k] == map@[k] as int);
        }
    }
    let out = render_exec(&tm_toks, &src_nums, &map);
    string_of(&out)
}
/// Writing a first token and then the rest is writing them all.
proof fn lemma_concat_front(x: Seq<char>, r: Seq<Seq<char>>)
    ensures
        concat_all(seq![x] + r) == x + concat_all(r),
    decreases r.len(),
{
    if r.len() == 0 {
        assert(seq![x] + r =~= seq![x]);
        assert(seq![x].drop_last() =~= Seq::<Seq<char>>::empty());
        assert(concat_all(seq![x]) == concat_all(Seq::<Seq<char>>::empty()) + x);
        assert(Seq::<char>::empty() + x =~= x);
        assert(x + Seq::<char>::empty() =~= x);
    } else {
        lemma_concat_front(x, r.drop_last());
        assert((seq![x] + r).drop_last() =~= seq![x] + r.drop_last());
        assert((seq![x] + r).last() == r.last());
        assert(x + concat_all(r.drop_last()) + r.last() =~= x + (concat_all(r.drop_last()) + r.last()));
    }
}

/// Joining `digits . digits` runs into decimal tokens leaves the text as it
/// was: the merged tokens, written one after another, spell the same text.
pub proof fn law_merged_decimals_keep_text(t: Seq<Seq<char>>)
    ensures
        concat_all(merge_decimals(t)) == concat_all(t),
    decreases t.len(),
{
    if t.len() > 0 {
        if t.len() > 2 && is_ascii_int(t[0]) && t[1] == seq!['.'] && is_ascii_int(t[2]) {
            let rest = t.subrange(3, t.len() as int);
            law_merged_decimals_keep_text(rest);
            lemma_concat_front(t[0] + seq!['.'] + t[2], merge_decimals(rest));
            assert(t =~= seq![t[0]] + (seq![t[1]] + (seq![t[2]] + rest)));
            lemma_concat_front(t[2], rest);
            lemma_concat_front(t[1], seq![t[2]] + rest);
            lemma_concat_front(t[0], seq![t[1]] + (seq![t[2]] + rest));
            assert(t[0] + seq!['.'] + t[2] + concat_all(rest) =~= t[0] + (t[1] + (t[2] + concat_all(rest))));
        } else {
            let rest = t.subrange(1, t.len() as int);
            law_merged_decimals_keep_text(rest);
            lemma_concat_front(t[0], merge_decimals(rest));
            assert(t =~= seq![t[0]] + rest);
            lemma_concat_front(t[0], rest);
        }
    }
}

} // verus!
