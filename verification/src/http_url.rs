//! Percent-encoding and decoding the HTTP URLs found in a text.
use vstd::prelude::*;
use crate::regex_ops::{compile, find_spans, regex_valid, regex_spans};
use crate::dict::{utf8_lossy, utf8_lossy_of};
use crate::text::{string_of, extend_chars, chars_of};

verus! {

/// An HTTP or HTTPS URL: the scheme at a word start, then non-space text.
pub open spec fn url_pattern() -> Seq<char> {
    "(?i)\\bhttps?://\\S+"@
}

pub open spec fn keep_byte(c: u8) -> bool {
    (48 <= c <= 57) || (65 <= c <= 90) || (97 <= c <= 122) || c == 45 || c == 95 || c == 46 || c == 42
}

pub open spec fn hex_char(d: int) -> u8 {
    if d < 10 { (48 + d) as u8 } else { (55 + d) as u8 }
}

/// One byte in URL form: kept, a space as `+`, else `%XX`.
pub open spec fn enc_byte(c: u8) -> Seq<u8> {
    if keep_byte(c) { seq![c] } else if c == 32 { seq![43u8] } else { seq![37u8, hex_char(c as int / 16), hex_char(c as int % 16)] }
}

pub open spec fn codec_enc(b: Seq<u8>) -> Seq<u8>
    decreases b.len(),
{
    if b.len() == 0 { Seq::empty() } else { codec_enc(b.drop_last()) + enc_byte(b.last()) }
}

/// The first index of `c` from `i` on, or the length.
pub open spec fn byte_index(s: Seq<u8>, c: u8, i: int) -> int
    decreases s.len() - i,
{
    if i < 0 || i >= s.len() { s.len() as int } else if s[i] == c { i } else { byte_index(s, c, i + 1) }
}

/// `s` split at every `c`.
pub open spec fn split_bytes(s: Seq<u8>, c: u8) -> Seq<Seq<u8>>
    decreases s.len(),
{
    let k = byte_index(s, c, 0);
    if 0 <= k < s.len() { seq![s.subrange(0, k)] + split_bytes(s.subrange(k + 1, s.len() as int), c) } else { seq![s] }
}

/// Each non-empty path segment as `/` and its encoding.
pub open spec fn enc_path(segs: Seq<Seq<u8>>) -> Seq<u8>
    decreases segs.len(),
{
    if segs.len() == 0 {
        Seq::empty()
    } else {
        let s = segs.last();
        enc_path(segs.drop_last()) + (if s.len() > 0 { seq![47u8] + codec_enc(s) } else { Seq::empty() })
    }
}

/// Each non-empty query part as `key=value` encoded, parts after the first
/// (by position) preceded by `&`.
pub open spec fn enc_query(parts: Seq<Seq<u8>>) -> Seq<u8>
    decreases parts.len(),
{
    if parts.len() == 0 {
        Seq::empty()
    } else {
        let p = parts.last();
        let i = parts.len() - 1;
        let e = byte_index(p, 61u8, 0);
        let k = p.subrange(0, e);
        let v = if e < p.len() { p.subrange(e + 1, p.len() as int) } else { Seq::empty() };
        enc_query(parts.drop_last()) + (if p.len() > 0 {
            (if i != 0 { seq![38u8] } else { Seq::empty() }) + codec_enc(k) + seq![61u8] + codec_enc(v)
        } else {
            Seq::empty()
        })
    }
}

/// The first index of `://`, or the length.
pub open spec fn scheme_end(s: Seq<u8>, i: int) -> int
    decreases s.len() - i,
{
    if i < 0 || i + 3 > s.len() { s.len() as int }
    else if s[i] == 58 && s[i + 1] == 47 && s[i + 2] == 47 { i }
    else { scheme_end(s, i + 1) }
}

/// A URL with its path segments and query parts percent-encoded; an
/// all-ASCII URL without `(`, or one without `://`, is kept.
pub open spec fn url_encoded(u: Seq<u8>) -> Seq<u8> {
    let a = scheme_end(u, 0);
    if (forall|i: int| 0 <= i < u.len() ==> u[i] < 128 && u[i] != 40) || a >= u.len() {
        u
    } else {
        let after = u.subrange(a + 3, u.len() as int);
        let q = byte_index(after, 63u8, 0);
        let ap = after.subrange(0, q);
        let query = if q < after.len() { after.subrange(q + 1, after.len() as int) } else { Seq::empty() };
        let sl = byte_index(ap, 47u8, 0);
        let auth = ap.subrange(0, sl);
        let path = if sl < ap.len() { seq![47u8] + ap.subrange(sl + 1, ap.len() as int) } else { Seq::empty() };
        u.subrange(0, a) + seq![58u8, 47u8, 47u8] + auth
            + (if path.len() > 0 { enc_path(split_bytes(path, 47u8)) } else { Seq::empty() })
            + (if query.len() > 0 { seq![63u8] + enc_query(split_bytes(query, 38u8)) } else { Seq::empty() })
    }
}

pub open spec fn hex_val(c: u8) -> Option<int> {
    if 48 <= c <= 57 { Some(c - 48) } else if 65 <= c <= 70 { Some(c - 55) } else if 97 <= c <= 102 { Some(c - 87) } else { None }
}

/// `u8::from_str_radix` on two characters: an optional `+` and one digit,
/// or two digits.
pub open spec fn hex_pair(a: u8, b: u8) -> Option<u8> {
    if a == 43 {
        match hex_val(b) { Some(v) => Some(v as u8), None => None }
    } else {
        match (hex_val(a), hex_val(b)) { (Some(x), Some(y)) => Some((x * 16 + y) as u8), _ => None }
    }
}

/// URL bytes decoded from index `i` on: `%XX` escapes and `+` as space.
pub open spec fn url_decoded(u: Seq<u8>, i: int) -> Seq<u8>
    decreases u.len() - i,
{
    if i < 0 || i >= u.len() {
        Seq::empty()
    } else if u[i] == 37 && i + 2 < u.len() && hex_pair(u[i + 1], u[i + 2]) is Some {
        seq![hex_pair(u[i + 1], u[i + 2])->0] + url_decoded(u, i + 3)
    } else if u[i] == 43 {
        seq![32u8] + url_decoded(u, i + 1)
    } else {
        seq![u[i]] + url_decoded(u, i + 1)
    }
}

/// The text with each URL match (byte spans `spans[k..]`, after byte `last`)
/// replaced by `f` of it, every piece read back as UTF-8.
pub open spec fn rewrite(b: Seq<u8>, spans: Seq<(usize, usize)>, k: int, last: int, encode: bool) -> Seq<char>
    decreases spans.len() - k,
{
    if k < 0 || k >= spans.len() || last > spans[k].0 || spans[k].0 > spans[k].1 || spans[k].1 > b.len() {
        utf8_lossy_of(b.subrange(last, b.len() as int))
    } else {
        let url = b.subrange(spans[k].0 as int, spans[k].1 as int);
        utf8_lossy_of(b.subrange(last, spans[k].0 as int))
            + utf8_lossy_of(if encode { url_encoded(url) } else { url_decoded(url, 0) })
            + rewrite(b, spans, k + 1, spans[k].1 as int, encode)
    }
}


pub open spec fn bvv(v: Seq<Vec<u8>>) -> Seq<Seq<u8>> {
    Seq::new(v.len(), |i: int| v[i]@)
}

fn extend_bytes(a: &mut Vec<u8>, b: &[u8])
    ensures
        final(a)@ == old(a)@ + b@,
{
    let mut i: usize = 0;
    while i < b.len()
        invariant
            i <= b@.len(),
            a@ == old(a)@ + b@.subrange(0, i as int),
        decreases b@.len() - i,
    {
        a.push(b[i]);
        assert(b@.subrange(0, i + 1) =~= b@.subrange(0, i as int).push(b@[i as int]));
        i = i + 1;
    }
    assert(b@.subrange(0, b@.len() as int) =~= b@);
}

fn sub_bytes(b: &[u8], from: usize, to: usize) -> (r: Vec<u8>)
    requires
        from <= to <= b@.len(),
    ensures
        r@ == b@.subrange(from as int, to as int),
{
    let mut r: Vec<u8> = Vec::new();
    let mut i = from;
    while i < to
        invariant
            from <= i <= to <= b@.len(),
            r@ == b@.subrange(from as int, i as int),
        decreases to - i,
    {
        r.push(b[i]);
        assert(b@.subrange(from as int, i + 1) =~= b@.subrange(from as int, i as int).push(b@[i as int]));
        i = i + 1;
    }
    r
}

fn hex_char_exec(d: u8) -> (r: u8)
    requires
        d < 16,
    ensures
        r == hex_char(d as int),
{
    if d < 10 { 48 + d } else { 55 + d }
}

fn codec_enc_exec(b: &[u8]) -> (r: Vec<u8>)
    ensures
        r@ == codec_enc(b@),
{
    let mut out: Vec<u8> = Vec::new();
    let mut i: usize = 0;
    while i < b.len()
        invariant
            i <= b@.len(),
            out@ == codec_enc(b@.subrange(0, i as int)),
        decreases b@.len() - i,
    {
        let ghost nxt = b@.subrange(0, i + 1);
        assert(nxt.drop_last() =~= b@.subrange(0, i as int));
        let c = b[i];
        let keep = (48 <= c && c <= 57) || (65 <= c && c <= 90) || (97 <= c && c <= 122) || c == 45 || c == 95 || c == 46 || c == 42;
        if keep {
            out.push(c);
        } else if c == 32 {
            out.push(43);
        } else {
            out.push(37);
            out.push(hex_char_exec(c / 16));
            out.push(hex_char_exec(c % 16));
        }
        assert(out@ =~= codec_enc(b@.subrange(0, i as int)) + enc_byte(c));
        i = i + 1;
    }
    assert(b@.subrange(0, b@.len() as int) =~= b@);
    out
}

fn byte_index_exec(s: &[u8], c: u8, from: usize) -> (r: usize)
    requires
        from <= s@.len(),
    ensures
        r as int == byte_index(s@, c, from as int),
        from <= r <= s@.len(),
{
    let mut i = from;
    while i < s.len()
        invariant
            from <= i <= s@.len(),
            byte_index(s@, c, from as int) == byte_index(s@, c, i as int),
        decreases s@.len() - i,
    {
        if s[i] == c {
            return i;
        }
        i = i + 1;
    }
    i
}

proof fn lemma_byte_index_bounds(s: Seq<u8>, c: u8, i: int)
    requires
        0 <= i <= s.len(),
    ensures
        i <= byte_index(s, c, i) <= s.len(),
        byte_index(s, c, i) < s.len() ==> s[byte_index(s, c, i)] == c,
    decreases s.len() - i,
{
    if i < s.len() && s[i] != c {
        lemma_byte_index_bounds(s, c, i + 1);
    }
}

fn split_bytes_exec(s: &[u8], c: u8) -> (r: Vec<Vec<u8>>)
    ensures
        bvv(r@) == split_bytes(s@, c),
    decreases s@.len(),
{
    proof { lemma_byte_index_bounds(s@, c, 0); }
    let k = byte_index_exec(s, c, 0);
    if k < s.len() {
        let head = sub_bytes(s, 0, k);
        let tail = sub_bytes(s, k + 1, s.len());
        let rest = split_bytes_exec(&tail, c);
        let mut r: Vec<Vec<u8>> = Vec::new();
        r.push(head);
        let ghost r1 = r@;
        let mut j: usize = 0;
        while j < rest.len()
            invariant
                j <= rest@.len(),
                r@.len() == 1 + j,
                bvv(r@) =~= seq![s@.subrange(0, k as int)] + bvv(rest@).subrange(0, j as int),
            decreases rest@.len() - j,
        {
            let x = sub_bytes(&rest[j], 0, rest[j].len());
            assert(x@ =~= rest@[j as int]@);
            let ghost before = r@;
            r.push(x);
            assert(bvv(r@) =~= bvv(before).push(x@));
            j = j + 1;
        }
        assert(bvv(rest@).subrange(0, rest@.len() as int) =~= bvv(rest@));
        r
    } else {
        let mut r: Vec<Vec<u8>> = Vec::new();
        r.push(sub_bytes(s, 0, s.len()));
        assert(s@.subrange(0, s@.len() as int) =~= s@);
        assert(bvv(r@) =~= seq![s@]);
        r
    }
}

fn enc_path_exec(segs: &Vec<Vec<u8>>) -> (r: Vec<u8>)
    ensures
        r@ == enc_path(bvv(segs@)),
{
    let ghost sv = bvv(segs@);
    let mut out: Vec<u8> = Vec::new();
    let mut i: usize = 0;
    while i < segs.len()
        invariant
            i <= segs@.len(),
            sv == bvv(segs@),
            out@ == enc_path(sv.subrange(0, i as int)),
        decreases segs@.len() - i,
    {
        let ghost nxt = sv.subrange(0, i + 1);
        assert(nxt.drop_last() =~= sv.subrange(0, i as int));
        assert(nxt.last() == segs@[i as int]@);
        if segs[i].len() > 0 {
            out.push(47);
            let e = codec_enc_exec(&segs[i]);
            extend_bytes(&mut out, &e);
        }
        i = i + 1;
    }
    assert(sv.subrange(0, segs@.len() as int) =~= sv);
    out
}

fn enc_query_exec(parts: &Vec<Vec<u8>>) -> (r: Vec<u8>)
    ensures
        r@ == enc_query(bvv(parts@)),
{
    let ghost pv = bvv(parts@);
    let mut out: Vec<u8> = Vec::new();
    let mut i: usize = 0;
    while i < parts.len()
        invariant
            i <= parts@.len(),
            pv == bvv(parts@),
            out@ == enc_query(pv.subrange(0, i as int)),
        decreases parts@.len() - i,
    {
        let ghost nxt = pv.subrange(0, i + 1);
        assert(nxt.drop_last() =~= pv.subrange(0, i as int));
        assert(nxt.last() == parts@[i as int]@);
        let p = &parts[i];
        if p.len() > 0 {
            if i != 0 {
                out.push(38);
            }
            proof { lemma_byte_index_bounds(p@, 61u8, 0); }
            let e = byte_index_exec(p, 61, 0);
            let k = sub_bytes(p, 0, e);
            let v = if e < p.len() { sub_bytes(p, e + 1, p.len()) } else { Vec::new() };
            let ke = codec_enc_exec(&k);
            extend_bytes(&mut out, &ke);
            out.push(61);
            let ve = codec_enc_exec(&v);
            extend_bytes(&mut out, &ve);
        }
        i = i + 1;
    }
    assert(pv.subrange(0, parts@.len() as int) =~= pv);
    out
}

fn scheme_end_exec(u: &[u8]) -> (r: usize)
    ensures
        r as int == scheme_end(u@, 0),
{
    let mut i: usize = 0;
    while i < u.len() && u.len() - i >= 3
        invariant
            i <= u@.len(),
            scheme_end(u@, 0) == scheme_end(u@, i as int),
        decreases u@.len() - i,
    {
        if u[i] == 58 && u[i + 1] == 47 && u[i + 2] == 47 {
            return i;
        }
        i = i + 1;
    }
    u.len()
}

proof fn lemma_scheme_end(u: Seq<u8>, i: int)
    requires
        0 <= i,
    ensures
        scheme_end(u, i) == u.len() || (i <= scheme_end(u, i) && scheme_end(u, i) + 3 <= u.len()),
    decreases u.len() - i,
{
    if !(i + 3 > u.len()) && !(u[i] == 58 && u[i + 1] == 47 && u[i + 2] == 47) {
        lemma_scheme_end(u, i + 1);
    }
}

fn url_encoded_exec(u: &[u8]) -> (r: Vec<u8>)
    ensures
        r@ == url_encoded(u@),
{
    let mut plain = true;
    let mut i: usize = 0;
    while i < u.len()
        invariant
            i <= u@.len(),
            plain <==> (forall|k: int| 0 <= k < i ==> u@[k] < 128 && u@[k] != 40),
        decreases u@.len() - i,
    {
        if !(u[i] < 128 && u[i] != 40) {
            plain = false;
        }
        i = i + 1;
    }
    let a = scheme_end_exec(u);
    proof { lemma_scheme_end(u@, 0); }
    if plain || a >= u.len() {
        return sub_bytes(u, 0, u.len());
    }
    let after = sub_bytes(u, a + 3, u.len());
    proof { lemma_byte_index_bounds(after@, 63u8, 0); }
    let q = byte_index_exec(&after, 63, 0);
    let ap = sub_bytes(&after, 0, q);
    let query = if q < after.len() { sub_bytes(&after, q + 1, after.len()) } else { Vec::new() };
    proof { lemma_byte_index_bounds(ap@, 47u8, 0); }
    let sl = byte_index_exec(&ap, 47, 0);
    let auth = sub_bytes(&ap, 0, sl);
    let mut path: Vec<u8> = Vec::new();
    if sl < ap.len() {
        path.push(47);
        let rest = sub_bytes(&ap, sl + 1, ap.len());
        extend_bytes(&mut path, &rest);
    }
    let mut out = sub_bytes(u, 0, a);
    out.push(58);
    out.push(47);
    out.push(47);
    extend_bytes(&mut out, &auth);
    if path.len() > 0 {
        let segs = split_bytes_exec(&path, 47);
        let e = enc_path_exec(&segs);
        extend_bytes(&mut out, &e);
    }
    if query.len() > 0 {
        out.push(63);
        let parts = split_bytes_exec(&query, 38);
        let e = enc_query_exec(&parts);
        extend_bytes(&mut out, &e);
    }
    assert(out@ =~= url_encoded(u@));
    out
}

fn hex_val_exec(c: u8) -> (r: Option<u8>)
    ensures
        match r { Some(v) => hex_val(c) == Some(v as int) && v < 16, None => hex_val(c) is None },
{
    if 48 <= c && c <= 57 { Some(c - 48) } else if 65 <= c && c <= 70 { Some(c - 55) } else if 97 <= c && c <= 102 { Some(c - 87) } else { None }
}

fn hex_pair_exec(a: u8, b: u8) -> (r: Option<u8>)
    ensures
        r == hex_pair(a, b),
{
    if a == 43 {
        hex_val_exec(b)
    } else {
        match (hex_val_exec(a), hex_val_exec(b)) {
            (Some(x), Some(y)) => Some(x * 16 + y),
            _ => None,
        }
    }
}

fn url_decoded_exec(u: &[u8]) -> (r: Vec<u8>)
    ensures
        r@ == url_decoded(u@, 0),
{
    let mut out: Vec<u8> = Vec::new();
    let mut i: usize = 0;
    while i < u.len()
        invariant
            i <= u@.len(),
            url_decoded(u@, 0) == out@ + url_decoded(u@, i as int),
        decreases u@.len() - i,
    {
        let ghost o = out@;
        if u[i] == 37 && u.len() - i > 2 {
            match hex_pair_exec(u[i + 1], u[i + 2]) {
                Some(v) => {
                    out.push(v);
                    assert(o + url_decoded(u@, i as int) =~= out@ + url_decoded(u@, i + 3));
                    i = i + 3;
                    continue;
                },
                None => {},
            }
        }
        if u[i] == 43 {
            out.push(32);
        } else {
            out.push(u[i]);
        }
        assert(o + url_decoded(u@, i as int) =~= out@ + url_decoded(u@, i + 1));
        i = i + 1;
    }
    assert(out@ + url_decoded(u@, i as int) =~= out@);
    out
}

/// The text's URLs rewritten, the rest kept.
fn rewrite_exec(text: &str, encode: bool) -> (r: String)
    ensures
        regex_valid(url_pattern()) ==> r@ == rewrite(vstd::utf8::encode_utf8(text@), regex_spans(url_pattern(), text@), 0, 0, encode),
        !regex_valid(url_pattern()) ==> r@ == utf8_lossy_of(vstd::utf8::encode_utf8(text@)),
        (!regex_valid(url_pattern()) || regex_spans(url_pattern(), text@).len() == 0) ==> r@ == text@,
{
    let b = text.as_bytes();
    let ghost bv = b@;
    assert(bv == vstd::utf8::encode_utf8(text@));
    proof {
        vstd::utf8::encode_utf8_valid_utf8(text@);
        vstd::utf8::encode_utf8_decode_utf8(text@);
    }
    let p = match compile("(?i)\\bhttps?://\\S+") {
        Some(p) => p,
        None => {
            assert(bv.subrange(0, bv.len() as int) =~= bv);
            return utf8_lossy(b);
        },
    };
    let spans = find_spans(&p, text);
    let ghost sv = spans@;
    let mut out: Vec<char> = Vec::new();
    let mut last: usize = 0;
    let mut k: usize = 0;
    while k < spans.len()
        invariant
            k <= spans@.len(),
            sv == spans@,
            bv == b@,
            sv == regex_spans(url_pattern(), text@),
            forall|i: int| 0 <= i < sv.len() ==> sv[i].0 <= sv[i].1 && sv[i].1 <= bv.len(),
            forall|i: int, j: int| 0 <= i < j < sv.len() ==> sv[i].1 <= sv[j].0,
            last <= bv.len(),
            k > 0 ==> last == sv[k - 1].1,
            k == 0 ==> last == 0,
            rewrite(bv, sv, 0, 0, encode) == out@ + rewrite(bv, sv, k as int, last as int, encode),
        decreases spans@.len() - k,
    {
        let (st, en) = spans[k];
        let pre = sub_bytes(b, last, st);
        let url = sub_bytes(b, st, en);
        let piece = if encode { url_encoded_exec(&url) } else { url_decoded_exec(&url) };
        let ghost o = out@;
        let pre_s = utf8_lossy(&pre);
        let piece_s = utf8_lossy(&piece);
        extend_chars(&mut out, &chars_of(pre_s.as_str()));
        extend_chars(&mut out, &chars_of(piece_s.as_str()));
        assert(o + rewrite(bv, sv, k as int, last as int, encode) =~= out@ + rewrite(bv, sv, k + 1, en as int, encode));
        last = en;
        k = k + 1;
    }
    proof {
        vstd::utf8::encode_utf8_valid_utf8(text@);
        vstd::utf8::encode_utf8_decode_utf8(text@);
    }
    let tail = sub_bytes(b, last, b.len());
    assert(k == 0 ==> tail@ =~= bv);
    let tail_s = utf8_lossy(&tail);
    let ghost o = out@;
    extend_chars(&mut out, &chars_of(tail_s.as_str()));
    assert(rewrite(bv, sv, k as int, last as int, encode) == utf8_lossy_of(bv.subrange(last as int, bv.len() as int)));
    string_of(&out)
}

/// The text with every HTTP(S) URL percent-encoded where it is not plain
/// ASCII already (path segments and query parts encoded, space as `+`).
pub fn encode_http_urls(text: &str) -> (r: String)
    ensures
        regex_valid(url_pattern()) ==> r@ == rewrite(vstd::utf8::encode_utf8(text@), regex_spans(url_pattern(), text@), 0, 0, true),
        !regex_valid(url_pattern()) ==> r@ == utf8_lossy_of(vstd::utf8::encode_utf8(text@)),
        (!regex_valid(url_pattern()) || regex_spans(url_pattern(), text@).len() == 0) ==> r@ == text@,
{
    rewrite_exec(text, true)
}

/// The text with every HTTP(S) URL percent-decoded (`+` as space).
pub fn decode_http_urls(text: &str) -> (r: String)
    ensures
        regex_valid(url_pattern()) ==> r@ == rewrite(vstd::utf8::encode_utf8(text@), regex_spans(url_pattern(), text@), 0, 0, false),
        !regex_valid(url_pattern()) ==> r@ == utf8_lossy_of(vstd::utf8::encode_utf8(text@)),
        (!regex_valid(url_pattern()) || regex_spans(url_pattern(), text@).len() == 0) ==> r@ == text@,
{
    rewrite_exec(text, false)
}
/// Decoding from a point inside a text only sees the text from there on.
proof fn lemma_url_decoded_shift(x: Seq<u8>, y: Seq<u8>, i: int)
    requires
        0 <= i,
    ensures
        url_decoded(x + y, x.len() + i) == url_decoded(y, i),
    decreases y.len() - i,
{
    let u = x + y;
    let j = x.len() + i;
    if i < y.len() {
        assert(u[j] == y[i]);
        if i + 1 < y.len() {
            assert(u[j + 1] == y[i + 1]);
        }
        if i + 2 < y.len() {
            assert(u[j + 2] == y[i + 2]);
        }
        lemma_url_decoded_shift(x, y, i + 1);
        if i + 3 <= y.len() {
            lemma_url_decoded_shift(x, y, i + 3);
        }
    }
}

/// Encoding byte by byte, from the front.
proof fn lemma_codec_enc_front(b: Seq<u8>)
    requires
        b.len() > 0,
    ensures
        codec_enc(b) == enc_byte(b[0]) + codec_enc(b.drop_first()),
    decreases b.len(),
{
    if b.len() == 1 {
        assert(b.drop_last() =~= Seq::<u8>::empty());
        assert(b.drop_first() =~= Seq::<u8>::empty());
        assert(enc_byte(b[0]) + Seq::<u8>::empty() =~= enc_byte(b[0]));
        assert(Seq::<u8>::empty() + enc_byte(b[0]) =~= enc_byte(b[0]));
    } else {
        lemma_codec_enc_front(b.drop_last());
        assert(b.drop_last().drop_first() =~= b.drop_first().drop_last());
        assert(b.drop_first().last() == b.last());
        assert(enc_byte(b[0]) + codec_enc(b.drop_first().drop_last()) + enc_byte(b.last())
            =~= enc_byte(b[0]) + (codec_enc(b.drop_first().drop_last()) + enc_byte(b.last())));
    }
}

/// One encoded byte decodes back to itself, whatever follows it.
proof fn lemma_decode_enc_byte(c: u8, rest: Seq<u8>)
    ensures
        url_decoded(enc_byte(c) + rest, 0) == seq![c] + url_decoded(rest, 0),
{
    let e = enc_byte(c);
    let u = e + rest;
    lemma_url_decoded_shift(e, rest, 0);
    if keep_byte(c) {
        assert(u[0] == c);
    } else if c == 32 {
        assert(u[0] == 43);
    } else {
        let hi = c as int / 16;
        let lo = c as int % 16;
        assert(u[0] == 37 && u[1] == hex_char(hi) && u[2] == hex_char(lo));
        assert(hex_val(hex_char(hi)) == Some(hi));
        assert(hex_val(hex_char(lo)) == Some(lo));
        assert(hex_char(hi) != 43);
        assert(hi * 16 + lo == c as int);
        assert(hex_pair(u[1], u[2]) == Some(c));
    }
}

/// Law: decoding undoes the byte encoding of URL parts: letters, digits
/// and `-_.*` stay, a space becomes `+` and back, any other byte becomes
/// `%XX` and back.
pub proof fn law_decode_undoes_encode(b: Seq<u8>)
    ensures
        url_decoded(codec_enc(b), 0) == b,
    decreases b.len(),
{
    if b.len() > 0 {
        lemma_codec_enc_front(b);
        law_decode_undoes_encode(b.drop_first());
        lemma_decode_enc_byte(b[0], codec_enc(b.drop_first()));
        assert(seq![b[0]] + b.drop_first() =~= b);
    } else {
        assert(codec_enc(b) =~= Seq::<u8>::empty());
        assert(url_decoded(Seq::<u8>::empty(), 0) =~= Seq::<u8>::empty());
        assert(b =~= Seq::<u8>::empty());
    }
}

} // verus!
