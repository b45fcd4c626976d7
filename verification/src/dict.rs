//! Dictionaries: Lingvo DSL articles and their markup, StarDict indexes, and
//! the in-memory dictionary and ignore list.
use vstd::prelude::*;
use crate::text::{chars_eq, lex_lt, lex_order, lemma_lex_irrefl, lemma_lex_trans, lemma_lex_total, lemma_lex_asym, lines, lines_of, lowercase_of, to_lowercase, contains, str_contains, str_starts_with, str_eq, find, find_from_exec, lemma_find_from_bounds, matches_at, starts_with, ends_with, replace_all, replace_all_chars, chars_of, string_of, slice_vec, extend_chars, trim, trim_chars, starts_with_exec, ends_with_exec};

verus! {

/// `input` with every `open … close` pair wrapped in the HTML pair instead;
/// an unclosed `open` and what follows it stay as they are.
pub open spec fn paired(s: Seq<char>, open: Seq<char>, close: Seq<char>, ho: Seq<char>, hc: Seq<char>) -> Seq<char>
    decreases s.len(),
{
    if open.len() == 0 {
        s
    } else {
        match find(s, open) {
            None => s,
            Some(i) => if 0 <= i && i + open.len() <= s.len() {
                let rest = s.subrange(i + open.len(), s.len() as int);
                match find(rest, close) {
                    Some(e) => if 0 <= e && e + close.len() <= rest.len() {
                        s.subrange(0, i) + ho + rest.subrange(0, e) + hc
                            + paired(rest.subrange(e + close.len(), rest.len() as int), open, close, ho, hc)
                    } else {
                        s
                    },
                    None => s,
                }
            } else {
                s
            },
        }
    }
}

/// The inside of a `[t]…[/t]` tag: `[[x]]` becomes `[x]`.
pub open spec fn t_inner(inner: Seq<char>) -> Seq<char> {
    if starts_with(inner, "[["@) && ends_with(inner, "]]"@) && inner.len() >= 4 {
        seq!['['] + inner.subrange(2, inner.len() - 2) + seq![']']
    } else {
        inner
    }
}

/// `[t]…[/t]` tags replaced by their inside followed by `&nbsp;`.
pub open spec fn t_tags(s: Seq<char>) -> Seq<char>
    decreases s.len(),
{
    match find(s, "[t]"@) {
        None => s,
        Some(i) => if 0 <= i && i + 3 <= s.len() {
            let rest = s.subrange(i + 3, s.len() as int);
            match find(rest, "[/t]"@) {
                Some(e) => if 0 <= e && e + 4 <= rest.len() {
                    s.subrange(0, i) + t_inner(rest.subrange(0, e)) + "&nbsp;"@
                        + t_tags(rest.subrange(e + 4, rest.len() as int))
                } else {
                    s
                },
                None => s,
            }
        } else {
            s
        },
    }
}

fn replace_paired_chars(s: &Vec<char>, open: &Vec<char>, close: &Vec<char>, ho: &Vec<char>, hc: &Vec<char>) -> (r: Vec<char>)
    ensures
        r@ == paired(s@, open@, close@, ho@, hc@),
    decreases s@.len(),
{
    if open.len() == 0 {
        return slice_vec(s, 0, s.len());
    }
    proof { lemma_find_from_bounds(s@, open@, 0); }
    match find_from_exec(s, open, 0) {
        None => {
            let v = slice_vec(s, 0, s.len());
            assert(v@ =~= s@);
            v
        },
        Some(i) => {
            assert(matches_at(s@, open@, i as int));
            let n: usize = s.len();
            let k: usize = open.len();
            assert(i + k <= n);
            let rest = slice_vec(s, i + open.len(), s.len());
            proof { lemma_find_from_bounds(rest@, close@, 0); }
            match find_from_exec(&rest, close, 0) {
                None => {
                    let v = slice_vec(s, 0, s.len());
                    assert(v@ =~= s@);
                    v
                },
                Some(e) => {
                    let mut out = slice_vec(s, 0, i);
                    extend_chars(&mut out, ho);
                    let inner = slice_vec(&rest, 0, e);
                    extend_chars(&mut out, &inner);
                    extend_chars(&mut out, hc);
                    let tail = slice_vec(&rest, e + close.len(), rest.len());
                    let more = replace_paired_chars(&tail, open, close, ho, hc);
                    extend_chars(&mut out, &more);
                    out
                },
            }
        },
    }
}

fn t_inner_chars(inner: Vec<char>) -> (r: Vec<char>)
    ensures
        r@ == t_inner(inner@),
{
    proof { reveal_strlit("[["); reveal_strlit("]]"); }
    let a = chars_of("[[");
    let b = chars_of("]]");
    if starts_with_exec(&inner, &a) && ends_with_exec(&inner, &b) && inner.len() >= 4 {
        let mut out = vec!['['];
        let mid = slice_vec(&inner, 2, inner.len() - 2);
        extend_chars(&mut out, &mid);
        out.push(']');
        out
    } else {
        inner
    }
}

fn t_tags_chars(s: &Vec<char>) -> (r: Vec<char>)
    ensures
        r@ == t_tags(s@),
    decreases s@.len(),
{
    proof { reveal_strlit("[t]"); reveal_strlit("[/t]"); reveal_strlit("&nbsp;"); }
    let open = chars_of("[t]");
    let close = chars_of("[/t]");
    proof { lemma_find_from_bounds(s@, open@, 0); }
    match find_from_exec(s, &open, 0) {
        None => {
            let v = slice_vec(s, 0, s.len());
            assert(v@ =~= s@);
            v
        },
        Some(i) => {
            assert(matches_at(s@, open@, i as int));
            assert(open@.len() == 3);
            let n: usize = s.len();
            assert(i + 3 <= n);
            let rest = slice_vec(s, i + 3, s.len());
            proof { lemma_find_from_bounds(rest@, close@, 0); }
            match find_from_exec(&rest, &close, 0) {
                None => {
                    let v = slice_vec(s, 0, s.len());
                    assert(v@ =~= s@);
                    v
                },
                Some(e) => {
                    let mut out = slice_vec(s, 0, i);
                    let inner = t_inner_chars(slice_vec(&rest, 0, e));
                    extend_chars(&mut out, &inner);
                    extend_chars(&mut out, &chars_of("&nbsp;"));
                    let tail = slice_vec(&rest, e + 4, rest.len());
                    let more = t_tags_chars(&tail);
                    extend_chars(&mut out, &more);
                    out
                },
            }
        },
    }
}

/// The HTML of a DSL article's markup: escaped brackets, margins, italics,
/// bold, examples, language spans, colours, transcriptions, with the other
/// markup tags removed, then trimmed.
pub open spec fn dsl_html(raw: Seq<char>) -> Seq<char> {
    let s0 = replace_all(replace_all(raw, "\\["@, "["@), "\\]"@, "]"@);
    let s1 = paired(s0, "[m1]"@, "[/m]"@, "<div style=\"text-indent: 30px\">"@, "</div>"@);
    let s2 = paired(s1, "[m2]"@, "[/m]"@, "<div style=\"text-indent: 60px\">"@, "</div>"@);
    let s3 = paired(s2, "[m3]"@, "[/m]"@, "<div style=\"text-indent: 90px\">"@, "</div>"@);
    let s4 = paired(s3, "[m]"@, "[/m]"@, "<div>"@, "</div>"@);
    let s5 = replace_all(replace_all(s4, "[trn]"@, ""@), "[/trn]"@, ""@);
    let s6 = replace_all(replace_all(s5, "[com]"@, ""@), "[/com]"@, ""@);
    let s7 = replace_all(replace_all(s6, "[ref]"@, ""@), "[/ref]"@, ""@);
    let s8 = paired(s7, "[i]"@, "[/i]"@, "<span style='font-style: italic'>"@, "</span>"@);
    let s9 = paired(s8, "[b]"@, "[/b]"@, "<strong>"@, "</strong>"@);
    let s10 = paired(s9, "[*][ex]"@, "[/ex][/*]"@, "<span class=\"details\">"@, "</span>"@);
    let s11 = paired(s10, "[lang name=\"English\"]"@, "[/lang]"@, "<span class=\"lang_en\">"@, "</span>"@);
    let s12 = replace_all(replace_all(s11, "[c][p]"@, "<span style=\"color: green\">"@), "[/p][/c]"@, "</span>"@);
    let s13 = replace_all(replace_all(s12, "[c]"@, "<span style=\"color: green\">"@), "[/c]"@, "</span>"@);
    let s14 = replace_all(replace_all(s13, "[p]"@, ""@), "[/p]"@, ""@);
    let s15 = t_tags(s14);
    let s16 = replace_all(replace_all(s15, "[/*]"@, ""@), "[*]"@, ""@);
    trim(s16)
}

fn rep(s: Vec<char>, p: &str, r: &str) -> (out: Vec<char>)
    ensures
        out@ == replace_all(s@, p@, r@),
{
    let pv = chars_of(p);
    let rv = chars_of(r);
    replace_all_chars(&s, &pv, &rv)
}

fn pair(s: Vec<char>, open: &str, close: &str, ho: &str, hc: &str) -> (out: Vec<char>)
    ensures
        out@ == paired(s@, open@, close@, ho@, hc@),
{
    replace_paired_chars(&s, &chars_of(open), &chars_of(close), &chars_of(ho), &chars_of(hc))
}

/// The HTML of a DSL article (see `dsl_html`).
pub fn dsl_markup_to_html(raw: &str) -> (r: String)
    ensures
        r@ == dsl_html(raw@),
{
    let s = chars_of(raw);
    let s = rep(rep(s, "\\[", "["), "\\]", "]");
    let s = pair(s, "[m1]", "[/m]", "<div style=\"text-indent: 30px\">", "</div>");
    let s = pair(s, "[m2]", "[/m]", "<div style=\"text-indent: 60px\">", "</div>");
    let s = pair(s, "[m3]", "[/m]", "<div style=\"text-indent: 90px\">", "</div>");
    let s = pair(s, "[m]", "[/m]", "<div>", "</div>");
    let s = rep(rep(s, "[trn]", ""), "[/trn]", "");
    let s = rep(rep(s, "[com]", ""), "[/com]", "");
    let s = rep(rep(s, "[ref]", ""), "[/ref]", "");
    let s = pair(s, "[i]", "[/i]", "<span style='font-style: italic'>", "</span>");
    let s = pair(s, "[b]", "[/b]", "<strong>", "</strong>");
    let s = pair(s, "[*][ex]", "[/ex][/*]", "<span class=\"details\">", "</span>");
    let s = pair(s, "[lang name=\"English\"]", "[/lang]", "<span class=\"lang_en\">", "</span>");
    let s = rep(rep(s, "[c][p]", "<span style=\"color: green\">"), "[/p][/c]", "</span>");
    let s = rep(rep(s, "[c]", "<span style=\"color: green\">"), "[/c]", "</span>");
    let s = rep(rep(s, "[p]", ""), "[/p]", "");
    let s = t_tags_chars(&s);
    let s = rep(rep(s, "[/*]", ""), "[*]", "");
    let t = trim_chars(&s);
    string_of(&t)
}


/// One dictionary article: its headword(s), its HTML definition and where it came from.
pub struct DictHit {
    pub word: String,
    pub definition: String,
    pub source: String,
}

pub ghost struct HitView {
    pub word: Seq<char>,
    pub definition: Seq<char>,
    pub source: Seq<char>,
}

impl View for DictHit {
    type V = HitView;

    open spec fn view(&self) -> HitView {
        HitView { word: self.word@, definition: self.definition@, source: self.source@ }
    }
}

pub open spec fn hit_views(v: Seq<DictHit>) -> Seq<HitView> {
    v.map_values(|h: DictHit| h@)
}

/// `parts` joined with line feeds.
pub open spec fn join_lines(parts: Seq<Seq<char>>) -> Seq<char>
    decreases parts.len(),
{
    if parts.len() == 0 {
        Seq::empty()
    } else if parts.len() == 1 {
        parts[0]
    } else {
        join_lines(parts.drop_last()) + seq!['\n'] + parts.last()
    }
}

/// Reading state: pending headwords, the definition so far, the articles read.
pub ghost struct DslState {
    pub heads: Seq<Seq<char>>,
    pub def: Seq<char>,
    pub hits: Seq<HitView>,
}

/// The articles after publishing the pending one, if any.
pub open spec fn flushed(st: DslState, source: Seq<char>) -> DslState {
    if st.heads.len() == 0 {
        st
    } else {
        DslState {
            heads: Seq::empty(),
            def: Seq::empty(),
            hits: st.hits.push(HitView { word: join_lines(st.heads), definition: dsl_html(trim(st.def)), source }),
        }
    }
}

/// One line: comments and empty lines are skipped; an unindented line is a
/// headword (publishing the previous article once it has a definition); an
/// indented line adds to the definition.
pub open spec fn dsl_step(st: DslState, line: Seq<char>, source: Seq<char>) -> DslState {
    if line.len() == 0 || line[0] == '#' {
        st
    } else if !(line[0] == ' ' || line[0] == '\t') {
        let s = if st.def.len() > 0 { flushed(st, source) } else { st };
        DslState { heads: s.heads.push(trim(line)), ..s }
    } else {
        DslState { def: st.def + trim(line) + seq!['\n'], ..st }
    }
}

pub open spec fn dsl_read(lines: Seq<Seq<char>>, source: Seq<char>) -> DslState
    decreases lines.len(),
{
    if lines.len() == 0 {
        DslState { heads: Seq::empty(), def: Seq::empty(), hits: Seq::empty() }
    } else {
        dsl_step(dsl_read(lines.drop_last(), source), lines.last(), source)
    }
}

/// The articles of a DSL text, in order.
pub open spec fn dsl_articles(raw: Seq<char>, source: Seq<char>) -> Seq<HitView> {
    flushed(dsl_read(lines_of(raw), source), source).hits
}

fn join_heads(heads: &Vec<Vec<char>>) -> (r: Vec<char>)
    ensures
        r@ == join_lines(heads@.map_values(|h: Vec<char>| h@)),
{
    let ghost hv = heads@.map_values(|h: Vec<char>| h@);
    let mut out: Vec<char> = Vec::new();
    let mut i: usize = 0;
    while i < heads.len()
        invariant
            i <= heads@.len(),
            hv == heads@.map_values(|h: Vec<char>| h@),
            out@ == join_lines(hv.subrange(0, i as int)),
        decreases heads@.len() - i,
    {
        let ghost pre = hv.subrange(0, i as int);
        let ghost nxt = hv.subrange(0, i + 1);
        assert(nxt.drop_last() =~= pre);
        if i > 0 {
            out.push('\n');
        }
        extend_chars(&mut out, &heads[i]);
        proof {
            if i == 0 { assert(nxt =~= seq![heads@[0]@]); }
        }
        i = i + 1;
    }
    assert(hv.subrange(0, heads@.len() as int) =~= hv);
    out
}

fn flush(heads: &mut Vec<Vec<char>>, def: &mut Vec<char>, hits: &mut Vec<DictHit>, source: &str)
    ensures
        ({
            let st = flushed(DslState { heads: old(heads)@.map_values(|h: Vec<char>| h@), def: old(def)@, hits: hit_views(old(hits)@) }, source@);
            &&& final(heads)@.map_values(|h: Vec<char>| h@) == st.heads
            &&& final(def)@ == st.def
            &&& hit_views(final(hits)@) == st.hits
        }),
{
    if heads.len() == 0 {
        return;
    }
    let word = join_heads(heads);
    let d = trim_chars(def);
    let ds = string_of(&d);
    let html = dsl_markup_to_html(ds.as_str());
    let ghost before = hit_views(hits@);
    hits.push(DictHit { word: string_of(&word), definition: html, source: source.to_owned() });
    assert(hit_views(hits@) =~= before.push(hits@.last()@));
    heads.clear();
    def.clear();
    assert(heads@.map_values(|h: Vec<char>| h@) =~= Seq::<Seq<char>>::empty());
}

/// The articles of a Lingvo DSL text.
#[verifier::rlimit(40)]
pub fn read_dsl_articles(raw: &str, source: &str) -> (r: Vec<DictHit>)
    ensures
        hit_views(r@) == dsl_articles(raw@, source@),
{
    let ls = lines(raw);
    let ghost lv = lines_of(raw@);
    let mut hits: Vec<DictHit> = Vec::new();
    let mut heads: Vec<Vec<char>> = Vec::new();
    let mut def: Vec<char> = Vec::new();
    let mut i: usize = 0;
    while i < ls.len()
        invariant
            i <= ls@.len(),
            ls@.len() == lv.len(),
            lv == lines_of(raw@),
            forall|k: int| 0 <= k < ls@.len() ==> #[trigger] ls@[k]@ == lv[k],
            ({
                let st = dsl_read(lv.subrange(0, i as int), source@);
                &&& heads@.map_values(|h: Vec<char>| h@) == st.heads
                &&& def@ == st.def
                &&& hit_views(hits@) == st.hits
            }),
        decreases ls@.len() - i,
    {
        let ghost nxt = lv.subrange(0, i + 1);
        assert(nxt.drop_last() =~= lv.subrange(0, i as int));
        assert(nxt.last() == ls@[i as int]@);
        let line = &ls[i];
        if line.len() == 0 || line[0] == '#' {
        } else if !(line[0] == ' ' || line[0] == '\t') {
            if def.len() > 0 {
                flush(&mut heads, &mut def, &mut hits, source);
            }
            let t = trim_chars(line);
            let ghost hb = heads@.map_values(|h: Vec<char>| h@);
            heads.push(t);
            assert(heads@.map_values(|h: Vec<char>| h@) =~= hb.push(trim(line@)));
        } else {
            let t = trim_chars(line);
            extend_chars(&mut def, &t);
            def.push('\n');
        }
        i = i + 1;
    }
    assert(lv.subrange(0, ls@.len() as int) =~= lv);
    flush(&mut heads, &mut def, &mut hits, source);
    hits
}

/// The articles whose headword, in lower case, contains the (lower-case) needle.
pub open spec fn dsl_matches(raw: Seq<char>, needle: Seq<char>, source: Seq<char>) -> Seq<HitView> {
    dsl_articles(raw, source).filter(|h: HitView| lowercase_of(h.word) == needle || contains(lowercase_of(h.word), needle))
}

/// Articles of a DSL text whose headword contains `needle` (already in lower case).
pub fn parse_dsl(raw: &str, needle: &str, source: &str) -> (r: Vec<DictHit>)
    ensures
        hit_views(r@) == dsl_matches(raw@, needle@, source@),
{
    let all = read_dsl_articles(raw, source);
    let ghost av = hit_views(all@);
    let ghost f = |h: HitView| lowercase_of(h.word) == needle@ || contains(lowercase_of(h.word), needle@);
    let mut out: Vec<DictHit> = Vec::new();
    let mut rest = all;
    let ghost mut i: int = 0;
    assert(av.subrange(0, 0).filter(f) =~= Seq::<HitView>::empty()) by { reveal(Seq::filter); }
    while rest.len() > 0
        invariant
            0 <= i <= av.len(),
            hit_views(rest@) == av.subrange(i, av.len() as int),
            hit_views(out@) == av.subrange(0, i).filter(f),
            f == (|h: HitView| lowercase_of(h.word) == needle@ || contains(lowercase_of(h.word), needle@)),
        decreases rest@.len(),
    {
        let ghost rv = hit_views(rest@);
        assert(rv.len() == rest@.len());
        assert(rv[0] == rest@[0]@);
        let ghost old_rest = rest@;
        let h = rest.remove(0);
        let ghost pre = av.subrange(0, i);
        let ghost nxt = av.subrange(0, i + 1);
        assert(nxt.drop_last() =~= pre);
        assert(nxt.last() == h@);
        assert(nxt.filter(f) == (if f(nxt.last()) { pre.filter(f).push(nxt.last()) } else { pre.filter(f) })) by {
            reveal(Seq::filter);
        }
        let w = to_lowercase(h.word.as_str());
        let keep = str_eq(w.as_str(), needle) || str_contains(w.as_str(), needle);
        if keep {
            let ghost ob = hit_views(out@);
            out.push(h);
            assert(hit_views(out@) =~= ob.push(nxt.last()));
        }
        proof {
            assert forall|j: int| 0 <= j < rest@.len() implies #[trigger] hit_views(rest@)[j] == av.subrange(i + 1, av.len() as int)[j] by {
                assert(rest@[j] == old_rest[j + 1]);
                assert(rv[j + 1] == old_rest[j + 1]@);
            }
            assert(hit_views(rest@) =~= av.subrange(i + 1, av.len() as int));
            i = i + 1;
        }
    }
    assert(av.subrange(0, i) =~= av);
    out
}


/// The entries of `v` whose flag is set, in order.
pub open spec fn select<X>(v: Seq<X>, keep: Seq<bool>) -> Seq<X>
    decreases v.len(),
{
    if v.len() == 0 {
        Seq::empty()
    } else {
        let rest = select(v.drop_last(), keep.drop_last());
        if keep.last() { rest.push(v.last()) } else { rest }
    }
}

fn keep_hits(all: Vec<DictHit>, keep: &Vec<bool>) -> (r: Vec<DictHit>)
    requires
        keep@.len() == all@.len(),
    ensures
        hit_views(r@) == select(hit_views(all@), keep@),
{
    let ghost av = hit_views(all@);
    let n = all.len();
    let mut out: Vec<DictHit> = Vec::new();
    let mut rest = all;
    let mut i: usize = 0;
    while rest.len() > 0
        invariant
            i <= av.len(),
            av.len() == n,
            keep@.len() == av.len(),
            hit_views(rest@) == av.subrange(i as int, av.len() as int),
            hit_views(out@) == select(av.subrange(0, i as int), keep@.subrange(0, i as int)),
        decreases rest@.len(),
    {
        let ghost rv = hit_views(rest@);
        assert(rv.len() == rest@.len());
        assert(rv[0] == rest@[0]@);
        let ghost old_rest = rest@;
        let h = rest.remove(0);
        let ghost nxt = av.subrange(0, i + 1);
        let ghost kn = keep@.subrange(0, i + 1);
        assert(nxt.drop_last() =~= av.subrange(0, i as int));
        assert(kn.drop_last() =~= keep@.subrange(0, i as int));
        if keep[i] {
            let ghost ob = hit_views(out@);
            out.push(h);
            assert(hit_views(out@) =~= ob.push(nxt.last()));
        }
        proof {
            assert forall|j: int| 0 <= j < rest@.len() implies #[trigger] hit_views(rest@)[j] == av.subrange(i + 1, av.len() as int)[j] by {
                assert(rest@[j] == old_rest[j + 1]);
                assert(rv[j + 1] == old_rest[j + 1]@);
            }
            assert(hit_views(rest@) =~= av.subrange(i + 1, av.len() as int));
        }
        i = i + 1;
    }
    assert(av.subrange(0, i as int) =~= av);
    assert(keep@.subrange(0, i as int) =~= keep@);
    out
}

/// "Is `n` in lower case".
pub open spec fn lower_is(n: Seq<char>) -> spec_fn(Seq<char>) -> bool {
    |l: Seq<char>| lowercase_of(l) == n
}

/// "Starts with `n` in lower case".
pub open spec fn lower_starts(n: Seq<char>) -> spec_fn(Seq<char>) -> bool {
    |l: Seq<char>| starts_with(lowercase_of(l), n)
}

/// Some line of `word` satisfies `p`.
pub open spec fn some_line(word: Seq<char>, p: spec_fn(Seq<char>) -> bool) -> bool {
    exists|k: int| 0 <= k < lines_of(word).len() && #[trigger] p(lines_of(word)[k])
}

fn any_line_lower(word: &str, needle: &str, prefix: bool) -> (r: bool)
    ensures
        r == some_line(word@, if prefix { lower_starts(needle@) } else { lower_is(needle@) }),
{
    let ls = lines(word);
    let ghost p = if prefix { lower_starts(needle@) } else { lower_is(needle@) };
    let mut i: usize = 0;
    while i < ls.len()
        invariant
            i <= ls@.len(),
            ls@.len() == lines_of(word@).len(),
            forall|k: int| 0 <= k < ls@.len() ==> #[trigger] ls@[k]@ == lines_of(word@)[k],
            p == (if prefix { lower_starts(needle@) } else { lower_is(needle@) }),
            forall|k: int| 0 <= k < i ==> !p(#[trigger] lines_of(word@)[k]),
        decreases ls@.len() - i,
    {
        let l = string_of(&ls[i]);
        let low = to_lowercase(l.as_str());
        let ok = if prefix { str_starts_with(low.as_str(), needle) } else { str_eq(low.as_str(), needle) };
        if ok {
            assert(p(lines_of(word@)[i as int]));
            return true;
        }
        i = i + 1;
    }
    false
}

/// Articles with a headword (or headword line) equal to `word` in lower case.
pub fn read_dsl_exact(raw: &str, word: &str, source: &str) -> (r: Vec<DictHit>)
    ensures
        exists|keep: Seq<bool>| #![trigger select(dsl_articles(raw@, source@), keep)]
            keep.len() == dsl_articles(raw@, source@).len()
            && (forall|i: int| 0 <= i < keep.len() ==> #[trigger] keep[i] == (
                some_line(dsl_articles(raw@, source@)[i].word, lower_is(lowercase_of(word@)))
                || lowercase_of(dsl_articles(raw@, source@)[i].word) == lowercase_of(word@)))
            && hit_views(r@) == select(dsl_articles(raw@, source@), keep),
{
    let needle = to_lowercase(word);
    let all = read_dsl_articles(raw, source);
    let mut keep: Vec<bool> = Vec::new();
    let mut i: usize = 0;
    while i < all.len()
        invariant
            i <= all@.len(),
            keep@.len() == i,
            needle@ == lowercase_of(word@),
            forall|k: int| 0 <= k < i ==> #[trigger] keep@[k] == (
                some_line(all@[k].word@, lower_is(lowercase_of(word@)))
                || lowercase_of(all@[k].word@) == lowercase_of(word@)),
        decreases all@.len() - i,
    {
        let a = any_line_lower(all[i].word.as_str(), needle.as_str(), false);
        let w = to_lowercase(all[i].word.as_str());
        let b = str_eq(w.as_str(), needle.as_str());
        keep.push(a || b);
        i = i + 1;
    }
    let ghost kv = keep@;
    let r = keep_hits(all, &keep);
    r
}

/// Articles whose headword (or a headword line) starts with `prefix` in lower case.
pub fn read_dsl_predictive(raw: &str, prefix: &str, source: &str) -> (r: Vec<DictHit>)
    ensures
        exists|keep: Seq<bool>| #![trigger select(dsl_articles(raw@, source@), keep)]
            keep.len() == dsl_articles(raw@, source@).len()
            && (forall|i: int| 0 <= i < keep.len() ==> #[trigger] keep[i] == (
                starts_with(lowercase_of(dsl_articles(raw@, source@)[i].word), lowercase_of(prefix@))
                || some_line(dsl_articles(raw@, source@)[i].word, lower_starts(lowercase_of(prefix@)))))
            && hit_views(r@) == select(dsl_articles(raw@, source@), keep),
{
    let needle = to_lowercase(prefix);
    let all = read_dsl_articles(raw, source);
    let mut keep: Vec<bool> = Vec::new();
    let mut i: usize = 0;
    while i < all.len()
        invariant
            i <= all@.len(),
            keep@.len() == i,
            needle@ == lowercase_of(prefix@),
            forall|k: int| 0 <= k < i ==> #[trigger] keep@[k] == (
                starts_with(lowercase_of(all@[k].word@), lowercase_of(prefix@))
                || some_line(all@[k].word@, lower_starts(lowercase_of(prefix@)))),
        decreases all@.len() - i,
    {
        let w = to_lowercase(all[i].word.as_str());
        let a = str_starts_with(w.as_str(), needle.as_str());
        let b = any_line_lower(all[i].word.as_str(), needle.as_str(), true);
        keep.push(a || b);
        i = i + 1;
    }
    keep_hits(all, &keep)
}


/// What `String::from_utf16_lossy` gives.
pub uninterp spec fn utf16_lossy_of(units: Seq<u16>) -> Seq<char>;

/// What `String::from_utf8_lossy` gives.
pub uninterp spec fn utf8_lossy_of(bytes: Seq<u8>) -> Seq<char>;

/// `String::from_utf16_lossy`: the text of the UTF-16 units, invalid units
/// replaced; named `utf16_lossy_of`.
#[verifier::external_body]
fn utf16_lossy(units: &[u16]) -> (r: String)
    ensures
        r@ == utf16_lossy_of(units@),
{
    String::from_utf16_lossy(units)
}

/// `String::from_utf8_lossy`: the text of the bytes, invalid sequences
/// replaced; named `utf8_lossy_of`. On valid UTF-8 it is the decoded text
/// (as std documents: valid input is returned unchanged).
#[verifier::external_body]
pub(crate) fn utf8_lossy(bytes: &[u8]) -> (r: String)
    ensures
        r@ == utf8_lossy_of(bytes@),
        vstd::utf8::valid_utf8(bytes@) ==> r@ == vstd::utf8::decode_utf8(bytes@),
{
    String::from_utf8_lossy(bytes).into_owned()
}

/// UTF-16 units from byte pairs starting at `from`, little- or big-endian; a
/// final odd byte is dropped.
pub open spec fn units_of(b: Seq<u8>, from: int, little: bool) -> Seq<u16> {
    Seq::new(((b.len() - from) / 2) as nat, |k: int| {
        let x = b[from + 2 * k] as int;
        let y = b[from + 2 * k + 1] as int;
        (if little { y * 256 + x } else { x * 256 + y }) as u16
    })
}

fn units_exec(b: &[u8], from: usize, little: bool) -> (r: Vec<u16>)
    requires
        from <= b@.len(),
    ensures
        r@ == units_of(b@, from as int, little),
{
    let mut r: Vec<u16> = Vec::new();
    let mut i: usize = from;
    while i < b.len() && b.len() - i >= 2
        invariant
            from <= i <= b@.len(),
            (i - from) % 2 == 0,
            r@.len() == (i - from) / 2,
            forall|k: int| 0 <= k < r@.len() ==> #[trigger] r@[k] == units_of(b@, from as int, little)[k],
        decreases b@.len() - i,
    {
        let x = b[i] as u16;
        let y = b[i + 1] as u16;
        let u: u16 = if little { y * 256 + x } else { x * 256 + y };
        r.push(u);
        i = i + 2;
    }
    assert(r@ =~= units_of(b@, from as int, little));
    r
}

/// The text of a DSL file's bytes: UTF-16 by byte-order mark, UTF-16 LE when
/// it looks like it (non-zero, zero, ?, zero), else UTF-8.
pub open spec fn dsl_text(b: Seq<u8>) -> Seq<char> {
    if b.len() >= 2 && b[0] == 0xFF && b[1] == 0xFE {
        utf16_lossy_of(units_of(b, 2, true))
    } else if b.len() >= 2 && b[0] == 0xFE && b[1] == 0xFF {
        utf16_lossy_of(units_of(b, 2, false))
    } else if b.len() >= 4 && b[0] != 0 && b[1] == 0 && b[3] == 0 {
        utf16_lossy_of(units_of(b, 0, true))
    } else {
        utf8_lossy_of(b)
    }
}

pub fn decode_dsl_bytes(bytes: &[u8]) -> (r: String)
    ensures
        r@ == dsl_text(bytes@),
{
    if bytes.len() >= 2 && bytes[0] == 0xFF && bytes[1] == 0xFE {
        let u = units_exec(bytes, 2, true);
        return utf16_lossy(&u);
    }
    if bytes.len() >= 2 && bytes[0] == 0xFE && bytes[1] == 0xFF {
        let u = units_exec(bytes, 2, false);
        return utf16_lossy(&u);
    }
    if bytes.len() >= 4 && bytes[0] != 0 && bytes[1] == 0 && bytes[3] == 0 {
        let u = units_exec(bytes, 0, true);
        return utf16_lossy(&u);
    }
    utf8_lossy(bytes)
}

/// Whether a file is a DSL dictionary by its name: `.dsl` or `.dsl.dz`.
pub fn is_dsl_supported(path: &str) -> (r: bool)
    ensures
        r == ({
            let n = lowercase_of(match crate::external_tm::file_name_of(path@) { Some(x) => x, None => Seq::empty() });
            (ends_with(n, ".dsl"@) || ends_with(n, ".dsl.dz"@)) && !ends_with(n, ".idx"@)
        }),
{
    let name = match crate::external_tm::file_name(path) {
        Some(n) => n,
        None => String::new(),
    };
    proof {
        if crate::external_tm::file_name_of(path@) is None { assert(name@ =~= Seq::<char>::empty()); }
    }
    let lower = to_lowercase(name.as_str());
    let l = chars_of(lower.as_str());
    (ends_with_exec(&l, &chars_of(".dsl")) || ends_with_exec(&l, &chars_of(".dsl.dz"))) && !ends_with_exec(&l, &chars_of(".idx"))
}

/// Index of the first zero byte at or after `from`.
pub open spec fn zero_at(b: Seq<u8>, from: int) -> Option<int>
    decreases b.len() - from,
{
    if from < 0 || from >= b.len() { None } else if b[from] == 0 { Some(from) } else { zero_at(b, from + 1) }
}

fn zero_at_exec(b: &[u8], from: usize) -> (r: Option<usize>)
    requires
        from <= b@.len(),
    ensures
        r matches Some(z) ==> zero_at(b@, from as int) == Some(z as int) && from <= z < b@.len(),
        r is None ==> zero_at(b@, from as int) is None,
    decreases b@.len() - from,
{
    if from >= b.len() {
        None
    } else if b[from] == 0 {
        Some(from)
    } else {
        zero_at_exec(b, from + 1)
    }
}

/// A StarDict index row: the word's bytes, then offset and size (big-endian).
pub ghost struct IdxRow {
    pub word: Seq<u8>,
    pub offset: int,
    pub size: int,
}

pub open spec fn be32(b: Seq<u8>, at: int) -> int {
    ((b[at] as int * 256 + b[at + 1] as int) * 256 + b[at + 2] as int) * 256 + b[at + 3] as int
}

/// The rows of a StarDict index from byte `i` on; a word without room for its
/// offset and size is still listed (with no row data) and ends the index.
pub open spec fn idx_rows(b: Seq<u8>, i: int) -> Seq<(Seq<u8>, Option<(int, int)>)>
    decreases b.len() - i,
{
    if i < 0 || i >= b.len() {
        Seq::empty()
    } else {
        match zero_at(b, i) {
            None => Seq::empty(),
            Some(z) => if z < i || z >= b.len() { Seq::empty() } else {
                let w = b.subrange(i, z);
                if z + 1 + 8 > b.len() {
                    seq![(w, None)]
                } else {
                    seq![(w, Some((be32(b, z + 1), be32(b, z + 5))))] + idx_rows(b, z + 9)
                }
            },
        }
    }
}

proof fn lemma_zero_at(b: Seq<u8>, from: int)
    ensures
        zero_at(b, from) matches Some(z) ==> from <= z < b.len() && b[z] == 0,
    decreases b.len() - from,
{
    if 0 <= from < b.len() && b[from] != 0 {
        lemma_zero_at(b, from + 1);
    }
}

/// Every word of a StarDict index, in order.
pub fn parse_stardict_all(idx: &[u8]) -> (r: Vec<String>)
    ensures
        r@.len() == idx_rows(idx@, 0).len(),
        forall|k: int| 0 <= k < r@.len() ==> #[trigger] r@[k]@ == utf8_lossy_of(idx_rows(idx@, 0)[k].0),
{
    let mut words: Vec<String> = Vec::new();
    let mut i: usize = 0;
    let ghost all = idx_rows(idx@, 0);
    while i < idx.len()
        invariant
            i <= idx@.len(),
            all == idx_rows(idx@, 0),
            words@.len() + idx_rows(idx@, i as int).len() == all.len(),
            forall|k: int| 0 <= k < words@.len() ==> #[trigger] words@[k]@ == utf8_lossy_of(all[k].0),
            forall|k: int| 0 <= k < idx_rows(idx@, i as int).len() ==> #[trigger] idx_rows(idx@, i as int)[k] == all[words@.len() + k],
        decreases idx@.len() - i,
    {
        let ghost rows = idx_rows(idx@, i as int);
        proof { lemma_zero_at(idx@, i as int); }
        let z = match zero_at_exec(idx, i) {
            Some(z) => z,
            None => {
                assert(rows.len() == 0);
                return words;
            },
        };
        let wv = slice_bytes(idx, i, z);
        assert(rows[0].0 == wv@);
        assert(rows[0] == all[words@.len() as int]);
        words.push(utf8_lossy(&wv));
        if idx.len() - z - 1 < 8 {
            proof { assert(rows.len() == 1); }
            assert(words@.len() == all.len());
            return words;
        }
        proof {
            let next = idx_rows(idx@, z + 9);
            assert(rows =~= seq![rows[0]] + next);
            assert forall|k: int| 0 <= k < next.len() implies #[trigger] next[k] == all[words@.len() + k] by {
                assert(rows[k + 1] == next[k]);
            }
        }
        i = z + 9;
    }
    words
}

fn slice_bytes(b: &[u8], from: usize, to: usize) -> (r: Vec<u8>)
    requires
        from <= to <= b@.len(),
    ensures
        r@ == b@.subrange(from as int, to as int),
{
    let mut r: Vec<u8> = Vec::new();
    let mut i = from;
    while i < to
        invariant
            from <= i <= to,
            to <= b@.len(),
            r@ == b@.subrange(from as int, i as int),
        decreases to - i,
    {
        r.push(b[i]);
        i = i + 1;
    }
    r
}


/// Articles of index rows whose word is `needle` in lower case and whose
/// article lies within the dictionary bytes.
pub open spec fn idx_hits(rows: Seq<(Seq<u8>, Option<(int, int)>)>, dict: Seq<u8>, needle: Seq<char>, source: Seq<char>) -> Seq<HitView>
    decreases rows.len(),
{
    if rows.len() == 0 {
        Seq::empty()
    } else {
        let (w, d) = rows[0];
        let rest = idx_hits(rows.drop_first(), dict, needle, source);
        match d {
            Some((off, size)) => if lowercase_of(utf8_lossy_of(w)) == needle && off + size <= dict.len() {
                seq![HitView { word: utf8_lossy_of(w), definition: utf8_lossy_of(dict.subrange(off, off + size)), source }] + rest
            } else { rest },
            None => rest,
        }
    }
}

fn be32_exec(b: &[u8], at: usize) -> (r: u64)
    requires
        at + 4 <= b@.len(),
    ensures
        r == be32(b@, at as int),
{
    ((b[at] as u64 * 256 + b[at + 1] as u64) * 256 + b[at + 2] as u64) * 256 + b[at + 3] as u64
}

/// The articles of a StarDict index and dictionary for a word (`needle`, in
/// lower case).
pub fn parse_stardict_idx(idx: &[u8], dict: &[u8], needle: &str, source: &str) -> (r: Vec<DictHit>)
    ensures
        hit_views(r@) == idx_hits(idx_rows(idx@, 0), dict@, needle@, source@),
{
    let mut hits: Vec<DictHit> = Vec::new();
    let mut i: usize = 0;
    let ghost all = idx_hits(idx_rows(idx@, 0), dict@, needle@, source@);
    while i < idx.len()
        invariant
            i <= idx@.len(),
            all == idx_hits(idx_rows(idx@, 0), dict@, needle@, source@),
            hit_views(hits@) + idx_hits(idx_rows(idx@, i as int), dict@, needle@, source@) == all,
        decreases idx@.len() - i,
    {
        let ghost rows = idx_rows(idx@, i as int);
        proof { lemma_zero_at(idx@, i as int); }
        let z = match zero_at_exec(idx, i) {
            Some(z) => z,
            None => {
                assert(hit_views(hits@) =~= all);
                return hits;
            },
        };
        let wv = slice_bytes(idx, i, z);
        let word = utf8_lossy(&wv);
        if idx.len() - z - 1 < 8 {
            assert(rows =~= seq![(wv@, None::<(int, int)>)]);
            assert(idx_hits(rows.drop_first(), dict@, needle@, source@) =~= Seq::<HitView>::empty());
            assert(hit_views(hits@) =~= all);
            return hits;
        }
        let off = be32_exec(idx, z + 1);
        let size = be32_exec(idx, z + 5);
        let ghost next = idx_rows(idx@, z + 9);
        assert(rows =~= seq![(wv@, Some((off as int, size as int)))] + next);
        assert(rows.drop_first() =~= next);
        let low = to_lowercase(word.as_str());
        if str_eq(low.as_str(), needle) && off + size <= dict.len() as u64 {
            let dv = slice_bytes(dict, off as usize, (off + size) as usize);
            let ghost hb = hit_views(hits@);
            hits.push(DictHit { word, definition: utf8_lossy(&dv), source: source.to_owned() });
            assert(hit_views(hits@) =~= hb.push(hits@.last()@));
            assert(hit_views(hits@) + idx_hits(next, dict@, needle@, source@) =~= all);
        }
        i = z + 9;
    }
    proof {
        assert(idx_rows(idx@, i as int).len() == 0);
        assert(hit_views(hits@) =~= all);
    }
    hits
}

/// Whether the bytes of a file are gzip-compressed: a `.dz` name or the gzip magic.
pub open spec fn gzipped(name: Seq<char>, bytes: Seq<u8>) -> bool {
    ends_with(name, ".dz"@) || (bytes.len() >= 2 && bytes[0] == 0x1f && bytes[1] == 0x8b)
}

/// What decompressing gzip bytes gives: the data, or the error's text.
pub uninterp spec fn gunzip_of(bytes: Seq<u8>) -> Result<Seq<u8>, Seq<char>>;

/// `flate2::read::GzDecoder` read to the end: the decompressed bytes, or the
/// I/O error's text; named `gunzip_of`.
#[verifier::external_body]
fn gunzip(bytes: &[u8]) -> (r: Result<Vec<u8>, String>)
    ensures
        match r {
            Ok(v) => gunzip_of(bytes@) == Ok::<Seq<u8>, Seq<char>>(v@),
            Err(e) => gunzip_of(bytes@) == Err::<Seq<u8>, Seq<char>>(e@),
        },
{
    let mut dec = flate2::read::GzDecoder::new(bytes);
    let mut out = Vec::new();
    match std::io::Read::read_to_end(&mut dec, &mut out) {
        Ok(_) => Ok(out),
        Err(e) => Err(e.to_string()),
    }
}

/// The content of a dictionary file read as `bytes`, decompressed where it is
/// gzipped (by its file name, given, or its magic bytes).
pub fn maybe_gunzip(file_name: &str, bytes: Vec<u8>) -> (r: Result<Vec<u8>, String>)
    ensures
        gzipped(file_name@, bytes@) ==> match r {
            Ok(v) => gunzip_of(bytes@) == Ok::<Seq<u8>, Seq<char>>(v@),
            Err(e) => gunzip_of(bytes@) == Err::<Seq<u8>, Seq<char>>(e@),
        },
        !gzipped(file_name@, bytes@) ==> (r matches Ok(v) && v@ == bytes@),
{
    let n = chars_of(file_name);
    if ends_with_exec(&n, &chars_of(".dz")) || (bytes.len() >= 2 && bytes[0] == 0x1f && bytes[1] == 0x8b) {
        gunzip(&bytes)
    } else {
        Ok(bytes)
    }
}


pub open spec fn pairs_view(v: Seq<(String, String)>) -> Seq<(Seq<char>, Seq<char>)> {
    v.map_values(|p: (String, String)| (p.0@, p.1@))
}

pub open spec fn store_view(v: Seq<(String, Vec<(String, String)>)>) -> Seq<(Seq<char>, Seq<(Seq<char>, Seq<char>)>)> {
    v.map_values(|e: (String, Vec<(String, String)>)| (e.0@, pairs_view(e.1@)))
}

/// Keys in strictly increasing order.
pub open spec fn keys_sorted(s: Seq<(Seq<char>, Seq<(Seq<char>, Seq<char>)>)>) -> bool {
    forall|a: int, b: int| 0 <= a < b < s.len() ==> lex_lt(#[trigger] s[a].0, #[trigger] s[b].0)
}

/// Index of the entry with key `k`.
pub open spec fn key_index(s: Seq<(Seq<char>, Seq<(Seq<char>, Seq<char>)>)>, k: Seq<char>) -> Option<int> {
    if exists|i: int| 0 <= i < s.len() && s[i].0 == k {
        Some(choose|i: int| 0 <= i < s.len() && s[i].0 == k)
    } else {
        None
    }
}

/// Number of keys before `k`.
pub open spec fn key_slot(s: Seq<(Seq<char>, Seq<(Seq<char>, Seq<char>)>)>, k: Seq<char>) -> int
    decreases s.len(),
{
    if s.len() == 0 { 0 } else if lex_lt(s.last().0, k) { s.len() as int } else { key_slot(s.drop_last(), k) }
}

/// The store after adding `(key, value)` under `key`.
pub open spec fn store_added(s: Seq<(Seq<char>, Seq<(Seq<char>, Seq<char>)>)>, key: Seq<char>, value: Seq<char>)
    -> Seq<(Seq<char>, Seq<(Seq<char>, Seq<char>)>)> {
    match key_index(s, key) {
        Some(i) => s.update(i, (key, s[i].1.push((key, value)))),
        None => s.insert(key_slot(s, key), (key, seq![(key, value)])),
    }
}

/// The values of the entries whose key starts with `w`, in key order.
pub open spec fn prefixed_values(s: Seq<(Seq<char>, Seq<(Seq<char>, Seq<char>)>)>, w: Seq<char>) -> Seq<(Seq<char>, Seq<char>)>
    decreases s.len(),
{
    if s.len() == 0 {
        Seq::empty()
    } else {
        prefixed_values(s.drop_last(), w) + (if starts_with(s.last().0, w) { s.last().1 } else { Seq::empty() })
    }
}

/// The values under `w`, or under keys starting with `w` when predictive.
pub open spec fn collected(s: Seq<(Seq<char>, Seq<(Seq<char>, Seq<char>)>)>, w: Seq<char>, predictive: bool) -> Seq<(Seq<char>, Seq<char>)> {
    if predictive {
        prefixed_values(s, w)
    } else {
        match key_index(s, w) { Some(i) => s[i].1, None => Seq::empty() }
    }
}

/// An in-memory dictionary: values by key, keys in order, each value also
/// reachable by the lower case of its key.
pub struct DictionaryData {
    finalized: bool,
    store: Vec<(String, Vec<(String, String)>)>,
}

fn copy_pairs_d(v: &Vec<(String, String)>) -> (r: Vec<(String, String)>)
    ensures
        pairs_view(r@) == pairs_view(v@),
{
    let mut r: Vec<(String, String)> = Vec::new();
    let mut i: usize = 0;
    while i < v.len()
        invariant
            i <= v@.len(),
            r@.len() == i,
            forall|k: int| 0 <= k < i ==> (#[trigger] r@[k]).0@ == v@[k].0@ && r@[k].1@ == v@[k].1@,
        decreases v@.len() - i,
    {
        r.push((v[i].0.clone(), v[i].1.clone()));
        i = i + 1;
    }
    assert(pairs_view(r@) =~= pairs_view(v@));
    r
}

impl DictionaryData {
    pub closed spec fn view_store(&self) -> Seq<(Seq<char>, Seq<(Seq<char>, Seq<char>)>)> {
        store_view(self.store@)
    }

    pub closed spec fn is_finalized(&self) -> bool {
        self.finalized
    }

    pub closed spec fn wf(&self) -> bool {
        keys_sorted(store_view(self.store@))
    }

    pub fn new() -> (r: Self)
        ensures
            r.wf(),
            r.view_store().len() == 0,
            !r.is_finalized(),
    {
        DictionaryData { finalized: false, store: Vec::new() }
    }

    fn do_add(&mut self, key: &str, value: &str)
        requires
            old(self).wf(),
        ensures
            final(self).wf(),
            final(self).view_store() == store_added(old(self).view_store(), key@, value@),
            final(self).is_finalized() == old(self).is_finalized(),
    {
        let ghost s0 = store_view(self.store@);
        let kv = chars_of(key);
        let mut i: usize = 0;
        while i < self.store.len() && lex_order(&chars_of(self.store[i].0.as_str()), &kv) == -1
            invariant
                i <= self.store@.len(),
                s0 == store_view(self.store@),
                keys_sorted(s0),
                kv@ == key@,
                forall|j: int| 0 <= j < i ==> lex_lt(#[trigger] s0[j].0, key@),
            decreases self.store@.len() - i,
        {
            i = i + 1;
        }
        if i < self.store.len() && lex_order(&chars_of(self.store[i].0.as_str()), &kv) == 0 {
            proof {
                assert(s0[i as int].0 == key@);
                assert forall|j: int| 0 <= j < s0.len() && s0[j].0 == key@ implies j == i by {
                    if j < i { lemma_lex_irrefl(key@); }
                    if j > i { assert(lex_lt(s0[i as int].0, s0[j].0)); lemma_lex_irrefl(key@); }
                }
                assert(key_index(s0, key@) == Some(i as int));
            }
            let mut entry = self.store.remove(i);
            let ghost pv = pairs_view(entry.1@);
            assert(pv == s0[i as int].1);
            entry.1.push((key.to_owned(), value.to_owned()));
            assert(pairs_view(entry.1@) =~= pv.push((key@, value@)));
            assert(entry.0@ == key@);
            self.store.insert(i, entry);
            assert(store_view(self.store@) =~= s0.update(i as int, (key@, s0[i as int].1.push((key@, value@)))));
            return;
        }
        proof {
            if i < s0.len() {
                lemma_lex_total(s0[i as int].0, key@);
                assert(lex_lt(key@, s0[i as int].0));
            }
            assert forall|j: int| 0 <= j < s0.len() implies #[trigger] s0[j].0 != key@ by {
                if j < i { lemma_lex_irrefl(key@); }
                else if i < s0.len() {
                    if j > i { assert(lex_lt(s0[i as int].0, s0[j].0)); }
                    if s0[j].0 == key@ {
                        lemma_lex_irrefl(key@);
                        if j > i { lemma_lex_asym(key@, s0[i as int].0); }
                    }
                }
            }
            assert(key_index(s0, key@) is None);
            lemma_key_slot(s0, key@, i as int);
        }
        let ghost s1 = s0.insert(i as int, (key@, seq![(key@, value@)]));
        let fresh = vec![(key.to_owned(), value.to_owned())];
        assert(pairs_view(fresh@) =~= seq![(key@, value@)]);
        let ghost sb = self.store@;
        self.store.insert(i, (key.to_owned(), fresh));
        assert(self.store@ == sb.insert(i as int, self.store@[i as int]));
        assert(store_view(self.store@) =~= s1);
        proof {
            assert forall|a: int, b: int| 0 <= a < b < s1.len() implies lex_lt(#[trigger] s1[a].0, #[trigger] s1[b].0) by {
                if b < i {
                } else if b == i {
                } else if a == i {
                    if b - 1 > i { lemma_lex_trans(key@, s0[i as int].0, s0[b - 1].0); }
                } else if a < i {
                    if b - 1 > i { lemma_lex_trans(key@, s0[i as int].0, s0[b - 1].0); }
                    lemma_lex_trans(s0[a].0, key@, s0[b - 1].0);
                }
            }
        }
    }

    /// Add a value under its key (normalized by `normalize`) and, when
    /// different, under the key's lower case.
    pub fn add<N: Fn(&str) -> String>(&mut self, key: &str, value: &str, normalize: &N)
        requires
            old(self).wf(),
            forall|k: &str| #[trigger] normalize.requires((k,)),
        ensures
            final(self).wf(),
            final(self).is_finalized() == old(self).is_finalized(),
            exists|k: String| #[trigger] normalize.ensures((key,), k) && final(self).view_store() == (
                if lowercase_of(k@) != k@ {
                    store_added(store_added(old(self).view_store(), k@, value@), lowercase_of(k@), value@)
                } else {
                    store_added(old(self).view_store(), k@, value@)
                }),
    {
        let k = normalize(key);
        self.do_add(k.as_str(), value);
        let lower = to_lowercase(k.as_str());
        if !str_eq(lower.as_str(), k.as_str()) {
            self.do_add(lower.as_str(), value);
        }
    }

    /// Mark the dictionary complete.
    pub fn done(&mut self)
        ensures
            final(self).is_finalized(),
            final(self).view_store() == old(self).view_store(),
            final(self).wf() == old(self).wf(),
    {
        self.finalized = true;
    }

    /// Number of keys, or -1 before it is complete.
    pub fn size(&self) -> (r: i64)
        ensures
            !self.is_finalized() ==> r == -1,
            self.is_finalized() && self.view_store().len() <= i64::MAX ==> r == self.view_store().len(),
    {
        if !self.finalized {
            -1
        } else {
            let n = self.store.len() as u64;
            if n > 9223372036854775807 { 9223372036854775807 } else { n as i64 }
        }
    }

    fn collect(&self, word: &str, predictive: bool) -> (r: Vec<(String, String)>)
        requires
            self.wf(),
        ensures
            pairs_view(r@) == collected(self.view_store(), word@, predictive),
    {
        let ghost s0 = store_view(self.store@);
        let mut out: Vec<(String, String)> = Vec::new();
        let mut i: usize = 0;
        let wv = chars_of(word);
        while i < self.store.len()
            invariant
                i <= self.store@.len(),
                s0 == store_view(self.store@),
                wv@ == word@,
                keys_sorted(s0),
                predictive ==> pairs_view(out@) == prefixed_values(s0.subrange(0, i as int), word@),
                !predictive ==> pairs_view(out@) == Seq::<(Seq<char>, Seq<char>)>::empty(),
                !predictive ==> forall|j: int| 0 <= j < i ==> #[trigger] s0[j].0 != word@,
            decreases self.store@.len() - i,
        {
            let ghost nxt = s0.subrange(0, i + 1);
            assert(nxt.drop_last() =~= s0.subrange(0, i as int));
            let kv = chars_of(self.store[i].0.as_str());
            if predictive {
                let ghost before = pairs_view(out@);
                if starts_with_exec(&kv, &wv) {
                    let more = copy_pairs_d(&self.store[i].1);
                    let mut m = more;
                    out.append(&mut m);
                    assert(pairs_view(out@) =~= before + s0[i as int].1);
                } else {
                    assert(before + Seq::<(Seq<char>, Seq<char>)>::empty() =~= before);
                }
            } else if chars_eq(&kv, &wv) {
                proof {
                    assert(s0[i as int].0 == word@);
                    assert(key_index(s0, word@) is Some);
                    let j = key_index(s0, word@)->0;
                    if j != i as int {
                        if j < i { assert(s0[j].0 != word@); }
                        else { assert(lex_lt(s0[i as int].0, s0[j].0)); lemma_lex_irrefl(word@); }
                    }
                }
                return copy_pairs_d(&self.store[i].1);
            }
            i = i + 1;
        }
        assert(s0.subrange(0, s0.len() as int) =~= s0);
        out
    }

    /// Values under `word` (normalized), else under its lower case; an error
    /// before the dictionary is complete.
    pub fn look_up<N: Fn(&str) -> String>(&self, word: &str, normalize: &N) -> (r: Result<Vec<(String, String)>, &'static str>)
        requires
            self.wf(),
            forall|k: &str| #[trigger] normalize.requires((k,)),
        ensures
            !self.is_finalized() ==> r == Err::<Vec<(String, String)>, &'static str>("not finalized"),
            self.is_finalized() ==> exists|w: String| #[trigger] normalize.ensures((word,), w) && (r matches Ok(v) && pairs_view(v@) == (
                if collected(self.view_store(), w@, false).len() > 0 { collected(self.view_store(), w@, false) }
                else { collected(self.view_store(), lowercase_of(w@), false) })),
    {
        self.do_look_up(word, false, normalize)
    }

    /// Values under keys starting with `word` (normalized), else with its lower case.
    pub fn look_up_predictive<N: Fn(&str) -> String>(&self, word: &str, normalize: &N) -> (r: Result<Vec<(String, String)>, &'static str>)
        requires
            self.wf(),
            forall|k: &str| #[trigger] normalize.requires((k,)),
        ensures
            !self.is_finalized() ==> r == Err::<Vec<(String, String)>, &'static str>("not finalized"),
            self.is_finalized() ==> exists|w: String| #[trigger] normalize.ensures((word,), w) && (r matches Ok(v) && pairs_view(v@) == (
                if collected(self.view_store(), w@, true).len() > 0 { collected(self.view_store(), w@, true) }
                else { collected(self.view_store(), lowercase_of(w@), true) })),
    {
        self.do_look_up(word, true, normalize)
    }

    fn do_look_up<N: Fn(&str) -> String>(&self, word: &str, predictive: bool, normalize: &N) -> (r: Result<Vec<(String, String)>, &'static str>)
        requires
            self.wf(),
            forall|k: &str| #[trigger] normalize.requires((k,)),
        ensures
            !self.is_finalized() ==> r == Err::<Vec<(String, String)>, &'static str>("not finalized"),
            self.is_finalized() ==> exists|w: String| #[trigger] normalize.ensures((word,), w) && (r matches Ok(v) && pairs_view(v@) == (
                if collected(self.view_store(), w@, predictive).len() > 0 { collected(self.view_store(), w@, predictive) }
                else { collected(self.view_store(), lowercase_of(w@), predictive) })),
    {
        if !self.finalized {
            return Err("not finalized");
        }
        let w = normalize(word);
        let mut result = self.collect(w.as_str(), predictive);
        if result.len() == 0 {
            let lower = to_lowercase(w.as_str());
            result = self.collect(lower.as_str(), predictive);
        }
        Ok(result)
    }
}

proof fn lemma_key_slot(s: Seq<(Seq<char>, Seq<(Seq<char>, Seq<char>)>)>, k: Seq<char>, i: int)
    requires
        keys_sorted(s),
        0 <= i <= s.len(),
        forall|j: int| 0 <= j < i ==> lex_lt(#[trigger] s[j].0, k),
        i < s.len() ==> lex_lt(k, s[i].0),
    ensures
        key_slot(s, k) == i,
    decreases s.len(),
{
    if s.len() > 0 {
        let d = s.drop_last();
        if i == s.len() {
        } else {
            assert(!lex_lt(s.last().0, k)) by {
                if lex_lt(s.last().0, k) {
                    if s.len() - 1 > i { lemma_lex_trans(k, s[i].0, s.last().0); }
                    lemma_lex_asym(k, s.last().0);
                }
            }
            assert forall|j: int| 0 <= j < i implies lex_lt(#[trigger] d[j].0, k) by { assert(d[j] == s[j]); }
            assert forall|a: int, b: int| 0 <= a < b < d.len() implies lex_lt(#[trigger] d[a].0, #[trigger] d[b].0) by {
                assert(d[a] == s[a] && d[b] == s[b]);
            }
            if i < d.len() { assert(d[i] == s[i]); }
            lemma_key_slot(d, k, i);
        }
    }
}

/// Words a spell checker ignores, kept in lower case.
pub struct DictionariesManager {
    pub ignore: Vec<String>,
}

impl DictionariesManager {
    pub fn new() -> (r: Self)
        ensures
            r.ignore@.len() == 0,
    {
        DictionariesManager { ignore: Vec::new() }
    }

    /// Ignore a word (in lower case); a word already ignored is not added twice.
    pub fn add_ignore_word(&mut self, word: &str)
        ensures
            final(self).ignore@.map_values(|w: String| w@).to_set()
                == old(self).ignore@.map_values(|w: String| w@).to_set().insert(lowercase_of(word@)),
    {
        let w = to_lowercase(word);
        let ghost before = self.ignore@.map_values(|x: String| x@);
        if !self.contains_exact(w.as_str()) {
            self.ignore.push(w);
            assert(self.ignore@.map_values(|x: String| x@) =~= before.push(lowercase_of(word@)));
            assert(before.push(lowercase_of(word@)).to_set() =~= before.to_set().insert(lowercase_of(word@))) by {
                before.lemma_push_to_set_commute(lowercase_of(word@));
            }
        } else {
            assert(before.to_set().insert(lowercase_of(word@)) =~= before.to_set()) by {
                let k = choose|k: int| 0 <= k < before.len() && before[k] == lowercase_of(word@);
                assert(before.to_set().contains(before[k]));
            }
        }
    }

    fn contains_exact(&self, w: &str) -> (r: bool)
        ensures
            r == self.ignore@.map_values(|x: String| x@).contains(w@),
    {
        let mut i: usize = 0;
        while i < self.ignore.len()
            invariant
                i <= self.ignore@.len(),
                forall|k: int| 0 <= k < i ==> #[trigger] self.ignore@[k]@ != w@,
            decreases self.ignore@.len() - i,
        {
            if str_eq(self.ignore[i].as_str(), w) {
                assert(self.ignore@.map_values(|x: String| x@)[i as int] == w@);
                return true;
            }
            i = i + 1;
        }
        proof {
            let m = self.ignore@.map_values(|x: String| x@);
            if m.contains(w@) {
                let k = choose|k: int| 0 <= k < m.len() && m[k] == w@;
                assert(self.ignore@[k]@ == w@);
            }
        }
        false
    }

    /// Whether the word, in lower case, is ignored.
    pub fn is_ignored(&self, word: &str) -> (r: bool)
        ensures
            r == self.ignore@.map_values(|w: String| w@).contains(lowercase_of(word@)),
    {
        let w = to_lowercase(word);
        self.contains_exact(w.as_str())
    }
}

/// Law: a dictionary lookup returns articles of the text only, each with
/// a headword that in lower case contains the needle, and every article
/// whose headword does is returned.
pub proof fn law_lookup_finds_headwords(raw: Seq<char>, needle: Seq<char>, source: Seq<char>)
    ensures
        forall|i: int| 0 <= i < dsl_matches(raw, needle, source).len() ==> {
            let h = #[trigger] dsl_matches(raw, needle, source)[i];
            &&& dsl_articles(raw, source).contains(h)
            &&& contains(lowercase_of(h.word), needle) || lowercase_of(h.word) == needle
        },
        forall|k: int| 0 <= k < dsl_articles(raw, source).len()
            && contains(lowercase_of((#[trigger] dsl_articles(raw, source)[k]).word), needle)
            ==> dsl_matches(raw, needle, source).contains(dsl_articles(raw, source)[k]),
{
    broadcast use vstd::seq_lib::group_filter_ensures;
    let a = dsl_articles(raw, source);
    let f = |h: HitView| lowercase_of(h.word) == needle || contains(lowercase_of(h.word), needle);
    assert(dsl_matches(raw, needle, source) == a.filter(f));
    assert forall|i: int| 0 <= i < a.filter(f).len() implies a.contains(#[trigger] a.filter(f)[i]) by {
        assert(a.filter(f).contains(a.filter(f)[i]));
        a.lemma_filter_contains_rev(f, a.filter(f)[i]);
    }
}

} // verus!
