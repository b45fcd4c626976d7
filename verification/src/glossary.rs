//! Glossaries: entries, their TSV and TBX forms, and their rendering.
use vstd::prelude::*;
use crate::text::{chars_of, string_of, slice_vec, extend_chars, trim, trim_chars, starts_with, starts_with_exec, contains, find, find_from_exec, split_char, split_chars, lines, lines_of, usize_to_string, nat_digits, lemma_find_from_bounds, utf8_len, utf8_len_exec, to_lowercase, lowercase_of};

pub mod searcher;
pub use searcher::GlossarySearcher;

verus! {

pub struct GlossaryEntry {
    pub source: String,
    pub target: String,
    pub comment: String,
    pub priority: bool,
    pub loc_terms: Vec<String>,
    pub comments: Vec<String>,
    pub priorities: Vec<bool>,
}

pub open spec fn strs(v: Seq<String>) -> Seq<Seq<char>> {
    Seq::new(v.len(), |i: int| v[i]@)
}

/// An entry as [`GlossaryEntry::new`] makes it.
pub open spec fn fresh_entry(e: GlossaryEntry, source: Seq<char>, target: Seq<char>, comment: Seq<char>) -> bool {
    &&& e.source@ == source && e.target@ == target && e.comment@ == comment
    &&& !e.priority
    &&& strs(e.loc_terms@) == (if target.len() == 0 { Seq::empty() } else { seq![target] })
    &&& strs(e.comments@) == (if comment.len() == 0 { Seq::empty() } else { seq![comment] })
    &&& e.priorities@ == seq![false]
}

impl GlossaryEntry {
    /// An entry with one translation and one comment (where not empty).
    pub fn new(source: &str, target: &str, comment: &str) -> (r: Self)
        ensures
            fresh_entry(r, source@, target@, comment@),
    {
        let mut loc_terms: Vec<String> = Vec::new();
        if !target.is_empty() {
            loc_terms.push(target.to_string());
        }
        let mut comments: Vec<String> = Vec::new();
        if !comment.is_empty() {
            comments.push(comment.to_string());
        }
        let r = GlossaryEntry {
            source: source.to_string(),
            target: target.to_string(),
            comment: comment.to_string(),
            priority: false,
            loc_terms,
            comments,
            priorities: vec![false],
        };
        assert(strs(r.loc_terms@) =~= (if target@.len() == 0 { Seq::empty() } else { seq![target@] }));
        assert(strs(r.comments@) =~= (if comment@.len() == 0 { Seq::empty() } else { seq![comment@] }));
        assert(r.priorities@ =~= seq![false]);
        r
    }

    /// The entry with its priority (and its first translation's) set.
    pub fn with_priority(self, priority: bool) -> (r: Self)
        ensures
            r.priority == priority,
            r.source == self.source && r.target == self.target && r.comment == self.comment,
            r.loc_terms == self.loc_terms && r.comments == self.comments,
            r.priorities@ == (if self.priorities@.len() > 0 { self.priorities@.update(0, priority) } else { self.priorities@ }),
    {
        let mut e = self;
        e.priority = priority;
        if e.priorities.len() > 0 {
            e.priorities.set(0, priority);
        }
        e
    }

    /// The translations: the listed ones, else the target where not empty.
    pub fn loc_terms(&self) -> (r: Vec<String>)
        ensures
            strs(r@) == (if self.loc_terms@.len() > 0 { strs(self.loc_terms@) }
                else if self.target@.len() == 0 { Seq::empty() } else { seq![self.target@] }),
    {
        if self.loc_terms.len() > 0 {
            return copy_strings(&self.loc_terms);
        }
        if self.target.as_str().is_empty() {
            let r: Vec<String> = Vec::new();
            assert(strs(r@) =~= Seq::<Seq<char>>::empty());
            r
        } else {
            let r = vec![self.target.clone()];
            assert(strs(r@) =~= seq![self.target@]);
            r
        }
    }
}

pub(crate) fn copy_strings(v: &Vec<String>) -> (r: Vec<String>)
    ensures
        strs(r@) == strs(v@),
{
    let mut r: Vec<String> = Vec::new();
    let mut i: usize = 0;
    while i < v.len()
        invariant
            i <= v@.len(),
            r@.len() == i,
            strs(r@) =~= strs(v@).subrange(0, i as int),
        decreases v@.len() - i,
    {
        let c = v[i].clone();
        assert(c@ == v@[i as int]@);
        let ghost old_r = r@;
        r.push(c);
        proof {
            assert forall|k: int| 0 <= k < i + 1 implies strs(r@)[k] == strs(v@).subrange(0, i + 1)[k] by {
                if k < i {
                    assert(r@[k] == old_r[k]);
                    assert(strs(old_r)[k] == strs(v@).subrange(0, i as int)[k]);
                }
            }
        }
        i = i + 1;
    }
    r
}

/// One parsed glossary line or term pair, as (source, target, comment).
pub type Triple = (Seq<char>, Seq<char>, Seq<char>);

/// The entry a TSV line gives, if any: blank lines, `#` comments and TBX
/// markup lines give none, nor a line with fewer than two fields.
pub open spec fn tsv_line(line: Seq<char>) -> Option<Triple> {
    let l = trim(line);
    let parts = split_char(l, '\t');
    if l.len() == 0 || starts_with(l, "#"@) || (starts_with(l, "<"@) && contains(l, "<term"@)) || parts.len() < 2 {
        None
    } else {
        Some((trim(parts[0]), trim(parts[1]), if parts.len() > 2 { trim(parts[2]) } else { Seq::empty() }))
    }
}

pub open spec fn tsv_entries(ls: Seq<Seq<char>>) -> Seq<Triple>
    decreases ls.len(),
{
    if ls.len() == 0 {
        Seq::empty()
    } else {
        match tsv_line(ls.last()) {
            Some(t) => tsv_entries(ls.drop_last()).push(t),
            None => tsv_entries(ls.drop_last()),
        }
    }
}

/// The texts of the `<term ...>...</term>` elements, in order.
pub open spec fn tbx_terms(rest: Seq<char>) -> Seq<Seq<char>>
    decreases rest.len(),
{
    match find(rest, "<term"@) {
        None => Seq::empty(),
        Some(s) => {
            let after = rest.subrange(s, rest.len() as int);
            match find(after, ">"@) {
                None => Seq::empty(),
                Some(gt) => {
                    let inner = after.subrange(gt + 1, after.len() as int);
                    match find(inner, "</term>"@) {
                        None => Seq::empty(),
                        Some(end) => if s + gt + 1 + end + 7 <= rest.len() && 0 <= s && 0 <= gt && 0 <= end {
                            seq![inner.subrange(0, end)] + tbx_terms(rest.subrange(s + gt + 1 + end + 7, rest.len() as int))
                        } else {
                            Seq::empty()
                        },
                    }
                },
            }
        },
    }
}

/// Consecutive term pairs as (source, target, "tbx"); an odd last term is dropped.
pub open spec fn tbx_pairs(terms: Seq<Seq<char>>) -> Seq<Triple> {
    Seq::new(terms.len() / 2, |i: int| (terms[2 * i], terms[2 * i + 1], "tbx"@))
}

/// The entries of a glossary text: its TSV lines, or, where there are none
/// and the text holds `<term` elements, their texts paired up.
pub open spec fn glossary_triples(raw: Seq<char>) -> Seq<Triple> {
    let t = tsv_entries(lines_of(raw));
    if t.len() == 0 && contains(raw, "<term"@) { tbx_pairs(tbx_terms(raw)) } else { t }
}


fn lit(s: &str) -> (r: Vec<char>)
    ensures
        r@ == s@,
{
    chars_of(s)
}

fn tsv_line_exec(line: &Vec<char>) -> (r: Option<(Vec<char>, Vec<char>, Vec<char>)>)
    ensures
        match r {
            Some(t) => tsv_line(line@) == Some((t.0@, t.1@, t.2@)),
            None => tsv_line(line@) is None,
        },
{
    let l = trim_chars(line);
    let hash = lit("#");
    let lt = lit("<");
    let term = lit("<term");
    if l.len() == 0 || starts_with_exec(&l, &hash) || (starts_with_exec(&l, &lt) && find_from_exec(&l, &term, 0).is_some()) {
        return None;
    }
    let parts = split_chars(&l, '\t');
    if parts.len() < 2 {
        return None;
    }
    let a = trim_chars(&parts[0]);
    let b = trim_chars(&parts[1]);
    let c = if parts.len() > 2 { trim_chars(&parts[2]) } else { Vec::new() };
    Some((a, b, c))
}

fn tbx_terms_exec(raw: &Vec<char>) -> (r: Vec<Vec<char>>)
    ensures
        strs_v(r@) == tbx_terms(raw@),
{
    let term = lit("<term");
    let gtv = lit(">");
    let endv = lit("</term>");
    proof { reveal_strlit("</term>"); reveal_strlit(">"); reveal_strlit("<term"); }
    assert(endv@.len() == 7);
    assert(gtv@.len() == 1);
    let mut out: Vec<Vec<char>> = Vec::new();
    let mut rest = slice_vec(raw, 0, raw.len());
    assert(rest@ =~= raw@);
    loop
        invariant
            term@ == "<term"@ && gtv@ == ">"@ && endv@ == "</term>"@ && endv@.len() == 7,
            gtv@.len() == 1,
            tbx_terms(raw@) == strs_v(out@) + tbx_terms(rest@),
        ensures
            tbx_terms(raw@) == strs_v(out@),
        decreases rest@.len(),
    {
        let ghost rv = rest@;
        proof { lemma_find_from_bounds(rv, term@, 0); }
        let s = match find_from_exec(&rest, &term, 0) {
            None => {
                assert(tbx_terms(rv) =~= Seq::<Seq<char>>::empty());
                assert(strs_v(out@) + Seq::<Seq<char>>::empty() =~= strs_v(out@));
                break;
            },
            Some(s) => s,
        };
        let after = slice_vec(&rest, s, rest.len());
        proof { lemma_find_from_bounds(after@, gtv@, 0); }
        let gt = match find_from_exec(&after, &gtv, 0) {
            None => {
                assert(tbx_terms(rv) =~= Seq::<Seq<char>>::empty());
                assert(strs_v(out@) + Seq::<Seq<char>>::empty() =~= strs_v(out@));
                break;
            },
            Some(g) => g,
        };
        let inner = slice_vec(&after, gt + 1, after.len());
        proof { lemma_find_from_bounds(inner@, endv@, 0); }
        let end = match find_from_exec(&inner, &endv, 0) {
            None => {
                assert(tbx_terms(rv) =~= Seq::<Seq<char>>::empty());
                assert(strs_v(out@) + Seq::<Seq<char>>::empty() =~= strs_v(out@));
                break;
            },
            Some(e) => e,
        };
        let piece = slice_vec(&inner, 0, end);
        let ghost old_out = out@;
        out.push(piece);
        proof {
            assert(strs_v(out@) =~= strs_v(old_out).push(inner@.subrange(0, end as int)));
            assert(strs_v(out@) + tbx_terms(rv.subrange(s + gt + 1 + end + 7, rv.len() as int))
                =~= strs_v(old_out) + (seq![inner@.subrange(0, end as int)] + tbx_terms(rv.subrange(s + gt + 1 + end + 7, rv.len() as int))));
        }
        rest = slice_vec(&rest, s + gt + 1 + end + 7, rest.len());
    }
    out
}

pub open spec fn strs_v(v: Seq<Vec<char>>) -> Seq<Seq<char>> {
    Seq::new(v.len(), |i: int| v[i]@)
}


/// The entries of a glossary text: one per TSV line with at least two
/// fields (source, target, optional comment); where there is none and the
/// text holds `<term>` elements, their texts taken in pairs with the
/// comment `tbx`.
pub fn parse_glossary(raw: &str) -> (r: Vec<GlossaryEntry>)
    ensures
        r@.len() == glossary_triples(raw@).len(),
        forall|i: int| 0 <= i < r@.len() ==> fresh_entry(#[trigger] r@[i], glossary_triples(raw@)[i].0,
            glossary_triples(raw@)[i].1, glossary_triples(raw@)[i].2),
{
    let ls = lines(raw);
    let ghost lv = lines_of(raw@);
    let mut out: Vec<GlossaryEntry> = Vec::new();
    let mut i: usize = 0;
    while i < ls.len()
        invariant
            i <= ls@.len(),
            lv == lines_of(raw@),
            ls@.len() == lv.len(),
            forall|k: int| 0 <= k < ls@.len() ==> #[trigger] ls@[k]@ == lv[k],
            out@.len() == tsv_entries(lv.subrange(0, i as int)).len(),
            forall|k: int| 0 <= k < out@.len() ==> fresh_entry(#[trigger] out@[k], tsv_entries(lv.subrange(0, i as int))[k].0,
                tsv_entries(lv.subrange(0, i as int))[k].1, tsv_entries(lv.subrange(0, i as int))[k].2),
        decreases ls@.len() - i,
    {
        let ghost pre = lv.subrange(0, i as int);
        let ghost nxt = lv.subrange(0, i + 1);
        assert(nxt.drop_last() =~= pre);
        assert(nxt.last() == ls@[i as int]@);
        match tsv_line_exec(&ls[i]) {
            Some(t) => {
                let a = string_of(&t.0);
                let b = string_of(&t.1);
                let c = string_of(&t.2);
                let e = GlossaryEntry::new(a.as_str(), b.as_str(), c.as_str());
                out.push(e);
            },
            None => {},
        }
        i = i + 1;
    }
    assert(lv.subrange(0, ls@.len() as int) =~= lv);
    proof { reveal_strlit("<term"); }
    if out.len() == 0 && find_from_exec(&chars_of(raw), &lit("<term"), 0).is_some() {
        let rv = chars_of(raw);
        let terms = tbx_terms_exec(&rv);
        let ghost tv = strs_v(terms@);
        let mut out2: Vec<GlossaryEntry> = Vec::new();
        let mut k: usize = 0;
        while k + 1 < terms.len()
            invariant
                tv == strs_v(terms@),
                tv == tbx_terms(raw@),
                out2@.len() == k / 2,
                k % 2 == 0,
                k <= terms@.len(),
                forall|q: int| 0 <= q < out2@.len() ==> fresh_entry(#[trigger] out2@[q], tbx_pairs(tv)[q].0,
                    tbx_pairs(tv)[q].1, tbx_pairs(tv)[q].2),
            decreases terms@.len() - k,
        {
            let a = string_of(&terms[k]);
            let b = string_of(&terms[k + 1]);
            let e = GlossaryEntry::new(a.as_str(), b.as_str(), "tbx");
            proof {
                assert(tbx_pairs(tv)[(k / 2) as int] == (tv[k as int], tv[k + 1], "tbx"@));
            }
            out2.push(e);
            k = k + 2;
        }
        return out2;
    }
    out
}

/// The translations as rendered: each, bold where its priority (or, past
/// the listed priorities, the entry's) says so, separated by `, `.
pub open spec fn locs_text(terms: Seq<Seq<char>>, pris: Seq<bool>, dflt: bool) -> Seq<char>
    decreases terms.len(),
{
    if terms.len() == 0 {
        Seq::empty()
    } else {
        let i = terms.len() - 1;
        let pri = if i < pris.len() { pris[i] } else { dflt };
        let item = if pri { "<b>"@ + terms.last() + "</b>"@ } else { terms.last() };
        if i > 0 { locs_text(terms.drop_last(), pris, dflt) + ", "@ + item } else { item }
    }
}

/// The comments as rendered: `<br>n. comment` for each non-empty one, `n`
/// counting from 1 over all of them.
pub open spec fn comments_text(comms: Seq<Seq<char>>) -> Seq<char>
    decreases comms.len(),
{
    if comms.len() == 0 {
        Seq::empty()
    } else {
        let c = comms.last();
        comments_text(comms.drop_last())
            + (if c.len() == 0 { Seq::empty() } else { "<br>"@ + nat_digits(comms.len()) + ". "@ + c })
    }
}

pub open spec fn rendered(e: GlossaryEntry) -> Seq<char> {
    let terms = if e.loc_terms@.len() == 0 { seq![e.target@] } else { strs(e.loc_terms@) };
    let comms = if e.comments@.len() == 0 {
        if e.comment@.len() == 0 { Seq::empty() } else { seq![e.comment@] }
    } else {
        strs(e.comments@)
    };
    "<html><p>"@ + e.source@ + " = "@ + locs_text(terms, e.priorities@, e.priority) + comments_text(comms) + "</p></html>"@
}

impl GlossaryEntry {
    /// The entry as the glossary pane shows it.
    pub fn render_to_html(&self) -> (r: String)
        ensures
            r@ == rendered(*self),
    {
        let terms: Vec<String> = if self.loc_terms.len() == 0 { vec![self.target.clone()] } else { copy_strings(&self.loc_terms) };
        let ghost tv = strs(terms@);
        assert(tv =~= (if self.loc_terms@.len() == 0 { seq![self.target@] } else { strs(self.loc_terms@) }));
        let mut locs: Vec<char> = Vec::new();
        let mut i: usize = 0;
        proof { reveal_strlit("<b>"); reveal_strlit("</b>"); reveal_strlit(", "); }
        while i < terms.len()
            invariant
                i <= terms@.len(),
                tv == strs(terms@),
                locs@ == locs_text(tv.subrange(0, i as int), self.priorities@, self.priority),
            decreases terms@.len() - i,
        {
            let ghost nxt = tv.subrange(0, i + 1);
            assert(nxt.drop_last() =~= tv.subrange(0, i as int));
            assert(nxt.last() == terms@[i as int]@);
            let pri = if i < self.priorities.len() { self.priorities[i] } else { self.priority };
            if i > 0 {
                extend_chars(&mut locs, &lit(", "));
            }
            let t = chars_of(terms[i].as_str());
            if pri {
                extend_chars(&mut locs, &lit("<b>"));
                extend_chars(&mut locs, &t);
                extend_chars(&mut locs, &lit("</b>"));
            } else {
                extend_chars(&mut locs, &t);
            }
            i = i + 1;
        }
        assert(tv.subrange(0, terms@.len() as int) =~= tv);
        let comms: Vec<String> = if self.comments.len() == 0 {
            if self.comment.as_str().is_empty() { Vec::new() } else { vec![self.comment.clone()] }
        } else {
            copy_strings(&self.comments)
        };
        let ghost cv = strs(comms@);
        assert(cv =~= (if self.comments@.len() == 0 {
            if self.comment@.len() == 0 { Seq::empty() } else { seq![self.comment@] }
        } else {
            strs(self.comments@)
        }));
        let mut ct: Vec<char> = Vec::new();
        let mut k: usize = 0;
        proof { reveal_strlit("<br>"); reveal_strlit(". "); }
        while k < comms.len()
            invariant
                k <= comms@.len(),
                cv == strs(comms@),
                ct@ == comments_text(cv.subrange(0, k as int)),
            decreases comms@.len() - k,
        {
            let ghost nxt = cv.subrange(0, k + 1);
            assert(nxt.drop_last() =~= cv.subrange(0, k as int));
            assert(nxt.last() == comms@[k as int]@);
            if !comms[k].as_str().is_empty() {
                extend_chars(&mut ct, &lit("<br>"));
                let n = usize_to_string(k + 1);
                extend_chars(&mut ct, &chars_of(n.as_str()));
                extend_chars(&mut ct, &lit(". "));
                extend_chars(&mut ct, &chars_of(comms[k].as_str()));
            }
            k = k + 1;
        }
        assert(cv.subrange(0, comms@.len() as int) =~= cv);
        let mut out = lit("<html><p>");
        extend_chars(&mut out, &chars_of(self.source.as_str()));
        extend_chars(&mut out, &lit(" = "));
        extend_chars(&mut out, &locs);
        extend_chars(&mut out, &ct);
        extend_chars(&mut out, &lit("</p></html>"));
        string_of(&out)
    }
}

/// A glossary mark on a source text: a byte span and its tooltip.
pub struct TipMark {
    pub start: usize,
    pub end: usize,
    pub tooltip: String,
}


pub open spec fn sat(x: int) -> int {
    if x > usize::MAX { usize::MAX as int } else { x }
}

/// The mark an entry puts on the lower-cased text: the byte span of the
/// first occurrence of its lower-cased source, as long as the source
/// (offsets saturate at the machine limit), with its rendering as tooltip.
pub open spec fn entry_mark(lower: Seq<char>, e: GlossaryEntry) -> Option<(int, int, Seq<char>)> {
    if e.source@.len() == 0 {
        None
    } else {
        match find(lower, lowercase_of(e.source@)) {
            Some(p) => {
                let a = sat(utf8_len(lower.subrange(0, p)) as int);
                Some((a, sat(a + sat(utf8_len(e.source@) as int)), rendered(e)))
            },
            None => None,
        }
    }
}

pub open spec fn entry_marks(lower: Seq<char>, es: Seq<GlossaryEntry>) -> Seq<(int, int, Seq<char>)>
    decreases es.len(),
{
    if es.len() == 0 {
        Seq::empty()
    } else {
        match entry_mark(lower, es.last()) {
            Some(m) => entry_marks(lower, es.drop_last()).push(m),
            None => entry_marks(lower, es.drop_last()),
        }
    }
}

pub open spec fn marks_view(v: Seq<TipMark>) -> Seq<(int, int, Seq<char>)> {
    Seq::new(v.len(), |i: int| (v[i].start as int, v[i].end as int, v[i].tooltip@))
}

/// The glossary marks for a source text: none at all (`None`) when marking
/// is off or inactive, there is no text or no entry; else, for each entry in
/// order, the first place its source occurs (ignoring case).
pub fn marks_for_entry(source: Option<&str>, entries: &[GlossaryEntry], active: bool, mark_glossary: bool)
    -> (r: Option<Vec<TipMark>>)
    ensures
        match r {
            None => !active || source is None || !mark_glossary || entries@.len() == 0,
            Some(m) => active && mark_glossary && entries@.len() > 0 && (source matches Some(s)
                && marks_view(m@) == entry_marks(lowercase_of(s@), entries@)),
        },
{
    if !active {
        return None;
    }
    let src = match source {
        Some(s) => s,
        None => return None,
    };
    if !mark_glossary || entries.len() == 0 {
        return None;
    }
    let lower_s = to_lowercase(src);
    let lower = chars_of(lower_s.as_str());
    let mut marks: Vec<TipMark> = Vec::new();
    let mut i: usize = 0;
    while i < entries.len()
        invariant
            i <= entries@.len(),
            lower@ == lowercase_of(src@),
            marks_view(marks@) == entry_marks(lower@, entries@.subrange(0, i as int)),
        decreases entries@.len() - i,
    {
        let ghost nxt = entries@.subrange(0, i + 1);
        assert(nxt.drop_last() =~= entries@.subrange(0, i as int));
        assert(nxt.last() == entries@[i as int]);
        let e = &entries[i];
        if !e.source.as_str().is_empty() {
            let needle_s = to_lowercase(e.source.as_str());
            let needle = chars_of(needle_s.as_str());
            proof { lemma_find_from_bounds(lower@, needle@, 0); }
            match find_from_exec(&lower, &needle, 0) {
                Some(p) => {
                    let pre = slice_vec(&lower, 0, p);
                    let a = utf8_len_exec(&pre);
                    let sb = utf8_len_exec(&chars_of(e.source.as_str()));
                    let b = a.saturating_add(sb);
                    let m = TipMark { start: a, end: b, tooltip: e.render_to_html() };
                    let ghost old_m = marks@;
                    marks.push(m);
                    assert(marks_view(marks@) =~= marks_view(old_m).push((a as int, b as int, rendered(*e))));
                },
                None => {},
            }
        }
        i = i + 1;
    }
    assert(entries@.subrange(0, entries@.len() as int) =~= entries@);
    Some(marks)
}

/// A character of the CJK blocks: radicals, kana and ideographs (U+2E80 to
/// U+9FFF), Hangul syllables, compatibility ideographs, halfwidth and
/// fullwidth forms, and the supplementary ideographs.
pub open spec fn cjk_char(c: char) -> bool {
    ('\u{2E80}' <= c && c <= '\u{9FFF}') || ('\u{AC00}' <= c && c <= '\u{D7AF}')
        || ('\u{F900}' <= c && c <= '\u{FAFF}') || ('\u{FF00}' <= c && c <= '\u{FFEF}')
        || ('\u{20000}' <= c && c <= '\u{2FA1F}')
}

/// A non-empty text written in CJK characters only.
pub open spec fn is_cjk_text(s: Seq<char>) -> bool {
    s.len() > 0 && forall|i: int| 0 <= i < s.len() ==> #[trigger] cjk_char(s[i])
}

fn cjk_char_exec(c: char) -> (r: bool)
    ensures
        r == cjk_char(c),
{
    ('\u{2E80}' <= c && c <= '\u{9FFF}') || ('\u{AC00}' <= c && c <= '\u{D7AF}')
        || ('\u{F900}' <= c && c <= '\u{FAFF}') || ('\u{FF00}' <= c && c <= '\u{FFEF}')
        || ('\u{20000}' <= c && c <= '\u{2FA1F}')
}

/// Whether a text is written in CJK characters only (and is not empty).
pub fn is_cjk(s: &str) -> (r: bool)
    ensures
        r == is_cjk_text(s@),
{
    let v = chars_of(s);
    if v.len() == 0 {
        return false;
    }
    let mut i: usize = 0;
    while i < v.len()
        invariant
            i <= v@.len(),
            v@ == s@,
            forall|k: int| 0 <= k < i ==> #[trigger] cjk_char(v@[k]),
        decreases v@.len() - i,
    {
        if !cjk_char_exec(v[i]) {
            return false;
        }
        i = i + 1;
    }
    true
}

/// A CJK term matches a text that contains it (CJK text is not split into
/// words).
pub fn is_cjk_match(full_text: &str, term: &str) -> (r: bool)
    ensures
        r == (is_cjk_text(term@) && contains(full_text@, term@)),
{
    is_cjk(term) && find_from_exec(&chars_of(full_text), &chars_of(term), 0).is_some()
}
} // verus!
