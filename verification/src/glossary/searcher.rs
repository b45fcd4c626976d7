//! Finding the glossary entries that a segment's text uses: token runs,
//! CJK containment, the display order and the merge of alternative
//! definitions.
use vstd::prelude::*;
use crate::glossary::{GlossaryEntry, strs, is_cjk_text, is_cjk, copy_strings};
use crate::language::Language;
use crate::text::{chars_of, slice_vec, starts_with, starts_with_exec, contains, find, find_from_exec,
    lowercase_of, to_lowercase, lex_lt, lex_order, utf8_len, utf8_len_exec, lower_ascii_seq, lower_ascii_chars,
    chars_eq, split_seq, split_seq_exec, vecs_view, concat_str};

verus! {

/// What a glossary entry holds: source, target, comment, priority,
/// localised terms, comments and their priorities.
pub type EntryView = (Seq<char>, Seq<char>, Seq<char>, bool, Seq<Seq<char>>, Seq<Seq<char>>, Seq<bool>);

pub open spec fn entry_view(e: GlossaryEntry) -> EntryView {
    (e.source@, e.target@, e.comment@, e.priority, strs(e.loc_terms@), strs(e.comments@), e.priorities@)
}

pub open spec fn entries_view(v: Seq<GlossaryEntry>) -> Seq<EntryView> {
    Seq::new(v.len(), |i: int| entry_view(v[i]))
}

/// Whether `char::is_alphabetic` holds of a character.
pub uninterp spec fn char_letter(c: char) -> bool;

/// Whether `char::is_uppercase` holds of a character.
pub uninterp spec fn char_upper(c: char) -> bool;

/// `char::is_alphabetic`.
#[verifier::external_body]
fn is_letter(c: char) -> (r: bool)
    ensures
        r == char_letter(c),
{
    c.is_alphabetic()
}

/// `char::is_uppercase`.
#[verifier::external_body]
fn is_upper(c: char) -> (r: bool)
    ensures
        r == char_upper(c),
{
    c.is_uppercase()
}

/// A non-empty text none of whose letters is lower or title case.
pub open spec fn upper_text(s: Seq<char>) -> bool {
    s.len() > 0 && forall|i: int| 0 <= i < s.len() && #[trigger] char_letter(s[i]) ==> char_upper(s[i])
}

/// Two tokens are the same word ignoring case; without exact matching one
/// may also start the other.
pub open spec fn token_eq(a: Seq<char>, b: Seq<char>, not_exact: bool) -> bool {
    let al = lowercase_of(a);
    let bl = lowercase_of(b);
    al == bl || (not_exact && (starts_with(al, bl) || starts_with(bl, al)))
}

/// The term's tokens `glos`, token for token, are the run of text tokens
/// `toks`.
pub open spec fn same_run(toks: Seq<Seq<char>>, glos: Seq<Seq<char>>, not_exact: bool) -> bool {
    toks.len() == glos.len() && forall|k: int| 0 <= k < glos.len() ==> #[trigger] token_eq(toks[k], glos[k], not_exact)
}

/// The text as it reads at the place where the lower-cased token first
/// occurs in the lower-cased text (the token itself where that place runs
/// past the end).
pub open spec fn matched_text(src: Seq<char>, idx: int, tok: Seq<char>) -> Seq<char> {
    if 0 <= idx && idx + tok.len() <= src.len() { src.subrange(idx, idx + tok.len()) } else { tok }
}

/// A token keeps an upper-case term's match unless it first occurs in the
/// text in a form that is not upper case.
pub open spec fn token_keeps(src: Seq<char>, tok: Seq<char>) -> bool {
    match find(lowercase_of(src), lowercase_of(tok)) {
        None => true,
        Some(idx) => upper_text(matched_text(src, idx, tok)),
    }
}

/// Whether a run of matched tokens stands: with similar case required, an
/// upper-case term needs each of its tokens upper case in the text.
pub open spec fn keeps(similar_case: bool, toks: Seq<Seq<char>>, src: Seq<char>, term: Seq<char>) -> bool {
    (similar_case && upper_text(term)) ==> forall|k: int| 0 <= k < toks.len() ==> #[trigger] token_keeps(src, toks[k])
}

/// A run of text tokens, at token `i`, that matches the term's tokens and
/// stands; for a CJK term one of its tokens must occur in the term.
pub open spec fn good_run(s: GlossarySearcher, full: Seq<Seq<char>>, text: Seq<char>, term: Seq<char>,
    glos: Seq<Seq<char>>, i: int) -> bool {
    let toks = full.subrange(i, i + glos.len());
    &&& 0 <= i && i + glos.len() <= full.len()
    &&& same_run(toks, glos, s.not_exact_match)
    &&& keeps(s.require_similar_case, toks, text, term)
    &&& is_cjk_text(term) ==> exists|k: int| 0 <= k < toks.len() && contains(term, #[trigger] toks[k])
}

/// The term, tokenised as `glos`, matches the text tokenised as `full`.
pub open spec fn token_match(s: GlossarySearcher, full: Seq<Seq<char>>, text: Seq<char>, term: Seq<char>,
    glos: Seq<Seq<char>>) -> bool {
    glos.len() > 0 && exists|i: int| 0 <= i < full.len() && #[trigger] good_run(s, full, text, term, glos, i)
}

/// A term is found in a text by its tokens, or, written in CJK, by
/// occurring in it.
pub open spec fn term_found(s: GlossarySearcher, full: Seq<Seq<char>>, text: Seq<char>, term: Seq<char>,
    glos: Seq<Seq<char>>) -> bool {
    token_match(s, full, text, term, glos) || (is_cjk_text(term) && contains(text, term))
}

/// The first `n` entries whose source is found in the text, in their order;
/// `glos[i]` are the tokens of entry `i`'s source.
pub open spec fn found_entries(s: GlossarySearcher, full: Seq<Seq<char>>, text: Seq<char>,
    glos: Seq<Seq<Seq<char>>>, es: Seq<EntryView>, n: int) -> Seq<EntryView>
    decreases n,
{
    if n <= 0 || n > es.len() {
        Seq::empty()
    } else {
        let before = found_entries(s, full, text, glos, es, n - 1);
        if term_found(s, full, text, es[n - 1].0, glos[n - 1]) { before.push(es[n - 1]) } else { before }
    }
}

pub open spec fn three_way(a: int, b: int) -> int {
    if a < b { -1 } else if a > b { 1 } else { 0 }
}

pub open spec fn lex_three_way(a: Seq<char>, b: Seq<char>) -> int {
    if lex_lt(a, b) { -1 } else if a == b { 0 } else { 1 }
}

/// Where a Japanese text sorts by its first character: hiragana, katakana,
/// 向, 上, other ideographs, anything else.
pub open spec fn ja_rank(s: Seq<char>) -> int {
    if s.len() == 0 {
        5
    } else {
        let c = s[0];
        if '\u{3040}' <= c && c <= '\u{309F}' {
            0
        } else if '\u{30A0}' <= c && c <= '\u{30FF}' {
            1
        } else if c == '向' {
            2
        } else if c == '上' {
            3
        } else if (c as u32) >= 0x4E00 {
            4
        } else {
            5
        }
    }
}

/// Texts of a Japanese side by rank, then as written; other texts by their
/// lower-case forms.
pub open spec fn text_order(a: Seq<char>, b: Seq<char>, lang: Seq<char>) -> int {
    if lang == seq!['j', 'a'] {
        let r = three_way(ja_rank(a), ja_rank(b));
        if r != 0 { r } else { lex_three_way(a, b) }
    } else {
        lex_three_way(lowercase_of(a), lowercase_of(b))
    }
}

/// Length in UTF-8 bytes (saturating at `usize::MAX`).
pub open spec fn byte_len(s: Seq<char>) -> int {
    if utf8_len(s) <= usize::MAX { utf8_len(s) as int } else { usize::MAX as int }
}

/// The display order of two entries: priority ones first; of two sources
/// where one starts the other, the longer first; then by source, by target
/// length (longer first, where asked) and by target.
pub open spec fn entry_order(s: GlossarySearcher, a: EntryView, b: EntryView) -> int {
    let c0 = three_way(if a.3 { 1 } else { 2 }, if b.3 { 1 } else { 2 });
    let c1 = if c0 == 0 && s.sort_by_src_length && (starts_with(b.0, a.0) || starts_with(a.0, b.0)) {
        three_way(byte_len(b.0), byte_len(a.0))
    } else {
        c0
    };
    let c2 = if c1 == 0 { text_order(a.0, b.0, s.src_lang.lang()) } else { c1 };
    let c3 = if c2 == 0 && s.sort_by_length { three_way(byte_len(b.1), byte_len(a.1)) } else { c2 };
    if c3 == 0 { text_order(a.1, b.1, s.target_lang.lang()) } else { c3 }
}

/// `x` put into `v` after every entry that does not sort after it.
pub open spec fn insert_by(s: GlossarySearcher, v: Seq<EntryView>, x: EntryView) -> Seq<EntryView>
    decreases v.len(),
{
    if v.len() == 0 {
        seq![x]
    } else if entry_order(s, v.last(), x) > 0 {
        insert_by(s, v.drop_last(), x).push(v.last())
    } else {
        v.push(x)
    }
}

/// The entries in display order, equal ones in their given order.
pub open spec fn sorted_by(s: GlossarySearcher, v: Seq<EntryView>) -> Seq<EntryView>
    decreases v.len(),
{
    if v.len() == 0 { Seq::empty() } else { insert_by(s, sorted_by(s, v.drop_last()), v.last()) }
}

/// Two sources that are equal ignoring ASCII case.
pub open spec fn same_source(a: Seq<char>, b: Seq<char>) -> bool {
    lower_ascii_seq(a) == lower_ascii_seq(b)
}

/// The first entry of `v` with the same source as `src`.
pub open spec fn first_same(v: Seq<EntryView>, src: Seq<char>, n: int) -> Option<int>
    decreases n,
{
    if n <= 0 || n > v.len() {
        None
    } else {
        match first_same(v, src, n - 1) {
            Some(i) => Some(i),
            None => if same_source(v[n - 1].0, src) { Some(n - 1) } else { None },
        }
    }
}

pub open spec fn alt_separator() -> Seq<char> {
    seq![' ', '/', ' ']
}

/// A target gaining an alternative definition: unchanged where it already
/// lists it, else joined with " / " (or replaced where it was empty).
pub open spec fn merged_target(prev: Seq<char>, t: Seq<char>) -> Seq<char> {
    if split_seq(prev, alt_separator()).contains(t) {
        prev
    } else if prev.len() > 0 && t.len() > 0 {
        prev + alt_separator() + t
    } else if prev.len() == 0 {
        t
    } else {
        prev
    }
}

/// `e` merged into `v`: into the first entry with the same source, or
/// appended.
pub open spec fn merge_one(v: Seq<EntryView>, e: EntryView) -> Seq<EntryView> {
    match first_same(v, e.0, v.len() as int) {
        Some(i) => v.update(i, (v[i].0, merged_target(v[i].1, e.1), v[i].2, v[i].3, v[i].4, v[i].5, v[i].6)),
        None => v.push(e),
    }
}

/// The first `n` entries, each merged into those before it.
pub open spec fn merge_all(v: Seq<EntryView>, n: int) -> Seq<EntryView>
    decreases n,
{
    if n <= 0 || n > v.len() { Seq::empty() } else { merge_one(merge_all(v, n - 1), v[n - 1]) }
}

/// The entries in display order, alternative definitions merged where the
/// searcher merges them.
pub open spec fn sorted_and_filtered(s: GlossarySearcher, v: Seq<EntryView>) -> Seq<EntryView> {
    let sorted = sorted_by(s, v);
    if s.merge_alt_definitions { merge_all(sorted, sorted.len() as int) } else { sorted }
}

/// What a source-text search gives: the entries found, sorted and merged.
pub open spec fn source_matches(s: GlossarySearcher, full: Seq<Seq<char>>, text: Seq<char>,
    glos: Seq<Seq<Seq<char>>>, es: Seq<EntryView>) -> Seq<EntryView> {
    sorted_and_filtered(s, found_entries(s, full, text, glos, es, es.len() as int))
}

/// How a glossary is searched: the languages (for ordering), the tokenizer,
/// and the matching and ordering options.
pub struct GlossarySearcher {
    pub src_lang: Language,
    pub target_lang: Language,
    pub tokenizer_class: String,
    pub merge_alt_definitions: bool,
    pub stemming: bool,
    pub stemming_full: bool,
    pub not_exact_match: bool,
    pub require_similar_case: bool,
    pub sort_by_src_length: bool,
    pub sort_by_length: bool,
}


fn upper_text_exec(s: &[char]) -> (r: bool)
    ensures
        r == upper_text(s@),
{
    if s.len() == 0 {
        return false;
    }
    let mut i: usize = 0;
    while i < s.len()
        invariant
            i <= s@.len(),
            forall|k: int| 0 <= k < i && #[trigger] char_letter(s@[k]) ==> char_upper(s@[k]),
        decreases s@.len() - i,
    {
        if is_letter(s[i]) && !is_upper(s[i]) {
            return false;
        }
        i = i + 1;
    }
    true
}

fn lower_chars(s: &str) -> (r: Vec<char>)
    ensures
        r@ == lowercase_of(s@),
{
    let l = to_lowercase(s);
    chars_of(l.as_str())
}

fn token_eq_exec(a: &str, b: &str, not_exact: bool) -> (r: bool)
    ensures
        r == token_eq(a@, b@, not_exact),
{
    let al = lower_chars(a);
    let bl = lower_chars(b);
    chars_eq(&al, &bl) || (not_exact && (starts_with_exec(&al, &bl) || starts_with_exec(&bl, &al)))
}

fn token_keeps_exec(src: &Vec<char>, lower_src: &Vec<char>, tok: &str) -> (r: bool)
    requires
        lower_src@ == lowercase_of(src@),
    ensures
        r == token_keeps(src@, tok@),
{
    let lt = lower_chars(tok);
    match find_from_exec(lower_src, &lt, 0) {
        None => true,
        Some(idx) => {
            let tv = chars_of(tok);
            if idx <= src.len() && tv.len() <= src.len() - idx {
                let m = slice_vec(src, idx, idx + tv.len());
                upper_text_exec(&m)
            } else {
                upper_text_exec(&tv)
            }
        },
    }
}

/// The text a search runs over, with the forms the matching reads.
struct Haystack {
    text: Vec<char>,
    lower: Vec<char>,
}

impl GlossarySearcher {
    fn good_run_exec(&self, full: &Vec<String>, hay: &Haystack, term: &str, term_cjk: bool, term_upper: bool,
        glos: &Vec<String>, i: usize) -> (r: bool)
        requires
            hay.lower@ == lowercase_of(hay.text@),
            term_cjk == is_cjk_text(term@),
            term_upper == upper_text(term@),
        ensures
            r == good_run(*self, strs(full@), hay.text@, term@, strs(glos@), i as int),
    {
        let ghost fv = strs(full@);
        let ghost gv = strs(glos@);
        let n = glos.len();
        if i > full.len() || n > full.len() - i {
            return false;
        }
        let ghost toks = fv.subrange(i as int, i + n);
        let mut k: usize = 0;
        while k < n
            invariant
                k <= n,
                n == gv.len(),
                i + n <= fv.len(),
                i + n <= full@.len(),
                full@.len() <= usize::MAX,
                fv == strs(full@),
                fv.len() == full@.len(),
                gv == strs(glos@),
                toks == fv.subrange(i as int, i + n),
                forall|j: int| 0 <= j < k ==> #[trigger] token_eq(toks[j], gv[j], self.not_exact_match),
            decreases n - k,
        {
            assert(toks[k as int] == full@[i + k]@);
            if !token_eq_exec(full[i + k].as_str(), glos[k].as_str(), self.not_exact_match) {
                assert(!token_eq(toks[k as int], gv[k as int], self.not_exact_match));
                return false;
            }
            k = k + 1;
        }
        assert(same_run(toks, gv, self.not_exact_match));
        if self.require_similar_case && term_upper {
            let mut k: usize = 0;
            while k < n
                invariant
                    k <= n,
                    i + n <= fv.len(),
                    i + n <= full@.len(),
                    full@.len() <= usize::MAX,
                full@.len() <= usize::MAX,
                i + n <= full@.len(),
                full@.len() <= usize::MAX,
                    fv == strs(full@),
                    fv.len() == full@.len(),
                    toks == fv.subrange(i as int, i + n),
                    hay.lower@ == lowercase_of(hay.text@),
                    term_upper == upper_text(term@),
                    self.require_similar_case && term_upper,
                    n == gv.len(),
                    gv == strs(glos@),
                    forall|j: int| 0 <= j < k ==> #[trigger] token_keeps(hay.text@, toks[j]),
                decreases n - k,
            {
                assert(toks[k as int] == full@[i + k]@);
                if !token_keeps_exec(&hay.text, &hay.lower, full[i + k].as_str()) {
                    assert(!token_keeps(hay.text@, toks[k as int]));
                    return false;
                }
                k = k + 1;
            }
        }
        assert(keeps(self.require_similar_case, toks, hay.text@, term@));
        if term_cjk {
            let tv = chars_of(term);
            let mut k: usize = 0;
            while k < n
                invariant
                    k <= n,
                    i + n <= fv.len(),
                    i + n <= full@.len(),
                    full@.len() <= usize::MAX,
                full@.len() <= usize::MAX,
                i + n <= full@.len(),
                full@.len() <= usize::MAX,
                    fv == strs(full@),
                    fv.len() == full@.len(),
                    n == gv.len(),
                    gv == strs(glos@),
                    toks == fv.subrange(i as int, i + n),
                    same_run(toks, gv, self.not_exact_match),
                    keeps(self.require_similar_case, toks, hay.text@, term@),
                    tv@ == term@,
                    forall|j: int| 0 <= j < k ==> !contains(term@, #[trigger] toks[j]),
                decreases n - k,
            {
                assert(toks[k as int] == full@[i + k]@);
                let pv = chars_of(full[i + k].as_str());
                if find_from_exec(&tv, &pv, 0).is_some() {
                    assert(contains(term@, toks[k as int]));
                    return true;
                }
                k = k + 1;
            }
            return false;
        }
        true
    }

    fn token_match_exec(&self, full: &Vec<String>, hay: &Haystack, term: &str, term_cjk: bool, term_upper: bool,
        glos: &Vec<String>) -> (r: bool)
        requires
            hay.lower@ == lowercase_of(hay.text@),
            term_cjk == is_cjk_text(term@),
            term_upper == upper_text(term@),
        ensures
            r == token_match(*self, strs(full@), hay.text@, term@, strs(glos@)),
    {
        if glos.len() == 0 {
            return false;
        }
        let mut i: usize = 0;
        while i < full.len()
            invariant
                i <= full@.len(),
                glos@.len() > 0,
                hay.lower@ == lowercase_of(hay.text@),
                term_cjk == is_cjk_text(term@),
                term_upper == upper_text(term@),
                forall|j: int| 0 <= j < i ==> !#[trigger] good_run(*self, strs(full@), hay.text@, term@, strs(glos@), j),
            decreases full@.len() - i,
        {
            if self.good_run_exec(full, hay, term, term_cjk, term_upper, glos, i) {
                return true;
            }
            i = i + 1;
        }
        false
    }

    fn term_found_exec(&self, full: &Vec<String>, hay: &Haystack, term: &str, glos: &Vec<String>) -> (r: bool)
        requires
            hay.lower@ == lowercase_of(hay.text@),
        ensures
            r == term_found(*self, strs(full@), hay.text@, term@, strs(glos@)),
    {
        let term_cjk = is_cjk(term);
        let tv = chars_of(term);
        let term_upper = upper_text_exec(&tv);
        if self.token_match_exec(full, hay, term, term_cjk, term_upper, glos) {
            return true;
        }
        term_cjk && find_from_exec(&hay.text, &tv, 0).is_some()
    }
}


fn three_way_exec(a: usize, b: usize) -> (r: i8)
    ensures
        r == three_way(a as int, b as int),
{
    if a < b { -1 } else if a > b { 1 } else { 0 }
}

fn lex_three_way_exec(a: &[char], b: &[char]) -> (r: i8)
    ensures
        r == lex_three_way(a@, b@),
{
    proof {
        crate::text::lemma_lex_total(a@, b@);
        crate::text::lemma_lex_irrefl(a@);
        if crate::text::lex_lt(a@, b@) {
            crate::text::lemma_lex_asym(a@, b@);
        }
    }
    lex_order(a, b)
}

fn ja_rank_exec(s: &[char]) -> (r: usize)
    ensures
        r == ja_rank(s@),
{
    if s.len() == 0 {
        return 5;
    }
    let c = s[0];
    if '\u{3040}' <= c && c <= '\u{309F}' {
        0
    } else if '\u{30A0}' <= c && c <= '\u{30FF}' {
        1
    } else if c == '向' {
        2
    } else if c == '上' {
        3
    } else if (c as u32) >= 0x4E00 {
        4
    } else {
        5
    }
}

fn text_order_exec(a: &str, b: &str, lang: &str) -> (r: i8)
    ensures
        r == text_order(a@, b@, lang@),
{
    let lv = chars_of(lang);
    let is_ja = lv.len() == 2 && lv[0] == 'j' && lv[1] == 'a';
    assert(is_ja == (lang@ == seq!['j', 'a'])) by {
        if lv@.len() == 2 && lv@[0] == 'j' && lv@[1] == 'a' {
            assert(lv@ =~= seq!['j', 'a']);
        }
    }
    if is_ja {
        let av = chars_of(a);
        let bv = chars_of(b);
        let r = three_way_exec(ja_rank_exec(&av), ja_rank_exec(&bv));
        if r != 0 { r } else { lex_three_way_exec(&av, &bv) }
    } else {
        let al = lower_chars(a);
        let bl = lower_chars(b);
        lex_three_way_exec(&al, &bl)
    }
}

fn byte_len_exec(s: &str) -> (r: usize)
    ensures
        r == byte_len(s@),
{
    let v = chars_of(s);
    utf8_len_exec(&v)
}

/// An entry with the same contents.
fn copy_entry(e: &GlossaryEntry) -> (r: GlossaryEntry)
    ensures
        entry_view(r) == entry_view(*e),
{
    let mut pri: Vec<bool> = Vec::new();
    let mut i: usize = 0;
    while i < e.priorities.len()
        invariant
            i <= e.priorities@.len(),
            pri@ == e.priorities@.subrange(0, i as int),
        decreases e.priorities@.len() - i,
    {
        pri.push(e.priorities[i]);
        assert(pri@ =~= e.priorities@.subrange(0, i + 1));
        i = i + 1;
    }
    assert(pri@ =~= e.priorities@);
    GlossaryEntry {
        source: e.source.clone(),
        target: e.target.clone(),
        comment: e.comment.clone(),
        priority: e.priority,
        loc_terms: copy_strings(&e.loc_terms),
        comments: copy_strings(&e.comments),
        priorities: pri,
    }
}

/// Inserting before the trailing run of entries that sort after `x`.
proof fn lemma_insert_by_at(s: GlossarySearcher, v: Seq<EntryView>, x: EntryView, j: int)
    requires
        0 <= j <= v.len(),
        forall|k: int| j <= k < v.len() ==> entry_order(s, #[trigger] v[k], x) > 0,
        j == 0 || entry_order(s, v[j - 1], x) <= 0,
    ensures
        insert_by(s, v, x) == v.insert(j, x),
    decreases v.len(),
{
    if v.len() == 0 {
        assert(v.insert(j, x) =~= seq![x]);
    } else if j == v.len() {
        assert(v.insert(j, x) =~= v.push(x));
    } else {
        let w = v.drop_last();
        assert(entry_order(s, v[v.len() - 1], x) > 0);
        assert forall|k: int| j <= k < w.len() implies entry_order(s, #[trigger] w[k], x) > 0 by {
            assert(w[k] == v[k]);
        }
        lemma_insert_by_at(s, w, x, j);
        assert(insert_by(s, v, x) == insert_by(s, w, x).push(v.last()));
        assert(w.insert(j, x).push(v.last()) =~= v.insert(j, x));
    }
}

fn same_source_exec(a: &str, b: &str) -> (r: bool)
    ensures
        r == same_source(a@, b@),
{
    let av = chars_of(a);
    let bv = chars_of(b);
    let al = lower_ascii_chars(&av);
    let bl = lower_ascii_chars(&bv);
    chars_eq(&al, &bl)
}

fn merged_target_exec(prev: &str, t: &str) -> (r: String)
    ensures
        r@ == merged_target(prev@, t@),
{
    let pv = chars_of(prev);
    let tv = chars_of(t);
    let sep = chars_of(" / ");
    proof {
        reveal_strlit(" / ");
    }
    assert(sep@ =~= alt_separator());
    let pieces = split_seq_exec(&pv, &sep);
    let ghost ps = vecs_view(pieces@);
    let mut listed = false;
    let mut i: usize = 0;
    while i < pieces.len()
        invariant
            i <= pieces@.len(),
            ps == vecs_view(pieces@),
            ps.len() == pieces@.len(),
            tv@ == t@,
            listed == (exists|k: int| 0 <= k < i && #[trigger] ps[k] == t@),
        decreases pieces@.len() - i,
    {
        if chars_eq(&pieces[i], &tv) {
            assert(ps[i as int] == t@);
            listed = true;
        }
        i = i + 1;
    }
    assert(listed == ps.contains(t@)) by {
        if ps.contains(t@) {
            let k = choose|k: int| 0 <= k < ps.len() && ps[k] == t@;
            assert(ps[k] == t@);
        }
    }
    if listed {
        prev.to_owned()
    } else if pv.len() > 0 && tv.len() > 0 {
        let joined = concat_str(prev, " / ");
        concat_str(joined.as_str(), t)
    } else if pv.len() == 0 {
        t.to_owned()
    } else {
        prev.to_owned()
    }
}

impl GlossarySearcher {
    /// A searcher for these languages and tokenizer, with the default
    /// options: merged alternative definitions, stemming (not full), exact
    /// token matching, similar case required, longer sources first.
    pub fn new(src_lang: &str, target_lang: &str, tokenizer_class: &str) -> (r: Self)
        ensures
            r.src_lang.lang() == crate::language::language_of(src_lang@),
            r.target_lang.lang() == crate::language::language_of(target_lang@),
            r.tokenizer_class@ == tokenizer_class@,
            r.merge_alt_definitions && r.stemming && !r.stemming_full && !r.not_exact_match,
            r.require_similar_case && r.sort_by_src_length && !r.sort_by_length,
    {
        GlossarySearcher {
            src_lang: Language::new(Some(src_lang)),
            target_lang: Language::new(Some(target_lang)),
            tokenizer_class: tokenizer_class.to_owned(),
            merge_alt_definitions: true,
            stemming: true,
            stemming_full: false,
            not_exact_match: false,
            require_similar_case: true,
            sort_by_src_length: true,
            sort_by_length: false,
        }
    }

    fn entry_order_exec(&self, a: &GlossaryEntry, b: &GlossaryEntry) -> (r: i8)
        ensures
            r == entry_order(*self, entry_view(*a), entry_view(*b)),
    {
        let c0 = three_way_exec(if a.priority { 1 } else { 2 }, if b.priority { 1 } else { 2 });
        let av = chars_of(a.source.as_str());
        let bv = chars_of(b.source.as_str());
        let c1 = if c0 == 0 && self.sort_by_src_length && (starts_with_exec(&bv, &av) || starts_with_exec(&av, &bv)) {
            three_way_exec(byte_len_exec(b.source.as_str()), byte_len_exec(a.source.as_str()))
        } else {
            c0
        };
        let c2 = if c1 == 0 {
            text_order_exec(a.source.as_str(), b.source.as_str(), self.src_lang.get_language_code())
        } else {
            c1
        };
        let c3 = if c2 == 0 && self.sort_by_length {
            three_way_exec(byte_len_exec(b.target.as_str()), byte_len_exec(a.target.as_str()))
        } else {
            c2
        };
        if c3 == 0 {
            text_order_exec(a.target.as_str(), b.target.as_str(), self.target_lang.get_language_code())
        } else {
            c3
        }
    }

    /// The entries in display order; entries that sort equal keep their
    /// order.
    pub fn sort_glossary_entries(&self, entries: Vec<GlossaryEntry>) -> (r: Vec<GlossaryEntry>)
        ensures
            entries_view(r@) == sorted_by(*self, entries_view(entries@)),
    {
        let ghost w = entries_view(entries@);
        let mut out: Vec<GlossaryEntry> = Vec::new();
        let mut idx: usize = 0;
        assert(w.subrange(0, 0) =~= Seq::<EntryView>::empty());
        assert(entries_view(out@) =~= Seq::<EntryView>::empty());
        while idx < entries.len()
            invariant
                idx <= entries@.len(),
                w == entries_view(entries@),
                entries_view(out@) == sorted_by(*self, w.subrange(0, idx as int)),
            decreases entries@.len() - idx,
        {
            let x = copy_entry(&entries[idx]);
            let ghost ov = entries_view(out@);
            let mut j: usize = out.len();
            while j > 0
                invariant
                    j <= out@.len(),
                    ov == entries_view(out@),
                    forall|k: int| j <= k < out@.len() ==> entry_order(*self, #[trigger] ov[k], entry_view(x)) > 0,
                ensures
                    j <= out@.len(),
                    forall|k: int| j <= k < out@.len() ==> entry_order(*self, #[trigger] ov[k], entry_view(x)) > 0,
                    j == 0 || entry_order(*self, ov[j - 1], entry_view(x)) <= 0,
                decreases j,
            {
                if self.entry_order_exec(&out[j - 1], &x) <= 0 {
                    break;
                }
                j = j - 1;
            }
            proof {
                lemma_insert_by_at(*self, ov, entry_view(x), j as int);
                assert(w.subrange(0, idx + 1).drop_last() =~= w.subrange(0, idx as int));
                assert(w[idx as int] == entry_view(entries@[idx as int]));
            }
            let ghost xv = entry_view(x);
            out.insert(j, x);
            assert(entries_view(out@) =~= ov.insert(j as int, xv));
            idx = idx + 1;
        }
        assert(w.subrange(0, entries@.len() as int) =~= w);
        out
    }

    /// Each entry merged into the first earlier one with the same source.
    fn merge_entries(v: &Vec<GlossaryEntry>) -> (r: Vec<GlossaryEntry>)
        ensures
            entries_view(r@) == merge_all(entries_view(v@), v@.len() as int),
    {
        let ghost w = entries_view(v@);
        let mut merged: Vec<GlossaryEntry> = Vec::new();
        let mut idx: usize = 0;
        assert(entries_view(merged@) =~= Seq::<EntryView>::empty());
        while idx < v.len()
            invariant
                idx <= v@.len(),
                w == entries_view(v@),
                entries_view(merged@) == merge_all(w, idx as int),
            decreases v@.len() - idx,
        {
            let e = &v[idx];
            let ghost mv = entries_view(merged@);
            let mut p: usize = 0;
            let mut found = false;
            while !found && p < merged.len()
                invariant
                    p <= merged@.len(),
                    mv == entries_view(merged@),
                    found ==> p < merged@.len() && first_same(mv, e.source@, mv.len() as int) == Some(p as int),
                    !found ==> first_same(mv, e.source@, p as int) is None,
                decreases merged@.len() - p + (if found { 0int } else { 1int }),
            {
                if same_source_exec(merged[p].source.as_str(), e.source.as_str()) {
                    proof {
                        assert(mv.len() == merged@.len());
                        assert(mv[p as int].0 == merged@[p as int].source@);
                        assert(first_same(mv, e.source@, p as int + 1) == Some(p as int));
                        lemma_first_same_stays(mv, e.source@, p as int + 1, mv.len() as int);
                    }
                    found = true;
                } else {
                    proof {
                        assert(mv[p as int].0 == merged@[p as int].source@);
                    }
                    p = p + 1;
                }
            }
            assert(!found ==> p == merged@.len());
            if found {
                let prev = &merged[p];
                let t = merged_target_exec(prev.target.as_str(), e.target.as_str());
                let c = copy_entry(prev);
                let ne = GlossaryEntry { target: t, ..c };
                let ghost nv = entry_view(ne);
                merged.set(p, ne);
                assert(entries_view(merged@) =~= mv.update(p as int, nv));
            } else {
                let c = copy_entry(e);
                merged.push(c);
                assert(entries_view(merged@) =~= mv.push(entry_view(*e)));
            }
            proof {
                assert(w[idx as int] == entry_view(v@[idx as int]));
            }
            idx = idx + 1;
        }
        merged
    }

    fn sort_and_filter(&self, result: Vec<GlossaryEntry>) -> (r: Vec<GlossaryEntry>)
        ensures
            entries_view(r@) == sorted_and_filtered(*self, entries_view(result@)),
    {
        let sorted = self.sort_glossary_entries(result);
        if !self.merge_alt_definitions {
            return sorted;
        }
        Self::merge_entries(&sorted)
    }
}

/// Once an entry with the same source is found, later ones do not change
/// the first.
proof fn lemma_first_same_stays(v: Seq<EntryView>, src: Seq<char>, n: int, m: int)
    requires
        0 < n <= m <= v.len(),
        first_same(v, src, n) is Some,
    ensures
        first_same(v, src, m) == first_same(v, src, n),
    decreases m - n,
{
    if m > n {
        lemma_first_same_stays(v, src, n, m - 1);
    }
}


pub open spec fn token_lists(v: Seq<Vec<String>>) -> Seq<Seq<Seq<char>>> {
    Seq::new(v.len(), |i: int| strs(v[i]@))
}

/// `t` is what the tokenizer gave for some string reading `text`.
pub open spec fn tokenized<G: Fn(&str) -> Vec<String>>(tokens: G, text: Seq<char>, t: Seq<Seq<char>>) -> bool {
    exists|a: &str, o: Vec<String>| #![trigger call_ensures(tokens, (a,), o)]
        a@ == text && call_ensures(tokens, (a,), o) && strs(o@) == t
}

/// The first `n` terms found in the text, in their order; `glos[i]` are the
/// tokens of term `i`.
pub open spec fn found_terms(s: GlossarySearcher, full: Seq<Seq<char>>, text: Seq<char>, terms: Seq<Seq<char>>,
    glos: Seq<Seq<Seq<char>>>, n: int) -> Seq<Seq<char>>
    decreases n,
{
    if n <= 0 || n > terms.len() {
        Seq::empty()
    } else {
        let before = found_terms(s, full, text, terms, glos, n - 1);
        if term_found(s, full, text, terms[n - 1], glos[n - 1]) { before.push(terms[n - 1]) } else { before }
    }
}

/// The translations an entry offers: its listed terms, else its target
/// where not empty.
pub open spec fn offered_terms(e: EntryView) -> Seq<Seq<char>> {
    if e.4.len() > 0 { e.4 } else if e.1.len() == 0 { Seq::empty() } else { seq![e.1] }
}

impl GlossarySearcher {
    /// The entries whose source `source` uses, sorted and merged, given the
    /// tokens of the source (`source_tokens`) and of each entry's source
    /// (`term_tokens`, one list per entry).
    pub fn select_source_matches(&self, source: &str, source_tokens: &Vec<String>, term_tokens: &Vec<Vec<String>>,
        entries: &[GlossaryEntry]) -> (r: Vec<GlossaryEntry>)
        requires
            term_tokens@.len() == entries@.len(),
        ensures
            entries_view(r@) == source_matches(*self, strs(source_tokens@), source@, token_lists(term_tokens@),
                entries_view(entries@)),
    {
        let hay = Haystack { text: chars_of(source), lower: lower_chars(source) };
        let ghost fv = strs(source_tokens@);
        let ghost tl = token_lists(term_tokens@);
        let ghost ev = entries_view(entries@);
        let mut result: Vec<GlossaryEntry> = Vec::new();
        let mut i: usize = 0;
        assert(entries_view(result@) =~= Seq::<EntryView>::empty());
        while i < entries.len()
            invariant
                i <= entries@.len(),
                term_tokens@.len() == entries@.len(),
                hay.text@ == source@,
                hay.lower@ == lowercase_of(source@),
                fv == strs(source_tokens@),
                tl == token_lists(term_tokens@),
                ev == entries_view(entries@),
                entries_view(result@) == found_entries(*self, fv, source@, tl, ev, i as int),
            decreases entries@.len() - i,
        {
            let ghost before = entries_view(result@);
            assert(ev[i as int] == entry_view(entries@[i as int]));
            assert(tl[i as int] == strs(term_tokens@[i as int]@));
            if self.term_found_exec(source_tokens, &hay, entries[i].source.as_str(), &term_tokens[i]) {
                let c = copy_entry(&entries[i]);
                result.push(c);
                assert(entries_view(result@) =~= before.push(ev[i as int]));
            }
            i = i + 1;
        }
        self.sort_and_filter(result)
    }

    /// The glossary entries that `source` uses: those whose source's tokens
    /// occur as a run of the text's tokens (case kept for upper-case terms),
    /// or, written in CJK, that occur in it; sorted for display and merged
    /// by source. `tokens` is the searcher's tokenizer: the word tokens of a
    /// text, without whitespace tokens and without tokens inside tags.
    pub fn search_source_matches<G: Fn(&str) -> Vec<String>>(&self, tokens: &G, source: &str,
        entries: &[GlossaryEntry]) -> (r: Vec<GlossaryEntry>)
        requires
            forall|a: &str| #[trigger] tokens.requires((a,)),
        ensures
            exists|st: Seq<Seq<char>>, tt: Seq<Seq<Seq<char>>>|
                #![trigger source_matches(*self, st, source@, tt, entries_view(entries@))]
                tokenized(*tokens, source@, st) && tt.len() == entries@.len()
                && (forall|i: int| 0 <= i < tt.len() ==> #[trigger] tokenized(*tokens, entries@[i].source@, tt[i]))
                && entries_view(r@) == source_matches(*self, st, source@, tt, entries_view(entries@)),
    {
        let st = tokens(source);
        assert(call_ensures(*tokens, (source,), st));
        let mut tt: Vec<Vec<String>> = Vec::new();
        let mut i: usize = 0;
        while i < entries.len()
            invariant
                i <= entries@.len(),
                tt@.len() == i,
                forall|a: &str| #[trigger] tokens.requires((a,)),
                forall|k: int| 0 <= k < i ==> #[trigger] tokenized(*tokens, entries@[k].source@, token_lists(tt@)[k]),
            decreases entries@.len() - i,
        {
            let a = entries[i].source.as_str();
            let t = tokens(a);
            assert(call_ensures(*tokens, (a,), t));
            let ghost old_tt = tt@;
            tt.push(t);
            proof {
                assert forall|k: int| 0 <= k < i + 1 implies #[trigger] tokenized(*tokens, entries@[k].source@,
                    token_lists(tt@)[k]) by {
                    if k < i {
                        assert(token_lists(tt@)[k] == token_lists(old_tt)[k]);
                    } else {
                        assert(token_lists(tt@)[k] == strs(t@));
                    }
                }
            }
            i = i + 1;
        }
        let r = self.select_source_matches(source, &st, &tt, entries);
        assert(tokenized(*tokens, source@, strs(st@)));
        assert(token_lists(tt@).len() == entries@.len());
        r
    }

    /// The entry's translations that `target` uses, in their order, given
    /// the tokens of the target and of each translation.
    pub fn select_target_matches(&self, target: &str, target_tokens: &Vec<String>, term_tokens: &Vec<Vec<String>>,
        entry: &GlossaryEntry) -> (r: Vec<String>)
        requires
            term_tokens@.len() == offered_terms(entry_view(*entry)).len(),
        ensures
            strs(r@) == found_terms(*self, strs(target_tokens@), target@, offered_terms(entry_view(*entry)),
                token_lists(term_tokens@), term_tokens@.len() as int),
    {
        let terms = entry.loc_terms();
        let hay = Haystack { text: chars_of(target), lower: lower_chars(target) };
        let ghost ts = offered_terms(entry_view(*entry));
        let mut result: Vec<String> = Vec::new();
        let mut i: usize = 0;
        assert(strs(result@) =~= Seq::<Seq<char>>::empty());
        while i < terms.len()
            invariant
                i <= terms@.len(),
                strs(terms@) == ts,
                ts.len() == term_tokens@.len(),
                hay.text@ == target@,
                hay.lower@ == lowercase_of(target@),
                strs(result@) == found_terms(*self, strs(target_tokens@), target@, ts, token_lists(term_tokens@), i as int),
            decreases terms@.len() - i,
        {
            let ghost before = strs(result@);
            assert(ts[i as int] == terms@[i as int]@);
            assert(token_lists(term_tokens@)[i as int] == strs(term_tokens@[i as int]@));
            if self.term_found_exec(target_tokens, &hay, terms[i].as_str(), &term_tokens[i]) {
                let c = terms[i].clone();
                result.push(c);
                assert(strs(result@) =~= before.push(ts[i as int]));
            }
            i = i + 1;
        }
        result
    }

    /// The entry's translations that `target` uses, in their order, by the
    /// same rules as [`Self::search_source_matches`].
    pub fn search_target_matches<G: Fn(&str) -> Vec<String>>(&self, tokens: &G, target: &str,
        entry: &GlossaryEntry) -> (r: Vec<String>)
        requires
            forall|a: &str| #[trigger] tokens.requires((a,)),
        ensures
            exists|st: Seq<Seq<char>>, tt: Seq<Seq<Seq<char>>>|
                #![trigger found_terms(*self, st, target@, offered_terms(entry_view(*entry)), tt, tt.len() as int)]
                tokenized(*tokens, target@, st) && tt.len() == offered_terms(entry_view(*entry)).len()
                && (forall|i: int| 0 <= i < tt.len()
                    ==> #[trigger] tokenized(*tokens, offered_terms(entry_view(*entry))[i], tt[i]))
                && strs(r@) == found_terms(*self, st, target@, offered_terms(entry_view(*entry)), tt, tt.len() as int),
    {
        let st = tokens(target);
        assert(call_ensures(*tokens, (target,), st));
        let terms = entry.loc_terms();
        let ghost ts = offered_terms(entry_view(*entry));
        let mut tt: Vec<Vec<String>> = Vec::new();
        let mut i: usize = 0;
        while i < terms.len()
            invariant
                i <= terms@.len(),
                strs(terms@) == ts,
                tt@.len() == i,
                forall|a: &str| #[trigger] tokens.requires((a,)),
                forall|k: int| 0 <= k < i ==> #[trigger] tokenized(*tokens, ts[k], token_lists(tt@)[k]),
            decreases terms@.len() - i,
        {
            let a = terms[i].as_str();
            let t = tokens(a);
            assert(call_ensures(*tokens, (a,), t));
            assert(ts[i as int] == terms@[i as int]@);
            let ghost old_tt = tt@;
            tt.push(t);
            proof {
                assert forall|k: int| 0 <= k < i + 1 implies #[trigger] tokenized(*tokens, ts[k],
                    token_lists(tt@)[k]) by {
                    if k < i {
                        assert(token_lists(tt@)[k] == token_lists(old_tt)[k]);
                    } else {
                        assert(token_lists(tt@)[k] == strs(t@));
                    }
                }
            }
            i = i + 1;
        }
        assert(token_lists(tt@).len() == ts.len());
        let r = self.select_target_matches(target, &st, &tt, entry);
        assert(tokenized(*tokens, target@, strs(st@)));
        assert(strs(r@) == found_terms(*self, strs(st@), target@, ts, token_lists(tt@), token_lists(tt@).len() as int));
        r
    }
}

/// A term whose tokens stand, one for one, as a run of the text's tokens
/// is found in the text (where it is not written in CJK, and its case is
/// not held to upper case).
pub proof fn law_glossary_term_in_tokens_found(s: GlossarySearcher, full: Seq<Seq<char>>, text: Seq<char>,
    term: Seq<char>, glos: Seq<Seq<char>>, i: int)
    requires
        glos.len() > 0,
        0 <= i,
        i + glos.len() <= full.len(),
        full.subrange(i, i + glos.len()) == glos,
        !is_cjk_text(term),
        !s.require_similar_case || !upper_text(term),
    ensures
        term_found(s, full, text, term, glos),
{
    let toks = full.subrange(i, i + glos.len());
    assert forall|k: int| 0 <= k < glos.len() implies #[trigger] token_eq(toks[k], glos[k], s.not_exact_match) by {
        assert(toks[k] == glos[k]);
    }
    assert(good_run(s, full, text, term, glos, i));
}

/// The entries found in a text are those, in their given order, whose
/// source is found: each found entry is an entry whose term is found, and
/// each entry whose term is found is among them.
pub proof fn law_found_entries_are_found_terms(s: GlossarySearcher, full: Seq<Seq<char>>, text: Seq<char>,
    glos: Seq<Seq<Seq<char>>>, es: Seq<EntryView>, n: int)
    requires
        0 <= n <= es.len(),
        glos.len() >= es.len(),
    ensures
        forall|p: int| #![trigger found_entries(s, full, text, glos, es, n)[p]]
            0 <= p < found_entries(s, full, text, glos, es, n).len() ==> exists|k: int| 0 <= k < n
            && found_entries(s, full, text, glos, es, n)[p] == #[trigger] es[k] && term_found(s, full, text, es[k].0, glos[k]),
        forall|k: int| 0 <= k < n && #[trigger] term_found(s, full, text, es[k].0, glos[k])
            ==> found_entries(s, full, text, glos, es, n).contains(es[k]),
    decreases n,
{
    if n > 0 {
        law_found_entries_are_found_terms(s, full, text, glos, es, n - 1);
        let before = found_entries(s, full, text, glos, es, n - 1);
        let f = found_entries(s, full, text, glos, es, n);
        if term_found(s, full, text, es[n - 1].0, glos[n - 1]) {
            assert(f == before.push(es[n - 1]));
            assert forall|p: int| #![trigger f[p]] 0 <= p < f.len() implies exists|k: int| 0 <= k < n
                && f[p] == #[trigger] es[k] && term_found(s, full, text, es[k].0, glos[k]) by {
                if p < before.len() {
                    assert(f[p] == before[p]);
                    let k = choose|k: int| 0 <= k < n - 1 && before[p] == #[trigger] es[k]
                        && term_found(s, full, text, es[k].0, glos[k]);
                    assert(f[p] == es[k]);
                } else {
                    assert(f[p] == es[n - 1]);
                }
            }
            assert forall|k: int| 0 <= k < n && #[trigger] term_found(s, full, text, es[k].0, glos[k])
                implies f.contains(es[k]) by {
                if k < n - 1 {
                    let p = choose|p: int| 0 <= p < before.len() && before[p] == es[k];
                    assert(f[p] == before[p]);
                } else {
                    assert(f[before.len() as int] == es[k]);
                }
            }
        } else {
            assert(f == before);
            assert forall|p: int| #![trigger f[p]] 0 <= p < f.len() implies exists|k: int| 0 <= k < n
                && f[p] == #[trigger] es[k] && term_found(s, full, text, es[k].0, glos[k]) by {
                assert(f[p] == before[p]);
                let k = choose|k: int| 0 <= k < n - 1 && before[p] == #[trigger] es[k]
                    && term_found(s, full, text, es[k].0, glos[k]);
                assert(f[p] == es[k]);
            }
        }
        assert forall|p: int| #![trigger found_entries(s, full, text, glos, es, n)[p]]
            0 <= p < found_entries(s, full, text, glos, es, n).len() implies exists|k: int| 0 <= k < n
            && found_entries(s, full, text, glos, es, n)[p] == #[trigger] es[k] && term_found(s, full, text, es[k].0, glos[k]) by {
            assert(f[p] == found_entries(s, full, text, glos, es, n)[p]);
        }
    }
}

/// Putting an entry into a list in display order adds exactly that entry.
proof fn lemma_insert_by_multiset(s: GlossarySearcher, v: Seq<EntryView>, x: EntryView)
    ensures
        insert_by(s, v, x).to_multiset() == v.to_multiset().insert(x),
    decreases v.len(),
{
    broadcast use vstd::seq_lib::group_to_multiset_ensures;
    if v.len() > 0 {
        if entry_order(s, v.last(), x) > 0 {
            lemma_insert_by_multiset(s, v.drop_last(), x);
            assert(v.drop_last().push(v.last()) =~= v);
        }
    } else {
        assert(seq![x] =~= Seq::<EntryView>::empty().push(x));
    }
}

/// Sorting glossary entries for display keeps every entry, as many times
/// as it was given, and adds none.
pub proof fn law_sorted_entries_are_a_permutation(s: GlossarySearcher, v: Seq<EntryView>)
    ensures
        sorted_by(s, v).to_multiset() == v.to_multiset(),
    decreases v.len(),
{
    broadcast use vstd::seq_lib::group_to_multiset_ensures;
    if v.len() > 0 {
        law_sorted_entries_are_a_permutation(s, v.drop_last());
        lemma_insert_by_multiset(s, sorted_by(s, v.drop_last()), v.last());
        assert(v.drop_last().push(v.last()) =~= v);
    }
}

} // verus!
