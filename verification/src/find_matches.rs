//! Fuzzy-match search over the project memory, extra memories and file
//! translations, keeping a bounded ranked list of near strings.
use vstd::prelude::*;
use crate::text::str_eq;
use crate::matching::{NearString, NearView, near_views, TmEntry, MAX_NEAR_STRINGS};
use crate::levenshtein::{token_similarity, similarity_spec, token_view};
use crate::external_tm::{penalty_from_origin, penalty_in, slashed};
use crate::text::{split_char, trim, trim_str, concat_str};
use crate::segment::{SrxTable, RuleView, rules_view, chunks, chunk_spaces, cut_rules, glued, strings_view, segment_with_srx, glue};

verus! {

pub const PENALTY_FOR_FUZZY: i32 = 40;
pub const SUBSEGMENT_MATCH_THRESHOLD: i32 = 85;
pub const PENALTY_FOR_FOREIGN_MATCHES_DEFAULT: i32 = 30;

/// Whether the existing hit `st` ranks below a new hit with these scores: by
/// score, then score without stemming, then adjusted score; among perfect
/// scores the exact source wins.
pub open spec fn ranks_below(st: NearView, query: Seq<char>, source: Seq<char>, score: i32, no_stem: i32, adjusted: i32) -> bool {
    st.score < score || (st.score == score && (st.score_no_stem < no_stem || (st.score_no_stem == no_stem
        && (st.adjusted_score < adjusted || (score == 100 && st.source != query && source == query)))))
}

/// Where a new hit goes: before the first hit that ranks below it.
pub open spec fn near_slot(v: Seq<NearView>, query: Seq<char>, source: Seq<char>, score: i32, no_stem: i32, adjusted: i32) -> int
    decreases v.len(),
{
    if v.len() == 0 {
        0
    } else if ranks_below(v[0], query, source, score, no_stem, adjusted) {
        0
    } else {
        1 + near_slot(v.drop_first(), query, source, score, no_stem, adjusted)
    }
}

/// Index of the first hit with this source and translation.
pub open spec fn dup_of(v: Seq<NearView>, source: Seq<char>, translation: Seq<char>) -> Option<int>
    decreases v.len(),
{
    if v.len() == 0 {
        None
    } else if v[0].source == source && v[0].translation == translation {
        Some(0)
    } else {
        match dup_of(v.drop_first(), source, translation) {
            Some(i) => Some(i + 1),
            None => None,
        }
    }
}

/// A new hit to merge into the list.
pub ghost struct HitView {
    pub source: Seq<char>,
    pub translation: Seq<char>,
    pub score: i32,
    pub score_no_stem: i32,
    pub adjusted_score: i32,
    pub penalty: i32,
    pub comes_from: Seq<char>,
    pub tmx_name: Seq<char>,
    pub fuzzy: bool,
}

/// The list after merging hit `h`: a duplicate only gains the memory name it
/// lacked; a new hit is ranked in and the list keeps at most `max(limit, 1)`.
pub open spec fn merge_hit(v: Seq<NearView>, query: Seq<char>, h: HitView, limit: usize) -> Seq<NearView> {
    match dup_of(v, h.source, h.translation) {
        Some(d) => {
            let st = v[d];
            let unnamed = match st.project { Some(p) => p.len() == 0, None => true };
            if unnamed && h.tmx_name.len() > 0 {
                v.update(d, NearView { project: Some(h.tmx_name), ..st })
            } else {
                v
            }
        },
        None => {
            let n = NearView {
                source: h.source, translation: h.translation, score: h.score, score_no_stem: h.score_no_stem,
                adjusted_score: h.adjusted_score, penalty: h.penalty, comes_from: h.comes_from,
                project: if h.tmx_name.len() == 0 { None } else { Some(h.tmx_name) }, fuzzy: h.fuzzy,
            };
            let w = v.insert(near_slot(v, query, h.source, h.score, h.score_no_stem, h.adjusted_score), n);
            let cap = if limit == 0 { 1 } else { limit as int };
            if w.len() > cap { w.drop_last() } else { w }
        },
    }
}

proof fn lemma_near_slot_bound(v: Seq<NearView>, query: Seq<char>, source: Seq<char>, score: i32, no_stem: i32, adjusted: i32)
    ensures
        0 <= near_slot(v, query, source, score, no_stem, adjusted) <= v.len(),
    decreases v.len(),
{
    if v.len() > 0 {
        lemma_near_slot_bound(v.drop_first(), query, source, score, no_stem, adjusted);
    }
}

proof fn lemma_near_slot_at(v: Seq<NearView>, query: Seq<char>, source: Seq<char>, score: i32, no_stem: i32, adjusted: i32, i: int)
    requires
        0 <= i <= v.len(),
        forall|k: int| 0 <= k < i ==> !ranks_below(#[trigger] v[k], query, source, score, no_stem, adjusted),
        i < v.len() ==> ranks_below(v[i], query, source, score, no_stem, adjusted),
    ensures
        near_slot(v, query, source, score, no_stem, adjusted) == i,
    decreases v.len(),
{
    if v.len() > 0 && i > 0 {
        let d = v.drop_first();
        assert forall|k: int| 0 <= k < i - 1 implies !ranks_below(#[trigger] d[k], query, source, score, no_stem, adjusted) by {
            assert(d[k] == v[k + 1]);
        }
        if i < v.len() { assert(d[i - 1] == v[i]); }
        lemma_near_slot_at(d, query, source, score, no_stem, adjusted, i - 1);
    }
}

proof fn lemma_dup_at(v: Seq<NearView>, source: Seq<char>, translation: Seq<char>, i: int)
    requires
        0 <= i <= v.len(),
        forall|k: int| 0 <= k < i ==> !((#[trigger] v[k]).source == source && v[k].translation == translation),
        i < v.len() ==> v[i].source == source && v[i].translation == translation,
    ensures
        i < v.len() ==> dup_of(v, source, translation) == Some(i),
        i == v.len() ==> dup_of(v, source, translation) is None,
    decreases v.len(),
{
    if v.len() > 0 && i > 0 {
        let d = v.drop_first();
        assert forall|k: int| 0 <= k < i - 1 implies !((#[trigger] d[k]).source == source && d[k].translation == translation) by {
            assert(d[k] == v[k + 1]);
        }
        if i < v.len() { assert(d[i - 1] == v[i]); }
        lemma_dup_at(d, source, translation, i - 1);
    }
}

fn ranks_below_exec(st: &NearString, query: &str, source: &str, score: i32, no_stem: i32, adjusted: i32) -> (r: bool)
    ensures
        r == ranks_below(st@, query@, source@, score, no_stem, adjusted),
{
    st.score < score || (st.score == score && (st.score_no_stem < no_stem || (st.score_no_stem == no_stem
        && (st.adjusted_score < adjusted || (score == 100 && !str_eq(st.source.as_str(), query) && str_eq(source, query))))))
}

/// Merge one hit into the ranked list (see `merge_hit`).
pub fn insert_near(
    result: &mut Vec<NearString>,
    query: &str,
    source: &str,
    translation: &str,
    score: i32,
    score_no_stem: i32,
    adjusted: i32,
    penalty: i32,
    comes_from: &str,
    tmx_name: &str,
    limit: usize,
    fuzzy: bool,
)
    ensures
        near_views(final(result)@) == merge_hit(near_views(old(result)@), query@, HitView {
            source: source@, translation: translation@, score, score_no_stem, adjusted_score: adjusted,
            penalty, comes_from: comes_from@, tmx_name: tmx_name@, fuzzy,
        }, limit),
{
    let ghost v0 = near_views(result@);
    let ghost h = HitView {
        source: source@, translation: translation@, score, score_no_stem, adjusted_score: adjusted,
        penalty, comes_from: comes_from@, tmx_name: tmx_name@, fuzzy,
    };
    let mut i: usize = 0;
    while i < result.len()
        invariant
            i <= result@.len(),
            v0 == near_views(result@),
            v0 == near_views(old(result)@),
            h == (HitView {
                source: source@, translation: translation@, score, score_no_stem, adjusted_score: adjusted,
                penalty, comes_from: comes_from@, tmx_name: tmx_name@, fuzzy,
            }),
            forall|k: int| 0 <= k < i ==> !((#[trigger] v0[k]).source == source@ && v0[k].translation == translation@),
        decreases result@.len() - i,
    {
        if str_eq(result[i].source.as_str(), source) && str_eq(result[i].translation.as_str(), translation) {
            assert(v0[i as int] == result@[i as int]@);
            proof { lemma_dup_at(v0, source@, translation@, i as int); }
            assert(dup_of(v0, source@, translation@) == Some(i as int));
            let unnamed = match &result[i].project {
                Some(p) => p.as_str().is_empty(),
                None => true,
            };
            assert(unnamed == (match v0[i as int].project { Some(p) => p.len() == 0, None => true }));
            if unnamed && !tmx_name.is_empty() {
                let mut st = result.remove(i);
                st.project = Some(tmx_name.to_owned());
                result.insert(i, st);
                assert(near_views(result@) =~= v0.update(i as int, NearView { project: Some(tmx_name@), ..v0[i as int] }));
                assert(near_views(result@) == merge_hit(v0, query@, h, limit));
            } else {
                assert(near_views(result@) == merge_hit(v0, query@, h, limit));
            }
            return;
        }
        i = i + 1;
    }
    proof { lemma_dup_at(v0, source@, translation@, i as int); }
    let mut pos: usize = 0;
    while pos < result.len() && !ranks_below_exec(&result[pos], query, source, score, score_no_stem, adjusted)
        invariant
            pos <= result@.len(),
            v0 == near_views(result@),
            forall|k: int| 0 <= k < pos ==> !ranks_below(#[trigger] v0[k], query@, source@, score, score_no_stem, adjusted),
        decreases result@.len() - pos,
    {
        pos = pos + 1;
    }
    proof { lemma_near_slot_at(v0, query@, source@, score, score_no_stem, adjusted, pos as int); }
    let n = NearString {
        source: source.to_owned(),
        translation: translation.to_owned(),
        score,
        score_no_stem,
        adjusted_score: adjusted,
        penalty,
        comes_from: comes_from.to_owned(),
        project: if tmx_name.is_empty() { None } else { Some(tmx_name.to_owned()) },
        fuzzy,
    };
    let ghost nv = n@;
    result.insert(pos, n);
    assert(near_views(result@) =~= v0.insert(pos as int, nv));
    let cap: usize = if limit == 0 { 1 } else { limit };
    if result.len() > cap {
        let ghost w = near_views(result@);
        result.pop();
        assert(near_views(result@) =~= w.drop_last());
    }
}


/// A translation of a project file.
pub struct FileTranslation {
    pub source: String,
    pub translation: String,
    pub file: String,
    pub fuzzy: bool,
}

/// The tokens of one text for the request's tokenizer: stemmed, unstemmed
/// lower-case, and every lower-case token.
pub struct TokenSets {
    pub stem: Vec<String>,
    pub no_stem: Vec<String>,
    pub all: Vec<String>,
}

/// One search: the query, where to look, and how to rank.
pub struct SearchRequest<'a> {
    pub query: &'a str,
    pub memory: &'a [TmEntry],
    pub extra: &'a [(TmEntry, String)],
    pub files: &'a [FileTranslation],
    pub tokenizer: &'a str,
    pub source_lang: &'a str,
    pub target_lang: &'a str,
    pub threshold: i32,
    pub limit: usize,
    pub search_exactly_the_same: bool,
    pub run_separate_segment_match: bool,
    pub foreign_penalty: i32,
}

impl<'a> SearchRequest<'a> {
    /// A request with no file translations, threshold 30, the default limit,
    /// no exact-source matches, no subsegment matching and the default
    /// foreign penalty.
    pub fn new(query: &'a str, memory: &'a [TmEntry], extra: &'a [(TmEntry, String)], tokenizer: &'a str,
        source_lang: &'a str, target_lang: &'a str) -> (r: Self)
        ensures
            r.query == query && r.memory == memory && r.extra == extra && r.files@.len() == 0
                && r.tokenizer == tokenizer && r.source_lang == source_lang && r.target_lang == target_lang
                && r.threshold == 30 && r.limit == MAX_NEAR_STRINGS && !r.search_exactly_the_same
                && !r.run_separate_segment_match && r.foreign_penalty == PENALTY_FOR_FOREIGN_MATCHES_DEFAULT,
    {
        SearchRequest {
            query, memory, extra, files: &[], tokenizer, source_lang, target_lang,
            threshold: 30, limit: MAX_NEAR_STRINGS, search_exactly_the_same: false,
            run_separate_segment_match: false, foreign_penalty: PENALTY_FOR_FOREIGN_MATCHES_DEFAULT,
        }
    }
}

/// `v` saturated to the range of `i32`.
pub open spec fn sat(v: int) -> i32 {
    if v > i32::MAX { i32::MAX } else if v < i32::MIN { i32::MIN } else { v as i32 }
}

fn sat_exec(v: i64) -> (r: i32)
    ensures
        r == sat(v as int),
{
    if v > 2147483647 { 2147483647 } else if v < -2147483648 { -2147483648 } else { v as i32 }
}

/// A score less the penalty, and less the fuzzy penalty for a fuzzy source.
pub open spec fn penalized(sim: int, penalty: int, fuzzy: bool) -> i32 {
    sat(sim - penalty - (if fuzzy { PENALTY_FOR_FUZZY as int } else { 0 }))
}

/// The three penalized scores of two token sets.
pub open spec fn set_scores(q: TokenSets, c: TokenSets, penalty: int, fuzzy: bool) -> (i32, i32, i32) {
    (penalized(similarity_spec(token_view(q.stem@), token_view(c.stem@)), penalty, fuzzy),
     penalized(similarity_spec(token_view(q.no_stem@), token_view(c.no_stem@)), penalty, fuzzy),
     penalized(similarity_spec(token_view(q.all@), token_view(c.all@)), penalty, fuzzy))
}

fn scores_for(q: &TokenSets, c: &TokenSets, penalty: i32, fuzzy: bool) -> (r: (i32, i32, i32))
    ensures
        r == set_scores(*q, *c, penalty as int, fuzzy),
{
    let stem = token_similarity(&q.stem, &c.stem);
    let no_stem = token_similarity(&q.no_stem, &c.no_stem);
    let adj = token_similarity(&q.all, &c.all);
    let f: i64 = if fuzzy { 40 } else { 0 };
    (sat_exec(stem as i64 - penalty as i64 - f), sat_exec(no_stem as i64 - penalty as i64 - f),
     sat_exec(adj as i64 - penalty as i64 - f))
}

/// One candidate for the ranked list.
pub ghost struct Cand {
    pub source: Seq<char>,
    pub translation: Seq<char>,
    pub comes_from: Seq<char>,
    pub tmx_name: Seq<char>,
    pub penalty: int,
    pub fuzzy: bool,
    pub skip_exact: bool,
}

/// Whether a candidate is scored at all: it has a translation, and an exact
/// project-memory source is skipped unless exact matches are wanted.
pub open spec fn considered(c: Cand, query: Seq<char>, exact_same: bool) -> bool {
    c.translation.len() > 0 && !(c.skip_exact && !exact_same && c.source == query)
}

/// Whether scores reach the threshold (a non-positive threshold keeps all).
pub open spec fn reaches(sc: (i32, i32, i32), threshold: i32) -> bool {
    !(threshold > 0 && sc.0 < threshold && sc.1 < threshold && sc.2 < threshold)
}

/// The ranked list after the candidates, in order, with their scores.
pub open spec fn fold_hits(cands: Seq<Cand>, scs: Seq<(i32, i32, i32)>, query: Seq<char>, threshold: i32, limit: usize,
    exact_same: bool) -> Seq<NearView>
    decreases cands.len(),
{
    if cands.len() == 0 {
        Seq::empty()
    } else {
        let acc = fold_hits(cands.drop_last(), scs.drop_last(), query, threshold, limit, exact_same);
        let c = cands.last();
        let sc = scs.last();
        if considered(c, query, exact_same) && reaches(sc, threshold) {
            merge_hit(acc, query, HitView {
                source: c.source, translation: c.translation, score: sc.0, score_no_stem: sc.1,
                adjusted_score: sc.2, penalty: c.penalty as i32, comes_from: c.comes_from,
                tmx_name: c.tmx_name, fuzzy: c.fuzzy,
            }, limit)
        } else {
            acc
        }
    }
}

/// The scores of a considered candidate are what its tokens can give.
pub open spec fn score_fits<G: Fn(&str, &str) -> TokenSets>(query: &str, tokenizer: &str, tokens: G, c: Cand,
    sc: (i32, i32, i32)) -> bool {
    exists|tq: TokenSets, text: &str, tc: TokenSets|
        #![trigger set_scores(tq, tc, c.penalty, c.fuzzy), text@]
        text@ == c.source && tokens.ensures((query, tokenizer), tq) && tokens.ensures((text, tokenizer), tc)
        && sc == set_scores(tq, tc, c.penalty, c.fuzzy)
}

pub open spec fn scores_fit<G: Fn(&str, &str) -> TokenSets>(query: &str, tokenizer: &str, tokens: G, cands: Seq<Cand>,
    scs: Seq<(i32, i32, i32)>, exact_same: bool) -> bool {
    &&& scs.len() == cands.len()
    &&& forall|k: int| 0 <= k < cands.len() && considered(cands[k], query@, exact_same)
            ==> #[trigger] score_fits(query, tokenizer, tokens, cands[k], scs[k])
}

pub open spec fn memory_cand(e: TmEntry) -> Cand {
    Cand { source: e.source@, translation: e.translation@, comes_from: "MEMORY"@, tmx_name: Seq::empty(),
        penalty: e.penalty as int, fuzzy: false, skip_exact: true }
}

/// The penalty of an extra entry: the larger of its own and its folder's,
/// plus the foreign penalty for a foreign entry.
pub open spec fn extra_penalty(e: TmEntry, origin: Seq<char>, foreign: bool, foreign_penalty: i32) -> int {
    let own = e.penalty as int;
    let folder = penalty_in(split_char(slashed(origin), '/'));
    let base = if own >= folder { own } else { folder };
    sat(base + (if foreign { foreign_penalty as int } else { 0 })) as int
}

pub open spec fn extra_cand(e: TmEntry, origin: Seq<char>, foreign: bool, foreign_penalty: i32) -> Cand {
    Cand { source: e.source@, translation: e.translation@, comes_from: "TM"@, tmx_name: origin,
        penalty: extra_penalty(e, origin, foreign, foreign_penalty), fuzzy: false, skip_exact: false }
}

pub open spec fn file_cand(f: FileTranslation) -> Cand {
    Cand { source: f.source@, translation: f.translation@, comes_from: "FILES"@, tmx_name: f.file@,
        penalty: 0, fuzzy: f.fuzzy, skip_exact: false }
}

/// A `foreignMatch` property set to `true`.
pub open spec fn marked_foreign(props: Seq<(String, String)>) -> bool {
    exists|k: int| 0 <= k < props.len() && (#[trigger] props[k]).0@ == "foreignMatch"@ && props[k].1@ == "true"@
}

/// A `targetLanguage` property that is set.
pub open spec fn target_prop(p: (String, String)) -> bool {
    p.0@ == "targetLanguage"@ && p.1@.len() > 0
}

/// The language comparison can answer `answer` for this property's value.
pub open spec fn language_answer<L: Fn(&str, &str) -> bool>(value: Seq<char>, target: &str, same_language: L, answer: bool) -> bool {
    exists|v: &str| #[trigger] v@ == value && same_language.ensures((v, target), answer)
}

/// The foreign flag of an entry agrees with the language comparison: foreign
/// where marked so or where some target-language property differs from the
/// target, not foreign where every one of them matches.
pub open spec fn foreign_fits<L: Fn(&str, &str) -> bool>(e: TmEntry, target: &str, same_language: L, flag: bool) -> bool {
    &&& flag ==> marked_foreign(e.props@) || exists|k: int| 0 <= k < e.props@.len() && target_prop(#[trigger] e.props@[k])
            && language_answer(e.props@[k].1@, target, same_language, false)
    &&& !flag ==> !marked_foreign(e.props@) && forall|k: int| 0 <= k < e.props@.len() && target_prop(#[trigger] e.props@[k])
            ==> language_answer(e.props@[k].1@, target, same_language, true)
}

fn is_foreign<L: Fn(&str, &str) -> bool>(e: &TmEntry, target: &str, same_language: &L) -> (r: bool)
    requires
        forall|a: &str, b: &str| #[trigger] same_language.requires((a, b)),
    ensures
        foreign_fits(*e, target, *same_language, r),
{
    let mut i: usize = 0;
    while i < e.props.len()
        invariant
            i <= e.props@.len(),
            forall|k: int| 0 <= k < i ==> !((#[trigger] e.props@[k]).0@ == "foreignMatch"@ && e.props@[k].1@ == "true"@),
        decreases e.props@.len() - i,
    {
        if str_eq(e.props[i].0.as_str(), "foreignMatch") && str_eq(e.props[i].1.as_str(), "true") {
            return true;
        }
        i = i + 1;
    }
    let mut j: usize = 0;
    while j < e.props.len()
        invariant
            j <= e.props@.len(),
            !marked_foreign(e.props@),
            forall|a: &str, b: &str| #[trigger] same_language.requires((a, b)),
            forall|k: int| 0 <= k < j && target_prop(#[trigger] e.props@[k]) ==> language_answer(e.props@[k].1@, target, *same_language, true),
        decreases e.props@.len() - j,
    {
        if str_eq(e.props[j].0.as_str(), "targetLanguage") && !e.props[j].1.as_str().is_empty() {
            let v = e.props[j].1.as_str();
            let same = same_language(v, target);
            assert(v@ == e.props@[j as int].1@);
            if !same {
                assert(language_answer(e.props@[j as int].1@, target, *same_language, false));
                return true;
            }
            assert(language_answer(e.props@[j as int].1@, target, *same_language, true));
        }
        j = j + 1;
    }
    false
}


/// Candidates of the three sources in search order.
pub open spec fn all_cands(req: SearchRequest, foreign: Seq<bool>) -> Seq<Cand> {
    req.memory@.map_values(|e: TmEntry| memory_cand(e))
        + Seq::new(req.extra@.len(), |i: int| extra_cand(req.extra@[i].0, req.extra@[i].1@, foreign[i], req.foreign_penalty))
        + req.files@.map_values(|f: FileTranslation| file_cand(f))
}

pub open spec fn foreigns_fit<L: Fn(&str, &str) -> bool>(req: SearchRequest, same_language: L, foreign: Seq<bool>) -> bool {
    &&& foreign.len() == req.extra@.len()
    &&& forall|i: int| 0 <= i < foreign.len() ==> #[trigger] foreign_fits(req.extra@[i].0, req.target_lang, same_language, foreign[i])
}

/// The ranked list of the direct candidates (no subsegment matching), with the
/// foreign flags and scores the closures gave.
fn direct_hits<G: Fn(&str, &str) -> TokenSets, L: Fn(&str, &str) -> bool>(req: &SearchRequest, tokens: &G, same_language: &L)
    -> (r: (Vec<NearString>, Ghost<Seq<bool>>, Ghost<Seq<(i32, i32, i32)>>))
    requires
        forall|a: &str, b: &str| #[trigger] tokens.requires((a, b)),
        forall|a: &str, b: &str| #[trigger] same_language.requires((a, b)),
    ensures
        foreigns_fit(*req, *same_language, r.1@),
        scores_fit(req.query, req.tokenizer, *tokens, all_cands(*req, r.1@), r.2@, req.search_exactly_the_same),
        near_views(r.0@) == fold_hits(all_cands(*req, r.1@), r.2@, req.query@, req.threshold, req.limit,
            req.search_exactly_the_same),
{
    let mut result: Vec<NearString> = Vec::new();
    let ghost mut cands: Seq<Cand> = Seq::empty();
    let ghost mut scs: Seq<(i32, i32, i32)> = Seq::empty();
    let ghost mut foreign: Seq<bool> = Seq::empty();
    let ghost q = req.query@;
    let ghost ex = req.search_exactly_the_same;
    let mut i: usize = 0;
    while i < req.memory.len()
        invariant
            i <= req.memory@.len(),
            forall|a: &str, b: &str| #[trigger] tokens.requires((a, b)),
            q == req.query@, ex == req.search_exactly_the_same,
            cands == req.memory@.subrange(0, i as int).map_values(|e: TmEntry| memory_cand(e)),
            scores_fit(req.query, req.tokenizer, *tokens, cands, scs, ex),
            near_views(result@) == fold_hits(cands, scs, q, req.threshold, req.limit, ex),
        decreases req.memory@.len() - i,
    {
        let e = &req.memory[i];
        let ghost c = memory_cand(*e);
        let ghost c2 = cands.push(c);
        assert(c2 =~= req.memory@.subrange(0, i + 1).map_values(|e: TmEntry| memory_cand(e)));
        proof { reveal_strlit(""); }
        assert(""@ =~= Seq::<char>::empty());
        let sc = add_candidate(&mut result, req, e.source.as_str(), e.translation.as_str(), "MEMORY", "",
            e.penalty, false, true, tokens, Ghost(c));
        proof { lemma_fold_step(cands, scs, c, sc, q, req.threshold, req.limit, ex, req.query, req.tokenizer, *tokens); }
        proof { cands = c2; scs = scs.push(sc); }
        i = i + 1;
    }
    assert(req.memory@.subrange(0, req.memory@.len() as int) =~= req.memory@);
    let ghost mc = cands;
    let mut j: usize = 0;
    while j < req.extra.len()
        invariant
            j <= req.extra@.len(),
            forall|a: &str, b: &str| #[trigger] tokens.requires((a, b)),
            forall|a: &str, b: &str| #[trigger] same_language.requires((a, b)),
            q == req.query@, ex == req.search_exactly_the_same,
            mc == req.memory@.map_values(|e: TmEntry| memory_cand(e)),
            foreign.len() == j,
            forall|k: int| 0 <= k < j ==> #[trigger] foreign_fits(req.extra@[k].0, req.target_lang, *same_language, foreign[k]),
            cands == mc + Seq::new(j as nat, |k: int| extra_cand(req.extra@[k].0, req.extra@[k].1@, foreign[k], req.foreign_penalty)),
            scores_fit(req.query, req.tokenizer, *tokens, cands, scs, ex),
            near_views(result@) == fold_hits(cands, scs, q, req.threshold, req.limit, ex),
        decreases req.extra@.len() - j,
    {
        let e = &req.extra[j].0;
        let origin = &req.extra[j].1;
        let own = e.penalty;
        let folder = penalty_from_origin(origin.as_str());
        let base: i32 = if own >= folder { own } else { folder };
        let f = is_foreign(e, req.target_lang, same_language);
        let penalty = sat_exec(base as i64 + (if f { req.foreign_penalty as i64 } else { 0 }));
        let ghost c = extra_cand(*e, origin@, f, req.foreign_penalty);
        assert(c.penalty == penalty as int);
        let ghost c2 = cands.push(c);
        let ghost f2 = foreign.push(f);
        assert(c2 =~= mc + Seq::new((j + 1) as nat, |k: int| extra_cand(req.extra@[k].0, req.extra@[k].1@, f2[k], req.foreign_penalty)));
        let sc = add_candidate(&mut result, req, e.source.as_str(), e.translation.as_str(), "TM", origin.as_str(),
            penalty, false, false, tokens, Ghost(c));
        proof { lemma_fold_step(cands, scs, c, sc, q, req.threshold, req.limit, ex, req.query, req.tokenizer, *tokens); }
        proof { cands = c2; scs = scs.push(sc); foreign = f2; }
        j = j + 1;
    }
    let ghost ec = cands;
    let mut k: usize = 0;
    while k < req.files.len()
        invariant
            k <= req.files@.len(),
            forall|a: &str, b: &str| #[trigger] tokens.requires((a, b)),
            q == req.query@, ex == req.search_exactly_the_same,
            cands == ec + req.files@.subrange(0, k as int).map_values(|f: FileTranslation| file_cand(f)),
            scores_fit(req.query, req.tokenizer, *tokens, cands, scs, ex),
            near_views(result@) == fold_hits(cands, scs, q, req.threshold, req.limit, ex),
        decreases req.files@.len() - k,
    {
        let f = &req.files[k];
        let ghost c = file_cand(*f);
        let ghost c2 = cands.push(c);
        assert(c2 =~= ec + req.files@.subrange(0, k + 1).map_values(|f: FileTranslation| file_cand(f)));
        let sc = add_candidate(&mut result, req, f.source.as_str(), f.translation.as_str(), "FILES", f.file.as_str(),
            0, f.fuzzy, false, tokens, Ghost(c));
        proof { lemma_fold_step(cands, scs, c, sc, q, req.threshold, req.limit, ex, req.query, req.tokenizer, *tokens); }
        proof { cands = c2; scs = scs.push(sc); }
        k = k + 1;
    }
    assert(req.files@.subrange(0, req.files@.len() as int) =~= req.files@);
    assert(cands =~= all_cands(*req, foreign));
    (result, Ghost(foreign), Ghost(scs))
}

proof fn lemma_fold_step<G: Fn(&str, &str) -> TokenSets>(cands: Seq<Cand>, scs: Seq<(i32, i32, i32)>, c: Cand, sc: (i32, i32, i32),
    q: Seq<char>, threshold: i32, limit: usize, ex: bool, query: &str, tokenizer: &str, tokens: G)
    requires
        scores_fit(query, tokenizer, tokens, cands, scs, ex),
        q == query@,
        considered(c, q, ex) ==> score_fits(query, tokenizer, tokens, c, sc),
    ensures
        scores_fit(query, tokenizer, tokens, cands.push(c), scs.push(sc), ex),
        fold_hits(cands.push(c), scs.push(sc), q, threshold, limit, ex) == (if considered(c, q, ex) && reaches(sc, threshold) {
            merge_hit(fold_hits(cands, scs, q, threshold, limit, ex), q, HitView {
                source: c.source, translation: c.translation, score: sc.0, score_no_stem: sc.1,
                adjusted_score: sc.2, penalty: c.penalty as i32, comes_from: c.comes_from,
                tmx_name: c.tmx_name, fuzzy: c.fuzzy,
            }, limit)
        } else {
            fold_hits(cands, scs, q, threshold, limit, ex)
        }),
{
    let c2 = cands.push(c);
    let s2 = scs.push(sc);
    assert(c2.drop_last() =~= cands);
    assert(s2.drop_last() =~= scs);
    assert forall|k: int| 0 <= k < c2.len() && considered(c2[k], query@, ex) implies
        #[trigger] score_fits(query, tokenizer, tokens, c2[k], s2[k]) by {
        if k < cands.len() { assert(c2[k] == cands[k] && s2[k] == scs[k]); }
    }
}

/// Score one candidate and merge it in, as the search does for each; the
/// scores are returned (meaningful where the candidate is considered).
fn add_candidate<G: Fn(&str, &str) -> TokenSets>(result: &mut Vec<NearString>, req: &SearchRequest, source: &str,
    translation: &str, comes_from: &str, tmx_name: &str, penalty: i32, fuzzy: bool, skip_exact: bool, tokens: &G,
    Ghost(c): Ghost<Cand>) -> (sc: (i32, i32, i32))
    requires
        forall|a: &str, b: &str| #[trigger] tokens.requires((a, b)),
        c == (Cand { source: source@, translation: translation@, comes_from: comes_from@, tmx_name: tmx_name@,
            penalty: penalty as int, fuzzy, skip_exact }),
    ensures
        considered(c, req.query@, req.search_exactly_the_same) ==> score_fits(req.query, req.tokenizer, *tokens, c, sc),
        near_views(final(result)@) == (if considered(c, req.query@, req.search_exactly_the_same) && reaches(sc, req.threshold) {
            merge_hit(near_views(old(result)@), req.query@, HitView {
                source: c.source, translation: c.translation, score: sc.0, score_no_stem: sc.1,
                adjusted_score: sc.2, penalty: c.penalty as i32, comes_from: c.comes_from,
                tmx_name: c.tmx_name, fuzzy: c.fuzzy,
            }, req.limit)
        } else {
            near_views(old(result)@)
        }),
{
    if translation.is_empty() {
        return (0, 0, 0);
    }
    if skip_exact && !req.search_exactly_the_same && str_eq(source, req.query) {
        return (0, 0, 0);
    }
    let tq = tokens(req.query, req.tokenizer);
    let tc = tokens(source, req.tokenizer);
    let sc = scores_for(&tq, &tc, penalty, fuzzy);
    assert(sc == set_scores(tq, tc, c.penalty, c.fuzzy));
    assert(source@ == c.source);
    assert(score_fits(req.query, req.tokenizer, *tokens, c, sc));
    if req.threshold > 0 && sc.0 < req.threshold && sc.1 < req.threshold && sc.2 < req.threshold {
        return sc;
    }
    insert_near(result, req.query, source, translation, sc.0, sc.1, sc.2, penalty, comes_from, tmx_name, req.limit, fuzzy);
    sc
}


/// A possible outcome of the search for one sentence: the best hit (at most
/// one) over all candidates, searched with exact matches allowed.
pub open spec fn sub_fits<G: Fn(&str, &str) -> TokenSets, L: Fn(&str, &str) -> bool>(req: SearchRequest, tokens: G,
    same_language: L, q: Seq<char>, res: Seq<NearView>) -> bool {
    exists|qs: &str, f: Seq<bool>, s: Seq<(i32, i32, i32)>|
        #![trigger qs@, foreigns_fit(req, same_language, f), fold_hits(all_cands(req, f), s, q, req.threshold, 1usize, true)]
        qs@ == q && foreigns_fit(req, same_language, f) && scores_fit(qs, req.tokenizer, tokens, all_cands(req, f), s, true)
            && res == fold_hits(all_cands(req, f), s, q, req.threshold, 1usize, true)
}

/// What a sentence contributes: the source, translation, memory name and
/// penalty of its best hit where that scores at least the subsegment
/// threshold, else empty texts.
pub open spec fn piece_of(sub: Seq<NearView>) -> (Seq<char>, Seq<char>, Seq<char>, int) {
    if sub.len() > 0 && sub[0].score >= SUBSEGMENT_MATCH_THRESHOLD {
        (sub[0].source, sub[0].translation, match sub[0].project { Some(p) => p, None => Seq::empty() }, sub[0].penalty as int)
    } else {
        (Seq::empty(), Seq::empty(), Seq::empty(), 0)
    }
}

/// The distinct non-empty memory names of the first `k` sentences, first seen first.
pub open spec fn sub_names(subs: Seq<Seq<NearView>>, k: int) -> Seq<Seq<char>>
    decreases k,
{
    if k <= 0 {
        Seq::empty()
    } else {
        let acc = sub_names(subs, k - 1);
        let n = piece_of(subs[k - 1]).2;
        if n.len() > 0 && !acc.contains(n) { acc.push(n) } else { acc }
    }
}

/// Names joined with `,`.
pub open spec fn comma_joined(names: Seq<Seq<char>>) -> Seq<char>
    decreases names.len(),
{
    if names.len() == 0 {
        Seq::empty()
    } else if names.len() == 1 {
        names[0]
    } else {
        comma_joined(names.drop_last()) + seq![','] + names.last()
    }
}

pub open spec fn max_penalty(subs: Seq<Seq<NearView>>, k: int) -> int
    decreases k,
{
    if k <= 0 {
        0
    } else {
        let m = max_penalty(subs, k - 1);
        let p = piece_of(subs[k - 1]).3;
        if p > m { p } else { m }
    }
}

pub open spec fn piece_srcs(subs: Seq<Seq<NearView>>, k: int) -> Seq<Seq<char>> {
    Seq::new(k as nat, |j: int| piece_of(subs[j]).0)
}

pub open spec fn piece_trs(subs: Seq<Seq<NearView>>, k: int) -> Seq<Seq<char>> {
    Seq::new(k as nat, |j: int| piece_of(subs[j]).1)
}

/// The candidate glued from the sentences' best hits.
pub open spec fn sub_cand(req: SearchRequest, subs: Seq<Seq<NearView>>, spaces: Seq<Seq<char>>, brules: Seq<RuleView>) -> Cand {
    let n = subs.len() as int;
    let srcs = piece_srcs(subs, n);
    let trs = piece_trs(subs, n);
    Cand {
        source: glued(req.source_lang@, req.source_lang@, srcs, spaces, brules, n),
        translation: glued(req.source_lang@, req.target_lang@, trs, spaces, brules, n),
        comes_from: "SUBSEGMENTS"@,
        tmx_name: comma_joined(sub_names(subs, n)),
        penalty: max_penalty(subs, n),
        fuzzy: false,
        skip_exact: false,
    }
}

/// The ranked list with a candidate merged in, where it is scored and
/// reaches the threshold.
pub open spec fn with_cand(v: Seq<NearView>, c: Cand, sc: (i32, i32, i32), req: SearchRequest) -> Seq<NearView> {
    if considered(c, req.query@, req.search_exactly_the_same) && reaches(sc, req.threshold) {
        merge_hit(v, req.query@, HitView {
            source: c.source, translation: c.translation, score: sc.0, score_no_stem: sc.1,
            adjusted_score: sc.2, penalty: c.penalty as i32, comes_from: c.comes_from,
            tmx_name: c.tmx_name, fuzzy: c.fuzzy,
        }, req.limit)
    } else {
        v
    }
}

/// A possible outcome of subsegment matching: each sentence searched on its
/// own, their best hits glued into one candidate (where its translation is
/// not blank) and merged into the direct hits.
pub open spec fn subsegment_outcome<G: Fn(&str, &str) -> TokenSets, L: Fn(&str, &str) -> bool>(req: SearchRequest,
    tokens: G, same_language: L, rules: Seq<RuleView>, direct: Seq<NearView>, out: Seq<NearView>) -> bool {
    let cs = chunks(req.query@, rules);
    let sentences = cs.map_values(|c: Seq<char>| trim(c));
    exists|subs: Seq<Seq<NearView>>, sc: (i32, i32, i32)|
        #![trigger sub_cand(req, subs, chunk_spaces(cs), cut_rules(req.query@, rules)), with_cand(direct, sub_cand(req, subs, chunk_spaces(cs), cut_rules(req.query@, rules)), sc, req)]
        subs.len() == sentences.len()
        && (forall|i: int| 0 <= i < subs.len() ==> #[trigger] sub_fits(req, tokens, same_language, sentences[i], subs[i]))
        && ({
            let c = sub_cand(req, subs, chunk_spaces(cs), cut_rules(req.query@, rules));
            if trim(c.translation).len() > 0 {
                (considered(c, req.query@, req.search_exactly_the_same) ==> score_fits(req.query, req.tokenizer, tokens, c, sc))
                    && out == with_cand(direct, c, sc, req)
            } else {
                out == direct
            }
        })
}

/// The direct outcome: every candidate of the project memory, the extra
/// memories and the file translations scored and ranked.
pub open spec fn direct_outcome<G: Fn(&str, &str) -> TokenSets, L: Fn(&str, &str) -> bool>(req: SearchRequest,
    tokens: G, same_language: L, direct: Seq<NearView>) -> bool {
    exists|f: Seq<bool>, s: Seq<(i32, i32, i32)>|
        #![trigger fold_hits(all_cands(req, f), s, req.query@, req.threshold, req.limit, req.search_exactly_the_same)]
        foreigns_fit(req, same_language, f)
        && scores_fit(req.query, req.tokenizer, tokens, all_cands(req, f), s, req.search_exactly_the_same)
        && direct == fold_hits(all_cands(req, f), s, req.query@, req.threshold, req.limit, req.search_exactly_the_same)
}

/// A possible outcome of a search: the direct hits, with the subsegment
/// candidate merged in where subsegment matching applies.
pub open spec fn search_outcome<G: Fn(&str, &str) -> TokenSets, L: Fn(&str, &str) -> bool>(req: SearchRequest,
    tokens: G, same_language: L, rules: Option<&SrxTable>, out: Seq<NearView>) -> bool {
    exists|direct: Seq<NearView>| #![trigger direct_outcome(req, tokens, same_language, direct)]
        direct_outcome(req, tokens, same_language, direct)
        && (if req.run_separate_segment_match && rules is Some
            && chunks(req.query@, rules_view(rules->0.rules@)).len() > 1 {
            subsegment_outcome(req, tokens, same_language, rules_view(rules->0.rules@), direct, out)
        } else {
            out == direct
        })
}

/// No two hits share a source and a translation.
pub open spec fn distinct_hits(v: Seq<NearView>) -> bool {
    forall|i: int, j: int| 0 <= i < j < v.len() ==> !(#[trigger] v[i].source == #[trigger] v[j].source
        && v[i].translation == v[j].translation)
}

/// The most hits a search keeps.
pub open spec fn hit_cap(limit: usize) -> int {
    if limit == 0 { 1 } else { limit as int }
}

proof fn lemma_dup_of(v: Seq<NearView>, source: Seq<char>, translation: Seq<char>)
    ensures
        match dup_of(v, source, translation) {
            Some(d) => 0 <= d < v.len() && v[d].source == source && v[d].translation == translation,
            None => forall|k: int| 0 <= k < v.len() ==> !(#[trigger] v[k].source == source && v[k].translation == translation),
        },
    decreases v.len(),
{
    if v.len() > 0 {
        lemma_dup_of(v.drop_first(), source, translation);
        if !(v[0].source == source && v[0].translation == translation) {
            assert forall|k: int| 1 <= k < v.len() implies v.drop_first()[k - 1] == #[trigger] v[k] by {}
        }
    }
}

proof fn lemma_merge_hit(v: Seq<NearView>, query: Seq<char>, h: HitView, limit: usize)
    requires
        v.len() <= hit_cap(limit),
        distinct_hits(v),
    ensures
        merge_hit(v, query, h, limit).len() <= hit_cap(limit),
        distinct_hits(merge_hit(v, query, h, limit)),
{
    lemma_dup_of(v, h.source, h.translation);
    match dup_of(v, h.source, h.translation) {
        Some(d) => {
            let w = merge_hit(v, query, h, limit);
            assert forall|i: int, j: int| 0 <= i < j < w.len() implies !(#[trigger] w[i].source == #[trigger] w[j].source
                && w[i].translation == w[j].translation) by {
                assert(w[i].source == v[i].source && w[i].translation == v[i].translation);
                assert(w[j].source == v[j].source && w[j].translation == v[j].translation);
            }
        },
        None => {
            lemma_near_slot_bound(v, query, h.source, h.score, h.score_no_stem, h.adjusted_score);
            let s = near_slot(v, query, h.source, h.score, h.score_no_stem, h.adjusted_score);
            let n = NearView {
                source: h.source, translation: h.translation, score: h.score, score_no_stem: h.score_no_stem,
                adjusted_score: h.adjusted_score, penalty: h.penalty, comes_from: h.comes_from,
                project: if h.tmx_name.len() == 0 { None } else { Some(h.tmx_name) }, fuzzy: h.fuzzy,
            };
            let w = v.insert(s, n);
            assert(distinct_hits(w)) by {
                assert forall|i: int, j: int| 0 <= i < j < w.len() implies !(#[trigger] w[i].source == #[trigger] w[j].source
                    && w[i].translation == w[j].translation) by {
                    if i < s {
                        assert(w[i] == v[i]);
                        if j < s {
                            assert(w[j] == v[j]);
                        } else if j == s {
                            assert(w[j] == n);
                        } else {
                            assert(w[j] == v[j - 1]);
                        }
                    } else if i == s {
                        assert(w[j] == v[j - 1]);
                    } else {
                        assert(w[i] == v[i - 1]);
                        assert(w[j] == v[j - 1]);
                    }
                }
            }
            let r = merge_hit(v, query, h, limit);
            if w.len() > hit_cap(limit) {
                assert(r == w.drop_last());
                assert forall|i: int, j: int| 0 <= i < j < r.len() implies !(#[trigger] r[i].source == #[trigger] r[j].source
                    && r[i].translation == r[j].translation) by {
                    assert(r[i] == w[i] && r[j] == w[j]);
                }
            } else {
                assert(r == w);
            }
        },
    }
}

/// The ranked list of candidates never holds more than `max(limit, 1)` hits,
/// nor two hits with the same source and translation.
pub proof fn lemma_fold_hits_bounded(cands: Seq<Cand>, scs: Seq<(i32, i32, i32)>, query: Seq<char>, threshold: i32,
    limit: usize, exact_same: bool)
    ensures
        fold_hits(cands, scs, query, threshold, limit, exact_same).len() <= hit_cap(limit),
        distinct_hits(fold_hits(cands, scs, query, threshold, limit, exact_same)),
    decreases cands.len(),
{
    if cands.len() > 0 {
        lemma_fold_hits_bounded(cands.drop_last(), scs.drop_last(), query, threshold, limit, exact_same);
        let acc = fold_hits(cands.drop_last(), scs.drop_last(), query, threshold, limit, exact_same);
        let c = cands.last();
        let sc = scs.last();
        if considered(c, query, exact_same) && reaches(sc, threshold) {
            lemma_merge_hit(acc, query, HitView {
                source: c.source, translation: c.translation, score: sc.0, score_no_stem: sc.1,
                adjusted_score: sc.2, penalty: c.penalty as i32, comes_from: c.comes_from,
                tmx_name: c.tmx_name, fuzzy: c.fuzzy,
            }, limit);
        }
    }
}

/// Law: every outcome of a search holds at most `max(limit, 1)` hits, and no
/// two hits with the same source and translation.
pub proof fn law_search_bounded_and_distinct<G: Fn(&str, &str) -> TokenSets, L: Fn(&str, &str) -> bool>(
    req: SearchRequest, tokens: G, same_language: L, rules: Option<&SrxTable>, out: Seq<NearView>)
    requires
        search_outcome(req, tokens, same_language, rules, out),
    ensures
        out.len() <= hit_cap(req.limit),
        distinct_hits(out),
{
    let direct = choose|direct: Seq<NearView>| #![trigger direct_outcome(req, tokens, same_language, direct)]
        direct_outcome(req, tokens, same_language, direct)
        && (if req.run_separate_segment_match && rules is Some
            && chunks(req.query@, rules_view(rules->0.rules@)).len() > 1 {
            subsegment_outcome(req, tokens, same_language, rules_view(rules->0.rules@), direct, out)
        } else {
            out == direct
        });
    let (f, s) = choose|f: Seq<bool>, s: Seq<(i32, i32, i32)>|
        #![trigger fold_hits(all_cands(req, f), s, req.query@, req.threshold, req.limit, req.search_exactly_the_same)]
        foreigns_fit(req, same_language, f)
        && scores_fit(req.query, req.tokenizer, tokens, all_cands(req, f), s, req.search_exactly_the_same)
        && direct == fold_hits(all_cands(req, f), s, req.query@, req.threshold, req.limit, req.search_exactly_the_same);
    lemma_fold_hits_bounded(all_cands(req, f), s, req.query@, req.threshold, req.limit, req.search_exactly_the_same);
    if req.run_separate_segment_match && rules is Some && chunks(req.query@, rules_view(rules->0.rules@)).len() > 1 {
        let rv = rules_view(rules->0.rules@);
        let cs = chunks(req.query@, rv);
        let sentences = cs.map_values(|c: Seq<char>| trim(c));
        let (subs, sc) = choose|subs: Seq<Seq<NearView>>, sc: (i32, i32, i32)|
            #![trigger sub_cand(req, subs, chunk_spaces(cs), cut_rules(req.query@, rv)), with_cand(direct, sub_cand(req, subs, chunk_spaces(cs), cut_rules(req.query@, rv)), sc, req)]
            subs.len() == sentences.len()
            && (forall|i: int| 0 <= i < subs.len() ==> #[trigger] sub_fits(req, tokens, same_language, sentences[i], subs[i]))
            && ({
                let c = sub_cand(req, subs, chunk_spaces(cs), cut_rules(req.query@, rv));
                if trim(c.translation).len() > 0 {
                    (considered(c, req.query@, req.search_exactly_the_same) ==> score_fits(req.query, req.tokenizer, tokens, c, sc))
                        && out == with_cand(direct, c, sc, req)
                } else {
                    out == direct
                }
            });
        let c = sub_cand(req, subs, chunk_spaces(cs), cut_rules(req.query@, rv));
        if considered(c, req.query@, req.search_exactly_the_same) && reaches(sc, req.threshold) {
            lemma_merge_hit(direct, req.query@, HitView {
                source: c.source, translation: c.translation, score: sc.0, score_no_stem: sc.1,
                adjusted_score: sc.2, penalty: c.penalty as i32, comes_from: c.comes_from,
                tmx_name: c.tmx_name, fuzzy: c.fuzzy,
            }, req.limit);
        }
    }
}

/// Hits in order of non-increasing score.
pub open spec fn by_score(v: Seq<NearView>) -> bool {
    forall|i: int, j: int| 0 <= i < j < v.len() ==> #[trigger] v[i].score >= #[trigger] v[j].score
}

/// Every hit reaches the threshold on one of its three scores.
pub open spec fn all_reach(v: Seq<NearView>, threshold: i32) -> bool {
    forall|i: int| 0 <= i < v.len() ==> reaches(((#[trigger] v[i]).score, v[i].score_no_stem, v[i].adjusted_score), threshold)
}

/// The hits before a new hit's slot do not rank below it; the one at the
/// slot does.
proof fn lemma_near_slot_sides(v: Seq<NearView>, query: Seq<char>, source: Seq<char>, score: i32, no_stem: i32, adjusted: i32)
    ensures
        ({
            let s = near_slot(v, query, source, score, no_stem, adjusted);
            &&& 0 <= s <= v.len()
            &&& forall|k: int| 0 <= k < s ==> !ranks_below(#[trigger] v[k], query, source, score, no_stem, adjusted)
            &&& s < v.len() ==> ranks_below(v[s], query, source, score, no_stem, adjusted)
        }),
    decreases v.len(),
{
    if v.len() > 0 && !ranks_below(v[0], query, source, score, no_stem, adjusted) {
        let d = v.drop_first();
        lemma_near_slot_sides(d, query, source, score, no_stem, adjusted);
        let s = near_slot(v, query, source, score, no_stem, adjusted);
        assert forall|k: int| 0 <= k < s implies !ranks_below(#[trigger] v[k], query, source, score, no_stem, adjusted) by {
            if k > 0 {
                assert(v[k] == d[k - 1]);
            }
        }
        if s < v.len() {
            assert(v[s] == d[s - 1]);
        }
    }
}

proof fn lemma_merge_hit_ranked(v: Seq<NearView>, query: Seq<char>, h: HitView, limit: usize, threshold: i32)
    requires
        by_score(v),
        all_reach(v, threshold),
        reaches((h.score, h.score_no_stem, h.adjusted_score), threshold),
    ensures
        by_score(merge_hit(v, query, h, limit)),
        all_reach(merge_hit(v, query, h, limit), threshold),
{
    lemma_dup_of(v, h.source, h.translation);
    let r = merge_hit(v, query, h, limit);
    match dup_of(v, h.source, h.translation) {
        Some(d) => {
            assert forall|i: int| 0 <= i < r.len() implies (#[trigger] r[i]).score == v[i].score
                && r[i].score_no_stem == v[i].score_no_stem && r[i].adjusted_score == v[i].adjusted_score by {
            }
            assert forall|i: int, j: int| 0 <= i < j < r.len() implies #[trigger] r[i].score >= #[trigger] r[j].score by {
                assert(v[i].score >= v[j].score);
            }
            assert forall|i: int| 0 <= i < r.len() implies reaches(((#[trigger] r[i]).score, r[i].score_no_stem,
                r[i].adjusted_score), threshold) by {
                assert(reaches((v[i].score, v[i].score_no_stem, v[i].adjusted_score), threshold));
            }
        },
        None => {
            lemma_near_slot_sides(v, query, h.source, h.score, h.score_no_stem, h.adjusted_score);
            let s = near_slot(v, query, h.source, h.score, h.score_no_stem, h.adjusted_score);
            let n = NearView {
                source: h.source, translation: h.translation, score: h.score, score_no_stem: h.score_no_stem,
                adjusted_score: h.adjusted_score, penalty: h.penalty, comes_from: h.comes_from,
                project: if h.tmx_name.len() == 0 { None } else { Some(h.tmx_name) }, fuzzy: h.fuzzy,
            };
            let w = v.insert(s, n);
            assert forall|k: int| 0 <= k < s implies (#[trigger] v[k]).score >= h.score by {
                assert(!ranks_below(v[k], query, h.source, h.score, h.score_no_stem, h.adjusted_score));
            }
            assert forall|k: int| s <= k < v.len() implies (#[trigger] v[k]).score <= h.score by {
                assert(ranks_below(v[s], query, h.source, h.score, h.score_no_stem, h.adjusted_score));
                if k > s {
                    assert(v[s].score >= v[k].score);
                }
            }
            assert(by_score(w)) by {
                assert forall|i: int, j: int| 0 <= i < j < w.len() implies #[trigger] w[i].score >= #[trigger] w[j].score by {
                    if i < s {
                        assert(w[i] == v[i]);
                        if j < s {
                            assert(w[j] == v[j]);
                        } else if j == s {
                            assert(w[j] == n);
                        } else {
                            assert(w[j] == v[j - 1]);
                        }
                    } else if i == s {
                        assert(w[i] == n);
                        assert(w[j] == v[j - 1]);
                    } else {
                        assert(w[i] == v[i - 1]);
                        assert(w[j] == v[j - 1]);
                    }
                }
            }
            assert(all_reach(w, threshold)) by {
                assert forall|i: int| 0 <= i < w.len() implies reaches(((#[trigger] w[i]).score, w[i].score_no_stem,
                    w[i].adjusted_score), threshold) by {
                    if i < s {
                        assert(w[i] == v[i]);
                    } else if i > s {
                        assert(w[i] == v[i - 1]);
                    }
                }
            }
            if w.len() > hit_cap(limit) {
                assert(r == w.drop_last());
                assert forall|i: int, j: int| 0 <= i < j < r.len() implies #[trigger] r[i].score >= #[trigger] r[j].score by {
                    assert(r[i] == w[i] && r[j] == w[j]);
                }
                assert forall|i: int| 0 <= i < r.len() implies reaches(((#[trigger] r[i]).score, r[i].score_no_stem,
                    r[i].adjusted_score), threshold) by {
                    assert(r[i] == w[i]);
                }
            } else {
                assert(r == w);
            }
        },
    }
}

/// The ranked list of candidates is ordered by score, best first, and
/// holds no hit below the threshold on all three scores.
pub proof fn lemma_fold_hits_ranked(cands: Seq<Cand>, scs: Seq<(i32, i32, i32)>, query: Seq<char>, threshold: i32,
    limit: usize, exact_same: bool)
    ensures
        by_score(fold_hits(cands, scs, query, threshold, limit, exact_same)),
        all_reach(fold_hits(cands, scs, query, threshold, limit, exact_same), threshold),
    decreases cands.len(),
{
    if cands.len() > 0 {
        lemma_fold_hits_ranked(cands.drop_last(), scs.drop_last(), query, threshold, limit, exact_same);
        let acc = fold_hits(cands.drop_last(), scs.drop_last(), query, threshold, limit, exact_same);
        let c = cands.last();
        let sc = scs.last();
        if considered(c, query, exact_same) && reaches(sc, threshold) {
            lemma_merge_hit_ranked(acc, query, HitView {
                source: c.source, translation: c.translation, score: sc.0, score_no_stem: sc.1,
                adjusted_score: sc.2, penalty: c.penalty as i32, comes_from: c.comes_from,
                tmx_name: c.tmx_name, fuzzy: c.fuzzy,
            }, limit, threshold);
        }
    }
}

/// Law: every outcome of a search lists its hits best score first, and
/// each hit reaches the threshold on at least one of its three scores
/// (a threshold of zero or less keeps every hit).
pub proof fn law_search_ranked_above_threshold<G: Fn(&str, &str) -> TokenSets, L: Fn(&str, &str) -> bool>(
    req: SearchRequest, tokens: G, same_language: L, rules: Option<&SrxTable>, out: Seq<NearView>)
    requires
        search_outcome(req, tokens, same_language, rules, out),
    ensures
        forall|i: int, j: int| 0 <= i < j < out.len() ==> #[trigger] out[i].score >= #[trigger] out[j].score,
        req.threshold > 0 ==> forall|i: int| 0 <= i < out.len() ==> (#[trigger] out[i]).score >= req.threshold
            || out[i].score_no_stem >= req.threshold || out[i].adjusted_score >= req.threshold,
{
    let direct = choose|direct: Seq<NearView>| #![trigger direct_outcome(req, tokens, same_language, direct)]
        direct_outcome(req, tokens, same_language, direct)
        && (if req.run_separate_segment_match && rules is Some
            && chunks(req.query@, rules_view(rules->0.rules@)).len() > 1 {
            subsegment_outcome(req, tokens, same_language, rules_view(rules->0.rules@), direct, out)
        } else {
            out == direct
        });
    let (f, s) = choose|f: Seq<bool>, s: Seq<(i32, i32, i32)>|
        #![trigger fold_hits(all_cands(req, f), s, req.query@, req.threshold, req.limit, req.search_exactly_the_same)]
        foreigns_fit(req, same_language, f)
        && scores_fit(req.query, req.tokenizer, tokens, all_cands(req, f), s, req.search_exactly_the_same)
        && direct == fold_hits(all_cands(req, f), s, req.query@, req.threshold, req.limit, req.search_exactly_the_same);
    lemma_fold_hits_ranked(all_cands(req, f), s, req.query@, req.threshold, req.limit, req.search_exactly_the_same);
    if req.run_separate_segment_match && rules is Some && chunks(req.query@, rules_view(rules->0.rules@)).len() > 1 {
        let rv = rules_view(rules->0.rules@);
        let cs = chunks(req.query@, rv);
        let sentences = cs.map_values(|c: Seq<char>| trim(c));
        let (subs, sc) = choose|subs: Seq<Seq<NearView>>, sc: (i32, i32, i32)|
            #![trigger sub_cand(req, subs, chunk_spaces(cs), cut_rules(req.query@, rv)), with_cand(direct, sub_cand(req, subs, chunk_spaces(cs), cut_rules(req.query@, rv)), sc, req)]
            subs.len() == sentences.len()
            && (forall|i: int| 0 <= i < subs.len() ==> #[trigger] sub_fits(req, tokens, same_language, sentences[i], subs[i]))
            && ({
                let c = sub_cand(req, subs, chunk_spaces(cs), cut_rules(req.query@, rv));
                if trim(c.translation).len() > 0 {
                    (considered(c, req.query@, req.search_exactly_the_same) ==> score_fits(req.query, req.tokenizer, tokens, c, sc))
                        && out == with_cand(direct, c, sc, req)
                } else {
                    out == direct
                }
            });
        let c = sub_cand(req, subs, chunk_spaces(cs), cut_rules(req.query@, rv));
        if considered(c, req.query@, req.search_exactly_the_same) && reaches(sc, req.threshold) {
            lemma_merge_hit_ranked(direct, req.query@, HitView {
                source: c.source, translation: c.translation, score: sc.0, score_no_stem: sc.1,
                adjusted_score: sc.2, penalty: c.penalty as i32, comes_from: c.comes_from,
                tmx_name: c.tmx_name, fuzzy: c.fuzzy,
            }, req.limit, req.threshold);
        }
    }
    assert(by_score(out));
    assert(all_reach(out, req.threshold));
    assert forall|i: int| 0 <= i < out.len() implies reaches(((#[trigger] out[i]).score, out[i].score_no_stem,
        out[i].adjusted_score), req.threshold) by {
    }
}

fn contains_name(names: &Vec<String>, n: &str) -> (r: bool)
    ensures
        r == strings_view(names@).contains(n@),
{
    let mut i: usize = 0;
    while i < names.len()
        invariant
            i <= names@.len(),
            forall|k: int| 0 <= k < i ==> strings_view(names@)[k] != n@,
        decreases names@.len() - i,
    {
        if str_eq(names[i].as_str(), n) {
            assert(strings_view(names@)[i as int] == n@);
            return true;
        }
        i = i + 1;
    }
    false
}

fn join_names(names: &Vec<String>) -> (r: String)
    ensures
        r@ == comma_joined(strings_view(names@)),
{
    let mut out = String::new();
    let mut i: usize = 0;
    let ghost nv = strings_view(names@);
    while i < names.len()
        invariant
            i <= names@.len(),
            nv == strings_view(names@),
            out@ == comma_joined(nv.subrange(0, i as int)),
        decreases names@.len() - i,
    {
        let ghost nxt = nv.subrange(0, i + 1);
        assert(nxt.drop_last() =~= nv.subrange(0, i as int));
        if i > 0 {
            out = concat_str(out.as_str(), ",");
            proof { reveal_strlit(","); }
        }
        out = concat_str(out.as_str(), names[i].as_str());
        i = i + 1;
    }
    assert(nv.subrange(0, names@.len() as int) =~= nv);
    out
}

/// Fuzzy matches for a request, best first: the project memory, the extra
/// memories (with their folder and foreign penalties) and the file
/// translations; with subsegment matching asked for and rules given for the
/// source language, a query of several sentences also gets a candidate glued
/// from each sentence's best hit (its memory names joined by `,`, first seen
/// first). `tokens` gives a text's token sets for a tokenizer; `same_language`
/// says whether a memory entry's language is the target language.
pub fn search<G: Fn(&str, &str) -> TokenSets, L: Fn(&str, &str) -> bool>(req: &SearchRequest, tokens: &G,
    same_language: &L, rules: Option<&SrxTable>) -> (r: Vec<NearString>)
    requires
        forall|a: &str, b: &str| #[trigger] tokens.requires((a, b)),
        forall|a: &str, b: &str| #[trigger] same_language.requires((a, b)),
    ensures
        search_outcome(*req, *tokens, *same_language, rules, near_views(r@)),
{
    let (mut result, Ghost(f), Ghost(s)) = direct_hits(req, tokens, same_language);
    let ghost direct = near_views(result@);
    assert(direct == fold_hits(all_cands(*req, f), s, req.query@, req.threshold, req.limit, req.search_exactly_the_same));
    assert(direct_outcome(*req, *tokens, *same_language, direct));
    if !req.run_separate_segment_match {
        return result;
    }
    let t = match rules {
        Some(t) => t,
        None => return result,
    };
    let ghost rv = rules_view(t.rules@);
    let seg = segment_with_srx(req.query, t);
    assert(strings_view(seg.sentences@).len() == chunks(req.query@, rv).len());
    if seg.sentences.len() <= 1 {
        return result;
    }
    let ghost cs = chunks(req.query@, rv);
    let ghost sentences = cs.map_values(|c: Seq<char>| trim(c));
    let ghost mut subs: Seq<Seq<NearView>> = Seq::empty();
    let mut fsrc: Vec<String> = Vec::new();
    let mut ftrans: Vec<String> = Vec::new();
    let mut names: Vec<String> = Vec::new();
    let mut maxp: i32 = 0;
    let n = seg.sentences.len();
    let mut i: usize = 0;
    while i < n
        invariant
            n == seg.sentences@.len(),
            i <= n,
            forall|a: &str, b: &str| #[trigger] tokens.requires((a, b)),
            forall|a: &str, b: &str| #[trigger] same_language.requires((a, b)),
            strings_view(seg.sentences@) == sentences,
            subs.len() == i,
            forall|k: int| 0 <= k < i ==> #[trigger] sub_fits(*req, *tokens, *same_language, sentences[k], subs[k]),
            strings_view(fsrc@) == piece_srcs(subs, i as int),
            strings_view(ftrans@) == piece_trs(subs, i as int),
            strings_view(names@) == sub_names(subs, i as int),
            maxp as int == max_penalty(subs, i as int),
        decreases n - i,
    {
        let sub_req = SearchRequest {
            query: seg.sentences[i].as_str(),
            memory: req.memory,
            extra: req.extra,
            files: req.files,
            tokenizer: req.tokenizer,
            source_lang: req.source_lang,
            target_lang: req.target_lang,
            threshold: req.threshold,
            limit: 1,
            search_exactly_the_same: true,
            run_separate_segment_match: false,
            foreign_penalty: req.foreign_penalty,
        };
        let (sub, Ghost(f2), Ghost(s2)) = direct_hits(&sub_req, tokens, same_language);
        let ghost sv = near_views(sub@);
        proof {
            assert(sentences[i as int] == seg.sentences@[i as int]@);
            assert(all_cands(sub_req, f2) == all_cands(*req, f2));
            assert forall|k: int| 0 <= k < f2.len() implies #[trigger] foreign_fits(req.extra@[k].0, req.target_lang, *same_language, f2[k]) by {
                assert(foreign_fits(sub_req.extra@[k].0, sub_req.target_lang, *same_language, f2[k]));
            }
            assert(foreigns_fit(*req, *same_language, f2));
            assert(sv == fold_hits(all_cands(*req, f2), s2, sentences[i as int], req.threshold, 1usize, true));
            assert(sub_fits(*req, *tokens, *same_language, sentences[i as int], sv));
        }
        let ghost old_subs = subs;
        proof { subs = subs.push(sv); }
        assert(subs.subrange(0, i as int) =~= old_subs);
        proof {
            assert forall|k: int| 0 <= k < i + 1 implies #[trigger] sub_fits(*req, *tokens, *same_language, sentences[k], subs[k]) by {
                if k < i { assert(subs[k] == old_subs[k]); }
            }
            assert(sub_names(subs, i as int) == sub_names(old_subs, i as int)) by {
                lemma_sub_names_prefix(old_subs, subs, i as int);
            }
            assert(max_penalty(subs, i as int) == max_penalty(old_subs, i as int)) by {
                lemma_max_penalty_prefix(old_subs, subs, i as int);
            }
        }
        let ghost p = piece_of(sv);
        let ghost ofs = fsrc@;
        let ghost oft = ftrans@;
        if sub.len() > 0 && sub[0].score >= SUBSEGMENT_MATCH_THRESHOLD {
            assert(sv[0] == sub@[0]@);
            let x = sub[0].source.clone();
            let y = sub[0].translation.clone();
            proof {
                lemma_strings_push(ofs, x);
                lemma_strings_push(oft, y);
            }
            fsrc.push(x);
            ftrans.push(y);
            match &sub[0].project {
                Some(pn) => {
                    if !pn.as_str().is_empty() && !contains_name(&names, pn.as_str()) {
                        names.push(pn.clone());
                    }
                },
                None => {
                    proof { reveal_strlit(""); }
                },
            }
            if sub[0].penalty > maxp {
                maxp = sub[0].penalty;
            }
        } else {
            let x = String::new();
            let y = String::new();
            proof {
                lemma_strings_push(ofs, x);
                lemma_strings_push(oft, y);
            }
            fsrc.push(x);
            ftrans.push(y);
        }
        proof {
            assert(strings_view(names@) =~= sub_names(subs, i + 1));
            lemma_max_penalty_nonneg(subs, i as int);
            assert(subs[i as int] == sv);
            assert(max_penalty(subs, i + 1) == (if p.3 > max_penalty(subs, i as int) { p.3 } else { max_penalty(subs, i as int) }));
            assert(piece_srcs(subs, i + 1) =~= piece_srcs(old_subs, i as int).push(p.0));
            assert(piece_trs(subs, i + 1) =~= piece_trs(old_subs, i as int).push(p.1));
            assert(strings_view(fsrc@) =~= strings_view(ofs).push(p.0));
            assert(strings_view(ftrans@) =~= strings_view(oft).push(p.1));
        }
        i = i + 1;
    }
    let glued_src = glue(req.source_lang, req.source_lang, fsrc.as_slice(), seg.spaces.as_slice(), seg.brules.as_slice());
    let glued_tr = glue(req.source_lang, req.target_lang, ftrans.as_slice(), seg.spaces.as_slice(), seg.brules.as_slice());
    let ghost c = sub_cand(*req, subs, chunk_spaces(cs), cut_rules(req.query@, rv));
    proof {

        assert(glued_src@ == c.source);
        assert(glued_tr@ == c.translation);
    }
    let tr_trim = trim_str(glued_tr.as_str());
    if tr_trim.as_str().is_empty() {
        assert(subsegment_outcome(*req, *tokens, *same_language, rv, direct, near_views(result@))) by {
            assert(sub_cand(*req, subs, chunk_spaces(cs), cut_rules(req.query@, rv)) == c);
            assert(with_cand(direct, c, (0i32, 0i32, 0i32), *req) == with_cand(direct, c, (0i32, 0i32, 0i32), *req));
        }
        return result;
    }
    let tmx = join_names(&names);
    proof { reveal_strlit("SUBSEGMENTS"); }
    let sc = add_candidate(&mut result, req, glued_src.as_str(), glued_tr.as_str(), "SUBSEGMENTS", tmx.as_str(),
        maxp, false, false, tokens, Ghost(c));
    assert(near_views(result@) == with_cand(direct, c, sc, *req));
    assert(subsegment_outcome(*req, *tokens, *same_language, rv, direct, near_views(result@)));
    result
}

proof fn lemma_strings_push(v: Seq<String>, x: String)
    ensures
        strings_view(v.push(x)) =~= strings_view(v).push(x@),
{
    assert forall|k: int| 0 <= k < v.len() + 1 implies strings_view(v.push(x))[k] == strings_view(v).push(x@)[k] by {
        if k < v.len() {
            assert(v.push(x)[k] == v[k]);
        }
    }
}

proof fn lemma_sub_names_prefix(a: Seq<Seq<NearView>>, b: Seq<Seq<NearView>>, k: int)
    requires
        0 <= k <= a.len(),
        k <= b.len(),
        forall|j: int| 0 <= j < k ==> a[j] == b[j],
    ensures
        sub_names(a, k) == sub_names(b, k),
    decreases k,
{
    if k > 0 {
        lemma_sub_names_prefix(a, b, k - 1);
    }
}

proof fn lemma_max_penalty_nonneg(a: Seq<Seq<NearView>>, k: int)
    ensures
        max_penalty(a, k) >= 0,
    decreases k,
{
    if k > 0 {
        lemma_max_penalty_nonneg(a, k - 1);
    }
}

proof fn lemma_max_penalty_prefix(a: Seq<Seq<NearView>>, b: Seq<Seq<NearView>>, k: int)
    requires
        0 <= k <= a.len(),
        k <= b.len(),
        forall|j: int| 0 <= j < k ==> a[j] == b[j],
    ensures
        max_penalty(a, k) == max_penalty(b, k),
    decreases k,
{
    if k > 0 {
        lemma_max_penalty_prefix(a, b, k - 1);
    }
}

/// [`search`] over the project and extra memories only (no file
/// translations).
pub fn search_simple<G: Fn(&str, &str) -> TokenSets, L: Fn(&str, &str) -> bool>(query: &str, memory: &[TmEntry],
    extra: &[(TmEntry, String)], tokenizer: &str, source_lang: &str, target_lang: &str, threshold: i32, limit: usize,
    search_exactly_the_same: bool, run_separate_segment_match: bool, foreign_penalty: i32, tokens: &G,
    same_language: &L, rules: Option<&SrxTable>) -> (r: Vec<NearString>)
    requires
        forall|a: &str, b: &str| #[trigger] tokens.requires((a, b)),
        forall|a: &str, b: &str| #[trigger] same_language.requires((a, b)),
    ensures
        exists|req: SearchRequest| #![trigger search_outcome(req, *tokens, *same_language, rules, near_views(r@))]
            req.query == query && req.memory == memory && req.extra == extra && req.files@.len() == 0
            && req.tokenizer == tokenizer && req.source_lang == source_lang && req.target_lang == target_lang
            && req.threshold == threshold && req.limit == limit && req.search_exactly_the_same == search_exactly_the_same
            && req.run_separate_segment_match == run_separate_segment_match && req.foreign_penalty == foreign_penalty
            && search_outcome(req, *tokens, *same_language, rules, near_views(r@)),
{
    let req = SearchRequest {
        query, memory, extra, files: &[], tokenizer, source_lang, target_lang, threshold, limit,
        search_exactly_the_same, run_separate_segment_match, foreign_penalty,
    };
    let r = search(&req, tokens, same_language, rules);
    assert(search_outcome(req, *tokens, *same_language, rules, near_views(r@)));
    r
}

/// An extra memory's entry in a `penalty-N` folder whose own penalty is no
/// larger scores N below its raw similarity (N more plus the foreign
/// penalty when it is foreign); a larger own penalty is used instead of N.
pub proof fn law_folder_penalty_lowers_scores(e: TmEntry, origin: Seq<char>, foreign_penalty: i32, q: TokenSets,
    c: TokenSets)
    ensures
        ({
            let n = penalty_in(split_char(slashed(origin), '/'));
            let p = extra_cand(e, origin, false, foreign_penalty).penalty;
            &&& e.penalty as int <= n ==> p == n
            &&& e.penalty as int >= n ==> p == e.penalty as int
            &&& e.penalty as int <= n ==> set_scores(q, c, p, false) == (
                sat(similarity_spec(token_view(q.stem@), token_view(c.stem@)) - n),
                sat(similarity_spec(token_view(q.no_stem@), token_view(c.no_stem@)) - n),
                sat(similarity_spec(token_view(q.all@), token_view(c.all@)) - n))
            &&& extra_cand(e, origin, true, foreign_penalty).penalty == sat(p + foreign_penalty as int) as int
        }),
{
    let n = penalty_in(split_char(slashed(origin), '/'));
    assert(i32::MIN <= n <= i32::MAX) by {
        crate::external_tm::lemma_penalty_in_range(split_char(slashed(origin), '/'));
    }
}

/// A file translation is scored without penalty, less 40 on each score
/// when its source was marked fuzzy.
pub proof fn law_file_translation_scores(f: FileTranslation, q: TokenSets, c: TokenSets)
    ensures
        file_cand(f).penalty == 0,
        set_scores(q, c, file_cand(f).penalty, file_cand(f).fuzzy) == (
            sat(similarity_spec(token_view(q.stem@), token_view(c.stem@)) - (if f.fuzzy { 40int } else { 0int })),
            sat(similarity_spec(token_view(q.no_stem@), token_view(c.no_stem@)) - (if f.fuzzy { 40int } else { 0int })),
            sat(similarity_spec(token_view(q.all@), token_view(c.all@)) - (if f.fuzzy { 40int } else { 0int }))),
{
}

/// A project-memory entry whose source is the query itself is left out
/// unless exact matches are asked for; the same entry in an extra memory
/// is kept. Entries without a translation are always left out.
pub proof fn law_exact_source_skipped(e: TmEntry, origin: Seq<char>, foreign: bool, foreign_penalty: i32, query: Seq<char>)
    ensures
        e.source@ == query && e.translation@.len() > 0 ==> !considered(memory_cand(e), query, false)
            && considered(memory_cand(e), query, true)
            && considered(extra_cand(e, origin, foreign, foreign_penalty), query, false),
        e.translation@.len() == 0 ==> !considered(memory_cand(e), query, true)
            && !considered(extra_cand(e, origin, foreign, foreign_penalty), query, true),
{
}

} // verus!
