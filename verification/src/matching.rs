//! Fuzzy matching of a segment against translation memories.
//!
//! Tokenization belongs to the caller: the functions here take a tokenizer
//! (`text`, `language`) to tokens, each with its surface text and its stem.
use vstd::prelude::*;
use crate::text::{str_eq, starts_with, contains, parse_i32, parse_i32_spec, str_contains, str_starts_with, str_skip};
use crate::levenshtein::{token_similarity, similarity_spec, token_view, char_levenshtein, distance, char_tokens, max_nat, law_distance_symmetric, law_one_insertion, MAX_N};

verus! {

pub const MAX_NEAR_STRINGS: usize = 5;
pub const SIM_UNIQ: u8 = 0x01;
pub const SIM_PAIR: u8 = 0x02;

/// One token: its text and its stem.
pub struct Token {
    pub text: String,
    pub stem: String,
}

/// A translation-memory entry as the matcher reads it.
pub struct TmEntry {
    pub source: String,
    pub translation: String,
    pub penalty: i32,
    pub note: Option<String>,
    pub props: Vec<(String, String)>,
}

/// A fuzzy match.
pub struct NearString {
    pub source: String,
    pub translation: String,
    pub score: i32,
    pub score_no_stem: i32,
    pub adjusted_score: i32,
    pub penalty: i32,
    pub comes_from: String,
    pub project: Option<String>,
    /// The source translation was marked fuzzy.
    pub fuzzy: bool,
}

/// Character similarity in percent.
pub open spec fn similarity_chars(a: Seq<char>, b: Seq<char>) -> int {
    if a == b {
        100
    } else if a.len() == 0 || b.len() == 0 {
        0
    } else {
        let m = max_nat(a.len(), b.len());
        (m - distance(char_tokens(a), char_tokens(b))) * 100 / (m as int)
    }
}

/// Character-level similarity in percent: 100 for equal texts, 0 where one is empty.
pub fn similarity(a: &str, b: &str) -> (r: i32)
    ensures
        r == similarity_chars(a@, b@),
        0 <= r <= 100,
{
    if str_eq(a, b) {
        return 100;
    }
    if a.unicode_len() == 0 || b.unicode_len() == 0 {
        return 0;
    }
    let dist = char_levenshtein(a, b);
    let la = a.unicode_len();
    let lb = b.unicode_len();
    let max = if la >= lb { la } else { lb };
    assert((max - dist) * 100 <= max * 100) by (nonlinear_arith)
        requires dist <= max;
    assert((max - dist) * 100 / (max as int) <= 100) by (nonlinear_arith)
        requires (max - dist) * 100 <= max * 100, max > 0;
    assert((max - dist) * 100 >= 0) by (nonlinear_arith)
        requires dist <= max;
    let prod: u128 = ((max - dist) as u128) * 100;
    let q: u128 = prod / (max as u128);
    q as i32
}

pub open spec fn texts_of(t: Seq<Token>) -> Seq<Seq<char>> {
    t.map_values(|x: Token| x.text@)
}

pub open spec fn stems_of(t: Seq<Token>) -> Seq<Seq<char>> {
    t.map_values(|x: Token| x.stem@)
}

/// Scores of two token lists: stem similarity, text similarity, and the
/// adjusted score `(2 * stem + text) / 3`.
pub open spec fn token_scores(q: Seq<Token>, c: Seq<Token>) -> (int, int, int) {
    let s = similarity_spec(stems_of(q), stems_of(c));
    let n = similarity_spec(texts_of(q), texts_of(c));
    (s, n, (s * 2 + n) / 3)
}

fn project(t: &Vec<Token>, stems: bool) -> (r: Vec<String>)
    ensures
        token_view(r@) == (if stems { stems_of(t@) } else { texts_of(t@) }),
{
    let mut r: Vec<String> = Vec::new();
    let mut i: usize = 0;
    while i < t.len()
        invariant
            i <= t@.len(),
            r@.len() == i,
            forall|k: int| 0 <= k < i ==> #[trigger] r@[k]@ == (if stems { t@[k].stem@ } else { t@[k].text@ }),
        decreases t@.len() - i,
    {
        if stems { r.push(t[i].stem.clone()); } else { r.push(t[i].text.clone()); }
        i = i + 1;
    }
    assert(token_view(r@) =~= (if stems { stems_of(t@) } else { texts_of(t@) }));
    r
}

/// The scores of two tokenized texts.
pub fn score_tokens(q: &Vec<Token>, c: &Vec<Token>) -> (r: (i32, i32, i32))
    ensures
        (r.0 as int, r.1 as int, r.2 as int) == token_scores(q@, c@),
        0 <= r.0 <= 100 && 0 <= r.1 <= 100 && 0 <= r.2 <= 100,
{
    let qs = project(q, true);
    let cs = project(c, true);
    let qt = project(q, false);
    let ct = project(c, false);
    let s = token_similarity(&qs, &cs);
    let n = token_similarity(&qt, &ct);
    (s, n, (s * 2 + n) / 3)
}

/// The scores of `query` against `candidate`: all 100 for equal texts, else
/// those of their tokens. The tokenizer is called only for different texts.
pub fn score_pair<F: Fn(&str, &str) -> Vec<Token>>(query: &str, candidate: &str, lang: &str, tokenize: &F) -> (r: (i32, i32, i32))
    requires
        forall|t: &str, l: &str| #[trigger] tokenize.requires((t, l)),
    ensures
        query@ == candidate@ ==> r == (100i32, 100i32, 100i32),
        query@ != candidate@ ==> exists|tq: Vec<Token>, tc: Vec<Token>|
            tokenize.ensures((query, lang), tq) && tokenize.ensures((candidate, lang), tc)
            && #[trigger] token_scores(tq@, tc@) == (r.0 as int, r.1 as int, r.2 as int),
        0 <= r.0 <= 100 && 0 <= r.1 <= 100 && 0 <= r.2 <= 100,
{
    if str_eq(query, candidate) {
        return (100, 100, 100);
    }
    let tq = tokenize(query, lang);
    let tc = tokenize(candidate, lang);
    score_tokens(&tq, &tc)
}


pub ghost struct NearView {
    pub source: Seq<char>,
    pub translation: Seq<char>,
    pub score: i32,
    pub score_no_stem: i32,
    pub adjusted_score: i32,
    pub penalty: i32,
    pub comes_from: Seq<char>,
    pub project: Option<Seq<char>>,
    pub fuzzy: bool,
}

pub open spec fn opt_view(o: Option<String>) -> Option<Seq<char>> {
    match o {
        Some(s) => Some(s@),
        None => None,
    }
}

impl View for NearString {
    type V = NearView;

    open spec fn view(&self) -> NearView {
        NearView {
            source: self.source@,
            translation: self.translation@,
            score: self.score,
            score_no_stem: self.score_no_stem,
            adjusted_score: self.adjusted_score,
            penalty: self.penalty,
            comes_from: self.comes_from@,
            project: opt_view(self.project),
            fuzzy: self.fuzzy,
        }
    }
}

pub open spec fn near_views(v: Seq<NearString>) -> Seq<NearView> {
    v.map_values(|n: NearString| n@)
}

/// The penalty of an extra entry: its own where positive, else the number of
/// a `penalty:` note, else 0.
pub open spec fn entry_penalty(e: TmEntry) -> int {
    if e.penalty > 0 {
        e.penalty as int
    } else {
        match e.note {
            Some(n) => if starts_with(n@, "penalty:"@) {
                match parse_i32_spec(n@.subrange(8, n@.len() as int)) { Some(v) => v, None => 0 }
            } else { 0 },
            None => 0,
        }
    }
}

/// Where an extra entry comes from: machine translation, the auto folder, or its origin.
pub open spec fn origin_kind(origin: Seq<char>) -> Seq<char> {
    if contains(origin, "mt/"@) || contains(origin, "/mt/"@) {
        "MT"@
    } else if contains(origin, "auto"@) {
        "TM"@
    } else {
        origin
    }
}

pub open spec fn clamp_i32(v: int) -> i32 {
    if v > i32::MAX { i32::MAX } else if v < 0 { 0 } else { v as i32 }
}

/// Hits from the project memory, in entry order.
pub open spec fn memory_hits(query: Seq<char>, mem: Seq<TmEntry>, sm: Seq<(i32, i32, i32)>, threshold: i32) -> Seq<NearView>
    decreases mem.len(),
{
    if mem.len() == 0 {
        Seq::empty()
    } else {
        let rest = memory_hits(query, mem.drop_last(), sm.drop_last(), threshold);
        let e = mem.last();
        let sc = sm.last();
        if e.source@.len() == 0 || !(sc.0 >= threshold || e.source@ == query) {
            rest
        } else {
            rest.push(NearView {
                source: e.source@, translation: e.translation@,
                score: if e.source@ == query { 100 } else { sc.0 },
                score_no_stem: sc.1, adjusted_score: sc.2, penalty: 0,
                comes_from: "MEMORY"@, project: None, fuzzy: false,
            })
        }
    }
}

/// Hits from the extra memories, in entry order, with their penalties.
pub open spec fn extra_hits(extra: Seq<(TmEntry, String)>, se: Seq<(i32, i32, i32)>, threshold: i32) -> Seq<NearView>
    decreases extra.len(),
{
    if extra.len() == 0 {
        Seq::empty()
    } else {
        let rest = extra_hits(extra.drop_last(), se.drop_last(), threshold);
        let (e, origin) = extra.last();
        let sc = se.last();
        if sc.0 < threshold {
            rest
        } else {
            let p = entry_penalty(e);
            rest.push(NearView {
                source: e.source@, translation: e.translation@,
                score: clamp_i32(sc.0 - p), score_no_stem: sc.1, adjusted_score: clamp_i32(sc.2 - p),
                penalty: p as i32, comes_from: origin_kind(origin@), project: Some(origin@), fuzzy: false,
            })
        }
    }
}

/// Position for `x` in a list sorted by descending score: after every hit
/// scoring at least as much.
pub open spec fn desc_slot(v: Seq<NearView>, score: i32) -> int
    decreases v.len(),
{
    if v.len() == 0 {
        0
    } else if v.last().score >= score {
        v.len() as int
    } else {
        desc_slot(v.drop_last(), score)
    }
}

/// Stable sort by descending score.
pub open spec fn sort_desc(v: Seq<NearView>) -> Seq<NearView>
    decreases v.len(),
{
    if v.len() == 0 {
        v
    } else {
        let s = sort_desc(v.drop_last());
        s.insert(desc_slot(s, v.last().score), v.last())
    }
}

/// The best `max(limit, 1)` hits.
pub open spec fn ranked(v: Seq<NearView>, limit: usize) -> Seq<NearView> {
    let s = sort_desc(v);
    let n = if limit == 0 { 1 } else { limit as int };
    if s.len() > n { s.subrange(0, n) } else { s }
}

/// The scores `sm` are what `score_pair` can give for each entry's source.
pub open spec fn scores_fit<F: Fn(&str, &str) -> Vec<Token>>(query: &str, lang: &str, tokenize: F,
    sources: Seq<Seq<char>>, sm: Seq<(i32, i32, i32)>) -> bool {
    &&& sm.len() == sources.len()
    &&& forall|i: int| 0 <= i < sm.len() ==> #[trigger] score_fits(query, lang, tokenize, sources[i], sm[i])
}

pub open spec fn score_fits<F: Fn(&str, &str) -> Vec<Token>>(query: &str, lang: &str, tokenize: F,
    source: Seq<char>, sc: (i32, i32, i32)) -> bool {
    &&& query@ == source ==> sc == (100i32, 100i32, 100i32)
    &&& query@ != source ==> exists|tq: Vec<Token>, c: &str, tc: Vec<Token>|
            #![trigger token_scores(tq@, tc@), c@]
            c@ == source && tokenize.ensures((query, lang), tq) && tokenize.ensures((c, lang), tc)
            && token_scores(tq@, tc@) == (sc.0 as int, sc.1 as int, sc.2 as int)
}

fn near_slot(v: &Vec<NearString>, score: i32) -> (r: usize)
    ensures
        r == desc_slot(near_views(v@), score),
        r <= v@.len(),
{
    let mut k: usize = v.len();
    assert(near_views(v@).subrange(0, v@.len() as int) =~= near_views(v@));
    while k > 0 && v[k - 1].score < score
        invariant
            k <= v@.len(),
            desc_slot(near_views(v@), score) == desc_slot(near_views(v@).subrange(0, k as int), score),
        decreases k,
    {
        let ghost w = near_views(v@).subrange(0, k as int);
        assert(w.drop_last() =~= near_views(v@).subrange(0, k - 1));
        k = k - 1;
    }
    proof {
        let w = near_views(v@).subrange(0, k as int);
        if k > 0 {
            assert(w.last().score >= score);
        }
        lemma_desc_slot_le(w, score);
    }
    k
}

proof fn lemma_desc_slot_le(v: Seq<NearView>, score: i32)
    ensures
        0 <= desc_slot(v, score) <= v.len(),
        v.len() > 0 && v.last().score >= score ==> desc_slot(v, score) == v.len(),
    decreases v.len(),
{
    if v.len() > 0 {
        lemma_desc_slot_le(v.drop_last(), score);
    }
}

/// Stable sort of hits by descending score.
pub fn sort_hits(hits: Vec<NearString>) -> (r: Vec<NearString>)
    ensures
        near_views(r@) == sort_desc(near_views(hits@)),
{
    let ghost all = near_views(hits@);
    let mut rest = hits;
    let mut out: Vec<NearString> = Vec::new();
    let ghost mut i: int = 0;
    while rest.len() > 0
        invariant
            0 <= i <= all.len(),
            near_views(rest@) == all.subrange(i, all.len() as int),
            near_views(out@) == sort_desc(all.subrange(0, i)),
        decreases rest@.len(),
    {
        let ghost pre = all.subrange(0, i);
        let ghost rv = near_views(rest@);
        assert(rv.len() == rest@.len());
        assert(rv[0] == rest@[0]@);
        assert(rv[0] == all[i]);
        let ghost old_rest = rest@;
        let x = rest.remove(0);
        assert(x@ == all[i]);
        let pos = near_slot(&out, x.score);
        let ghost before = near_views(out@);
        out.insert(pos, x);
        proof {
            let nxt = all.subrange(0, i + 1);
            assert(nxt.drop_last() =~= pre);
            assert(nxt.last() == all[i]);
            assert(near_views(out@) =~= before.insert(pos as int, all[i]));
            assert(rest@ == old_rest.remove(0));
            assert forall|j: int| 0 <= j < rest@.len() implies #[trigger] near_views(rest@)[j] == all.subrange(i + 1, all.len() as int)[j] by {
                assert(rest@[j] == old_rest[j + 1]);
                assert(rv[j + 1] == old_rest[j + 1]@);
            }
            assert(near_views(rest@) =~= all.subrange(i + 1, all.len() as int));
            i = i + 1;
        }
    }
    assert(all.subrange(0, i) =~= all);
    out
}

/// The best `max(limit, 1)` hits, best first.
pub fn rank_hits(hits: Vec<NearString>, limit: usize) -> (r: Vec<NearString>)
    ensures
        near_views(r@) == ranked(near_views(hits@), limit),
{
    let mut s = sort_hits(hits);
    let n: usize = if limit == 0 { 1 } else { limit };
    if s.len() > n {
        s.truncate(n);
        assert(near_views(s@) =~= sort_desc(near_views(hits@)).subrange(0, n as int));
    }
    s
}


fn entry_penalty_exec(e: &TmEntry) -> (r: i32)
    ensures
        r as int == entry_penalty(*e),
{
    if e.penalty > 0 {
        return e.penalty;
    }
    match &e.note {
        Some(n) => {
            if str_starts_with(n.as_str(), "penalty:") {
                proof { reveal_strlit("penalty:"); }
                let rest = str_skip(n.as_str(), 8);
                match parse_i32(rest.as_str()) {
                    Some(v) => v,
                    None => 0,
                }
            } else {
                0
            }
        },
        None => 0,
    }
}

fn origin_kind_exec(origin: &str) -> (r: String)
    ensures
        r@ == origin_kind(origin@),
{
    if str_contains(origin, "mt/") || str_contains(origin, "/mt/") {
        "MT".to_owned()
    } else if str_contains(origin, "auto") {
        "TM".to_owned()
    } else {
        origin.to_owned()
    }
}

fn clamp_exec(v: i64) -> (r: i32)
    ensures
        r == clamp_i32(v as int),
{
    if v > 2147483647 { 2147483647 } else if v < 0 { 0 } else { v as i32 }
}

/// Scores fit every entry with a non-empty source.
pub open spec fn memory_scores_fit<F: Fn(&str, &str) -> Vec<Token>>(query: &str, lang: &str, tokenize: F,
    mem: Seq<TmEntry>, sm: Seq<(i32, i32, i32)>) -> bool {
    &&& sm.len() == mem.len()
    &&& forall|i: int| 0 <= i < sm.len() && mem[i].source@.len() > 0 ==> #[trigger] score_fits(query, lang, tokenize, mem[i].source@, sm[i])
}

pub open spec fn extra_scores_fit<F: Fn(&str, &str) -> Vec<Token>>(query: &str, lang: &str, tokenize: F,
    extra: Seq<(TmEntry, String)>, se: Seq<(i32, i32, i32)>) -> bool {
    &&& se.len() == extra.len()
    &&& forall|i: int| 0 <= i < se.len() ==> #[trigger] score_fits(query, lang, tokenize, extra[i].0.source@, se[i])
}

/// The hits of the project memory, with the scores that were computed.
fn memory_hits_exec<F: Fn(&str, &str) -> Vec<Token>>(query: &str, memory: &[TmEntry], lang: &str, threshold: i32, tokenize: &F)
    -> (r: (Vec<NearString>, Ghost<Seq<(i32, i32, i32)>>))
    requires
        forall|t: &str, l: &str| #[trigger] tokenize.requires((t, l)),
    ensures
        memory_scores_fit(query, lang, *tokenize, memory@, r.1@),
        near_views(r.0@) == memory_hits(query@, memory@, r.1@, threshold),
{
    let mut out: Vec<NearString> = Vec::new();
    let ghost mut sm: Seq<(i32, i32, i32)> = Seq::empty();
    let mut i: usize = 0;
    while i < memory.len()
        invariant
            i <= memory@.len(),
            forall|t: &str, l: &str| #[trigger] tokenize.requires((t, l)),
            memory_scores_fit(query, lang, *tokenize, memory@.subrange(0, i as int), sm),
            near_views(out@) == memory_hits(query@, memory@.subrange(0, i as int), sm, threshold),
        decreases memory@.len() - i,
    {
        let ghost pre = memory@.subrange(0, i as int);
        let ghost nxt = memory@.subrange(0, i + 1);
        assert(nxt.drop_last() =~= pre);
        assert(nxt.last() == memory@[i as int]);
        let e = &memory[i];
        if e.source.as_str().is_empty() {
            proof {
                let sm2 = sm.push((0i32, 0i32, 0i32));
                assert(sm2.drop_last() =~= sm);
                assert forall|k: int| 0 <= k < sm2.len() && nxt[k].source@.len() > 0 implies
                    #[trigger] score_fits(query, lang, *tokenize, nxt[k].source@, sm2[k]) by {
                    assert(nxt[k] == pre[k]);
                }
                sm = sm2;
            }
        } else {
            let sc = score_pair(query, e.source.as_str(), lang, tokenize);
            proof {
                let sm2 = sm.push(sc);
                assert(sm2.drop_last() =~= sm);
                assert forall|k: int| 0 <= k < sm2.len() && nxt[k].source@.len() > 0 implies
                    #[trigger] score_fits(query, lang, *tokenize, nxt[k].source@, sm2[k]) by {
                    if k < i { assert(nxt[k] == pre[k]); }
                }
                sm = sm2;
            }
            let exact = str_eq(e.source.as_str(), query);
            if sc.0 >= threshold || exact {
                out.push(NearString {
                    source: e.source.clone(),
                    translation: e.translation.clone(),
                    score: if exact { 100 } else { sc.0 },
                    score_no_stem: sc.1,
                    adjusted_score: sc.2,
                    penalty: 0,
                    comes_from: "MEMORY".to_owned(),
                    project: None,
                    fuzzy: false,
                });
            }
        }
        i = i + 1;
    }
    assert(memory@.subrange(0, memory@.len() as int) =~= memory@);
    (out, Ghost(sm))
}

/// The hits of the extra memories, with the scores that were computed.
fn extra_hits_exec<F: Fn(&str, &str) -> Vec<Token>>(query: &str, extra: &[(TmEntry, String)], lang: &str, threshold: i32, tokenize: &F)
    -> (r: (Vec<NearString>, Ghost<Seq<(i32, i32, i32)>>))
    requires
        forall|t: &str, l: &str| #[trigger] tokenize.requires((t, l)),
    ensures
        extra_scores_fit(query, lang, *tokenize, extra@, r.1@),
        near_views(r.0@) == extra_hits(extra@, r.1@, threshold),
{
    let mut out: Vec<NearString> = Vec::new();
    let ghost mut se: Seq<(i32, i32, i32)> = Seq::empty();
    let mut i: usize = 0;
    while i < extra.len()
        invariant
            i <= extra@.len(),
            forall|t: &str, l: &str| #[trigger] tokenize.requires((t, l)),
            extra_scores_fit(query, lang, *tokenize, extra@.subrange(0, i as int), se),
            near_views(out@) == extra_hits(extra@.subrange(0, i as int), se, threshold),
        decreases extra@.len() - i,
    {
        let ghost pre = extra@.subrange(0, i as int);
        let ghost nxt = extra@.subrange(0, i + 1);
        assert(nxt.drop_last() =~= pre);
        assert(nxt.last() == extra@[i as int]);
        let e = &extra[i].0;
        let origin = &extra[i].1;
        let sc = score_pair(query, e.source.as_str(), lang, tokenize);
        proof {
            let se2 = se.push(sc);
            assert(se2.drop_last() =~= se);
            assert forall|k: int| 0 <= k < se2.len() implies
                #[trigger] score_fits(query, lang, *tokenize, nxt[k].0.source@, se2[k]) by {
                if k < i { assert(nxt[k] == pre[k]); }
            }
            se = se2;
        }
        if sc.0 >= threshold {
            let penalty = entry_penalty_exec(e);
            out.push(NearString {
                source: e.source.clone(),
                translation: e.translation.clone(),
                score: clamp_exec(sc.0 as i64 - penalty as i64),
                score_no_stem: sc.1,
                adjusted_score: clamp_exec(sc.2 as i64 - penalty as i64),
                penalty,
                comes_from: origin_kind_exec(origin.as_str()),
                project: Some(origin.clone()),
                fuzzy: false,
            });
        }
        i = i + 1;
    }
    assert(extra@.subrange(0, extra@.len() as int) =~= extra@);
    (out, Ghost(se))
}

/// Fuzzy matches of `query` in the project memory and the extra memories
/// (each with its origin), best `max(limit, 1)` first. A project entry matches
/// at the threshold or when equal to the query (then it scores 100); an extra
/// entry matches at the threshold and loses its penalty.
pub fn find_matches_threshold<F: Fn(&str, &str) -> Vec<Token>>(query: &str, memory: &[TmEntry], extra: &[(TmEntry, String)],
    lang: &str, threshold: i32, limit: usize, tokenize: &F) -> (r: Vec<NearString>)
    requires
        forall|t: &str, l: &str| #[trigger] tokenize.requires((t, l)),
    ensures
        exists|sm: Seq<(i32, i32, i32)>, se: Seq<(i32, i32, i32)>|
            #![trigger memory_hits(query@, memory@, sm, threshold), extra_hits(extra@, se, threshold)]
            memory_scores_fit(query, lang, *tokenize, memory@, sm)
            && extra_scores_fit(query, lang, *tokenize, extra@, se)
            && near_views(r@) == ranked(memory_hits(query@, memory@, sm, threshold) + extra_hits(extra@, se, threshold), limit),
{
    let (mut hits, Ghost(sm)) = memory_hits_exec(query, memory, lang, threshold, tokenize);
    let (mut more, Ghost(se)) = extra_hits_exec(query, extra, lang, threshold, tokenize);
    let ghost a = near_views(hits@);
    let ghost b = near_views(more@);
    hits.append(&mut more);
    assert(near_views(hits@) =~= a + b);
    let r = rank_hits(hits, limit);
    assert(near_views(r@) == ranked(memory_hits(query@, memory@, sm, threshold) + extra_hits(extra@, se, threshold), limit));
    r
}

/// Matches at the default threshold (30) and count.
pub fn find_matches<F: Fn(&str, &str) -> Vec<Token>>(query: &str, memory: &[TmEntry], extra: &[(TmEntry, String)],
    lang: &str, tokenize: &F) -> (r: Vec<NearString>)
    requires
        forall|t: &str, l: &str| #[trigger] tokenize.requires((t, l)),
    ensures
        exists|sm: Seq<(i32, i32, i32)>, se: Seq<(i32, i32, i32)>|
            #![trigger memory_hits(query@, memory@, sm, 30), extra_hits(extra@, se, 30)]
            memory_scores_fit(query, lang, *tokenize, memory@, sm)
            && extra_scores_fit(query, lang, *tokenize, extra@, se)
            && near_views(r@) == ranked(memory_hits(query@, memory@, sm, 30) + extra_hits(extra@, se, 30), MAX_NEAR_STRINGS),
{
    find_matches_threshold(query, memory, extra, lang, 30, MAX_NEAR_STRINGS, tokenize)
}


/// The highlight byte of candidate token `i`: unique where the source lacks
/// it, pair where it is found but a neighbour is not, else 0.
pub open spec fn sim_byte(src: Seq<Seq<char>>, cand: Seq<Seq<char>>, i: int) -> u8 {
    let found = src.contains(cand[i]);
    let left = i == 0 || src.contains(cand[i - 1]);
    let right = i + 1 == cand.len() || src.contains(cand[i + 1]);
    if found && (!left || !right) { SIM_PAIR } else if !found { SIM_UNIQ } else { 0 }
}

fn token_in(src: &Vec<Token>, t: &String) -> (r: bool)
    ensures
        r == texts_of(src@).contains(t@),
{
    let mut i: usize = 0;
    while i < src.len()
        invariant
            i <= src@.len(),
            forall|k: int| 0 <= k < i ==> (#[trigger] src@[k]).text@ != t@,
        decreases src@.len() - i,
    {
        if str_eq(src[i].text.as_str(), t.as_str()) {
            assert(texts_of(src@)[i as int] == t@);
            return true;
        }
        i = i + 1;
    }
    proof {
        if texts_of(src@).contains(t@) {
            let k = choose|k: int| 0 <= k < texts_of(src@).len() && texts_of(src@)[k] == t@;
            assert(src@[k].text@ == t@);
        }
    }
    false
}

/// Token alignment bytes for highlighting how `candidate` differs from `source`.
pub fn similarity_data<F: Fn(&str, &str) -> Vec<Token>>(source: &str, candidate: &str, lang: &str, tokenize: &F) -> (r: Vec<u8>)
    requires
        forall|t: &str, l: &str| #[trigger] tokenize.requires((t, l)),
    ensures
        exists|ts: Vec<Token>, tc: Vec<Token>|
            #![trigger texts_of(ts@), texts_of(tc@)]
            tokenize.ensures((source, lang), ts) && tokenize.ensures((candidate, lang), tc)
            && r@.len() == tc@.len()
            && forall|i: int| 0 <= i < r@.len() ==> #[trigger] r@[i] == sim_byte(texts_of(ts@), texts_of(tc@), i),
{
    let src = tokenize(source, lang);
    let cand = tokenize(candidate, lang);
    let mut result: Vec<u8> = Vec::new();
    let mut leftfound = true;
    let mut i: usize = 0;
    while i < cand.len()
        invariant
            i <= cand@.len(),
            result@.len() == i,
            leftfound == (i == 0 || texts_of(src@).contains(texts_of(cand@)[i - 1])),
            forall|k: int| 0 <= k < i ==> #[trigger] result@[k] == sim_byte(texts_of(src@), texts_of(cand@), k),
        decreases cand@.len() - i,
    {
        let rightfound = i + 1 == cand.len() || token_in(&src, &cand[i + 1].text);
        let found = token_in(&src, &cand[i].text);
        let b: u8 = if found && (!leftfound || !rightfound) { SIM_PAIR } else if !found { SIM_UNIQ } else { 0 };
        result.push(b);
        leftfound = found;
        i = i + 1;
    }
    assert(texts_of(src@).len() == src@.len());
    result
}


/// Two different non-empty texts score by their edit distance relative to
/// the longer one: (longer length - distance) * 100 / longer length,
/// whatever their lengths.
pub proof fn law_similarity_by_distance(a: Seq<char>, b: Seq<char>)
    requires
        a.len() > 0,
        b.len() > 0,
        a != b,
    ensures
        similarity_chars(a, b) == ((if a.len() >= b.len() { a.len() } else { b.len() }) as int
            - distance(char_tokens(a), char_tokens(b))) * 100 / ((if a.len() >= b.len() { a.len() } else { b.len() }) as int),
{
}

/// A text is fully similar to itself.
pub proof fn law_similarity_identical(a: Seq<char>)
    ensures
        similarity_chars(a, a) == 100,
{
}

/// A non-empty text and an empty one share nothing.
pub proof fn law_similarity_with_empty(a: Seq<char>, e: Seq<char>)
    requires
        a.len() > 0,
        e.len() == 0,
    ensures
        similarity_chars(a, e) == 0,
        similarity_chars(e, a) == 0,
{
}

/// Similarity does not depend on the order of the two texts.
pub proof fn law_similarity_symmetric(a: Seq<char>, b: Seq<char>)
    ensures
        similarity_chars(a, b) == similarity_chars(b, a),
{
    law_distance_symmetric(char_tokens(a), char_tokens(b));
}

/// Texts one character apart score by that single edit against the longer
/// one: a text of n characters and the same text with one more character
/// appended score (n * 100) / (n + 1).
pub proof fn law_similarity_one_more_char(a: Seq<char>, c: char)
    requires
        0 < a.len() < MAX_N,
    ensures
        similarity_chars(a, a.push(c)) == (a.len() as int * 100) / (a.len() as int + 1),
{
    assert(char_tokens(a.push(c)) =~= char_tokens(a).push(seq![c]));
    law_one_insertion(char_tokens(a), seq![c]);
    assert(a.push(c).len() != a.len());
}

/// Hits in order of non-increasing score.
pub open spec fn desc_ordered(v: Seq<NearView>) -> bool {
    forall|i: int, j: int| 0 <= i < j < v.len() ==> #[trigger] v[i].score >= #[trigger] v[j].score
}

/// In a list ordered by descending score, the slot for a score follows
/// every hit scoring at least as much and precedes the rest.
proof fn lemma_desc_slot_sides(v: Seq<NearView>, score: i32)
    requires
        desc_ordered(v),
    ensures
        0 <= desc_slot(v, score) <= v.len(),
        forall|i: int| 0 <= i < desc_slot(v, score) ==> (#[trigger] v[i]).score >= score,
        forall|i: int| desc_slot(v, score) <= i < v.len() ==> (#[trigger] v[i]).score < score,
    decreases v.len(),
{
    if v.len() > 0 {
        let d = v.drop_last();
        assert(desc_ordered(d)) by {
            assert forall|i: int, j: int| 0 <= i < j < d.len() implies #[trigger] d[i].score >= #[trigger] d[j].score by {
                assert(d[i] == v[i] && d[j] == v[j]);
            }
        }
        lemma_desc_slot_sides(d, score);
        if v.last().score >= score {
            assert forall|i: int| 0 <= i < desc_slot(v, score) implies (#[trigger] v[i]).score >= score by {
                if i < v.len() - 1 {
                    assert(v[i].score >= v[v.len() - 1].score);
                }
            }
        } else {
            assert forall|i: int| 0 <= i < desc_slot(v, score) implies (#[trigger] v[i]).score >= score by {
                assert(v[i] == d[i]);
            }
            assert forall|i: int| desc_slot(v, score) <= i < v.len() implies (#[trigger] v[i]).score < score by {
                if i < v.len() - 1 {
                    assert(v[i] == d[i]);
                }
            }
        }
    }
}

/// Law: sorting hits by score keeps every hit (as many times as given),
/// adds none, and puts them best score first.
pub proof fn law_sort_desc_orders_hits(v: Seq<NearView>)
    ensures
        sort_desc(v).to_multiset() == v.to_multiset(),
        desc_ordered(sort_desc(v)),
    decreases v.len(),
{
    broadcast use vstd::seq_lib::group_to_multiset_ensures;
    if v.len() > 0 {
        law_sort_desc_orders_hits(v.drop_last());
        let s = sort_desc(v.drop_last());
        let x = v.last();
        lemma_desc_slot_sides(s, x.score);
        let k = desc_slot(s, x.score);
        let w = s.insert(k, x);
        assert(w.to_multiset() == s.to_multiset().insert(x)) by {
            assert(w =~= s.subrange(0, k).push(x) + s.subrange(k, s.len() as int));
            assert(s =~= s.subrange(0, k) + s.subrange(k, s.len() as int));
            vstd::seq_lib::lemma_multiset_commutative(s.subrange(0, k).push(x), s.subrange(k, s.len() as int));
            vstd::seq_lib::lemma_multiset_commutative(s.subrange(0, k), s.subrange(k, s.len() as int));
        }
        assert(v.drop_last().push(x) =~= v);
        assert forall|i: int, j: int| 0 <= i < j < w.len() implies #[trigger] w[i].score >= #[trigger] w[j].score by {
            if i < k {
                assert(w[i] == s[i]);
                if j < k {
                    assert(w[j] == s[j]);
                } else if j == k {
                    assert(w[j] == x);
                } else {
                    assert(w[j] == s[j - 1]);
                }
            } else if i == k {
                assert(w[i] == x);
                assert(w[j] == s[j - 1]);
            } else {
                assert(w[i] == s[i - 1]);
                assert(w[j] == s[j - 1]);
            }
        }
    }
}

} // verus!
