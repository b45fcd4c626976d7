//! Aligner settings, alignment units and manual bitext corrections.
use vstd::prelude::*;
use crate::store::{StringMap, pairs_view};
use crate::language::{Language, tag_of, single_lang_code};
use crate::text::{
    chars_of, chars_eq, string_of, slice_vec, extend_chars, str_eq, lower_ascii_chars,
    lower_ascii_seq, upper_ascii_seq, to_ascii_uppercase, trim, trim_chars, split_char,
    split_chars, split_seq, split_seq_exec, vecs_view, replace_all, replace_all_chars,
};

pub mod beads;

verus! {

pub const PREF_ALGORITHM: &'static str = "aligner_algorithm_class";
pub const PREF_CALCULATOR: &'static str = "aligner_calculator_type";
pub const PREF_COUNTER: &'static str = "aligner_counter_type";
pub const PREF_SEGMENT: &'static str = "aligner_segment";
pub const PREF_REMOVE_TAGS: &'static str = "aligner_remove_tags";
pub const PREF_SOURCE_LANGUAGE: &'static str = "aligner_source_language";
pub const PREF_TARGET_LANGUAGE: &'static str = "aligner_target_language";
pub const PREF_LAST_SOURCE_DIR: &'static str = "aligner_last_source_dir";
pub const PREF_LAST_TARGET_DIR: &'static str = "aligner_last_target_dir";

#[derive(Clone, Copy, PartialEq, Eq, Structural)]
pub enum AlignMode {
    Heapwise,
    Parsewise,
    Id,
}

#[derive(Clone, Copy, PartialEq, Eq, Structural)]
pub enum AlignAlgo {
    Viterbi,
    ForwardBackward,
}

#[derive(Clone, Copy, PartialEq, Eq, Structural)]
pub enum Counter {
    Char,
    Word,
}

#[derive(Clone, Copy, PartialEq, Eq, Structural)]
pub enum CalculatorType {
    Normal,
    Poisson,
}

#[derive(Clone, Copy)]
pub struct AlignConfig {
    pub mode: AlignMode,
    pub algo: AlignAlgo,
    pub counter: Counter,
    pub calculator: CalculatorType,
    pub segment: bool,
}

impl Default for AlignConfig {
    fn default() -> (r: Self)
        ensures
            r.mode == AlignMode::Parsewise && r.algo == AlignAlgo::Viterbi && r.counter == Counter::Word
                && r.calculator == CalculatorType::Normal && r.segment,
    {
        AlignConfig {
            mode: AlignMode::Parsewise,
            algo: AlignAlgo::Viterbi,
            counter: Counter::Word,
            calculator: CalculatorType::Normal,
            segment: true,
        }
    }
}

/// Persisted aligner settings.
pub struct AlignSettings {
    pub algorithm: String,
    pub calculator: String,
    pub counter: String,
    pub segment: bool,
    pub remove_tags: bool,
}

impl Default for AlignSettings {
    fn default() -> (r: Self)
        ensures
            r.algorithm@ == "viterbi"@ && r.calculator@ == "normal"@ && r.counter@ == "word"@,
            r.segment && !r.remove_tags,
    {
        AlignSettings {
            algorithm: "viterbi".to_owned(),
            calculator: "normal".to_owned(),
            counter: "word".to_owned(),
            segment: true,
            remove_tags: false,
        }
    }
}

/// Canonical algorithm name for an accepted spelling (case-insensitive).
pub open spec fn normalize_algo_spec(v: Seq<char>) -> Option<Seq<char>> {
    let l = lower_ascii_seq(v);
    if l == "fb"@ || l == "forward-backward"@ || l == "forward_backward"@ {
        Some("forward-backward"@)
    } else if l == "viterbi"@ {
        Some("viterbi"@)
    } else {
        None
    }
}

pub fn normalize_algo(v: &str) -> (r: Option<String>)
    ensures
        match r {
            Some(s) => normalize_algo_spec(v@) == Some(s@),
            None => normalize_algo_spec(v@) is None,
        },
{
    let c = chars_of(v);
    let l = lower_ascii_chars(&c);
    let fb = chars_of("fb");
    let fb2 = chars_of("forward-backward");
    let fb3 = chars_of("forward_backward");
    let vi = chars_of("viterbi");
    if chars_eq(&l, &fb) || chars_eq(&l, &fb2) || chars_eq(&l, &fb3) {
        Some("forward-backward".to_owned())
    } else if chars_eq(&l, &vi) {
        Some("viterbi".to_owned())
    } else {
        None
    }
}

/// Stored algorithm value: `FB` for forward-backward, otherwise `VITERBI`.
pub open spec fn persisted_algo_spec(v: Seq<char>) -> Seq<char> {
    if normalize_algo_spec(v) == Some("forward-backward"@) { "FB"@ } else { "VITERBI"@ }
}

pub fn persisted_algo(v: &str) -> (r: String)
    ensures
        r@ == persisted_algo_spec(v@),
{
    match normalize_algo(v) {
        Some(n) => {
            if str_eq(n.as_str(), "forward-backward") {
                "FB".to_owned()
            } else {
                "VITERBI".to_owned()
            }
        },
        None => "VITERBI".to_owned(),
    }
}

pub open spec fn bool_text(b: bool) -> Seq<char> {
    if b { "true"@ } else { "false"@ }
}

fn bool_string(b: bool) -> (r: String)
    ensures
        r@ == bool_text(b),
{
    if b { "true".to_owned() } else { "false".to_owned() }
}

/// Accepted value of a case-insensitive choice between two names.
pub open spec fn choice_spec(v: Seq<char>, a: Seq<char>, b: Seq<char>) -> Option<Seq<char>> {
    let l = lower_ascii_seq(v);
    if l == a || l == b { Some(l) } else { None }
}

fn choice(v: &str, a: &str, b: &str) -> (r: Option<String>)
    ensures
        match r {
            Some(s) => choice_spec(v@, a@, b@) == Some(s@),
            None => choice_spec(v@, a@, b@) is None,
        },
{
    let c = chars_of(v);
    let l = lower_ascii_chars(&c);
    let av = chars_of(a);
    let bv = chars_of(b);
    if chars_eq(&l, &av) || chars_eq(&l, &bv) {
        Some(string_of(&l))
    } else {
        None
    }
}

impl AlignSettings {
    /// Writes the five settings under their preference keys.
    pub fn persist(&self, store: &mut StringMap)
        requires
            old(store).wf(),
        ensures
            final(store).wf(),
            final(store).view() == persisted_store(old(store).view(), self.algorithm@, self.calculator@, self.counter@,
                self.segment, self.remove_tags),
    {
        let a = persisted_algo(self.algorithm.as_str());
        store.insert(PREF_ALGORITHM, a.as_str());
        let c = to_ascii_uppercase(self.calculator.as_str());
        store.insert(PREF_CALCULATOR, c.as_str());
        let n = to_ascii_uppercase(self.counter.as_str());
        store.insert(PREF_COUNTER, n.as_str());
        let s = bool_string(self.segment);
        store.insert(PREF_SEGMENT, s.as_str());
        let r = bool_string(self.remove_tags);
        store.insert(PREF_REMOVE_TAGS, r.as_str());
        proof {
            reveal_strlit("aligner_algorithm_class");
        }
    }

    /// Reads the settings back; a missing or unrecognized value keeps its default.
    pub fn restore(store: &StringMap) -> (r: Self)
        requires
            store.wf(),
        ensures
            r.algorithm@ == (if store.view().dom().contains("aligner_algorithm_class"@)
                && normalize_algo_spec(store.view()["aligner_algorithm_class"@]) is Some {
                normalize_algo_spec(store.view()["aligner_algorithm_class"@]).unwrap()
            } else {
                "viterbi"@
            }),
            r.calculator@ == (if store.view().dom().contains("aligner_calculator_type"@)
                && choice_spec(store.view()["aligner_calculator_type"@], "normal"@, "poisson"@) is Some {
                choice_spec(store.view()["aligner_calculator_type"@], "normal"@, "poisson"@).unwrap()
            } else {
                "normal"@
            }),
            r.counter@ == (if store.view().dom().contains("aligner_counter_type"@)
                && choice_spec(store.view()["aligner_counter_type"@], "word"@, "char"@) is Some {
                choice_spec(store.view()["aligner_counter_type"@], "word"@, "char"@).unwrap()
            } else {
                "word"@
            }),
            r.segment == (if store.view().dom().contains("aligner_segment"@) {
                store.view()["aligner_segment"@] == "true"@
            } else {
                true
            }),
            r.remove_tags == (store.view().dom().contains("aligner_remove_tags"@)
                && store.view()["aligner_remove_tags"@] == "true"@),
    {
        let mut s = Self::default();
        match store.get(PREF_ALGORITHM) {
            Some(v) => match normalize_algo(v.as_str()) {
                Some(value) => { s.algorithm = value; },
                None => {},
            },
            None => {},
        }
        match store.get(PREF_CALCULATOR) {
            Some(v) => match choice(v.as_str(), "normal", "poisson") {
                Some(value) => { s.calculator = value; },
                None => {},
            },
            None => {},
        }
        match store.get(PREF_COUNTER) {
            Some(v) => match choice(v.as_str(), "word", "char") {
                Some(value) => { s.counter = value; },
                None => {},
            },
            None => {},
        }
        match store.get(PREF_SEGMENT) {
            Some(v) => { s.segment = str_eq(v.as_str(), "true"); },
            None => {},
        }
        match store.get(PREF_REMOVE_TAGS) {
            Some(v) => { s.remove_tags = str_eq(v.as_str(), "true"); },
            None => {},
        }
        s
    }
}

/// The store after `persist` of these settings over the store `m`.
pub open spec fn persisted_store(m: Map<Seq<char>, Seq<char>>, algorithm: Seq<char>, calculator: Seq<char>,
    counter: Seq<char>, segment: bool, remove_tags: bool) -> Map<Seq<char>, Seq<char>> {
    m.insert("aligner_algorithm_class"@, persisted_algo_spec(algorithm))
        .insert("aligner_calculator_type"@, upper_ascii_seq(calculator))
        .insert("aligner_counter_type"@, upper_ascii_seq(counter))
        .insert("aligner_segment"@, bool_text(segment))
        .insert("aligner_remove_tags"@, bool_text(remove_tags))
}

/// Law: restoring what was persisted gives the settings back, for settings
/// whose names are the canonical ones (`viterbi` or `forward-backward`,
/// `normal` or `poisson`, `word` or `char`), whatever the store held before.
pub proof fn law_restore_after_persist(m: Map<Seq<char>, Seq<char>>, algorithm: Seq<char>, calculator: Seq<char>,
    counter: Seq<char>, segment: bool, remove_tags: bool)
    requires
        algorithm == "viterbi"@ || algorithm == "forward-backward"@,
        calculator == "normal"@ || calculator == "poisson"@,
        counter == "word"@ || counter == "char"@,
    ensures
        ({
            let st = persisted_store(m, algorithm, calculator, counter, segment, remove_tags);
            &&& st.dom().contains("aligner_algorithm_class"@)
            &&& normalize_algo_spec(st["aligner_algorithm_class"@]) == Some(algorithm)
            &&& st.dom().contains("aligner_calculator_type"@)
            &&& choice_spec(st["aligner_calculator_type"@], "normal"@, "poisson"@) == Some(calculator)
            &&& st.dom().contains("aligner_counter_type"@)
            &&& choice_spec(st["aligner_counter_type"@], "word"@, "char"@) == Some(counter)
            &&& st.dom().contains("aligner_segment"@) && (st["aligner_segment"@] == "true"@) == segment
            &&& st.dom().contains("aligner_remove_tags"@) && (st["aligner_remove_tags"@] == "true"@) == remove_tags
        }),
{
    reveal_strlit("aligner_algorithm_class");
    reveal_strlit("aligner_calculator_type");
    reveal_strlit("aligner_counter_type");
    reveal_strlit("aligner_segment");
    reveal_strlit("aligner_remove_tags");
    reveal_strlit("viterbi");
    reveal_strlit("forward-backward");
    reveal_strlit("forward_backward");
    reveal_strlit("fb");
    reveal_strlit("FB");
    reveal_strlit("VITERBI");
    reveal_strlit("normal");
    reveal_strlit("poisson");
    reveal_strlit("word");
    reveal_strlit("char");
    reveal_strlit("true");
    reveal_strlit("false");
    assert(lower_ascii_seq("viterbi"@) =~= "viterbi"@);
    assert(lower_ascii_seq("forward-backward"@) =~= "forward-backward"@);
    assert(lower_ascii_seq("FB"@) =~= "fb"@);
    assert(lower_ascii_seq("VITERBI"@) =~= "viterbi"@);
    assert(lower_ascii_seq(upper_ascii_seq("normal"@)) =~= "normal"@);
    assert(lower_ascii_seq(upper_ascii_seq("poisson"@)) =~= "poisson"@);
    assert(lower_ascii_seq(upper_ascii_seq("word"@)) =~= "word"@);
    assert(lower_ascii_seq(upper_ascii_seq("char"@)) =~= "char"@);
    assert("true"@ != "false"@);
    let ka = "aligner_algorithm_class"@;
    let kc = "aligner_calculator_type"@;
    let kn = "aligner_counter_type"@;
    let ks = "aligner_segment"@;
    let kr = "aligner_remove_tags"@;
    assert(ka[8] != kc[8] && ka[8] != kn[8] && ka[8] != ks[8] && ka[8] != kr[8]);
    assert(kc[9] != kn[9] && kc[8] != ks[8] && kc[8] != kr[8]);
    assert(kn[8] != ks[8] && kn[8] != kr[8] && ks[8] != kr[8]);
    let st = persisted_store(m, algorithm, calculator, counter, segment, remove_tags);
    assert(st["aligner_algorithm_class"@] == persisted_algo_spec(algorithm));
    assert(st["aligner_calculator_type"@] == upper_ascii_seq(calculator));
    assert(st["aligner_counter_type"@] == upper_ascii_seq(counter));
    assert(st["aligner_segment"@] == bool_text(segment));
    assert(st["aligner_remove_tags"@] == bool_text(remove_tags));
    if algorithm == "viterbi"@ {
        assert(normalize_algo_spec("viterbi"@) == Some("viterbi"@));
        assert(persisted_algo_spec(algorithm) == "VITERBI"@);
    } else {
        assert(normalize_algo_spec("forward-backward"@) == Some("forward-backward"@));
        assert(persisted_algo_spec(algorithm) == "FB"@);
    }
    assert(normalize_algo_spec(st["aligner_algorithm_class"@]) == Some(algorithm));
    assert(choice_spec(st["aligner_calculator_type"@], "normal"@, "poisson"@) == Some(calculator));
    assert(choice_spec(st["aligner_counter_type"@], "word"@, "char"@) == Some(counter));
}

/// Stores the normalized tags of the given source and target languages.
pub fn persist_languages(store: &mut StringMap, source: Option<&str>, target: Option<&str>)
    requires
        old(store).wf(),
    ensures
        final(store).wf(),
        final(store).view() == {
            let m1 = match source {
                Some(s) => old(store).view().insert("aligner_source_language"@, tag_of(s@)),
                None => old(store).view(),
            };
            match target {
                Some(t) => m1.insert("aligner_target_language"@, tag_of(t@)),
                None => m1,
            }
        },
{
    match source {
        Some(s) => {
            let t = Language::new(Some(s)).get_language();
            store.insert(PREF_SOURCE_LANGUAGE, t.as_str());
        },
        None => {},
    }
    match target {
        Some(s) => {
            let t = Language::new(Some(s)).get_language();
            store.insert(PREF_TARGET_LANGUAGE, t.as_str());
        },
        None => {},
    }
}

/// The stored language under `key` if it is a valid single code, else `fallback`, as a normalized tag.
pub fn restore_language(store: &StringMap, key: &str, fallback: &str) -> (r: String)
    requires
        store.wf(),
    ensures
        r@ == (if store.view().dom().contains(key@) && single_lang_code(store.view()[key@]) {
            tag_of(store.view()[key@])
        } else {
            tag_of(fallback@)
        }),
{
    match store.get(key) {
        Some(v) => {
            if Language::verify_single_lang_code(v.as_str()) {
                return Language::new(Some(v.as_str())).get_language();
            }
        },
        None => {},
    }
    Language::new(Some(fallback)).get_language()
}

/// Remembers the directory `parent` of a chosen file when it is not empty.
pub fn persist_input_dir(store: &mut StringMap, key: &str, parent: Option<&str>)
    requires
        old(store).wf(),
    ensures
        final(store).wf(),
        final(store).view() == (match parent {
            Some(p) => if p@.len() > 0 { old(store).view().insert(key@, p@) } else { old(store).view() },
            None => old(store).view(),
        }),
{
    match parent {
        Some(p) => {
            if !p.is_empty() {
                store.insert(key, p);
            }
        },
        None => {},
    }
}

/// The remembered directory under `key`, unless empty.
pub fn restore_input_dir(store: &StringMap, key: &str) -> (r: Option<String>)
    requires
        store.wf(),
    ensures
        match r {
            Some(v) => store.view().dom().contains(key@) && store.view()[key@] == v@ && v@.len() > 0,
            None => !(store.view().dom().contains(key@) && store.view()[key@].len() > 0),
        },
{
    match store.get(key) {
        Some(v) => if v.as_str().is_empty() { None } else { Some(v) },
        None => None,
    }
}

pub struct AlignUnit {
    pub id: Option<String>,
    pub text: String,
}

pub struct Bead {
    pub source: String,
    pub target: String,
}

#[derive(Clone, Copy, PartialEq, Eq, Structural)]
pub enum AlignSide {
    Both,
    Source,
    Target,
}

impl AlignSide {
    /// `source` and `target` name one side; anything else means both.
    pub fn from_name(value: &str) -> (r: Self)
        ensures
            value@ == "source"@ ==> r == AlignSide::Source,
            value@ == "target"@ ==> r == AlignSide::Target,
            value@ != "source"@ && value@ != "target"@ ==> r == AlignSide::Both,
    {
        proof {
            reveal_strlit("source");
            reveal_strlit("target");
            assert("source"@[0] != "target"@[0]);
        }
        if str_eq(value, "source") {
            AlignSide::Source
        } else if str_eq(value, "target") {
            AlignSide::Target
        } else {
            AlignSide::Both
        }
    }
}

#[derive(Debug, Clone, Copy, PartialEq, Eq, Structural)]
pub enum BeadStatus {
    Default,
    Accepted,
    NeedsReview,
}

pub type Pair = (Seq<char>, Seq<char>);

/// Two cell texts joined by one space; an empty side contributes nothing.
pub open spec fn join_bitext_spec(a: Seq<char>, b: Seq<char>) -> Seq<char> {
    if a.len() == 0 { b } else if b.len() == 0 { a } else { a + seq![' '] + b }
}

pub fn join_bitext(a: &str, b: &str) -> (r: String)
    ensures
        r@ == join_bitext_spec(a@, b@),
{
    if a.is_empty() {
        b.to_owned()
    } else if b.is_empty() {
        a.to_owned()
    } else {
        let mut v = chars_of(a);
        v.push(' ');
        let bv = chars_of(b);
        extend_chars(&mut v, &bv);
        string_of(&v)
    }
}

/// Position of the last space.
pub open spec fn last_space(s: Seq<char>, k: int) -> Option<int>
    decreases k,
{
    if k <= 0 || k > s.len() { None } else if s[k - 1] == ' ' { Some(k - 1) } else { last_space(s, k - 1) }
}

/// Split at the last space (dropping it), else in the middle, else not at all.
pub open spec fn split_once_spec(s: Seq<char>) -> Pair {
    match last_space(s, s.len() as int) {
        Some(i) => if 0 <= i < s.len() { (s.subrange(0, i), s.subrange(i + 1, s.len() as int)) } else { (s, Seq::empty()) },
        None => if s.len() > 1 {
            (s.subrange(0, (s.len() / 2) as int), s.subrange((s.len() / 2) as int, s.len() as int))
        } else {
            (s, Seq::empty())
        },
    }
}

pub fn split_once(s: &str) -> (r: (String, String))
    ensures
        (r.0@, r.1@) == split_once_spec(s@),
{
    let v = chars_of(s);
    let mut k = v.len();
    while k > 0 && v[k - 1] != ' '
        invariant
            k <= v.len(),
            last_space(v@, v.len() as int) == last_space(v@, k as int),
        decreases k,
    {
        k = k - 1;
    }
    if k > 0 {
        let a = slice_vec(&v, 0, k - 1);
        let b = slice_vec(&v, k, v.len());
        (string_of(&a), string_of(&b))
    } else if v.len() > 1 {
        let mid = v.len() / 2;
        let a = slice_vec(&v, 0, mid);
        let b = slice_vec(&v, mid, v.len());
        (string_of(&a), string_of(&b))
    } else {
        (s.to_owned(), String::new())
    }
}

/// Cells of rows `from` and `to` exchanged on the chosen side.
pub open spec fn move_side_spec(p: Seq<Pair>, from: int, to: int, side: AlignSide) -> Seq<Pair> {
    match side {
        AlignSide::Both => p.update(from, p[to]).update(to, p[from]),
        AlignSide::Source => p.update(from, (p[to].0, p[from].1)).update(to, (p[from].0, p[to].1)),
        AlignSide::Target => p.update(from, (p[from].0, p[to].1)).update(to, (p[to].0, p[from].1)),
    }
}

/// One manual correction (`merge`, `split`, `up`, `down`) at row `index`
/// (clamped to the last row), on one side or both.
pub open spec fn edit_spec(p: Seq<Pair>, action: Seq<char>, index: int, side: AlignSide) -> Seq<Pair> {
    if p.len() == 0 {
        p
    } else {
        let i = if index < p.len() - 1 { index } else { p.len() - 1 };
        if action == "merge"@ && i + 1 < p.len() {
            let s2 = p[i + 1].0;
            let t2 = p[i + 1].1;
            let q = p.remove(i + 1);
            match side {
                AlignSide::Both => q.update(i, (join_bitext_spec(q[i].0, s2), join_bitext_spec(q[i].1, t2))),
                AlignSide::Source => q.update(i, (join_bitext_spec(q[i].0, s2), q[i].1)).insert(i + 1, (Seq::empty(), t2)),
                AlignSide::Target => q.update(i, (q[i].0, join_bitext_spec(q[i].1, t2))).insert(i + 1, (s2, Seq::empty())),
            }
        } else if action == "split"@ {
            let s = p[i].0;
            let t = p[i].1;
            let ss = split_once_spec(s);
            let ts = split_once_spec(t);
            match side {
                AlignSide::Both => p.update(i, (ss.0, ts.0)).insert(i + 1, (ss.1, ts.1)),
                AlignSide::Source => if ss.1.len() > 0 {
                    p.update(i, (ss.0, t)).insert(i + 1, (ss.1, Seq::empty()))
                } else {
                    p
                },
                AlignSide::Target => if ts.1.len() > 0 {
                    p.update(i, (s, ts.0)).insert(i + 1, (Seq::empty(), ts.1))
                } else {
                    p
                },
            }
        } else if action == "up"@ && i > 0 {
            move_side_spec(p, i, i - 1, side)
        } else if action == "down"@ && i + 1 < p.len() {
            move_side_spec(p, i, i + 1, side)
        } else {
            p
        }
    }
}

/// Owned copy of a list of pairs.
pub fn copy_pairs(pairs: &[(String, String)]) -> (r: Vec<(String, String)>)
    ensures
        pairs_view(r@) == pairs_view(pairs@),
{
    let mut r: Vec<(String, String)> = Vec::new();
    let mut i: usize = 0;
    while i < pairs.len()
        invariant
            i <= pairs.len(),
            r@.len() == i,
            forall|j: int| 0 <= j < i ==> (#[trigger] r@[j]).0@ == pairs@[j].0@ && r@[j].1@ == pairs@[j].1@,
        decreases pairs.len() - i,
    {
        r.push((pairs[i].0.clone(), pairs[i].1.clone()));
        i = i + 1;
    }
    assert(pairs_view(r@) =~= pairs_view(pairs@));
    r
}

fn move_side(pairs: &mut Vec<(String, String)>, from: usize, to: usize, side: AlignSide)
    requires
        from < old(pairs)@.len(),
        to < old(pairs)@.len(),
        from != to,
    ensures
        pairs_view(final(pairs)@) == move_side_spec(pairs_view(old(pairs)@), from as int, to as int, side),
{
    let ghost p = pairs_view(pairs@);
    let a = (pairs[from].0.clone(), pairs[from].1.clone());
    let b = (pairs[to].0.clone(), pairs[to].1.clone());
    match side {
        AlignSide::Both => {
            pairs.set(from, b);
            pairs.set(to, a);
        },
        AlignSide::Source => {
            pairs.set(from, (b.0, a.1.clone()));
            pairs.set(to, (a.0, b.1));
        },
        AlignSide::Target => {
            pairs.set(from, (a.0.clone(), b.1));
            pairs.set(to, (b.0, a.1));
        },
    }
    assert(pairs_view(pairs@) =~= move_side_spec(p, from as int, to as int, side));
}

/// Manual correction on both sides.
pub fn edit_pairs(pairs: &[(String, String)], action: &str, index: usize) -> (r: Vec<(String, String)>)
    ensures
        pairs_view(r@) == edit_spec(pairs_view(pairs@), action@, index as int, AlignSide::Both),
{
    edit_pairs_sided(pairs, action, index, AlignSide::Both)
}

/// Manual correction on the chosen side of the bitext table.
pub fn edit_pairs_sided(pairs: &[(String, String)], action: &str, index: usize, side: AlignSide) -> (r: Vec<(String, String)>)
    ensures
        pairs_view(r@) == edit_spec(pairs_view(pairs@), action@, index as int, side),
{
    let ghost p = pairs_view(pairs@);
    let mut out = copy_pairs(pairs);
    if out.len() == 0 {
        return out;
    }
    let i = if index < out.len() - 1 { index } else { out.len() - 1 };
    if str_eq(action, "merge") && i + 1 < out.len() {
        let (s2, t2) = out.remove(i + 1);
        let ghost q = p.remove(i + 1);
        assert(pairs_view(out@) =~= q);
        let cur = (out[i].0.clone(), out[i].1.clone());
        match side {
            AlignSide::Both => {
                let a = join_bitext(cur.0.as_str(), s2.as_str());
                let b = join_bitext(cur.1.as_str(), t2.as_str());
                out.set(i, (a, b));
            },
            AlignSide::Source => {
                let a = join_bitext(cur.0.as_str(), s2.as_str());
                out.set(i, (a, cur.1));
                out.insert(i + 1, (String::new(), t2));
            },
            AlignSide::Target => {
                let b = join_bitext(cur.1.as_str(), t2.as_str());
                out.set(i, (cur.0, b));
                out.insert(i + 1, (s2, String::new()));
            },
        }
        assert(pairs_view(out@) =~= edit_spec(p, action@, index as int, side));
    } else if str_eq(action, "split") {
        let s = out[i].0.clone();
        let t = out[i].1.clone();
        match side {
            AlignSide::Both => {
                let (s1, s2) = split_once(s.as_str());
                let (t1, t2) = split_once(t.as_str());
                out.set(i, (s1, t1));
                out.insert(i + 1, (s2, t2));
            },
            AlignSide::Source => {
                let (s1, s2) = split_once(s.as_str());
                if !s2.as_str().is_empty() {
                    out.set(i, (s1, t));
                    out.insert(i + 1, (s2, String::new()));
                }
            },
            AlignSide::Target => {
                let (t1, t2) = split_once(t.as_str());
                if !t2.as_str().is_empty() {
                    out.set(i, (s, t1));
                    out.insert(i + 1, (String::new(), t2));
                }
            },
        }
        assert(pairs_view(out@) =~= edit_spec(p, action@, index as int, side));
    } else if str_eq(action, "up") && i > 0 {
        move_side(&mut out, i, i - 1, side);
    } else if str_eq(action, "down") && i + 1 < out.len() {
        move_side(&mut out, i, i + 1, side);
    }
    out
}

pub ghost struct UnitView {
    pub id: Option<Seq<char>>,
    pub text: Seq<char>,
}

pub open spec fn units_view(u: Seq<AlignUnit>) -> Seq<UnitView> {
    u.map_values(|x: AlignUnit| UnitView { id: match x.id { Some(i) => Some(i@), None => None }, text: x.text@ })
}

pub open spec fn has_ascii_letter(s: Seq<char>) -> bool {
    exists|i: int| 0 <= i < s.len() && (('a' <= #[trigger] s[i] && s[i] <= 'z') || ('A' <= s[i] && s[i] <= 'Z'))
}

/// Some unit has an id with an ASCII letter.
pub open spec fn has_real_ids_spec(u: Seq<UnitView>) -> bool {
    exists|i: int| 0 <= i < u.len() && (#[trigger] u[i]).id is Some && has_ascii_letter(u[i].id.unwrap())
}

pub fn has_real_ids(units: &[AlignUnit]) -> (r: bool)
    ensures
        r == has_real_ids_spec(units_view(units@)),
{
    let ghost uv = units_view(units@);
    let mut i: usize = 0;
    while i < units.len()
        invariant
            i <= units.len(),
            uv == units_view(units@),
            forall|j: int| 0 <= j < i ==> !((#[trigger] uv[j]).id is Some && has_ascii_letter(uv[j].id.unwrap())),
        decreases units.len() - i,
    {
        match &units[i].id {
            Some(id) => {
                let c = chars_of(id.as_str());
                assert(uv[i as int].id == Some(c@));
                let mut k: usize = 0;
                while k < c.len()
                    invariant
                        k <= c.len(),
                        i < units@.len(),
                        uv == units_view(units@),
                        uv[i as int].id == Some(c@),
                        forall|j: int| 0 <= j < k ==> !(('a' <= #[trigger] c@[j] && c@[j] <= 'z') || ('A' <= c@[j] && c@[j] <= 'Z')),
                    decreases c.len() - k,
                {
                    if ('a' <= c[k] && c[k] <= 'z') || ('A' <= c[k] && c[k] <= 'Z') {
                        assert(uv[i as int].id.unwrap() == c@);
                        assert(has_ascii_letter(uv[i as int].id.unwrap()));
                        return true;
                    }
                    k = k + 1;
                }
                assert(uv[i as int].id.unwrap() == c@);
            },
            None => {},
        }
        i = i + 1;
    }
    false
}

/// Units paired by position (the shorter list decides the count).
pub open spec fn zip_units(l: Seq<UnitView>, r: Seq<UnitView>) -> Seq<Pair> {
    let n = if l.len() < r.len() { l.len() } else { r.len() };
    Seq::new(n, |i: int| (l[i].text, r[i].text))
}

/// Text of the last right unit with id `id`.
pub open spec fn text_for_id(r: Seq<UnitView>, id: Seq<char>) -> Option<Seq<char>>
    decreases r.len(),
{
    if r.len() == 0 {
        None
    } else if r.last().id == Some(id) {
        Some(r.last().text)
    } else {
        text_for_id(r.drop_last(), id)
    }
}

/// Left units with an id that also occurs on the right, paired with that right text.
pub open spec fn mapped_by_id(l: Seq<UnitView>, r: Seq<UnitView>) -> Seq<Pair>
    decreases l.len(),
{
    if l.len() == 0 {
        Seq::empty()
    } else {
        let rest = mapped_by_id(l.drop_last(), r);
        let u = l.last();
        match u.id {
            Some(id) => match text_for_id(r, id) {
                Some(t) => rest.push((u.text, t)),
                None => rest,
            },
            None => rest,
        }
    }
}

/// Pairing by id when both sides have real ids and some id matches; otherwise by position.
pub open spec fn align_by_id_spec(l: Seq<UnitView>, r: Seq<UnitView>) -> Seq<Pair> {
    if !has_real_ids_spec(l) || !has_real_ids_spec(r) || mapped_by_id(l, r).len() == 0 {
        zip_units(l, r)
    } else {
        mapped_by_id(l, r)
    }
}

fn zip_units_exec(left: &[AlignUnit], right: &[AlignUnit]) -> (out: Vec<(String, String)>)
    ensures
        pairs_view(out@) == zip_units(units_view(left@), units_view(right@)),
{
    let n = if left.len() < right.len() { left.len() } else { right.len() };
    let mut out: Vec<(String, String)> = Vec::new();
    let mut i: usize = 0;
    while i < n
        invariant
            i <= n,
            n <= left.len(),
            n <= right.len(),
            out@.len() == i,
            forall|j: int| 0 <= j < i ==> (#[trigger] out@[j]).0@ == left@[j].text@ && out@[j].1@ == right@[j].text@,
        decreases n - i,
    {
        out.push((left[i].text.clone(), right[i].text.clone()));
        i = i + 1;
    }
    assert(pairs_view(out@) =~= zip_units(units_view(left@), units_view(right@)));
    out
}

fn text_for_id_exec(right: &[AlignUnit], id: &str) -> (r: Option<String>)
    ensures
        match r {
            Some(t) => text_for_id(units_view(right@), id@) == Some(t@),
            None => text_for_id(units_view(right@), id@) is None,
        },
{
    let ghost rv = units_view(right@);
    assert(rv.subrange(0, right.len() as int) =~= rv);
    let mut k = right.len();
    while k > 0
        invariant
            k <= right.len(),
            rv == units_view(right@),
            text_for_id(rv, id@) == text_for_id(rv.subrange(0, k as int), id@),
        decreases k,
    {
        let ghost pre = rv.subrange(0, k as int);
        assert(pre.drop_last() =~= rv.subrange(0, k - 1));
        match &right[k - 1].id {
            Some(x) => {
                if str_eq(x.as_str(), id) {
                    return Some(right[k - 1].text.clone());
                }
            },
            None => {},
        }
        k = k - 1;
    }
    None
}

/// Pairs units by id (see `align_by_id_spec`).
pub fn align_by_id(left: &[AlignUnit], right: &[AlignUnit]) -> (out: Vec<(String, String)>)
    ensures
        pairs_view(out@) == align_by_id_spec(units_view(left@), units_view(right@)),
{
    assert(units_view(right@).subrange(0, right.len() as int) =~= units_view(right@));
    if !has_real_ids(left) || !has_real_ids(right) {
        return zip_units_exec(left, right);
    }
    let ghost lv = units_view(left@);
    let ghost rv = units_view(right@);
    let mut mapped: Vec<(String, String)> = Vec::new();
    let mut i: usize = 0;
    while i < left.len()
        invariant
            i <= left.len(),
            lv == units_view(left@),
            rv == units_view(right@),
            pairs_view(mapped@) == mapped_by_id(lv.subrange(0, i as int), rv),
        decreases left.len() - i,
    {
        let ghost pre = lv.subrange(0, i + 1);
        assert(pre.drop_last() =~= lv.subrange(0, i as int));
        let ghost before = pairs_view(mapped@);
        match &left[i].id {
            Some(id) => match text_for_id_exec(right, id.as_str()) {
                Some(t) => {
                    mapped.push((left[i].text.clone(), t));
                    assert(pairs_view(mapped@) =~= before.push((lv[i as int].text, text_for_id(rv, lv[i as int].id.unwrap()).unwrap())));
                },
                None => {},
            },
            None => {},
        }
        i = i + 1;
    }
    assert(lv.subrange(0, left.len() as int) =~= lv);
    if mapped.len() == 0 {
        return zip_units_exec(left, right);
    }
    mapped
}

/// Lines of `text` (split on line feeds), trimmed, without the blank ones.
pub open spec fn nonblank_trimmed(pieces: Seq<Seq<char>>) -> Seq<Seq<char>>
    decreases pieces.len(),
{
    if pieces.len() == 0 {
        Seq::empty()
    } else {
        let rest = nonblank_trimmed(pieces.drop_last());
        let t = trim(pieces.last());
        if t.len() > 0 { rest.push(t) } else { rest }
    }
}

fn nonblank_trimmed_exec(pieces: &Vec<Vec<char>>) -> (r: Vec<Vec<char>>)
    ensures
        vecs_view(r@) == nonblank_trimmed(vecs_view(pieces@)),
{
    let ghost pv = vecs_view(pieces@);
    let mut r: Vec<Vec<char>> = Vec::new();
    let mut i: usize = 0;
    while i < pieces.len()
        invariant
            i <= pieces.len(),
            pv == vecs_view(pieces@),
            vecs_view(r@) == nonblank_trimmed(pv.subrange(0, i as int)),
        decreases pieces.len() - i,
    {
        let ghost pre = pv.subrange(0, i + 1);
        assert(pre.drop_last() =~= pv.subrange(0, i as int));
        let ghost before = vecs_view(r@);
        let t = trim_chars(&pieces[i]);
        if t.len() > 0 {
            r.push(t);
            assert(vecs_view(r@) =~= before.push(trim(pv[i as int])));
        }
        i = i + 1;
    }
    assert(pv.subrange(0, pieces.len() as int) =~= pv);
    r
}

/// Units of a plain text: in id mode each non-blank trimmed line (its own id);
/// otherwise each non-blank trimmed paragraph (blank-line separated, CRLF read as LF).
pub open spec fn text_units_spec(text: Seq<char>, mode: AlignMode) -> Seq<UnitView> {
    match mode {
        AlignMode::Id => nonblank_trimmed(split_char(text, '\n')).map_values(|s: Seq<char>| UnitView { id: Some(s), text: s }),
        _ => nonblank_trimmed(split_seq(replace_all(text, seq!['\r', '\n'], seq!['\n']), seq!['\n', '\n'])).map_values(
            |s: Seq<char>| UnitView { id: None, text: s },
        ),
    }
}

pub fn text_units(text: &str, mode: AlignMode) -> (r: Vec<AlignUnit>)
    ensures
        units_view(r@) == text_units_spec(text@, mode),
{
    let v = chars_of(text);
    let pieces: Vec<Vec<char>> = match mode {
        AlignMode::Id => {
            let p = split_chars(&v, '\n');
            assert(vecs_view(p@) =~= split_char(v@, '\n'));
            p
        },
        _ => {
            let crlf = vec!['\r', '\n'];
            let lf = vec!['\n'];
            let lflf = vec!['\n', '\n'];
            assert(crlf@ =~= seq!['\r', '\n']);
            assert(lf@ =~= seq!['\n']);
            assert(lflf@ =~= seq!['\n', '\n']);
            let n = replace_all_chars(&v, &crlf, &lf);
            split_seq_exec(&n, &lflf)
        },
    };
    let items = nonblank_trimmed_exec(&pieces);
    let ghost iv = vecs_view(items@);
    let mut r: Vec<AlignUnit> = Vec::new();
    let mut i: usize = 0;
    while i < items.len()
        invariant
            i <= items.len(),
            iv == vecs_view(items@),
            forall|j: int| 0 <= j < i ==> (#[trigger] r@[j]).text@ == iv[j]
                && (mode == AlignMode::Id ==> (r@[j].id matches Some(x) && x@ == iv[j]))
                && (mode != AlignMode::Id ==> r@[j].id is None),
            r@.len() == i,
        decreases items.len() - i,
    {
        let s = string_of(&items[i]);
        let u = match mode {
            AlignMode::Id => AlignUnit { id: Some(s.clone()), text: s },
            _ => AlignUnit { id: None, text: s },
        };
        r.push(u);
        i = i + 1;
    }
    assert(units_view(r@) =~= text_units_spec(text@, mode));
    r
}


/// The text found for an id is that of a right unit carrying the id, and
/// one is found whenever some right unit carries it.
proof fn lemma_text_for_id(r: Seq<UnitView>, id: Seq<char>)
    ensures
        text_for_id(r, id) matches Some(t) ==> exists|j: int| 0 <= j < r.len() && r[j].id == Some(id) && r[j].text == t,
        (exists|j: int| 0 <= j < r.len() && r[j].id == Some(id)) ==> text_for_id(r, id) is Some,
    decreases r.len(),
{
    if r.len() > 0 {
        lemma_text_for_id(r.drop_last(), id);
        if r.last().id != Some(id) {
            if text_for_id(r, id) is Some {
                let j = choose|j: int| 0 <= j < r.drop_last().len() && r.drop_last()[j].id == Some(id)
                    && r.drop_last()[j].text == text_for_id(r, id)->0;
                assert(r[j] == r.drop_last()[j]);
            }
            if exists|j: int| 0 <= j < r.len() && r[j].id == Some(id) {
                let j = choose|j: int| 0 <= j < r.len() && r[j].id == Some(id);
                assert(j < r.len() - 1);
                assert(r.drop_last()[j] == r[j]);
            }
        } else {
            assert(r[r.len() - 1].id == Some(id));
        }
    }
}

/// Every pair of the id mapping joins a left and a right unit with the same
/// id; every left unit whose id occurs on the right gives one.
proof fn lemma_mapped_by_id(l: Seq<UnitView>, r: Seq<UnitView>)
    ensures
        forall|p: int| 0 <= p < mapped_by_id(l, r).len() ==> exists|i: int, j: int|
            0 <= i < l.len() && 0 <= j < r.len() && l[i].id is Some && l[i].id == r[j].id
            && #[trigger] mapped_by_id(l, r)[p] == (l[i].text, r[j].text),
        forall|i: int| 0 <= i < l.len() && (#[trigger] l[i]).id is Some
            && (exists|j: int| 0 <= j < r.len() && r[j].id == l[i].id) ==> exists|p: int, j: int|
            0 <= p < mapped_by_id(l, r).len() && 0 <= j < r.len() && r[j].id == l[i].id
            && mapped_by_id(l, r)[p] == (l[i].text, r[j].text),
    decreases l.len(),
{
    if l.len() > 0 {
        let d = l.drop_last();
        lemma_mapped_by_id(d, r);
        let rest = mapped_by_id(d, r);
        let m = mapped_by_id(l, r);
        let u = l.last();
        assert forall|p: int| 0 <= p < m.len() implies exists|i: int, j: int|
            0 <= i < l.len() && 0 <= j < r.len() && l[i].id is Some && l[i].id == r[j].id
            && #[trigger] m[p] == (l[i].text, r[j].text) by {
            if p < rest.len() {
                assert(m[p] == rest[p]);
                let (i, j) = choose|i: int, j: int| 0 <= i < d.len() && 0 <= j < r.len() && d[i].id is Some
                    && d[i].id == r[j].id && #[trigger] rest[p] == (d[i].text, r[j].text);
                assert(l[i] == d[i]);
            } else {
                let id = u.id->0;
                lemma_text_for_id(r, id);
                let j = choose|j: int| 0 <= j < r.len() && r[j].id == Some(id) && r[j].text == text_for_id(r, id)->0;
                assert(l[l.len() - 1] == u);
            }
        }
        assert forall|i: int| 0 <= i < l.len() && (#[trigger] l[i]).id is Some
            && (exists|j: int| 0 <= j < r.len() && r[j].id == l[i].id) implies exists|p: int, j: int|
            0 <= p < m.len() && 0 <= j < r.len() && r[j].id == l[i].id && m[p] == (l[i].text, r[j].text) by {
            if i < d.len() {
                assert(d[i] == l[i]);
                let (p, j) = choose|p: int, j: int| 0 <= p < rest.len() && 0 <= j < r.len() && r[j].id == d[i].id
                    && rest[p] == (d[i].text, r[j].text);
                lemma_text_for_id(r, u.id.unwrap_or(Seq::empty()));
                if u.id is Some && text_for_id(r, u.id->0) is Some {
                    assert(m == rest.push((u.text, text_for_id(r, u.id->0)->0)));
                    assert(m[p] == rest[p]);
                } else {
                    assert(m == rest);
                }
            } else {
                assert(l[i] == u);
                let id = u.id->0;
                lemma_text_for_id(r, id);
                let j = choose|j: int| 0 <= j < r.len() && r[j].id == Some(id) && r[j].text == text_for_id(r, id)->0;
                assert(m == rest.push((u.text, text_for_id(r, id)->0)));
                assert(m[rest.len() as int] == (l[i].text, r[j].text));
            }
        }
    }
}

/// Aligning by id when both sides carry real ids that meet: every pair
/// joins a left and a right unit with the same id, and every left unit
/// whose id occurs on the right is paired with a right unit of that id.
pub proof fn law_align_by_id_pairs_share_ids(l: Seq<UnitView>, r: Seq<UnitView>)
    requires
        has_real_ids_spec(l),
        has_real_ids_spec(r),
        exists|i: int, j: int| 0 <= i < l.len() && 0 <= j < r.len() && l[i].id is Some && l[i].id == r[j].id,
    ensures
        forall|p: int| 0 <= p < align_by_id_spec(l, r).len() ==> exists|i: int, j: int|
            0 <= i < l.len() && 0 <= j < r.len() && l[i].id is Some && l[i].id == r[j].id
            && #[trigger] align_by_id_spec(l, r)[p] == (l[i].text, r[j].text),
        forall|i: int| 0 <= i < l.len() && (#[trigger] l[i]).id is Some
            && (exists|j: int| 0 <= j < r.len() && r[j].id == l[i].id) ==> exists|p: int, j: int|
            0 <= p < align_by_id_spec(l, r).len() && 0 <= j < r.len() && r[j].id == l[i].id
            && align_by_id_spec(l, r)[p] == (l[i].text, r[j].text),
{
    lemma_mapped_by_id(l, r);
    let (i, j) = choose|i: int, j: int| 0 <= i < l.len() && 0 <= j < r.len() && l[i].id is Some && l[i].id == r[j].id;
    assert(exists|j2: int| 0 <= j2 < r.len() && r[j2].id == l[i].id);
    assert(mapped_by_id(l, r).len() > 0);
    assert(align_by_id_spec(l, r) == mapped_by_id(l, r));
}

/// The text found for an id is that of the last right unit with the id.
proof fn lemma_text_for_id_last(r: Seq<UnitView>, id: Seq<char>)
    ensures
        text_for_id(r, id) matches Some(t) ==> exists|j: int| 0 <= j < r.len() && r[j].id == Some(id) && r[j].text == t
            && forall|k: int| j < k < r.len() ==> (#[trigger] r[k]).id != Some(id),
    decreases r.len(),
{
    if r.len() > 0 && r.last().id != Some(id) {
        lemma_text_for_id_last(r.drop_last(), id);
        if text_for_id(r, id) is Some {
            let d = r.drop_last();
            let j = choose|j: int| 0 <= j < d.len() && d[j].id == Some(id) && d[j].text == text_for_id(r, id)->0
                && forall|k: int| j < k < d.len() ==> (#[trigger] d[k]).id != Some(id);
            assert(r[j] == d[j]);
            assert forall|k: int| j < k < r.len() implies (#[trigger] r[k]).id != Some(id) by {
                if k < r.len() - 1 {
                    assert(r[k] == d[k]);
                }
            }
        }
    }
}

/// Aligning by id pairs units by position (as many pairs as the shorter
/// side has units, the i-th left text with the i-th right text) when one
/// side has no id with an ASCII letter, or when no id occurs on both sides.
pub proof fn law_align_positional_without_shared_ids(l: Seq<UnitView>, r: Seq<UnitView>)
    requires
        (forall|i: int, k: int| 0 <= i < l.len() && (#[trigger] l[i]).id is Some && 0 <= k < l[i].id->0.len()
            ==> !(('a' <= #[trigger] l[i].id->0[k] && l[i].id->0[k] <= 'z') || ('A' <= l[i].id->0[k] && l[i].id->0[k] <= 'Z')))
        || (forall|i: int, k: int| 0 <= i < r.len() && (#[trigger] r[i]).id is Some && 0 <= k < r[i].id->0.len()
            ==> !(('a' <= #[trigger] r[i].id->0[k] && r[i].id->0[k] <= 'z') || ('A' <= r[i].id->0[k] && r[i].id->0[k] <= 'Z')))
        || (forall|i: int, j: int| 0 <= i < l.len() && 0 <= j < r.len() && (#[trigger] l[i]).id is Some
            ==> l[i].id != (#[trigger] r[j]).id),
    ensures
        align_by_id_spec(l, r).len() == (if l.len() < r.len() { l.len() } else { r.len() }),
        forall|p: int| 0 <= p < align_by_id_spec(l, r).len() ==> #[trigger] align_by_id_spec(l, r)[p] == (l[p].text, r[p].text),
{
    lemma_mapped_by_id(l, r);
    if has_real_ids_spec(l) && has_real_ids_spec(r) && mapped_by_id(l, r).len() > 0 {
        let i = choose|i: int| 0 <= i < l.len() && (#[trigger] l[i]).id is Some && has_ascii_letter(l[i].id.unwrap());
        let k = choose|k: int| 0 <= k < l[i].id.unwrap().len() && (('a' <= #[trigger] l[i].id.unwrap()[k]
            && l[i].id.unwrap()[k] <= 'z') || ('A' <= l[i].id.unwrap()[k] && l[i].id.unwrap()[k] <= 'Z'));
        let i2 = choose|i2: int| 0 <= i2 < r.len() && (#[trigger] r[i2]).id is Some && has_ascii_letter(r[i2].id.unwrap());
        let k2 = choose|k2: int| 0 <= k2 < r[i2].id.unwrap().len() && (('a' <= #[trigger] r[i2].id.unwrap()[k2]
            && r[i2].id.unwrap()[k2] <= 'z') || ('A' <= r[i2].id.unwrap()[k2] && r[i2].id.unwrap()[k2] <= 'Z'));
        let (a, b) = choose|a: int, b: int| 0 <= a < l.len() && 0 <= b < r.len() && l[a].id is Some && l[a].id == r[b].id
            && #[trigger] mapped_by_id(l, r)[0] == (l[a].text, r[b].text);
        assert(false);
    }
}

/// Aligning by id, once both sides carry real ids that meet, follows the
/// left units in order: one more left unit adds one pair, its text with the
/// text of the last right unit of the same id, where there is one, and
/// nothing otherwise.
pub proof fn law_align_by_id_follows_left(l: Seq<UnitView>, r: Seq<UnitView>, u: UnitView)
    requires
        has_real_ids_spec(l),
        has_real_ids_spec(r),
        exists|i: int, j: int| 0 <= i < l.len() && 0 <= j < r.len() && l[i].id is Some && l[i].id == r[j].id,
    ensures
        (u.id is Some && exists|j: int| 0 <= j < r.len() && r[j].id == u.id) ==> exists|j: int|
            0 <= j < r.len() && r[j].id == u.id && (forall|k: int| j < k < r.len() ==> (#[trigger] r[k]).id != u.id)
            && align_by_id_spec(l.push(u), r) == align_by_id_spec(l, r).push((u.text, r[j].text)),
        !(u.id is Some && exists|j: int| 0 <= j < r.len() && r[j].id == u.id)
            ==> align_by_id_spec(l.push(u), r) == align_by_id_spec(l, r),
{
    let lu = l.push(u);
    law_align_by_id_pairs_share_ids(l, r);
    lemma_mapped_by_id(l, r);
    let (i, j) = choose|i: int, j: int| 0 <= i < l.len() && 0 <= j < r.len() && l[i].id is Some && l[i].id == r[j].id;
    assert(exists|j2: int| 0 <= j2 < r.len() && r[j2].id == l[i].id);
    assert(mapped_by_id(l, r).len() > 0);
    let w = choose|w: int| 0 <= w < l.len() && (#[trigger] l[w]).id is Some && has_ascii_letter(l[w].id.unwrap());
    assert(lu[w] == l[w]);
    assert(has_real_ids_spec(lu));
    assert(lu.drop_last() =~= l);
    assert(lu.last() == u);
    lemma_text_for_id(r, u.id.unwrap_or(Seq::empty()));
    lemma_text_for_id_last(r, u.id.unwrap_or(Seq::empty()));
    if u.id is Some && text_for_id(r, u.id->0) is Some {
        assert(mapped_by_id(lu, r) == mapped_by_id(l, r).push((u.text, text_for_id(r, u.id->0)->0)));
    } else {
        assert(mapped_by_id(lu, r) == mapped_by_id(l, r));
    }
}

/// Moving a row's cells up and then the same cells down again gives the
/// table back, on either side or both.
pub proof fn law_up_then_down_restores(p: Seq<Pair>, i: int, side: AlignSide)
    requires
        0 < i < p.len(),
    ensures
        edit_spec(edit_spec(p, "up"@, i, side), "down"@, i - 1, side) == p,
{
    reveal_strlit("up");
    reveal_strlit("down");
    reveal_strlit("merge");
    reveal_strlit("split");
    assert("up"@.len() == 2 && "down"@.len() == 4 && "merge"@.len() == 5 && "split"@.len() == 5);
    assert("up"@ != "merge"@ && "up"@ != "split"@);
    assert("down"@ != "merge"@ && "down"@ != "split"@ && "down"@ != "up"@);
    let q = edit_spec(p, "up"@, i, side);
    assert(q == move_side_spec(p, i, i - 1, side));
    assert(q.len() == p.len());
    assert(edit_spec(q, "down"@, i - 1, side) == move_side_spec(q, i - 1, i, side));
    assert(move_side_spec(q, i - 1, i, side) =~= p);
}

/// The last space of a text splits it around that space.
proof fn lemma_last_space(s: Seq<char>, k: int)
    requires
        0 <= k <= s.len(),
    ensures
        last_space(s, k) matches Some(i) ==> 0 <= i < k && s[i] == ' '
            && forall|j: int| i < j < k ==> s[j] != ' ',
        last_space(s, k) is None ==> forall|j: int| 0 <= j < k ==> s[j] != ' ',
    decreases k,
{
    if k > 0 && s[k - 1] != ' ' {
        lemma_last_space(s, k - 1);
    }
}

/// Splitting a row of both sides at the last space of each text, where
/// both texts hold a space with text on either side of the last one, and
/// merging the two rows again gives the table back.
pub proof fn law_split_then_merge_restores(p: Seq<Pair>, i: int)
    requires
        0 <= i < p.len(),
        exists|k: int| 0 <= k < p[i].0.len() && p[i].0[k] == ' ',
        exists|k: int| 0 <= k < p[i].1.len() && p[i].1[k] == ' ',
        p[i].0[0] != ' ' && p[i].0.last() != ' ',
        p[i].1[0] != ' ' && p[i].1.last() != ' ',
    ensures
        edit_spec(edit_spec(p, "split"@, i, AlignSide::Both), "merge"@, i, AlignSide::Both) == p,
{
    reveal_strlit("merge");
    reveal_strlit("split");
    assert("split"@[0] == 's' && "merge"@[0] == 'm');
    assert("split"@ != "merge"@);
    let s = p[i].0;
    let t = p[i].1;
    lemma_last_space(s, s.len() as int);
    lemma_last_space(t, t.len() as int);
    let si = last_space(s, s.len() as int)->0;
    let ti = last_space(t, t.len() as int)->0;
    assert(si != 0 && si != s.len() - 1);
    assert(ti != 0 && ti != t.len() - 1);
    let ss = split_once_spec(s);
    let ts = split_once_spec(t);
    assert(ss == (s.subrange(0, si), s.subrange(si + 1, s.len() as int)));
    assert(ts == (t.subrange(0, ti), t.subrange(ti + 1, t.len() as int)));
    assert(ss.0 + seq![' '] + ss.1 =~= s);
    assert(ts.0 + seq![' '] + ts.1 =~= t);
    let q = edit_spec(p, "split"@, i, AlignSide::Both);
    let ci = if i < p.len() - 1 { i } else { p.len() - 1 };
    assert(ci == i);
    assert(q == p.update(i, (ss.0, ts.0)).insert(i + 1, (ss.1, ts.1)));
    assert(q.len() == p.len() + 1);
    let ri = if i < q.len() - 1 { i } else { q.len() - 1 };
    assert(ri == i);
    assert(q[i + 1] == (ss.1, ts.1));
    let r = q.remove(i + 1);
    assert(r =~= p.update(i, (ss.0, ts.0)));
    assert(join_bitext_spec(ss.0, ss.1) == s);
    assert(join_bitext_spec(ts.0, ts.1) == t);
    assert(r.update(i, (join_bitext_spec(r[i].0, ss.1), join_bitext_spec(r[i].1, ts.1))) =~= p);
}

} // verus!
