//! Project search: the search expression, its sources and entries, and the
//! searcher's state.
use vstd::prelude::*;
use crate::text::{chars_of, string_of, extend_chars, split_char, split_chars, contains, replace_all, replace_str,
    str_contains, char_utf8_len};
use crate::regex_ops::{regex_valid, regex_spans, regex_expansions, char_alphanumeric};

verus! {

#[derive(Debug, Clone, Copy, PartialEq, Eq, Structural)]
pub enum SearchKind {
    Exact,
    Keyword,
    Regex,
}

#[derive(Debug, Clone, Copy, PartialEq, Eq)]
pub enum SearchMode {
    Search,
    Replace,
}

/// What to search for, where, and how.
#[derive(Debug, Clone, PartialEq, Eq)]
pub struct SearchExpression {
    pub query: String,
    pub kind: SearchKind,
    pub mode: SearchMode,
    pub case_sensitive: bool,
    pub whole_words: bool,
    pub width_insensitive: bool,
    pub space_match_nbsp: bool,
    pub replacement: Option<String>,
    pub author: Option<String>,
    pub search_author: bool,
    pub date_before: Option<i64>,
    pub date_after: Option<i64>,
    pub search_source: bool,
    pub search_target: bool,
    pub search_notes: bool,
    pub search_comments: bool,
    pub search_translated: bool,
    pub search_untranslated: bool,
    pub all_results: bool,
    pub file_names: bool,
    pub exclude_orphans: bool,
    pub number_of_results: usize,
}

/// The defaults of a new expression: a plain search everywhere, in
/// translated and untranslated entries, with all results (at most 1000).
pub open spec fn default_expression(e: SearchExpression, query: Seq<char>, case_sensitive: bool) -> bool {
    &&& e.query@ == query && e.mode == SearchMode::Search && e.case_sensitive == case_sensitive
    &&& !e.whole_words && !e.width_insensitive && !e.space_match_nbsp
    &&& e.replacement is None && e.author is None && !e.search_author
    &&& e.date_before is None && e.date_after is None
    &&& e.search_source && e.search_target && e.search_notes && e.search_comments
    &&& e.search_translated && e.search_untranslated && e.all_results && e.file_names
    &&& !e.exclude_orphans && e.number_of_results == 1000
}

impl SearchExpression {
    fn with_kind(query: &str, case_sensitive: bool, kind: SearchKind) -> (r: Self)
        ensures
            default_expression(r, query@, case_sensitive),
            r.kind == kind,
    {
        SearchExpression {
            query: query.to_string(),
            kind,
            mode: SearchMode::Search,
            case_sensitive,
            whole_words: false,
            width_insensitive: false,
            space_match_nbsp: false,
            replacement: None,
            author: None,
            search_author: false,
            date_before: None,
            date_after: None,
            search_source: true,
            search_target: true,
            search_notes: true,
            search_comments: true,
            search_translated: true,
            search_untranslated: true,
            all_results: true,
            file_names: true,
            exclude_orphans: false,
            number_of_results: 1000,
        }
    }

    /// An exact (glob) search for the query.
    pub fn exact(query: &str, case_sensitive: bool) -> (r: Self)
        ensures
            default_expression(r, query@, case_sensitive),
            r.kind == SearchKind::Exact,
    {
        Self::with_kind(query, case_sensitive, SearchKind::Exact)
    }

    /// A search for all the query's words.
    pub fn keyword(query: &str, case_sensitive: bool) -> (r: Self)
        ensures
            default_expression(r, query@, case_sensitive),
            r.kind == SearchKind::Keyword,
    {
        Self::with_kind(query, case_sensitive, SearchKind::Keyword)
    }

    /// A regular-expression search.
    pub fn regex(query: &str, case_sensitive: bool) -> (r: Self)
        ensures
            default_expression(r, query@, case_sensitive),
            r.kind == SearchKind::Regex,
    {
        Self::with_kind(query, case_sensitive, SearchKind::Regex)
    }
}

/// A match region (offsets in UTF-16 code units) and its replacement.
#[derive(Debug, Clone, PartialEq, Eq)]
pub struct SearchMatch {
    pub start: usize,
    pub end: usize,
    pub replacement: String,
}

/// The regular-expression text for one glob character: `*` and `?` stand
/// for runs of (or one) non-space character, a space may also match a
/// no-break space, and regex metacharacters are escaped.
pub open spec fn glob_piece(c: char, space_match_nbsp: bool) -> Seq<char> {
    if c == '*' {
        if space_match_nbsp { "[^\\t\\n\\x0B\\f\\r \\u{00A0}]*"@ } else { "[^\\t\\n\\x0B\\f\\r ]*"@ }
    } else if c == '?' {
        if space_match_nbsp { "[^\\t\\n\\x0B\\f\\r \\u{00A0}]"@ } else { "[^\\t\\n\\x0B\\f\\r ]"@ }
    } else if c == ' ' && space_match_nbsp {
        seq!['(', '?', ':', ' ', '|', '\u{00A0}', ')']
    } else if ".+()[]{}|^$\\"@.contains(c) {
        seq!['\\', c]
    } else {
        seq![c]
    }
}

pub open spec fn glob_regex(text: Seq<char>, space_match_nbsp: bool) -> Seq<char>
    decreases text.len(),
{
    if text.len() == 0 {
        Seq::empty()
    } else {
        glob_regex(text.drop_last(), space_match_nbsp) + glob_piece(text.last(), space_match_nbsp)
    }
}

fn is_meta(c: char) -> (r: bool)
    ensures
        r == ".+()[]{}|^$\\"@.contains(c),
{
    let m = chars_of(".+()[]{}|^$\\");
    let mut i: usize = 0;
    while i < m.len()
        invariant
            i <= m@.len(),
            m@ == ".+()[]{}|^$\\"@,
            forall|k: int| 0 <= k < i ==> m@[k] != c,
        decreases m@.len() - i,
    {
        if m[i] == c {
            return true;
        }
        i = i + 1;
    }
    false
}

/// A glob pattern (`*`, `?`) as a regular expression.
pub fn glob_to_regex(text: &str, space_match_nbsp: bool) -> (r: String)
    ensures
        r@ == glob_regex(text@, space_match_nbsp),
{
    let t = chars_of(text);
    let mut out: Vec<char> = Vec::new();
    let mut i: usize = 0;
    while i < t.len()
        invariant
            i <= t@.len(),
            t@ == text@,
            out@ == glob_regex(t@.subrange(0, i as int), space_match_nbsp),
        decreases t@.len() - i,
    {
        let ghost nxt = t@.subrange(0, i + 1);
        assert(nxt.drop_last() =~= t@.subrange(0, i as int));
        let c = t[i];
        if c == '*' {
            if space_match_nbsp {
                extend_chars(&mut out, &chars_of("[^\\t\\n\\x0B\\f\\r \\u{00A0}]*"));
            } else {
                extend_chars(&mut out, &chars_of("[^\\t\\n\\x0B\\f\\r ]*"));
            }
        } else if c == '?' {
            if space_match_nbsp {
                extend_chars(&mut out, &chars_of("[^\\t\\n\\x0B\\f\\r \\u{00A0}]"));
            } else {
                extend_chars(&mut out, &chars_of("[^\\t\\n\\x0B\\f\\r ]"));
            }
        } else if c == ' ' && space_match_nbsp {
            let p = vec!['(', '?', ':', ' ', '|', '\u{00A0}', ')'];
            extend_chars(&mut out, &p);
        } else if is_meta(c) {
            out.push('\\');
            out.push(c);
        } else {
            out.push(c);
        }
        proof {
            assert(out@ =~= glob_regex(t@.subrange(0, i as int), space_match_nbsp) + glob_piece(c, space_match_nbsp));
        }
        i = i + 1;
    }
    assert(t@.subrange(0, t@.len() as int) =~= t@);
    string_of(&out)
}


/// Where a search entry comes from.
#[derive(Debug, Clone, PartialEq, Eq)]
pub enum SearchOrigin {
    Project { entry_number: usize, file: String },
    TranslationMemory { preamble: String },
    Orphan { preamble: String },
    Alternative { preamble: String },
    Glossary { preamble: String },
    Text { preamble: String },
}

#[derive(Debug, Clone, Copy, PartialEq, Eq)]
pub enum SearchSourceKind {
    ProjectFile,
    ExternalTranslationMemory,
    Glossary,
    TextFile,
}

/// One entry that a search looks at.
#[derive(Debug, Clone, PartialEq, Eq)]
pub struct ProjectSearchEntry {
    pub source: String,
    pub translation: Option<String>,
    pub note: Option<String>,
    pub properties: Vec<(String, String)>,
    pub id: Option<String>,
    pub path: Option<String>,
    pub creator: Option<String>,
    pub changer: Option<String>,
    pub change_date: Option<i64>,
    pub origin: SearchOrigin,
}

pub open spec fn opt_view(o: Option<&str>) -> Option<Seq<char>> {
    match o {
        Some(s) => Some(s@),
        None => None,
    }
}

pub open spec fn opt_string_view(o: Option<String>) -> Option<Seq<char>> {
    match o {
        Some(s) => Some(s@),
        None => None,
    }
}

/// A bare entry: source and translation, nothing else recorded.
pub open spec fn bare_entry(e: ProjectSearchEntry, source: Seq<char>, translation: Option<&str>) -> bool {
    &&& e.source@ == source && opt_string_view(e.translation) == opt_view(translation)
    &&& e.note is None && e.properties@.len() == 0 && e.id is None && e.path is None
    &&& e.creator is None && e.changer is None && e.change_date is None
}

fn opt_owned(o: Option<&str>) -> (r: Option<String>)
    ensures
        opt_string_view(r) == opt_view(o),
{
    match o {
        Some(s) => Some(s.to_string()),
        None => None,
    }
}

impl ProjectSearchEntry {
    /// An entry of a project file, by its number in the project.
    pub fn project(entry_number: usize, file: &str, source: &str, translation: Option<&str>) -> (r: Self)
        ensures
            bare_entry(r, source@, translation),
            r.origin matches SearchOrigin::Project { entry_number: n, file: f } && n == entry_number && f@ == file@,
    {
        ProjectSearchEntry {
            source: source.to_string(),
            translation: opt_owned(translation),
            note: None,
            properties: Vec::new(),
            id: None,
            path: None,
            creator: None,
            changer: None,
            change_date: None,
            origin: SearchOrigin::Project { entry_number, file: file.to_string() },
        }
    }

    /// A translation whose source no longer occurs in the project.
    pub fn orphan(source: &str, translation: Option<&str>) -> (r: Self)
        ensures
            bare_entry(r, source@, translation),
            r.origin matches SearchOrigin::Orphan { preamble: p } && p@ == "Orphan segment"@,
    {
        let e = Self::project(0, "", source, translation);
        ProjectSearchEntry { origin: SearchOrigin::Orphan { preamble: "Orphan segment".to_string() }, ..e }
    }
}

/// A batch of entries of one kind under one label.
#[derive(Debug, Clone, PartialEq, Eq)]
pub struct SearchSource {
    pub kind: SearchSourceKind,
    pub label: String,
    pub entries: Vec<ProjectSearchEntry>,
}

impl SearchSource {
    fn of_kind(kind: SearchSourceKind, label: &str, entries: Vec<ProjectSearchEntry>) -> (r: Self)
        ensures
            r.kind == kind && r.label@ == label@ && r.entries == entries,
    {
        SearchSource { kind, label: label.to_string(), entries }
    }

    /// The entries of one project file.
    pub fn project_file(label: &str, entries: Vec<ProjectSearchEntry>) -> (r: Self)
        ensures
            r.kind == SearchSourceKind::ProjectFile && r.label@ == label@ && r.entries == entries,
    {
        Self::of_kind(SearchSourceKind::ProjectFile, label, entries)
    }

    /// The entries of an external translation memory.
    pub fn external_tm(label: &str, entries: Vec<ProjectSearchEntry>) -> (r: Self)
        ensures
            r.kind == SearchSourceKind::ExternalTranslationMemory && r.label@ == label@ && r.entries == entries,
    {
        Self::of_kind(SearchSourceKind::ExternalTranslationMemory, label, entries)
    }

    /// The entries of a glossary.
    pub fn glossary(label: &str, entries: Vec<ProjectSearchEntry>) -> (r: Self)
        ensures
            r.kind == SearchSourceKind::Glossary && r.label@ == label@ && r.entries == entries,
    {
        Self::of_kind(SearchSourceKind::Glossary, label, entries)
    }

    /// The lines of a loose text file.
    pub fn text_file(label: &str, entries: Vec<ProjectSearchEntry>) -> (r: Self)
        ensures
            r.kind == SearchSourceKind::TextFile && r.label@ == label@ && r.entries == entries,
    {
        Self::of_kind(SearchSourceKind::TextFile, label, entries)
    }
}

/// One entry found by a search.
#[derive(Debug, Clone, PartialEq, Eq)]
pub struct SearchResult {
    pub entry_number: i32,
    pub preamble: Option<String>,
    pub source: String,
    pub translation: Option<String>,
    pub note: Option<String>,
    pub property: Option<String>,
    pub source_matches: Vec<SearchMatch>,
    pub target_matches: Vec<SearchMatch>,
    pub note_matches: Vec<SearchMatch>,
    pub property_matches: Vec<SearchMatch>,
}

/// Results were asked for before the search completed.
#[derive(Debug, Clone, Copy, PartialEq, Eq)]
pub struct SearchNotCompleted;

/// A project search: its expression, what it walks (entries or sources,
/// never both), and its results once it has completed.
pub struct Searcher {
    expression: SearchExpression,
    entries: Vec<ProjectSearchEntry>,
    sources: Vec<SearchSource>,
    results: Vec<SearchResult>,
    found_matches: Vec<SearchMatch>,
    completed: bool,
    target_locale: String,
}

impl Searcher {
    pub closed spec fn expression(&self) -> SearchExpression { self.expression }
    pub closed spec fn entries(&self) -> Seq<ProjectSearchEntry> { self.entries@ }
    pub closed spec fn sources(&self) -> Seq<SearchSource> { self.sources@ }
    pub closed spec fn results(&self) -> Seq<SearchResult> { self.results@ }
    pub closed spec fn found(&self) -> Seq<SearchMatch> { self.found_matches@ }
    pub closed spec fn completed(&self) -> bool { self.completed }
    pub closed spec fn target_locale(&self) -> Seq<char> { self.target_locale@ }

    /// A searcher with nothing to walk yet, not completed, for an undetermined
    /// target locale.
    pub fn new(expression: SearchExpression) -> (r: Self)
        ensures
            r.expression() == expression,
            r.entries().len() == 0 && r.sources().len() == 0 && r.results().len() == 0 && r.found().len() == 0,
            !r.completed(),
            r.target_locale() == "und"@,
    {
        Searcher {
            expression,
            entries: Vec::new(),
            sources: Vec::new(),
            results: Vec::new(),
            found_matches: Vec::new(),
            completed: false,
            target_locale: "und".to_string(),
        }
    }

    /// A searcher over a flat list of entries.
    pub fn with_entries(expression: SearchExpression, entries: Vec<ProjectSearchEntry>) -> (r: Self)
        ensures
            r.expression() == expression,
            r.entries() == entries@ && r.sources().len() == 0 && r.results().len() == 0,
            !r.completed(),
            r.target_locale() == "und"@,
    {
        let mut s = Self::new(expression);
        s.entries = entries;
        s
    }

    /// A searcher over sources walked one after another.
    pub fn with_sources(expression: SearchExpression, sources: Vec<SearchSource>) -> (r: Self)
        ensures
            r.expression() == expression,
            r.sources() == sources@ && r.entries().len() == 0 && r.results().len() == 0,
            !r.completed(),
            r.target_locale() == "und"@,
    {
        let mut s = Self::new(expression);
        s.sources = sources;
        s
    }

    pub fn get_expression(&self) -> (r: &SearchExpression)
        ensures
            *r == self.expression(),
    {
        &self.expression
    }

    /// The locale replacements are written for.
    pub fn set_target_locale(&mut self, locale: &str)
        ensures
            final(self).target_locale() == locale@,
            final(self).expression() == old(self).expression() && final(self).entries() == old(self).entries(),
            final(self).sources() == old(self).sources() && final(self).results() == old(self).results(),
            final(self).completed() == old(self).completed(),
    {
        self.target_locale = locale.to_string();
    }

    /// Walks these entries next time (dropping any sources); results are
    /// stale until the next run.
    pub fn set_entries(&mut self, entries: Vec<ProjectSearchEntry>)
        ensures
            final(self).entries() == entries@ && final(self).sources().len() == 0,
            !final(self).completed(),
            final(self).expression() == old(self).expression(),
    {
        self.entries = entries;
        self.sources = Vec::new();
        self.completed = false;
    }

    /// Walks these sources next time (dropping any entries); results are
    /// stale until the next run.
    pub fn set_sources(&mut self, sources: Vec<SearchSource>)
        ensures
            final(self).sources() == sources@ && final(self).entries().len() == 0,
            !final(self).completed(),
            final(self).expression() == old(self).expression(),
    {
        self.sources = sources;
        self.entries = Vec::new();
        self.completed = false;
    }

    pub fn is_search_completed(&self) -> (r: bool)
        ensures
            r == self.completed(),
    {
        self.completed
    }

    /// The results, once the search has completed.
    pub fn get_search_results(&self) -> (r: Result<&[SearchResult], SearchNotCompleted>)
        ensures
            match r {
                Ok(v) => self.completed() && v@ == self.results(),
                Err(_) => !self.completed(),
            },
    {
        if self.completed { Ok(self.results.as_slice()) } else { Err(SearchNotCompleted) }
    }

    /// The match regions of the last string search, once completed.
    pub fn get_found_matches(&self) -> (r: Result<&[SearchMatch], SearchNotCompleted>)
        ensures
            match r {
                Ok(v) => self.completed() && v@ == self.found(),
                Err(_) => !self.completed(),
            },
    {
        if self.completed { Ok(self.found_matches.as_slice()) } else { Err(SearchNotCompleted) }
    }

    /// The results gathered so far, completed or not.
    pub fn get_partial_results(&self) -> (r: &[SearchResult])
        ensures
            r@ == self.results(),
    {
        self.results.as_slice()
    }
}

/// Width-sensitive spaces (no-break, figure, thin, narrow no-break and
/// ideographic spaces) read as a plain space.
pub open spec fn fold_width_char(c: char) -> char {
    if c == '\u{00A0}' || c == '\u{2007}' || c == '\u{2009}' || c == '\u{202F}' || c == '\u{3000}' { ' ' } else { c }
}

pub open spec fn fold_width(s: Seq<char>) -> Seq<char> {
    s.map_values(|c: char| fold_width_char(c))
}

fn fold_width_exec(s: &str) -> (r: String)
    ensures
        r@ == fold_width(s@),
{
    let v = chars_of(s);
    let mut out: Vec<char> = Vec::new();
    let mut i: usize = 0;
    while i < v.len()
        invariant
            i <= v@.len(),
            v@ == s@,
            out@ =~= fold_width(s@).subrange(0, i as int),
        decreases v@.len() - i,
    {
        let c = v[i];
        out.push(if c == '\u{00A0}' || c == '\u{2007}' || c == '\u{2009}' || c == '\u{202F}' || c == '\u{3000}' { ' ' } else { c });
        i = i + 1;
    }
    string_of(&out)
}

/// `(?i)` unless the search is case-sensitive.
pub open spec fn case_flag(case_sensitive: bool) -> Seq<char> {
    if case_sensitive { Seq::empty() } else { "(?i)"@ }
}

/// The non-empty parts of a split.
pub open spec fn nonempty_parts(parts: Seq<Seq<char>>) -> Seq<Seq<char>>
    decreases parts.len(),
{
    if parts.len() == 0 {
        Seq::empty()
    } else {
        let r = nonempty_parts(parts.drop_last());
        if parts.last().len() > 0 { r.push(parts.last()) } else { r }
    }
}

/// The regular-expression text of a regex search: with `space_match_nbsp`,
/// a space and `\s` also match a no-break space.
pub open spec fn regex_search_text(needle: Seq<char>, nbsp: bool) -> Seq<char> {
    let p1 = if nbsp && needle.contains(' ') { replace_all(needle, " "@, "( |\u{00A0})"@) } else { needle };
    if nbsp && contains(needle, "\\s"@) { replace_all(p1, "\\s"@, "(?:\\s|\u{00A0})"@) } else { p1 }
}

/// The patterns a search compiles: one per keyword for a keyword search,
/// else one.
pub open spec fn search_patterns(kind: SearchKind, case_sensitive: bool, nbsp: bool, needle: Seq<char>) -> Seq<Seq<char>> {
    match kind {
        SearchKind::Keyword => nonempty_parts(split_char(needle, ' ')).map_values(|w: Seq<char>|
            case_flag(case_sensitive) + glob_regex(w, false)),
        SearchKind::Regex => seq![case_flag(case_sensitive) + regex_search_text(needle, nbsp)],
        SearchKind::Exact => seq![case_flag(case_sensitive) + glob_regex(needle, nbsp)],
    }
}

/// The index of the character that starts at byte `b` of the UTF-8 text
/// (the characters that fit wholly in the first `b` bytes).
pub open spec fn char_at_byte(s: Seq<char>, b: int) -> int
    decreases s.len(),
{
    if b <= 0 || s.len() == 0 || char_utf8_len(s[0]) > b {
        0
    } else {
        1 + char_at_byte(s.drop_first(), b - char_utf8_len(s[0]))
    }
}

/// UTF-16 code units of a text.
pub open spec fn utf16_units(s: Seq<char>) -> nat
    decreases s.len(),
{
    if s.len() == 0 { 0 } else { utf16_units(s.drop_last()) + if (s.last() as u32) >= 0x10000 { 2nat } else { 1nat } }
}

/// The UTF-16 offset of byte `b`.
pub open spec fn utf16_at(s: Seq<char>, b: int) -> int {
    utf16_units(s.subrange(0, char_at_byte(s, b))) as int
}

pub open spec fn word_char(c: char) -> bool {
    char_alphanumeric(c) || c == '_'
}

/// The bytes `b..e` are not flanked by word characters.
pub open spec fn at_word_boundaries(s: Seq<char>, b: int, e: int) -> bool {
    let kb = char_at_byte(s, b);
    let ke = char_at_byte(s, e);
    (kb <= 0 || kb > s.len() || !word_char(s[kb - 1])) && (ke >= s.len() || ke < 0 || !word_char(s[ke]))
}

/// The kept matches among the first `n` spans: not empty and, where asked,
/// at word boundaries; each with its UTF-16 region and its replacement.
pub open spec fn kept_matches(s: Seq<char>, spans: Seq<(usize, usize)>, whole: bool, rep: spec_fn(int) -> Seq<char>, n: int)
    -> Seq<(int, int, Seq<char>)>
    decreases n,
{
    if n <= 0 || n > spans.len() {
        Seq::empty()
    } else {
        let prev = kept_matches(s, spans, whole, rep, n - 1);
        let b = spans[n - 1].0 as int;
        let e = spans[n - 1].1 as int;
        if b < e && (!whole || at_word_boundaries(s, b, e)) {
            prev.push((utf16_at(s, b), utf16_at(s, e), rep(n - 1)))
        } else {
            prev
        }
    }
}

/// The replacement of match `i`: none without a replacement; for a regex
/// search the group expansion as `cases` gives it; else the replacement text.
pub open spec fn match_replacement(kind: SearchKind, replacement: Option<Seq<char>>, cases: Seq<Seq<char>>) -> spec_fn(int) -> Seq<char> {
    |i: int| match replacement {
        None => Seq::empty(),
        Some(r) => if kind == SearchKind::Regex { cases[i] } else { r },
    }
}

/// The hits of the first `k` patterns, pattern after pattern; `None` as
/// soon as one pattern keeps no match.
pub open spec fn hits_upto(s: Seq<char>, ps: Seq<Seq<char>>, whole: bool, rep: spec_fn(int) -> Seq<char>, k: int)
    -> Option<Seq<(int, int, Seq<char>)>>
    decreases k,
{
    if k <= 0 || k > ps.len() {
        Some(Seq::empty())
    } else {
        match hits_upto(s, ps, whole, rep, k - 1) {
            None => None,
            Some(acc) => {
                let spans = regex_spans(ps[k - 1], s);
                let f = kept_matches(s, spans, whole, rep, spans.len() as int);
                if f.len() == 0 { None } else { Some(acc + f) }
            },
        }
    }
}

pub open spec fn key_le(a: (int, int, Seq<char>), b: (int, int, Seq<char>)) -> bool {
    a.0 < b.0 || (a.0 == b.0 && a.1 <= b.1)
}

/// The first index from `i` whose element sorts after `x`.
pub open spec fn first_after(v: Seq<(int, int, Seq<char>)>, x: (int, int, Seq<char>), i: int) -> int
    decreases v.len() - i,
{
    if i < 0 || i >= v.len() { v.len() as int } else if !key_le(v[i], x) { i } else { first_after(v, x, i + 1) }
}

/// Matches ordered by region, equal regions kept in their order (a stable sort).
pub open spec fn sorted_matches(v: Seq<(int, int, Seq<char>)>) -> Seq<(int, int, Seq<char>)>
    decreases v.len(),
{
    if v.len() == 0 {
        Seq::empty()
    } else {
        let w = sorted_matches(v.drop_last());
        w.insert(first_after(w, v.last(), 0), v.last())
    }
}

/// Overlapping or touching regions merged into the first of them.
pub open spec fn collapsed(v: Seq<(int, int, Seq<char>)>) -> Seq<(int, int, Seq<char>)>
    decreases v.len(),
{
    if v.len() == 0 {
        Seq::empty()
    } else {
        let c = collapsed(v.drop_last());
        let cur = v.last();
        if c.len() > 0 && cur.0 <= c.last().1 {
            let p = c.last();
            c.update(c.len() - 1, (p.0, if cur.1 > p.1 { cur.1 } else { p.1 }, p.2))
        } else {
            c.push(cur)
        }
    }
}

/// The matches of a search in `hay` (the text as searched) for `needle` (the
/// query as searched): empty when a pattern is refused, when there is no
/// pattern, or when a pattern keeps no match; else every kept match of every
/// pattern, ordered by region and, where asked, with overlaps merged.
pub open spec fn matches_in(hay: Seq<char>, needle: Seq<char>, kind: SearchKind, case_sensitive: bool, nbsp: bool,
    whole_words: bool, replacement: Option<Seq<char>>, collapse: bool, cases: Seq<Seq<char>>) -> Seq<(int, int, Seq<char>)> {
    let ps = search_patterns(kind, case_sensitive, nbsp, needle);
    let whole = whole_words && kind != SearchKind::Regex;
    if !(forall|j: int| 0 <= j < ps.len() ==> #[trigger] regex_valid(ps[j])) || ps.len() == 0 {
        Seq::empty()
    } else {
        match hits_upto(hay, ps, whole, match_replacement(kind, replacement, cases), ps.len() as int) {
            None => Seq::empty(),
            Some(f) => if collapse { collapsed(sorted_matches(f)) } else { sorted_matches(f) },
        }
    }
}

pub open spec fn match_views(v: Seq<SearchMatch>) -> Seq<(int, int, Seq<char>)> {
    v.map_values(|m: SearchMatch| (m.start as int, m.end as int, m.replacement@))
}


pub open spec fn char_units(c: char) -> nat {
    if (c as u32) >= 0x10000 { 2 } else { 1 }
}

/// The character index and the UTF-16 offset of byte `b`.
fn byte_position(h: &Vec<char>, b: usize) -> (r: (usize, usize))
    ensures
        r.0 as int == char_at_byte(h@, b as int),
        r.0 <= h@.len(),
        r.1 as int == utf16_units(h@.subrange(0, r.0 as int)),
{
    let n = h.len();
    let mut i: usize = 0;
    let mut rem: usize = b;
    let mut units: usize = 0;
    assert(h@.subrange(0, n as int) =~= h@);
    assert(h@.subrange(0, 0) =~= Seq::<char>::empty());
    while i < n && rem > 0 && crate::text::char_utf8_len_exec(h[i]) <= rem
        invariant
            n == h@.len(),
            i <= n,
            rem <= b,
            units <= b - rem,
            char_at_byte(h@, b as int) == i + char_at_byte(h@.subrange(i as int, n as int), rem as int),
            units == utf16_units(h@.subrange(0, i as int)),
        decreases n - i,
    {
        let c = h[i];
        let cl = crate::text::char_utf8_len_exec(c);
        let ghost rest = h@.subrange(i as int, n as int);
        assert(rest.drop_first() =~= h@.subrange(i + 1, n as int));
        assert(rest[0] == c);
        assert(h@.subrange(0, i + 1).drop_last() =~= h@.subrange(0, i as int));
        let u: usize = if (c as u32) >= 0x10000 { 2 } else { 1 };
        assert(u <= cl);
        rem = rem - cl;
        units = units + u;
        i = i + 1;
    }
    proof {
        let rest = h@.subrange(i as int, n as int);
        if i < n && rem > 0 {
            assert(rest[0] == h@[i as int]);
        }
    }
    (i, units)
}

fn word_char_exec(c: char) -> (r: bool)
    ensures
        r == word_char(c),
{
    crate::regex_ops::is_alphanumeric(c) || c == '_'
}

/// Whether the bytes `b..e` of `h` are not flanked by word characters.
fn at_word_boundaries_exec(h: &Vec<char>, b: usize, e: usize) -> (r: bool)
    ensures
        r == at_word_boundaries(h@, b as int, e as int),
{
    let (kb, _) = byte_position(h, b);
    let (ke, _) = byte_position(h, e);
    let before = kb == 0 || !word_char_exec(h[kb - 1]);
    let after = ke >= h.len() || !word_char_exec(h[ke]);
    before && after
}

/// The text as searched: with `on`, what `width` gives for it, with wide
/// spaces read as plain ones.
pub open spec fn searched_as<W: Fn(&str) -> String>(width: W, on: bool, t: Seq<char>, h: Seq<char>) -> bool {
    if on {
        exists|a: &str, o: String| #![trigger call_ensures(width, (a,), o)]
            a@ == t && call_ensures(width, (a,), o) && h == fold_width(o@)
    } else {
        h == t
    }
}

fn searched_text<W: Fn(&str) -> String>(t: &str, on: bool, width: &W) -> (r: String)
    requires
        forall|a: &str| #[trigger] width.requires((a,)),
    ensures
        searched_as(*width, on, t@, r@),
{
    if on {
        let o = width(t);
        let r = fold_width_exec(o.as_str());
        assert(call_ensures(*width, (t,), o));
        r
    } else {
        t.to_owned()
    }
}

fn flag_text(case_sensitive: bool) -> (r: Vec<char>)
    ensures
        r@ == case_flag(case_sensitive),
{
    if case_sensitive { Vec::new() } else { chars_of("(?i)") }
}

fn flagged(case_sensitive: bool, p: &str) -> (r: String)
    ensures
        r@ == case_flag(case_sensitive) + p@,
{
    let mut f = flag_text(case_sensitive);
    extend_chars(&mut f, &chars_of(p));
    string_of(&f)
}

fn has_space(s: &str) -> (r: bool)
    ensures
        r == s@.contains(' '),
{
    let v = chars_of(s);
    let mut i: usize = 0;
    while i < v.len()
        invariant
            i <= v@.len(),
            v@ == s@,
            forall|k: int| 0 <= k < i ==> v@[k] != ' ',
        decreases v@.len() - i,
    {
        if v[i] == ' ' {
            assert(s@[i as int] == ' ');
            return true;
        }
        i = i + 1;
    }
    false
}

/// The pattern texts a search compiles (see `search_patterns`).
fn patterns_exec(kind: SearchKind, case_sensitive: bool, nbsp: bool, needle: &str) -> (r: Vec<String>)
    ensures
        crate::regex_ops::texts_view(r@) == search_patterns(kind, case_sensitive, nbsp, needle@),
{
    match kind {
        SearchKind::Keyword => {
            let parts = split_chars(&chars_of(needle), ' ');
            let ghost sp = split_char(needle@, ' ');
            let ghost f = |w: Seq<char>| case_flag(case_sensitive) + glob_regex(w, false);
            let mut out: Vec<String> = Vec::new();
            let mut k: usize = 0;
            assert(sp.subrange(0, 0) =~= Seq::<Seq<char>>::empty());
            while k < parts.len()
                invariant
                    k <= parts@.len(),
                    parts@.len() == sp.len(),
                    forall|j: int| 0 <= j < parts@.len() ==> #[trigger] parts@[j]@ == sp[j],
                    crate::regex_ops::texts_view(out@) == nonempty_parts(sp.subrange(0, k as int)).map_values(f),
                    f == (|w: Seq<char>| case_flag(case_sensitive) + glob_regex(w, false)),
                decreases parts@.len() - k,
            {
                let ghost before = crate::regex_ops::texts_view(out@);
                assert(sp.subrange(0, k + 1).drop_last() =~= sp.subrange(0, k as int));
                assert(parts@[k as int]@ == sp[k as int]);
                if parts[k].len() > 0 {
                    let w = string_of(&parts[k]);
                    let g = glob_to_regex(w.as_str(), false);
                    let pat = flagged(case_sensitive, g.as_str());
                    out.push(pat);
                    assert(nonempty_parts(sp.subrange(0, k + 1)) == nonempty_parts(sp.subrange(0, k as int)).push(sp[k as int]));
                    assert(crate::regex_ops::texts_view(out@) =~= before.push(f(sp[k as int])));
                    assert(nonempty_parts(sp.subrange(0, k + 1)).map_values(f) =~= nonempty_parts(sp.subrange(0, k as int)).map_values(f).push(f(sp[k as int])));
                } else {
                    assert(nonempty_parts(sp.subrange(0, k + 1)) == nonempty_parts(sp.subrange(0, k as int)));
                }
                k = k + 1;
            }
            assert(sp.subrange(0, k as int) =~= sp);
            out
        },
        SearchKind::Regex => {
            let p1 = if nbsp && has_space(needle) { replace_str(needle, " ", "( |\u{00A0})") } else { needle.to_owned() };
            let p2 = if nbsp && str_contains(needle, "\\s") { replace_str(p1.as_str(), "\\s", "(?:\\s|\u{00A0})") } else { p1 };
            let mut out: Vec<String> = Vec::new();
            out.push(flagged(case_sensitive, p2.as_str()));
            assert(crate::regex_ops::texts_view(out@) =~= search_patterns(kind, case_sensitive, nbsp, needle@));
            out
        },
        SearchKind::Exact => {
            let g = glob_to_regex(needle, nbsp);
            let mut out: Vec<String> = Vec::new();
            out.push(flagged(case_sensitive, g.as_str()));
            assert(crate::regex_ops::texts_view(out@) =~= search_patterns(kind, case_sensitive, nbsp, needle@));
            out
        },
    }
}


/// `case` can give `o` for the expansion `e` in `locale`.
pub open spec fn case_fits<C: Fn(&str, &str) -> String>(case: C, e: Seq<char>, locale: Seq<char>, o: Seq<char>) -> bool {
    exists|a: &str, l: &str, x: String| #![trigger call_ensures(case, (a, l), x)]
        a@ == e && l@ == locale && x@ == o && call_ensures(case, (a, l), x)
}

/// For a regex search with a replacement, `cases` holds, for each non-empty
/// match of the pattern, what `case` gave for its expansion.
pub open spec fn cases_fit<C: Fn(&str, &str) -> String>(case: C, kind: SearchKind, replacement: Option<Seq<char>>,
    hay: Seq<char>, pattern: Seq<char>, locale: Seq<char>, cases: Seq<Seq<char>>) -> bool {
    (kind == SearchKind::Regex && replacement is Some) ==> forall|i: int| #![trigger cases[i]]
        0 <= i < regex_spans(pattern, hay).len() && regex_spans(pattern, hay)[i].0 < regex_spans(pattern, hay)[i].1
        ==> case_fits(case, regex_expansions(pattern, hay, replacement->0)[i], locale, cases[i])
}

proof fn lemma_kept_same_rep(s: Seq<char>, spans: Seq<(usize, usize)>, whole: bool, r1: spec_fn(int) -> Seq<char>,
    r2: spec_fn(int) -> Seq<char>, n: int)
    requires
        forall|j: int| 0 <= j < n ==> #[trigger] r1(j) == r2(j),
    ensures
        kept_matches(s, spans, whole, r1, n) == kept_matches(s, spans, whole, r2, n),
    decreases n,
{
    if n > 0 && n <= spans.len() {
        lemma_kept_same_rep(s, spans, whole, r1, r2, n - 1);
    }
}

fn opt_text_view(o: &Option<String>) -> (r: Option<&str>)
    ensures
        opt_view(r) == opt_string_view(*o),
{
    match o { Some(x) => Some(x.as_str()), None => None }
}

/// The kept matches of one compiled pattern in the searched text.
fn pattern_matches<C: Fn(&str, &str) -> String>(p: &crate::regex_ops::Pattern, hs: &str, h: &Vec<char>, whole: bool,
    kind: SearchKind, replacement: &Option<String>, locale: &str, case: &C)
    -> (r: (Vec<SearchMatch>, Ghost<Seq<Seq<char>>>))
    requires
        h@ == hs@,
        forall|a: &str, b: &str| #[trigger] case.requires((a, b)),
        kind == SearchKind::Regex ==> !whole,
    ensures
        match_views(r.0@) == kept_matches(h@, regex_spans(p.source(), hs@), whole,
            match_replacement(kind, opt_string_view(*replacement), r.1@), regex_spans(p.source(), hs@).len() as int),
        kind != SearchKind::Regex ==> r.1@ == Seq::<Seq<char>>::empty(),
        cases_fit(*case, kind, opt_string_view(*replacement), hs@, p.source(), locale@, r.1@),
{
    let spans = crate::regex_ops::find_spans(p, hs);
    let ghost sv = regex_spans(p.source(), hs@);
    let n = spans.len();
    let want_cases = kind == SearchKind::Regex && replacement.is_some();
    let exps: Vec<String> = match replacement {
        Some(rep) => if kind == SearchKind::Regex { crate::regex_ops::expansions(p, hs, rep.as_str()) } else { Vec::new() },
        None => Vec::new(),
    };
    let ghost mut cases: Seq<Seq<char>> = if want_cases { Seq::new(n as nat, |_j: int| Seq::<char>::empty()) } else { Seq::empty() };
    let ghost rv = opt_string_view(*replacement);
    let mut out: Vec<SearchMatch> = Vec::new();
    let mut i: usize = 0;
    while i < n
        invariant
            i <= n,
            n == spans@.len(),
            spans@ == sv,
            sv == regex_spans(p.source(), hs@),
            h@ == hs@,
            forall|a: &str, b: &str| #[trigger] case.requires((a, b)),
            want_cases == (kind == SearchKind::Regex && replacement is Some),
            rv == opt_string_view(*replacement),
            want_cases ==> cases.len() == n && exps@.len() == n
                && crate::regex_ops::texts_view(exps@) == regex_expansions(p.source(), hs@, rv->0),
            !want_cases ==> cases == Seq::<Seq<char>>::empty(),
            match_views(out@) == kept_matches(h@, sv, whole, match_replacement(kind, rv, cases), i as int),
            want_cases ==> forall|j: int| #![trigger cases[j]] 0 <= j < i && sv[j].0 < sv[j].1
                ==> case_fits(*case, regex_expansions(p.source(), hs@, rv->0)[j], locale@, cases[j]),
            forall|j: int| 0 <= j < n ==> sv[j].0 <= sv[j].1,
            kind == SearchKind::Regex ==> !whole,
        decreases n - i,
    {
        let (b, e) = spans[i];
        let ghost old_cases = cases;
        if b < e && (!whole || at_word_boundaries_exec(h, b, e)) {
            let rep_val: String = match replacement {
                None => String::new(),
                Some(r) => {
                    if kind == SearchKind::Regex {
                        let a = exps[i].as_str();
                        let c = case(a, locale);
                        proof {
                            assert(exps@[i as int]@ == regex_expansions(p.source(), hs@, rv->0)[i as int]);
                            assert(a@ == exps@[i as int]@);
                            assert(call_ensures(*case, (a, locale), c));
                            cases = cases.update(i as int, c@);
                            assert(case_fits(*case, regex_expansions(p.source(), hs@, rv->0)[i as int], locale@, cases[i as int]));
                            assert forall|j: int| #![trigger cases[j]] 0 <= j < i + 1 && sv[j].0 < sv[j].1
                                implies case_fits(*case, regex_expansions(p.source(), hs@, rv->0)[j], locale@, cases[j]) by {
                                if j < i {
                                    assert(cases[j] == old_cases[j]);
                                }
                            }
                        }
                        c
                    } else {
                        r.as_str().to_owned()
                    }
                },
            };
            proof {
                lemma_kept_same_rep(h@, sv, whole, match_replacement(kind, rv, old_cases),
                    match_replacement(kind, rv, cases), i as int);
            }
            let (_kb, ub) = byte_position(h, b);
            let (_ke, ue) = byte_position(h, e);
            let ghost before = match_views(out@);
            out.push(SearchMatch { start: ub, end: ue, replacement: rep_val });
            assert(match_views(out@) =~= before.push((ub as int, ue as int, rep_val@)));
        } else {
            assert(cases == old_cases);
        }
        i = i + 1;
    }
    (out, Ghost(cases))
}

fn copy_match(m: &SearchMatch) -> (r: SearchMatch)
    ensures
        r.start == m.start && r.end == m.end && r.replacement@ == m.replacement@,
{
    SearchMatch { start: m.start, end: m.end, replacement: m.replacement.as_str().to_owned() }
}

/// The matches ordered by region, equal regions in their order.
fn sort_matches(v: &Vec<SearchMatch>) -> (r: Vec<SearchMatch>)
    ensures
        match_views(r@) == sorted_matches(match_views(v@)),
{
    let ghost mv = match_views(v@);
    let mut out: Vec<SearchMatch> = Vec::new();
    let mut i: usize = 0;
    assert(mv.subrange(0, 0) =~= Seq::<(int, int, Seq<char>)>::empty());
    while i < v.len()
        invariant
            i <= v@.len(),
            mv == match_views(v@),
            match_views(out@) == sorted_matches(mv.subrange(0, i as int)),
        decreases v@.len() - i,
    {
        let x = copy_match(&v[i]);
        let ghost xv = (x.start as int, x.end as int, x.replacement@);
        assert(xv == mv[i as int]);
        assert(mv.subrange(0, i + 1).drop_last() =~= mv.subrange(0, i as int));
        let ghost w = match_views(out@);
        let mut k: usize = 0;
        while k < out.len() && (out[k].start < x.start || (out[k].start == x.start && out[k].end <= x.end))
            invariant
                k <= out@.len(),
                w == match_views(out@),
                first_after(w, xv, 0) == first_after(w, xv, k as int),
                xv == (x.start as int, x.end as int, x.replacement@),
            decreases out@.len() - k,
        {
            k = k + 1;
        }
        assert(first_after(w, xv, k as int) == k);
        out.insert(k, x);
        assert(match_views(out@) =~= w.insert(k as int, xv));
        i = i + 1;
    }
    assert(mv.subrange(0, i as int) =~= mv);
    out
}

/// Overlapping or touching regions merged into the first of them.
fn collapse_matches(v: &Vec<SearchMatch>) -> (r: Vec<SearchMatch>)
    ensures
        match_views(r@) == collapsed(match_views(v@)),
{
    let ghost mv = match_views(v@);
    let mut out: Vec<SearchMatch> = Vec::new();
    let mut i: usize = 0;
    assert(mv.subrange(0, 0) =~= Seq::<(int, int, Seq<char>)>::empty());
    while i < v.len()
        invariant
            i <= v@.len(),
            mv == match_views(v@),
            match_views(out@) == collapsed(mv.subrange(0, i as int)),
        decreases v@.len() - i,
    {
        assert(mv.subrange(0, i + 1).drop_last() =~= mv.subrange(0, i as int));
        let cur = copy_match(&v[i]);
        let ghost w = match_views(out@);
        let n = out.len();
        if n > 0 && cur.start <= out[n - 1].end {
            let prev = copy_match(&out[n - 1]);
            let end = if cur.end > prev.end { cur.end } else { prev.end };
            out.set(n - 1, SearchMatch { start: prev.start, end, replacement: prev.replacement });
            assert(match_views(out@) =~= w.update(n - 1, (w[n - 1].0, end as int, w[n - 1].2)));
        } else {
            let ghost cv = (cur.start as int, cur.end as int, cur.replacement@);
            out.push(cur);
            assert(match_views(out@) =~= w.push(cv));
        }
        i = i + 1;
    }
    assert(mv.subrange(0, i as int) =~= mv);
    out
}


/// What a search of `text` can give: the text and the query as searched, and
/// for a regex replacement what `case` gave for each match, then the matches.
pub open spec fn search_result<W: Fn(&str) -> String, C: Fn(&str, &str) -> String>(width: W, case: C, text: Seq<char>,
    expr: SearchExpression, collapse: bool, locale: Seq<char>, r: Seq<(int, int, Seq<char>)>) -> bool {
    exists|hay: Seq<char>, needle: Seq<char>, cases: Seq<Seq<char>>|
        #![trigger matches_in(hay, needle, expr.kind, expr.case_sensitive, expr.space_match_nbsp, expr.whole_words,
            opt_string_view(expr.replacement), collapse, cases)]
        searched_as(width, expr.width_insensitive, text, hay)
        && searched_as(width, expr.width_insensitive, expr.query@, needle)
        && cases_ok(case, expr, hay, needle, locale, cases)
        && r == matches_in(hay, needle, expr.kind, expr.case_sensitive, expr.space_match_nbsp, expr.whole_words,
            opt_string_view(expr.replacement), collapse, cases)
}

/// Where the (first) pattern is accepted, `cases` holds what `case` gave.
pub open spec fn cases_ok<C: Fn(&str, &str) -> String>(case: C, expr: SearchExpression, hay: Seq<char>, needle: Seq<char>,
    locale: Seq<char>, cases: Seq<Seq<char>>) -> bool {
    let ps = search_patterns(expr.kind, expr.case_sensitive, expr.space_match_nbsp, needle);
    ps.len() > 0 && regex_valid(ps[0]) ==> cases_fit(case, expr.kind, opt_string_view(expr.replacement), hay, ps[0], locale, cases)
}

/// Compiles every pattern; `None` when one is refused.
fn compile_all(pats: &Vec<String>) -> (r: Option<Vec<crate::regex_ops::Pattern>>)
    ensures
        r is Some <==> forall|m: int| 0 <= m < pats@.len() ==> #[trigger] regex_valid(pats@[m]@),
        r matches Some(v) ==> v@.len() == pats@.len()
            && forall|m: int| 0 <= m < pats@.len() ==> #[trigger] v@[m].source() == pats@[m]@,
{
    let mut compiled: Vec<crate::regex_ops::Pattern> = Vec::new();
    let mut j: usize = 0;
    while j < pats.len()
        invariant
            j <= pats@.len(),
            compiled@.len() == j,
            forall|k: int| 0 <= k < j ==> #[trigger] compiled@[k].source() == pats@[k]@,
            forall|k: int| 0 <= k < j ==> #[trigger] regex_valid(pats@[k]@),
        decreases pats@.len() - j,
    {
        match crate::regex_ops::compile(pats[j].as_str()) {
            Some(p) => {
                compiled.push(p);
            },
            None => {
                assert(!regex_valid(pats@[j as int]@));
                return None;
            },
        }
        j = j + 1;
    }
    Some(compiled)
}

pub open spec fn pattern_sources(v: Seq<crate::regex_ops::Pattern>) -> Seq<Seq<char>> {
    v.map_values(|p: crate::regex_ops::Pattern| p.source())
}

/// The hits of every pattern in turn; `None` as soon as one keeps none.
fn all_hits<C: Fn(&str, &str) -> String>(compiled: &Vec<crate::regex_ops::Pattern>, hay: &str, h: &Vec<char>,
    whole: bool, kind: SearchKind, replacement: &Option<String>, locale: &str, case: &C)
    -> (r: (Option<Vec<SearchMatch>>, Ghost<Seq<Seq<char>>>))
    requires
        h@ == hay@,
        compiled@.len() > 0,
        kind == SearchKind::Regex ==> compiled@.len() == 1 && !whole,
        forall|a: &str, b: &str| #[trigger] case.requires((a, b)),
    ensures
        match hits_upto(hay@, pattern_sources(compiled@), whole, match_replacement(kind, opt_string_view(*replacement), r.1@),
            compiled@.len() as int) {
            Some(f) => r.0 matches Some(v) && match_views(v@) == f,
            None => r.0 is None,
        },
        cases_fit(*case, kind, opt_string_view(*replacement), hay@, compiled@[0].source(), locale@, r.1@),
{
    let ghost ps = pattern_sources(compiled@);
    let ghost rv = opt_string_view(*replacement);
    let mut found: Vec<SearchMatch> = Vec::new();
    let ghost mut cases: Seq<Seq<char>> = Seq::empty();
    let mut k: usize = 0;
    while k < compiled.len()
        invariant
            k <= compiled@.len(),
            ps == pattern_sources(compiled@),
            compiled@.len() > 0,
            h@ == hay@,
            rv == opt_string_view(*replacement),
            forall|a: &str, b: &str| #[trigger] case.requires((a, b)),
            kind == SearchKind::Regex ==> compiled@.len() == 1 && !whole,
            kind != SearchKind::Regex ==> cases == Seq::<Seq<char>>::empty(),
            k > 0 ==> cases_fit(*case, kind, rv, hay@, compiled@[0].source(), locale@, cases),
            hits_upto(hay@, ps, whole, match_replacement(kind, rv, cases), k as int) == Some(match_views(found@)),
        decreases compiled@.len() - k,
    {
        let (f, Ghost(c)) = pattern_matches(&compiled[k], hay, h, whole, kind, replacement, locale, case);
        proof {
            if k == 0 {
                cases = c;
            } else {
                assert(c == cases);
            }
            assert(ps[k as int] == compiled@[k as int].source());
        }
        if f.len() == 0 {
            proof {
                assert(hits_upto(hay@, ps, whole, match_replacement(kind, rv, cases), k + 1) is None);
                lemma_hits_none_after(hay@, ps, whole, match_replacement(kind, rv, cases), k + 1);
            }
            return (None, Ghost(cases));
        }
        let ghost before = match_views(found@);
        let mut m: usize = 0;
        while m < f.len()
            invariant
                m <= f@.len(),
                match_views(found@) == before + match_views(f@).subrange(0, m as int),
            decreases f@.len() - m,
        {
            let ghost cur = match_views(found@);
            let x = copy_match(&f[m]);
            found.push(x);
            assert(match_views(found@) =~= cur.push(match_views(f@)[m as int]));
            assert(match_views(found@) =~= before + match_views(f@).subrange(0, m + 1));
            m = m + 1;
        }
        assert(match_views(f@).subrange(0, m as int) =~= match_views(f@));
        proof {
            let sp = regex_spans(ps[k as int], hay@);
            assert(match_views(f@) == kept_matches(hay@, sp, whole, match_replacement(kind, rv, cases), sp.len() as int));
            assert(ps.len() == compiled@.len());
            assert(match_views(f@).len() == f@.len());
            assert(hits_upto(hay@, ps, whole, match_replacement(kind, rv, cases), k as int) == Some(before));
            assert(hits_upto(hay@, ps, whole, match_replacement(kind, rv, cases), k + 1)
                == Some(before + match_views(f@)));
        }
        k = k + 1;
    }
    (Some(found), Ghost(cases))
}

/// Every match region of a search in `text` (none without a text). `width`
/// is the width normalisation applied to the text and the query of a
/// width-insensitive search; `case` adapts a regex replacement's expansion to
/// `target_locale`.
pub fn find_matches<W: Fn(&str) -> String, C: Fn(&str, &str) -> String>(text: Option<&str>, expr: &SearchExpression,
    collapse_results: bool, target_locale: &str, width: &W, case: &C) -> (r: Vec<SearchMatch>)
    requires
        forall|a: &str| #[trigger] width.requires((a,)),
        forall|a: &str, b: &str| #[trigger] case.requires((a, b)),
    ensures
        match text {
            None => r@.len() == 0,
            Some(t) => search_result(*width, *case, t@, *expr, collapse_results, target_locale@, match_views(r@)),
        },
{
    let t = match text {
        None => { return Vec::new(); },
        Some(t) => t,
    };
    let hay = searched_text(t, expr.width_insensitive, width);
    let needle = searched_text(expr.query.as_str(), expr.width_insensitive, width);
    let pats = patterns_exec(expr.kind, expr.case_sensitive, expr.space_match_nbsp, needle.as_str());
    let ghost ps = search_patterns(expr.kind, expr.case_sensitive, expr.space_match_nbsp, needle@);
    let ghost rv = opt_string_view(expr.replacement);
    let ghost empty_cases = Seq::<Seq<char>>::empty();
    let empty: Vec<SearchMatch> = Vec::new();
    assert(match_views(empty@) =~= Seq::<(int, int, Seq<char>)>::empty());
    assert(forall|m: int| 0 <= m < pats@.len() ==> #[trigger] pats@[m]@ == ps[m]);
    let compiled = match compile_all(&pats) {
        Some(c) => c,
        None => {
            proof {
                let m = choose|m: int| 0 <= m < pats@.len() && !regex_valid(#[trigger] pats@[m]@);
                assert(!regex_valid(ps[m]));
                if ps.len() > 0 && regex_valid(ps[0]) {
                    assert(expr.kind != SearchKind::Regex);
                }
            }
            assert(cases_ok(*case, *expr, hay@, needle@, target_locale@, empty_cases));
            assert(match_views(empty@) == matches_in(hay@, needle@, expr.kind, expr.case_sensitive,
                expr.space_match_nbsp, expr.whole_words, rv, collapse_results, empty_cases));
            return empty;
        },
    };
    assert(forall|m: int| 0 <= m < ps.len() ==> #[trigger] regex_valid(ps[m])) by {
        assert forall|m: int| 0 <= m < ps.len() implies #[trigger] regex_valid(ps[m]) by {
            assert(regex_valid(pats@[m]@));
        }
    }
    assert(pattern_sources(compiled@) =~= ps);
    if compiled.len() == 0 {
        assert(cases_ok(*case, *expr, hay@, needle@, target_locale@, empty_cases));
        assert(match_views(empty@) == matches_in(hay@, needle@, expr.kind, expr.case_sensitive, expr.space_match_nbsp,
            expr.whole_words, rv, collapse_results, empty_cases));
        return empty;
    }
    let whole = expr.whole_words && expr.kind != SearchKind::Regex;
    let h = chars_of(hay.as_str());
    let (hits, Ghost(cases)) = all_hits(&compiled, hay.as_str(), &h, whole, expr.kind, &expr.replacement, target_locale, case);
    assert(cases_ok(*case, *expr, hay@, needle@, target_locale@, cases));
    match hits {
        None => {
            assert(match_views(empty@) == matches_in(hay@, needle@, expr.kind, expr.case_sensitive,
                expr.space_match_nbsp, expr.whole_words, rv, collapse_results, cases));
            empty
        },
        Some(found) => {
            let sorted = sort_matches(&found);
            let r = if collapse_results { collapse_matches(&sorted) } else { sorted };
            assert(match_views(r@) == matches_in(hay@, needle@, expr.kind, expr.case_sensitive, expr.space_match_nbsp,
                expr.whole_words, rv, collapse_results, cases));
            r
        },
    }
}

/// Whether `expr` finds anything in `text` (overlapping regions collapsed,
/// undetermined target locale).
pub fn search_string<W: Fn(&str) -> String, C: Fn(&str, &str) -> String>(text: &str, expr: &SearchExpression,
    width: &W, case: &C) -> (r: bool)
    requires
        forall|a: &str| #[trigger] width.requires((a,)),
        forall|a: &str, b: &str| #[trigger] case.requires((a, b)),
    ensures
        exists|v: Seq<(int, int, Seq<char>)>| #[trigger] search_result(*width, *case, text@, *expr, true, "und"@, v)
            && r == (v.len() > 0),
{
    let found = find_matches(Some(text), expr, true, "und", width, case);
    assert(search_result(*width, *case, text@, *expr, true, "und"@, match_views(found@)));
    found.len() > 0
}

/// Every region that a replacement of `expr` would rewrite in `text`, in
/// order and uncollapsed, for an undetermined target locale.
pub fn search_replace_matches<W: Fn(&str) -> String, C: Fn(&str, &str) -> String>(text: &str,
    expr: &SearchExpression, width: &W, case: &C) -> (r: Vec<SearchMatch>)
    requires
        forall|a: &str| #[trigger] width.requires((a,)),
        forall|a: &str, b: &str| #[trigger] case.requires((a, b)),
    ensures
        search_result(*width, *case, text@, *expr, false, "und"@, match_views(r@)),
{
    find_matches(Some(text), expr, false, "und", width, case)
}

impl Searcher {
    /// Searches one text with this searcher's expression and target locale,
    /// keeping the regions as its found matches; whether any was found.
    pub fn search_string<W: Fn(&str) -> String, C: Fn(&str, &str) -> String>(&mut self, text: Option<&str>,
        collapse_results: bool, width: &W, case: &C) -> (r: bool)
        requires
            forall|a: &str| #[trigger] width.requires((a,)),
            forall|a: &str, b: &str| #[trigger] case.requires((a, b)),
        ensures
            final(self).expression() == old(self).expression(),
            final(self).entries() == old(self).entries(),
            final(self).sources() == old(self).sources(),
            final(self).results() == old(self).results(),
            final(self).completed() == old(self).completed(),
            final(self).target_locale() == old(self).target_locale(),
            match text {
                None => final(self).found().len() == 0,
                Some(t) => search_result(*width, *case, t@, old(self).expression(), collapse_results,
                    old(self).target_locale(), match_views(final(self).found())),
            },
            r == (final(self).found().len() > 0),
    {
        let found = find_matches(text, &self.expression, collapse_results, self.target_locale.as_str(), width, case);
        self.found_matches = found;
        self.found_matches.len() > 0
    }
}

/// Once a pattern keeps no match, no later count of patterns has hits.
proof fn lemma_hits_none_after(s: Seq<char>, ps: Seq<Seq<char>>, whole: bool, rep: spec_fn(int) -> Seq<char>, k: int)
    requires
        0 < k <= ps.len(),
        hits_upto(s, ps, whole, rep, k) is None,
    ensures
        hits_upto(s, ps, whole, rep, ps.len() as int) is None,
    decreases ps.len() - k,
{
    if k < ps.len() {
        lemma_hits_none_after(s, ps, whole, rep, k + 1);
    }
}


pub type MatchView = (int, int, Seq<char>);

/// `v` is what a search of `text` (none: no text) can give.
pub open spec fn found_in<W: Fn(&str) -> String, C: Fn(&str, &str) -> String>(width: W, case: C,
    text: Option<Seq<char>>, expr: SearchExpression, collapse: bool, locale: Seq<char>, v: Seq<MatchView>) -> bool {
    match text {
        None => v.len() == 0,
        Some(t) => search_result(width, case, t, expr, collapse, locale, v),
    }
}

/// The texts of an entry that a search of its properties looks at, in
/// order: property values, the project file, the id and the path (the last
/// three where not empty).
pub open spec fn property_texts(e: ProjectSearchEntry) -> Seq<Seq<char>> {
    let vals = Seq::new(e.properties@.len(), |i: int| e.properties@[i].1@);
    let with_file = match e.origin {
        SearchOrigin::Project { file, .. } => if file@.len() > 0 { vals.push(file@) } else { vals },
        _ => vals,
    };
    let with_id = match e.id {
        Some(id) => if id@.len() > 0 { with_file.push(id@) } else { with_file },
        None => with_file,
    };
    match e.path {
        Some(p) => if p@.len() > 0 { with_id.push(p@) } else { with_id },
        None => with_id,
    }
}

/// The entry number and preamble a result shows for an origin.
pub open spec fn origin_view(o: SearchOrigin, include_file: bool) -> (i32, Option<Seq<char>>) {
    match o {
        SearchOrigin::Project { entry_number, file } =>
            (entry_number as i32, if include_file && file@.len() > 0 { Some(file@) } else { None }),
        SearchOrigin::TranslationMemory { preamble } => (-1i32, if include_file { Some(preamble@) } else { None }),
        SearchOrigin::Orphan { preamble } => (-2i32, Some(preamble@)),
        SearchOrigin::Alternative { preamble } => (-3i32, Some(preamble@)),
        SearchOrigin::Glossary { preamble } => (-4i32, Some(preamble@)),
        SearchOrigin::Text { preamble } => (-5i32, if include_file { Some(preamble@) } else { None }),
    }
}

/// The expression an author filter searches with: the author as query,
/// whole words off, the rest as in `e`.
pub open spec fn author_variant(a: SearchExpression, e: SearchExpression, want: Seq<char>) -> bool {
    &&& a.query@ == want && !a.whole_words
    &&& a.kind == e.kind && a.mode == e.mode && a.case_sensitive == e.case_sensitive
    &&& a.width_insensitive == e.width_insensitive && a.space_match_nbsp == e.space_match_nbsp
    &&& opt_string_view(a.replacement) == opt_string_view(e.replacement)
}

pub open spec fn wanted_author(e: SearchExpression) -> Seq<char> {
    match e.author {
        Some(a) => a@,
        None => Seq::empty(),
    }
}

/// What the searches that an entry's check ran gave.
pub ghost struct EntryFinds {
    pub author: SearchExpression,
    pub changer: Seq<MatchView>,
    pub creator: Seq<MatchView>,
    pub source: Seq<MatchView>,
    pub target: Seq<MatchView>,
    pub note: Seq<MatchView>,
    pub props: Seq<Seq<MatchView>>,
    pub joined: Seq<MatchView>,
}

/// The source and target joined by a private-use separator, so that a
/// keyword split between them is found.
pub open spec fn joined_text(source: Seq<char>, target: Seq<char>) -> Seq<char> {
    source + seq!['\u{E000}'] + target
}

pub open spec fn author_searched(e: SearchExpression) -> bool {
    e.search_author && wanted_author(e).len() > 0
}

pub open spec fn author_passes(e: SearchExpression, en: ProjectSearchEntry, f: EntryFinds) -> bool {
    !e.search_author || (if wanted_author(e).len() == 0 {
        en.creator is None && en.changer is None
    } else {
        f.changer.len() > 0 || f.creator.len() > 0
    })
}

pub open spec fn date_passes(e: SearchExpression, en: ProjectSearchEntry) -> bool {
    &&& e.date_before matches Some(l) ==> (en.change_date matches Some(d) && d != 0 && d < l)
    &&& e.date_after matches Some(l) ==> (en.change_date matches Some(d) && d != 0 && d > l)
}

/// The property search ends at its first hit.
pub open spec fn props_found(f: EntryFinds) -> bool {
    f.props.len() > 0 && f.props.last().len() > 0
}

pub open spec fn joins(e: SearchExpression, en: ProjectSearchEntry, f: EntryFinds) -> bool {
    f.source.len() == 0 && f.target.len() == 0 && e.search_source && e.search_target && en.translation is Some
}

pub open spec fn replaces_target(e: SearchExpression, en: ProjectSearchEntry) -> bool {
    en.translation is Some && e.search_translated
}

pub open spec fn replaces_source(e: SearchExpression, en: ProjectSearchEntry) -> bool {
    en.translation is None && e.search_untranslated
}

/// The author filter's searches gave what `f` records: the changer first,
/// the creator only where the changer gave nothing.
pub open spec fn author_fits<W: Fn(&str) -> String, C: Fn(&str, &str) -> String>(width: W, case: C,
    e: SearchExpression, locale: Seq<char>, en: ProjectSearchEntry, f: EntryFinds) -> bool {
    &&& author_searched(e) ==> author_variant(f.author, e, wanted_author(e))
        && found_in(width, case, opt_string_view(en.changer), f.author, true, locale, f.changer)
        && (f.changer.len() == 0 ==> found_in(width, case, opt_string_view(en.creator), f.author, true, locale, f.creator))
        && (f.changer.len() > 0 ==> f.creator.len() == 0)
    &&& !author_searched(e) ==> f.changer.len() == 0 && f.creator.len() == 0
}

/// A plain search's field searches gave what `f` records: source, target,
/// notes, the property texts up to the first hit, and the joined source and
/// target where neither gave anything alone.
pub open spec fn search_fits<W: Fn(&str) -> String, C: Fn(&str, &str) -> String>(width: W, case: C,
    e: SearchExpression, locale: Seq<char>, en: ProjectSearchEntry, f: EntryFinds) -> bool {
    let pv = property_texts(en);
    &&& if e.search_source { found_in(width, case, Some(en.source@), e, true, locale, f.source) }
        else { f.source.len() == 0 }
    &&& if e.search_target { found_in(width, case, opt_string_view(en.translation), e, true, locale, f.target) }
        else { f.target.len() == 0 }
    &&& if e.search_notes { found_in(width, case, opt_string_view(en.note), e, true, locale, f.note) }
        else { f.note.len() == 0 }
    &&& if e.search_comments {
        &&& f.props.len() <= pv.len()
        &&& (forall|k: int| 0 <= k < f.props.len()
            ==> #[trigger] found_in(width, case, Some(pv[k]), e, true, locale, f.props[k]))
        &&& (forall|k: int| 0 <= k < f.props.len() - 1 ==> (#[trigger] f.props[k]).len() == 0)
        &&& (f.props.len() == pv.len() || props_found(f))
    } else {
        f.props.len() == 0
    }
    &&& if joins(e, en, f) {
        found_in(width, case, Some(joined_text(en.source@, en.translation->0@)), e, true, locale, f.joined)
    } else {
        f.joined.len() == 0
    }
}

/// A replace search looks at the translation of a translated entry, else
/// at the source of an untranslated one, regions uncollapsed.
pub open spec fn replace_fits<W: Fn(&str) -> String, C: Fn(&str, &str) -> String>(width: W, case: C,
    e: SearchExpression, locale: Seq<char>, en: ProjectSearchEntry, f: EntryFinds) -> bool {
    &&& if replaces_target(e, en) {
        found_in(width, case, opt_string_view(en.translation), e, false, locale, f.target)
    } else {
        f.target.len() == 0
    }
    &&& if !replaces_target(e, en) && replaces_source(e, en) {
        found_in(width, case, Some(en.source@), e, false, locale, f.source)
    } else {
        f.source.len() == 0
    }
    &&& f.note.len() == 0 && f.props.len() == 0 && f.joined.len() == 0
}

/// Each search the check of `en` ran gave what `f` records, and what was not
/// searched is recorded empty.
pub open spec fn finds_fit<W: Fn(&str) -> String, C: Fn(&str, &str) -> String>(width: W, case: C,
    e: SearchExpression, locale: Seq<char>, en: ProjectSearchEntry, f: EntryFinds) -> bool {
    &&& author_fits(width, case, e, locale, en, f)
    &&& (author_passes(e, en, f) && date_passes(e, en)) ==> match e.mode {
        SearchMode::Search => search_fits(width, case, e, locale, en, f),
        SearchMode::Replace => replace_fits(width, case, e, locale, en, f),
    }
}

pub open spec fn texts_of(v: Seq<String>) -> Seq<Seq<char>> {
    Seq::new(v.len(), |i: int| v[i]@)
}

fn copy_opt(o: &Option<String>) -> (r: Option<String>)
    ensures
        opt_string_view(r) == opt_string_view(*o),
{
    match o {
        Some(s) => Some(s.clone()),
        None => None,
    }
}

fn opt_str(o: &Option<String>) -> (r: Option<&str>)
    ensures
        opt_view(r) == opt_string_view(*o),
{
    match o {
        Some(s) => Some(s.as_str()),
        None => None,
    }
}

/// The entry number and preamble a result shows for an origin.
fn origin_fields(origin: &SearchOrigin, include_file: bool) -> (r: (i32, Option<String>))
    ensures
        (r.0, opt_string_view(r.1)) == origin_view(*origin, include_file),
{
    match origin {
        SearchOrigin::Project { entry_number, file } => {
            let n = *entry_number as i32;
            if include_file && file.as_str().unicode_len() > 0 { (n, Some(file.clone())) } else { (n, None) }
        },
        SearchOrigin::TranslationMemory { preamble } =>
            (-1i32, if include_file { Some(preamble.clone()) } else { None }),
        SearchOrigin::Orphan { preamble } => (-2i32, Some(preamble.clone())),
        SearchOrigin::Alternative { preamble } => (-3i32, Some(preamble.clone())),
        SearchOrigin::Glossary { preamble } => (-4i32, Some(preamble.clone())),
        SearchOrigin::Text { preamble } => (-5i32, if include_file { Some(preamble.clone()) } else { None }),
    }
}

impl ProjectSearchEntry {
    /// The texts a search of the entry's properties looks at, in order.
    pub fn property_values(&self) -> (r: Vec<String>)
        ensures
            texts_of(r@) == property_texts(*self),
    {
        let mut r: Vec<String> = Vec::new();
        let mut i: usize = 0;
        let ghost vals = Seq::new(self.properties@.len(), |i: int| self.properties@[i].1@);
        while i < self.properties.len()
            invariant
                i <= self.properties@.len(),
                vals == Seq::new(self.properties@.len(), |i: int| self.properties@[i].1@),
                texts_of(r@) == vals.subrange(0, i as int),
            decreases self.properties@.len() - i,
        {
            let v = self.properties[i].1.clone();
            let ghost old_r = r@;
            r.push(v);
            assert(texts_of(r@) =~= texts_of(old_r).push(vals[i as int]));
            assert(vals.subrange(0, i + 1) =~= vals.subrange(0, i as int).push(vals[i as int]));
            i = i + 1;
        }
        assert(vals.subrange(0, i as int) =~= vals);
        match &self.origin {
            SearchOrigin::Project { file, .. } => {
                if file.as_str().unicode_len() > 0 {
                    let ghost old_r = r@;
                    r.push(file.clone());
                    assert(texts_of(r@) =~= texts_of(old_r).push(file@));
                }
            },
            _ => {},
        }
        let ghost with_file = texts_of(r@);
        match &self.id {
            Some(id) => {
                if id.as_str().unicode_len() > 0 {
                    r.push(id.clone());
                    assert(texts_of(r@) =~= with_file.push(id@));
                }
            },
            None => {},
        }
        let ghost with_id = texts_of(r@);
        match &self.path {
            Some(p) => {
                if p.as_str().unicode_len() > 0 {
                    r.push(p.clone());
                    assert(texts_of(r@) =~= with_id.push(p@));
                }
            },
            None => {},
        }
        r
    }
}

/// What a found entry shows.
pub ghost struct ResultView {
    pub entry_number: i32,
    pub preamble: Option<Seq<char>>,
    pub source: Seq<char>,
    pub translation: Option<Seq<char>>,
    pub note: Option<Seq<char>>,
    pub property: Option<Seq<char>>,
    pub source_matches: Seq<MatchView>,
    pub target_matches: Seq<MatchView>,
    pub note_matches: Seq<MatchView>,
    pub property_matches: Seq<MatchView>,
}

pub open spec fn result_view(r: SearchResult) -> ResultView {
    ResultView {
        entry_number: r.entry_number,
        preamble: opt_string_view(r.preamble),
        source: r.source@,
        translation: opt_string_view(r.translation),
        note: opt_string_view(r.note),
        property: opt_string_view(r.property),
        source_matches: match_views(r.source_matches@),
        target_matches: match_views(r.target_matches@),
        note_matches: match_views(r.note_matches@),
        property_matches: match_views(r.property_matches@),
    }
}

pub open spec fn opt_result_view(r: Option<SearchResult>) -> Option<ResultView> {
    match r {
        Some(x) => Some(result_view(x)),
        None => None,
    }
}

/// The result for an entry given what its searches gave: none when a filter
/// refuses it or nothing was found; the source's regions are those of the
/// joined text where that was searched.
pub open spec fn entry_result(e: SearchExpression, en: ProjectSearchEntry, f: EntryFinds) -> Option<ResultView> {
    let sm = if e.mode == SearchMode::Search && joins(e, en, f) { f.joined } else { f.source };
    let pm = if props_found(f) { f.props.last() } else { Seq::empty() };
    let prop = if props_found(f) { Some(property_texts(en)[f.props.len() - 1]) } else { None };
    if !author_passes(e, en, f) || !date_passes(e, en) {
        None
    } else if sm.len() == 0 && f.target.len() == 0 && f.note.len() == 0 && pm.len() == 0 {
        None
    } else {
        let o = origin_view(en.origin, e.file_names);
        Some(ResultView {
            entry_number: o.0,
            preamble: o.1,
            source: en.source@,
            translation: opt_string_view(en.translation),
            note: opt_string_view(en.note),
            property: prop,
            source_matches: sm,
            target_matches: f.target,
            note_matches: f.note,
            property_matches: pm,
        })
    }
}


impl Searcher {
    fn find_in<W: Fn(&str) -> String, C: Fn(&str, &str) -> String>(&self, text: Option<&str>, expr: &SearchExpression,
        collapse: bool, width: &W, case: &C) -> (r: Vec<SearchMatch>)
        requires
            forall|a: &str| #[trigger] width.requires((a,)),
            forall|a: &str, b: &str| #[trigger] case.requires((a, b)),
        ensures
            found_in(*width, *case, opt_view(text), *expr, collapse, self.target_locale(), match_views(r@)),
    {
        let r = find_matches(text, expr, collapse, self.target_locale.as_str(), width, case);
        assert(match text { None => match_views(r@).len() == 0, Some(_) => true });
        r
    }

    /// The expression an author filter searches with.
    fn author_expression(&self, want: &str) -> (r: SearchExpression)
        ensures
            author_variant(r, self.expression(), want@),
    {
        let e = &self.expression;
        SearchExpression {
            query: want.to_string(),
            kind: e.kind,
            mode: e.mode,
            case_sensitive: e.case_sensitive,
            whole_words: false,
            width_insensitive: e.width_insensitive,
            space_match_nbsp: e.space_match_nbsp,
            replacement: copy_opt(&e.replacement),
            author: copy_opt(&e.author),
            search_author: e.search_author,
            date_before: e.date_before,
            date_after: e.date_after,
            search_source: e.search_source,
            search_target: e.search_target,
            search_notes: e.search_notes,
            search_comments: e.search_comments,
            search_translated: e.search_translated,
            search_untranslated: e.search_untranslated,
            all_results: e.all_results,
            file_names: e.file_names,
            exclude_orphans: e.exclude_orphans,
            number_of_results: e.number_of_results,
        }
    }

    /// The author filter: whether the entry passes it, and what its
    /// searches gave.
    fn author_check<W: Fn(&str) -> String, C: Fn(&str, &str) -> String>(&self, entry: &ProjectSearchEntry,
        width: &W, case: &C) -> (r: (bool, Ghost<EntryFinds>))
        requires
            forall|a: &str| #[trigger] width.requires((a,)),
            forall|a: &str, b: &str| #[trigger] case.requires((a, b)),
        ensures
            author_fits(*width, *case, self.expression(), self.target_locale(), *entry, r.1@),
            r.0 == author_passes(self.expression(), *entry, r.1@),
    {
        let ghost e = self.expression();
        let ghost none = Seq::<MatchView>::empty();
        let ghost base = EntryFinds { author: e, changer: none, creator: none, source: none, target: none, note: none,
            props: Seq::empty(), joined: none };
        if !self.expression.search_author {
            return (true, Ghost(base));
        }
        let want: &str = match &self.expression.author {
            Some(a) => a.as_str(),
            None => "",
        };
        assert(want@ == wanted_author(e)) by {
            if e.author is None {
                reveal_strlit("");
            }
        }
        if want.unicode_len() == 0 {
            return (entry.creator.is_none() && entry.changer.is_none(), Ghost(base));
        }
        let a = self.author_expression(want);
        let ch = self.find_in(opt_str(&entry.changer), &a, true, width, case);
        if ch.len() > 0 {
            let ghost f = EntryFinds { author: a, changer: match_views(ch@), ..base };
            return (true, Ghost(f));
        }
        let cr = self.find_in(opt_str(&entry.creator), &a, true, width, case);
        let ghost f = EntryFinds { author: a, changer: match_views(ch@), creator: match_views(cr@), ..base };
        (cr.len() > 0, Ghost(f))
    }

    fn date_ok(&self, entry: &ProjectSearchEntry) -> (r: bool)
        ensures
            r == date_passes(self.expression(), *entry),
    {
        match self.expression.date_before {
            Some(l) => match entry.change_date {
                None => { return false; },
                Some(d) => if d == 0 || d >= l { return false; },
            },
            None => {},
        }
        match self.expression.date_after {
            Some(l) => match entry.change_date {
                None => { return false; },
                Some(d) => if d == 0 || d <= l { return false; },
            },
            None => {},
        }
        true
    }
}


/// The regions a result shows for the source: those of the joined text
/// where that was searched.
pub open spec fn shown_source(e: SearchExpression, en: ProjectSearchEntry, f: EntryFinds) -> Seq<MatchView> {
    if e.mode == SearchMode::Search && joins(e, en, f) { f.joined } else { f.source }
}

pub open spec fn shown_property(en: ProjectSearchEntry, f: EntryFinds) -> (Option<Seq<char>>, Seq<MatchView>) {
    if props_found(f) { (Some(property_texts(en)[f.props.len() - 1]), f.props.last()) } else { (None, Seq::empty()) }
}

/// What one entry's field searches found: the source, target and note
/// regions, and the property text with its regions.
struct FieldFinds {
    source: Vec<SearchMatch>,
    target: Vec<SearchMatch>,
    note: Vec<SearchMatch>,
    property: Option<String>,
    property_matches: Vec<SearchMatch>,
}

spec fn fields_shown(e: SearchExpression, en: ProjectSearchEntry, f: EntryFinds, ff: FieldFinds) -> bool {
    &&& match_views(ff.source@) == shown_source(e, en, f)
    &&& match_views(ff.target@) == f.target
    &&& match_views(ff.note@) == f.note
    &&& opt_string_view(ff.property) == shown_property(en, f).0
    &&& match_views(ff.property_matches@) == shown_property(en, f).1
}

impl Searcher {
    /// The field searches of a plain search.
    fn search_fields<W: Fn(&str) -> String, C: Fn(&str, &str) -> String>(&self, entry: &ProjectSearchEntry,
        base: Ghost<EntryFinds>, width: &W, case: &C) -> (r: (FieldFinds, Ghost<EntryFinds>))
        requires
            forall|a: &str| #[trigger] width.requires((a,)),
            forall|a: &str, b: &str| #[trigger] case.requires((a, b)),
            self.expression().mode == SearchMode::Search,
        ensures
            search_fits(*width, *case, self.expression(), self.target_locale(), *entry, r.1@),
            fields_shown(self.expression(), *entry, r.1@, r.0),
            r.1@.author == base@.author && r.1@.changer == base@.changer && r.1@.creator == base@.creator,
    {
        let ghost e = self.expression();
        let ghost locale = self.target_locale();
        let mut source: Vec<SearchMatch> = Vec::new();
        let mut target: Vec<SearchMatch> = Vec::new();
        let mut note: Vec<SearchMatch> = Vec::new();
        if self.expression.search_source {
            source = self.find_in(Some(entry.source.as_str()), &self.expression, true, width, case);
        }
        if self.expression.search_target {
            target = self.find_in(opt_str(&entry.translation), &self.expression, true, width, case);
        }
        if self.expression.search_notes {
            note = self.find_in(opt_str(&entry.note), &self.expression, true, width, case);
        }
        let pv = entry.property_values();
        let ghost pt = property_texts(*entry);
        let ghost mut props: Seq<Seq<MatchView>> = Seq::empty();
        let mut property: Option<String> = None;
        let mut property_matches: Vec<SearchMatch> = Vec::new();
        if self.expression.search_comments {
            let mut k: usize = 0;
            let mut done = false;
            while !done && k < pv.len()
                invariant
                    k <= pv@.len(),
                    texts_of(pv@) == pt,
                    pt.len() == pv@.len(),
                    forall|a: &str| #[trigger] width.requires((a,)),
                    forall|a: &str, b: &str| #[trigger] case.requires((a, b)),
                    e == self.expression(),
                    locale == self.target_locale(),
                    forall|j: int| 0 <= j < props.len()
                        ==> #[trigger] found_in(*width, *case, Some(pt[j]), e, true, locale, props[j]),
                    !done ==> props.len() == k && property is None && match_views(property_matches@).len() == 0,
                    done ==> props.len() == k + 1 && k < pv@.len() && props[k as int].len() > 0
                        && opt_string_view(property) == Some(pt[k as int])
                        && match_views(property_matches@) == props[k as int],
                    forall|j: int| 0 <= j < k ==> (#[trigger] props[j]).len() == 0,
                decreases pv@.len() - k + (if done { 0int } else { 1int }),
            {
                assert(pt[k as int] == pv@[k as int]@);
                let m = self.find_in(Some(pv[k].as_str()), &self.expression, true, width, case);
                proof {
                    props = props.push(match_views(m@));
                }
                if m.len() > 0 {
                    property = Some(pv[k].clone());
                    property_matches = m;
                    done = true;
                } else {
                    k = k + 1;
                }
            }
            proof {
                if done {
                    assert(props.last() == props[k as int]);
                } else {
                    assert(match_views(property_matches@) =~= Seq::<MatchView>::empty());
                }
            }
        } else {
            assert(match_views(property_matches@) =~= Seq::<MatchView>::empty());
        }
        let ghost f0 = EntryFinds { source: match_views(source@), target: match_views(target@), note: match_views(note@),
            props, joined: Seq::empty(), ..base@ };
        if source.len() == 0 && target.len() == 0 && self.expression.search_source && self.expression.search_target {
            match &entry.translation {
                Some(t) => {
                    let mut v = chars_of(entry.source.as_str());
                    v.push('\u{E000}');
                    let tv = chars_of(t.as_str());
                    extend_chars(&mut v, &tv);
                    let joined = string_of(&v);
                    assert(joined@ =~= joined_text(entry.source@, t@));
                    let m = self.find_in(Some(joined.as_str()), &self.expression, true, width, case);
                    let ghost f = EntryFinds { joined: match_views(m@), ..f0 };
                    assert(joins(e, *entry, f));
                    let ff = FieldFinds { source: m, target, note, property, property_matches };
                    return (ff, Ghost(f));
                },
                None => {},
            }
        }
        let ff = FieldFinds { source, target, note, property, property_matches };
        (ff, Ghost(f0))
    }

    /// The field searches of a replace search.
    fn replace_fields<W: Fn(&str) -> String, C: Fn(&str, &str) -> String>(&self, entry: &ProjectSearchEntry,
        base: Ghost<EntryFinds>, width: &W, case: &C) -> (r: (FieldFinds, Ghost<EntryFinds>))
        requires
            forall|a: &str| #[trigger] width.requires((a,)),
            forall|a: &str, b: &str| #[trigger] case.requires((a, b)),
            self.expression().mode == SearchMode::Replace,
        ensures
            replace_fits(*width, *case, self.expression(), self.target_locale(), *entry, r.1@),
            fields_shown(self.expression(), *entry, r.1@, r.0),
            r.1@.author == base@.author && r.1@.changer == base@.changer && r.1@.creator == base@.creator,
    {
        let mut source: Vec<SearchMatch> = Vec::new();
        let mut target: Vec<SearchMatch> = Vec::new();
        if entry.translation.is_some() && self.expression.search_translated {
            target = self.find_in(opt_str(&entry.translation), &self.expression, false, width, case);
        } else if entry.translation.is_none() && self.expression.search_untranslated {
            source = self.find_in(Some(entry.source.as_str()), &self.expression, false, width, case);
        }
        let ghost none = Seq::<MatchView>::empty();
        let ghost f = EntryFinds { source: match_views(source@), target: match_views(target@), note: none,
            props: Seq::empty(), joined: none, ..base@ };
        let ff = FieldFinds { source, target, note: Vec::new(), property: None, property_matches: Vec::new() };
        assert(match_views(ff.note@) =~= none);
        assert(match_views(ff.property_matches@) =~= none);
        (ff, Ghost(f))
    }

    /// The result a search gives for one entry: none where the author or
    /// date filter refuses it or no field has a region; otherwise its texts
    /// and the regions of each field, the source's taken from the source
    /// and translation joined where neither has one alone.
    pub fn match_entry<W: Fn(&str) -> String, C: Fn(&str, &str) -> String>(&self, entry: &ProjectSearchEntry,
        width: &W, case: &C) -> (r: Option<SearchResult>)
        requires
            forall|a: &str| #[trigger] width.requires((a,)),
            forall|a: &str, b: &str| #[trigger] case.requires((a, b)),
        ensures
            exists|f: EntryFinds| #![trigger entry_result(self.expression(), *entry, f)]
                finds_fit(*width, *case, self.expression(), self.target_locale(), *entry, f)
                && opt_result_view(r) == entry_result(self.expression(), *entry, f),
    {
        let ghost e = self.expression();
        let (author_ok, Ghost(fa)) = self.author_check(entry, width, case);
        if !author_ok {
            assert(finds_fit(*width, *case, e, self.target_locale(), *entry, fa));
            assert(opt_result_view(None) == entry_result(e, *entry, fa));
            return None;
        }
        if !self.date_ok(entry) {
            assert(finds_fit(*width, *case, e, self.target_locale(), *entry, fa));
            assert(opt_result_view(None) == entry_result(e, *entry, fa));
            return None;
        }
        let (ff, Ghost(f)) = match self.expression.mode {
            SearchMode::Search => self.search_fields(entry, Ghost(fa), width, case),
            SearchMode::Replace => self.replace_fields(entry, Ghost(fa), width, case),
        };
        assert(author_fits(*width, *case, e, self.target_locale(), *entry, f));
        assert(author_passes(e, *entry, f));
        assert(finds_fit(*width, *case, e, self.target_locale(), *entry, f));
        if ff.source.len() == 0 && ff.target.len() == 0 && ff.note.len() == 0 && ff.property_matches.len() == 0 {
            assert(opt_result_view(None) == entry_result(e, *entry, f));
            return None;
        }
        let (entry_number, preamble) = origin_fields(&entry.origin, self.expression.file_names);
        let r = SearchResult {
            entry_number,
            preamble,
            source: entry.source.clone(),
            translation: copy_opt(&entry.translation),
            note: copy_opt(&entry.note),
            property: ff.property,
            source_matches: ff.source,
            target_matches: ff.target,
            note_matches: ff.note,
            property_matches: ff.property_matches,
        };
        assert(opt_result_view(Some(r)) == entry_result(e, *entry, f));
        Some(r)
    }
}

} // verus!
