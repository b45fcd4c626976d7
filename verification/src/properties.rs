//! Project properties: folders, languages, team repositories and the
//! translation-memory export levels.
use vstd::prelude::*;
use crate::file_util::{path_join, path_join_exec};
use crate::text::{str_eq, chars_of, string_of, slice_vec, is_ws, is_ws_exec, lower_ascii_seq, to_ascii_lowercase, concat_str};

verus! {

pub struct RepositoryMapping {
    pub local: String,
    pub repository: String,
    pub includes: Vec<String>,
    pub excludes: Vec<String>,
}

pub struct RepositoryDef {
    pub repo_type: String,
    pub url: String,
    pub branch: Option<String>,
    pub mappings: Vec<RepositoryMapping>,
}

/// A project's settings; folders are paths written as text.
pub struct ProjectProperties {
    pub root: String,
    pub source_dir: String,
    pub target_dir: String,
    pub tm_dir: String,
    pub glossary_dir: String,
    pub glossary_file: String,
    pub dictionary_dir: String,
    pub export_tm_dir: String,
    pub export_tm_levels: String,
    pub source_lang: String,
    pub target_lang: String,
    pub source_tok: String,
    pub target_tok: String,
    pub sentence_seg: bool,
    pub support_default_translations: bool,
    pub remove_tags: bool,
    pub external_command: String,
    pub source_dir_excludes: Vec<String>,
    pub repositories: Vec<RepositoryDef>,
    pub raw_unknown: String,
}

pub open spec fn opt_str(o: Option<String>) -> Option<Seq<char>> {
    match o { Some(s) => Some(s@), None => None }
}

/// A repository whose first mapping maps `/` to `/`: the project root.
pub open spec fn is_root_repository(r: RepositoryDef) -> bool {
    r.mappings@.len() > 0 && r.mappings@[0].local@ == "/"@ && r.mappings@[0].repository@ == "/"@
}

/// The index of the first root repository.
pub open spec fn first_root(rs: Seq<RepositoryDef>, i: int) -> Option<int>
    decreases rs.len() - i,
{
    if i < 0 || i >= rs.len() { None } else if is_root_repository(rs[i]) { Some(i) } else { first_root(rs, i + 1) }
}

fn is_root_exec(r: &RepositoryDef) -> (b: bool)
    ensures
        b == is_root_repository(*r),
{
    r.mappings.len() > 0 && str_eq(r.mappings[0].local.as_str(), "/") && str_eq(r.mappings[0].repository.as_str(), "/")
}

fn first_root_exec(rs: &[RepositoryDef]) -> (r: Option<usize>)
    ensures
        match r { Some(i) => first_root(rs@, 0) == Some(i as int) && i < rs@.len(), None => first_root(rs@, 0) is None },
{
    let mut i: usize = 0;
    while i < rs.len()
        invariant
            i <= rs@.len(),
            first_root(rs@, 0) == first_root(rs@, i as int),
        decreases rs@.len() - i,
    {
        if is_root_exec(&rs[i]) {
            return Some(i);
        }
        i = i + 1;
    }
    None
}

/// The repository that maps the project root, if any.
pub fn root_repository_mapping(repositories: &[RepositoryDef]) -> (r: Option<&RepositoryDef>)
    ensures
        match first_root(repositories@, 0) {
            Some(i) => r == Some(&repositories@[i]),
            None => r is None,
        },
{
    match first_root_exec(repositories) {
        Some(i) => Some(&repositories[i]),
        None => None,
    }
}

/// Points the root repository at another connection (type, URL, branch),
/// keeping its mappings; false where there is no root repository.
pub fn set_root_repository_mapping(repositories: &mut Vec<RepositoryDef>, replacement: &RepositoryDef) -> (r: bool)
    ensures
        final(repositories)@.len() == old(repositories)@.len(),
        match first_root(old(repositories)@, 0) {
            Some(i) => r && final(repositories)@ == old(repositories)@.update(i, RepositoryDef {
                repo_type: final(repositories)@[i].repo_type, url: final(repositories)@[i].url,
                branch: final(repositories)@[i].branch, mappings: old(repositories)@[i].mappings })
                && final(repositories)@[i].repo_type@ == replacement.repo_type@
                && final(repositories)@[i].url@ == replacement.url@
                && opt_str(final(repositories)@[i].branch) == opt_str(replacement.branch),
            None => !r && final(repositories)@ == old(repositories)@,
        },
{
    match first_root_exec(repositories.as_slice()) {
        None => false,
        Some(i) => {
            let mut root = repositories.remove(i);
            root.repo_type = replacement.repo_type.clone();
            root.url = replacement.url.clone();
            root.branch = match &replacement.branch { Some(b) => Some(b.clone()), None => None };
            repositories.insert(i, root);
            true
        },
    }
}

fn opt_eq(a: &Option<String>, b: &Option<String>) -> (r: bool)
    ensures
        r == (opt_str(*a) == opt_str(*b)),
{
    match (a, b) {
        (Some(x), Some(y)) => str_eq(x.as_str(), y.as_str()),
        (None, None) => true,
        _ => false,
    }
}

pub open spec fn same_connection(a: RepositoryDef, b: RepositoryDef) -> bool {
    a.repo_type@ == b.repo_type@ && a.url@ == b.url@ && opt_str(a.branch) == opt_str(b.branch)
}

/// Whether two repositories are the same connection (mappings aside).
pub fn repository_equals(a: &RepositoryDef, b: &RepositoryDef) -> (r: bool)
    ensures
        r == same_connection(*a, *b),
{
    str_eq(a.repo_type.as_str(), b.repo_type.as_str()) && str_eq(a.url.as_str(), b.url.as_str()) && opt_eq(&a.branch, &b.branch)
}


pub open spec fn strs(v: Seq<String>) -> Seq<Seq<char>> {
    Seq::new(v.len(), |i: int| v[i]@)
}

/// Same connections with the same mapping ends, position by position.
pub open spec fn same_repositories(a: Seq<RepositoryDef>, b: Seq<RepositoryDef>) -> bool {
    a.len() == b.len() && forall|i: int| 0 <= i < a.len() ==> #[trigger] same_repository(a[i], b[i])
}

pub open spec fn same_repository(l: RepositoryDef, r: RepositoryDef) -> bool {
    same_connection(l, r) && l.mappings@.len() == r.mappings@.len()
        && forall|j: int| 0 <= j < l.mappings@.len() ==> #[trigger] same_mapping_ends(l.mappings@[j], r.mappings@[j])
}

pub open spec fn same_mapping_ends(a: RepositoryMapping, b: RepositoryMapping) -> bool {
    a.local@ == b.local@ && a.repository@ == b.repository@
}

/// The settings that make two projects the same project.
pub open spec fn identical_properties(a: ProjectProperties, b: ProjectProperties) -> bool {
    &&& same_repositories(a.repositories@, b.repositories@)
    &&& strs(a.source_dir_excludes@) == strs(b.source_dir_excludes@)
    &&& a.sentence_seg == b.sentence_seg && a.support_default_translations == b.support_default_translations
    &&& a.remove_tags == b.remove_tags
    &&& a.source_lang@ == b.source_lang@ && a.target_lang@ == b.target_lang@
    &&& a.source_tok@ == b.source_tok@ && a.target_tok@ == b.target_tok@
    &&& a.export_tm_levels@ == b.export_tm_levels@ && a.external_command@ == b.external_command@
    &&& a.root@ == b.root@ && a.source_dir@ == b.source_dir@ && a.target_dir@ == b.target_dir@
    &&& a.glossary_dir@ == b.glossary_dir@ && a.glossary_file@ == b.glossary_file@ && a.tm_dir@ == b.tm_dir@
    &&& a.export_tm_dir@ == b.export_tm_dir@ && a.dictionary_dir@ == b.dictionary_dir@
}

fn same_repository_exec(l: &RepositoryDef, r: &RepositoryDef) -> (b: bool)
    ensures
        b == same_repository(*l, *r),
{
    if !repository_equals(l, r) || l.mappings.len() != r.mappings.len() {
        return false;
    }
    let mut j: usize = 0;
    while j < l.mappings.len()
        invariant
            j <= l.mappings@.len(),
            l.mappings@.len() == r.mappings@.len(),
            forall|k: int| 0 <= k < j ==> #[trigger] same_mapping_ends(l.mappings@[k], r.mappings@[k]),
        decreases l.mappings@.len() - j,
    {
        if !(str_eq(l.mappings[j].local.as_str(), r.mappings[j].local.as_str())
            && str_eq(l.mappings[j].repository.as_str(), r.mappings[j].repository.as_str())) {
            assert(!same_mapping_ends(l.mappings@[j as int], r.mappings@[j as int]));
            return false;
        }
        j = j + 1;
    }
    true
}

fn same_strings(a: &Vec<String>, b: &Vec<String>) -> (r: bool)
    ensures
        r == (strs(a@) == strs(b@)),
{
    if a.len() != b.len() {
        assert(strs(a@).len() != strs(b@).len());
        return false;
    }
    let mut i: usize = 0;
    while i < a.len()
        invariant
            i <= a@.len(),
            a@.len() == b@.len(),
            forall|k: int| 0 <= k < i ==> strs(a@)[k] == strs(b@)[k],
        decreases a@.len() - i,
    {
        if !str_eq(a[i].as_str(), b[i].as_str()) {
            assert(strs(a@)[i as int] != strs(b@)[i as int]);
            return false;
        }
        i = i + 1;
    }
    assert(strs(a@) =~= strs(b@));
    true
}

/// Whether two property sets describe the same project (the settings that
/// the project file keeps; unknown raw content aside).
pub fn project_properties_identical(a: &ProjectProperties, b: &ProjectProperties) -> (r: bool)
    ensures
        r == identical_properties(*a, *b),
{
    let mut repos = a.repositories.len() == b.repositories.len();
    if repos {
        let mut i: usize = 0;
        while i < a.repositories.len()
            invariant
                i <= a.repositories@.len(),
                a.repositories@.len() == b.repositories@.len(),
                repos <==> forall|k: int| 0 <= k < i ==> #[trigger] same_repository(a.repositories@[k], b.repositories@[k]),
            decreases a.repositories@.len() - i,
        {
            if !same_repository_exec(&a.repositories[i], &b.repositories[i]) {
                repos = false;
            }
            i = i + 1;
        }
    }
    repos
        && same_strings(&a.source_dir_excludes, &b.source_dir_excludes)
        && a.sentence_seg == b.sentence_seg
        && a.support_default_translations == b.support_default_translations
        && a.remove_tags == b.remove_tags
        && str_eq(a.source_lang.as_str(), b.source_lang.as_str())
        && str_eq(a.target_lang.as_str(), b.target_lang.as_str())
        && str_eq(a.source_tok.as_str(), b.source_tok.as_str())
        && str_eq(a.target_tok.as_str(), b.target_tok.as_str())
        && str_eq(a.export_tm_levels.as_str(), b.export_tm_levels.as_str())
        && str_eq(a.external_command.as_str(), b.external_command.as_str())
        && str_eq(a.root.as_str(), b.root.as_str())
        && str_eq(a.source_dir.as_str(), b.source_dir.as_str())
        && str_eq(a.target_dir.as_str(), b.target_dir.as_str())
        && str_eq(a.glossary_dir.as_str(), b.glossary_dir.as_str())
        && str_eq(a.glossary_file.as_str(), b.glossary_file.as_str())
        && str_eq(a.tm_dir.as_str(), b.tm_dir.as_str())
        && str_eq(a.export_tm_dir.as_str(), b.export_tm_dir.as_str())
        && str_eq(a.dictionary_dir.as_str(), b.dictionary_dir.as_str())
}

/// The export level names, as written (space separated) in the order
/// `omegat`, `level1`, `level2`.
pub open spec fn levels_text(omegat: bool, level1: bool, level2: bool) -> Seq<char> {
    let a = if omegat { seq!["omegat"@] } else { Seq::empty() };
    let b = if level1 { a.push("level1"@) } else { a };
    let c = if level2 { b.push("level2"@) } else { b };
    if c.len() == 0 { Seq::empty() } else if c.len() == 1 { c[0] } else if c.len() == 2 { c[0] + " "@ + c[1] }
    else { c[0] + " "@ + c[1] + " "@ + c[2] }
}

pub open spec fn has_level(levels: Seq<&str>, name: Seq<char>) -> bool {
    exists|i: int| 0 <= i < levels.len() && lower_ascii_seq(#[trigger] levels[i]@) == name
}

impl ProjectProperties {
    /// Sets which translation memories are exported.
    pub fn set_export_tm_levels(&mut self, omegat: bool, level1: bool, level2: bool)
        ensures
            final(self).export_tm_levels@ == levels_text(omegat, level1, level2),
            final(self).root == old(self).root && final(self).repositories == old(self).repositories,
    {
        let mut out = String::new();
        proof { reveal_strlit("omegat"); reveal_strlit("level1"); reveal_strlit("level2"); reveal_strlit(" "); }
        let mut first = true;
        if omegat {
            out = concat_str(out.as_str(), "omegat");
            first = false;
        }
        if level1 {
            if !first { out = concat_str(out.as_str(), " "); }
            out = concat_str(out.as_str(), "level1");
            first = false;
        }
        if level2 {
            if !first { out = concat_str(out.as_str(), " "); }
            out = concat_str(out.as_str(), "level2");
        }
        assert(out@ =~= levels_text(omegat, level1, level2));
        self.export_tm_levels = out;
    }

    /// Sets the exported levels from names (in any ASCII case).
    pub fn set_export_tm_levels_list(&mut self, levels: &[&str])
        ensures
            final(self).export_tm_levels@ == levels_text(has_level(levels@, "omegat"@), has_level(levels@, "level1"@),
                has_level(levels@, "level2"@)),
            final(self).root == old(self).root && final(self).repositories == old(self).repositories,
    {
        let omegat = any_level(levels, "omegat");
        let level1 = any_level(levels, "level1");
        let level2 = any_level(levels, "level2");
        self.set_export_tm_levels(omegat, level1, level2);
    }
}

fn any_level(levels: &[&str], name: &str) -> (r: bool)
    ensures
        r == has_level(levels@, name@),
{
    let mut i: usize = 0;
    while i < levels.len()
        invariant
            i <= levels@.len(),
            forall|k: int| 0 <= k < i ==> lower_ascii_seq(#[trigger] levels@[k]@) != name@,
        decreases levels@.len() - i,
    {
        let l = to_ascii_lowercase(levels[i]);
        if str_eq(l.as_str(), name) {
            return true;
        }
        i = i + 1;
    }
    false
}

/// The end of the word starting at `i`.
pub open spec fn word_end(s: Seq<char>, i: int) -> int
    decreases s.len() - i,
{
    if 0 <= i < s.len() && !is_ws(s[i]) { word_end(s, i + 1) } else { i }
}

pub proof fn lemma_word_end(s: Seq<char>, i: int)
    requires
        0 <= i,
    ensures
        i <= word_end(s, i),
        i < s.len() && !is_ws(s[i]) ==> i < word_end(s, i) <= s.len(),
        word_end(s, i) <= if i <= s.len() { s.len() as int } else { i },
    decreases s.len() - i,
{
    if 0 <= i < s.len() && !is_ws(s[i]) {
        lemma_word_end(s, i + 1);
    }
}

/// The whitespace-separated words from index `i` on.
pub open spec fn words_from(s: Seq<char>, i: int) -> Seq<Seq<char>>
    decreases s.len() - i,
{
    if i < 0 || i >= s.len() {
        Seq::empty()
    } else if is_ws(s[i]) {
        words_from(s, i + 1)
    } else {
        proof { lemma_word_end(s, i); }
        seq![s.subrange(i, word_end(s, i))] + words_from(s, word_end(s, i))
    }
}

/// A mapping of the project root (`""` or `/`).
pub open spec fn maps_root(m: RepositoryMapping) -> bool {
    m.local@.len() == 0 || m.local@ == "/"@
}

/// Whether a repository maps the project root.
pub open spec fn is_team(rs: Seq<RepositoryDef>) -> bool {
    exists|i: int, j: int| 0 <= i < rs.len() && 0 <= j < rs[i].mappings@.len() && #[trigger] maps_root(rs[i].mappings@[j])
}

impl ProjectProperties {
    /// The exported levels, one per word.
    pub fn export_tm_level_list(&self) -> (r: Vec<String>)
        ensures
            strs(r@) == words_from(self.export_tm_levels@, 0),
    {
        let t = chars_of(self.export_tm_levels.as_str());
        let mut out: Vec<String> = Vec::new();
        let mut i: usize = 0;
        while i < t.len()
            invariant
                i <= t@.len(),
                t@ == self.export_tm_levels@,
                words_from(t@, 0) == strs(out@) + words_from(t@, i as int),
            decreases t@.len() - i,
        {
            if is_ws_exec(t[i]) {
                i = i + 1;
            } else {
                let mut e = i;
                proof { lemma_word_end(t@, i as int); }
                while e < t.len() && !is_ws_exec(t[e])
                    invariant
                        i <= e <= t@.len(),
                        word_end(t@, i as int) == word_end(t@, e as int),
                    decreases t@.len() - e,
                {
                    e = e + 1;
                }
                let w = string_of(&slice_vec(&t, i, e));
                let ghost before = strs(out@);
                out.push(w);
                assert(strs(out@) =~= before.push(t@.subrange(i as int, e as int)));
                i = e;
            }
        }
        assert(strs(out@) + words_from(t@, i as int) =~= strs(out@));
        out
    }

    /// Whether a level (in any ASCII case) is exported.
    pub fn is_export_tm(&self, level: &str) -> (r: bool)
        ensures
            r == exists|i: int| 0 <= i < words_from(self.export_tm_levels@, 0).len()
                && #[trigger] lower_ascii_seq(words_from(self.export_tm_levels@, 0)[i]) == lower_ascii_seq(level@),
    {
        let words = self.export_tm_level_list();
        let want = to_ascii_lowercase(level);
        let mut i: usize = 0;
        while i < words.len()
            invariant
                i <= words@.len(),
                strs(words@) == words_from(self.export_tm_levels@, 0),
                want@ == lower_ascii_seq(level@),
                forall|k: int| 0 <= k < i ==> #[trigger] lower_ascii_seq(strs(words@)[k]) != want@,
            decreases words@.len() - i,
        {
            let l = to_ascii_lowercase(words[i].as_str());
            if str_eq(l.as_str(), want.as_str()) {
                assert(lower_ascii_seq(strs(words@)[i as int]) == want@);
                return true;
            }
            i = i + 1;
        }
        false
    }

    /// Whether a repository maps the project root (`""` or `/`): a team project.
    pub fn is_team_project(&self) -> (r: bool)
        ensures
            r == is_team(self.repositories@),
    {
        let mut i: usize = 0;
        while i < self.repositories.len()
            invariant
                i <= self.repositories@.len(),
                forall|a: int, b: int| 0 <= a < i && 0 <= b < self.repositories@[a].mappings@.len()
                    ==> !#[trigger] maps_root(self.repositories@[a].mappings@[b]),
            decreases self.repositories@.len() - i,
        {
            let r = &self.repositories[i];
            let mut j: usize = 0;
            while j < r.mappings.len()
                invariant
                    j <= r.mappings@.len(),
                    i < self.repositories@.len(),
                    r == &self.repositories@[i as int],
                    forall|b: int| 0 <= b < j ==> !#[trigger] maps_root(r.mappings@[b]),
                decreases r.mappings@.len() - j,
            {
                let l = r.mappings[j].local.as_str();
                if l.is_empty() || str_eq(l, "/") {
                    assert(maps_root(self.repositories@[i as int].mappings@[j as int]));
                    return true;
                }
                j = j + 1;
            }
            i = i + 1;
        }
        false
    }

    /// Where the project memory is saved: `omegat/project_save.tmx` under the root.
    pub fn save_tmx_path(&self) -> (r: String)
        ensures
            r@ == path_join(path_join(self.root@, "omegat"@), "project_save.tmx"@),
    {
        let a = path_join_exec(&chars_of(self.root.as_str()), &chars_of("omegat"));
        let b = path_join_exec(&a, &chars_of("project_save.tmx"));
        string_of(&b)
    }
}
} // verus!
