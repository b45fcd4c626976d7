//! The `omegat.project` file: reading a project's settings from its XML text
//! and writing them back.
use vstd::prelude::*;
use crate::file_util::{path_join, path_join_exec, join_slash, join_slash_exec};
use crate::properties::{ProjectProperties, RepositoryDef, RepositoryMapping, strs};
use crate::regex_ops::{html_decoded, decode_html, regex_captures, regex_valid, compile, captures_all, groups_view};
use crate::text::{concat_str, find_from, find, matches_at, chars_of, string_of, slice_vec, extend_chars, find_from_exec,
    lemma_find_from_bounds, is_ws, is_ws_exec, str_eq, replace_all, replace_str,
    split_char, split_chars, vecs_view, chars_eq};

verus! {

/// A repository mapping as plain text.
pub struct MappingView {
    pub local: Seq<char>,
    pub repository: Seq<char>,
    pub includes: Seq<Seq<char>>,
    pub excludes: Seq<Seq<char>>,
}

/// A team repository as plain text.
pub struct RepositoryView {
    pub repo_type: Seq<char>,
    pub url: Seq<char>,
    pub branch: Option<Seq<char>>,
    pub mappings: Seq<MappingView>,
}

/// A project's settings as plain text.
pub struct ProjectView {
    pub root: Seq<char>,
    pub source_dir: Seq<char>,
    pub target_dir: Seq<char>,
    pub tm_dir: Seq<char>,
    pub glossary_dir: Seq<char>,
    pub glossary_file: Seq<char>,
    pub dictionary_dir: Seq<char>,
    pub export_tm_dir: Seq<char>,
    pub export_tm_levels: Seq<char>,
    pub source_lang: Seq<char>,
    pub target_lang: Seq<char>,
    pub source_tok: Seq<char>,
    pub target_tok: Seq<char>,
    pub sentence_seg: bool,
    pub support_default_translations: bool,
    pub remove_tags: bool,
    pub external_command: Seq<char>,
    pub source_dir_excludes: Seq<Seq<char>>,
    pub repositories: Seq<RepositoryView>,
    pub raw_unknown: Seq<char>,
}

impl View for RepositoryMapping {
    type V = MappingView;

    open spec fn view(&self) -> MappingView {
        MappingView {
            local: self.local@,
            repository: self.repository@,
            includes: strs(self.includes@),
            excludes: strs(self.excludes@),
        }
    }
}

impl View for RepositoryDef {
    type V = RepositoryView;

    open spec fn view(&self) -> RepositoryView {
        RepositoryView {
            repo_type: self.repo_type@,
            url: self.url@,
            branch: match self.branch { Some(b) => Some(b@), None => None },
            mappings: self.mappings@.map_values(|m: RepositoryMapping| m@),
        }
    }
}

impl View for ProjectProperties {
    type V = ProjectView;

    open spec fn view(&self) -> ProjectView {
        ProjectView {
            root: self.root@,
            source_dir: self.source_dir@,
            target_dir: self.target_dir@,
            tm_dir: self.tm_dir@,
            glossary_dir: self.glossary_dir@,
            glossary_file: self.glossary_file@,
            dictionary_dir: self.dictionary_dir@,
            export_tm_dir: self.export_tm_dir@,
            export_tm_levels: self.export_tm_levels@,
            source_lang: self.source_lang@,
            target_lang: self.target_lang@,
            source_tok: self.source_tok@,
            target_tok: self.target_tok@,
            sentence_seg: self.sentence_seg,
            support_default_translations: self.support_default_translations,
            remove_tags: self.remove_tags,
            external_command: self.external_command@,
            source_dir_excludes: strs(self.source_dir_excludes@),
            repositories: self.repositories@.map_values(|r: RepositoryDef| r@),
            raw_unknown: self.raw_unknown@,
        }
    }
}

/// The file masks a new project leaves out of its source folder.
pub open spec fn default_excludes() -> Seq<Seq<char>> {
    seq!["**/.svn/**"@, "**/CVS/**"@, "**/.cvs/**"@, "**/.git/**"@, "**/.hg/**"@, "**/.repositories/**"@,
        "**/desktop.ini"@, "**/Thumbs.db"@, "**/.DS_Store"@, "**/~$*"@]
}

pub open spec fn default_tokenizer() -> Seq<char> {
    "org.omegat.tokenizer.DefaultTokenizer"@
}

/// A new project at `root`: default folders under the root, all export levels,
/// the default tokenizers and source masks, no repositories.
pub open spec fn created(root: Seq<char>, source_lang: Seq<char>, target_lang: Seq<char>, sentence_seg: bool) -> ProjectView {
    ProjectView {
        root: root,
        source_dir: path_join(root, "source"@),
        target_dir: path_join(root, "target"@),
        tm_dir: path_join(root, "tm"@),
        glossary_dir: path_join(root, "glossary"@),
        glossary_file: path_join(path_join(root, "glossary"@), "glossary.txt"@),
        dictionary_dir: path_join(root, "dictionary"@),
        export_tm_dir: root,
        export_tm_levels: "omegat level1 level2"@,
        source_lang: source_lang,
        target_lang: target_lang,
        source_tok: default_tokenizer(),
        target_tok: default_tokenizer(),
        sentence_seg: sentence_seg,
        support_default_translations: true,
        remove_tags: false,
        external_command: Seq::empty(),
        source_dir_excludes: default_excludes(),
        repositories: Seq::empty(),
        raw_unknown: Seq::empty(),
    }
}

fn join_str(base: &str, p: &str) -> (r: String)
    ensures
        r@ == path_join(base@, p@),
{
    let v = path_join_exec(&chars_of(base), &chars_of(p));
    string_of(&v)
}

impl ProjectProperties {
    /// A new project at `root` with the given languages and segmentation.
    pub fn create(root: &str, source_lang: &str, target_lang: &str, sentence_seg: bool) -> (r: Self)
        ensures
            r@ == created(root@, source_lang@, target_lang@, sentence_seg),
    {
        let glossary_dir = join_str(root, "glossary");
        let mut excludes: Vec<String> = Vec::new();
        excludes.push("**/.svn/**".to_owned());
        excludes.push("**/CVS/**".to_owned());
        excludes.push("**/.cvs/**".to_owned());
        excludes.push("**/.git/**".to_owned());
        excludes.push("**/.hg/**".to_owned());
        excludes.push("**/.repositories/**".to_owned());
        excludes.push("**/desktop.ini".to_owned());
        excludes.push("**/Thumbs.db".to_owned());
        excludes.push("**/.DS_Store".to_owned());
        excludes.push("**/~$*".to_owned());
        let r = ProjectProperties {
            root: root.to_owned(),
            source_dir: join_str(root, "source"),
            target_dir: join_str(root, "target"),
            tm_dir: join_str(root, "tm"),
            glossary_file: join_str(glossary_dir.as_str(), "glossary.txt"),
            glossary_dir: glossary_dir,
            dictionary_dir: join_str(root, "dictionary"),
            export_tm_dir: root.to_owned(),
            export_tm_levels: "omegat level1 level2".to_owned(),
            source_lang: source_lang.to_owned(),
            target_lang: target_lang.to_owned(),
            source_tok: "org.omegat.tokenizer.DefaultTokenizer".to_owned(),
            target_tok: "org.omegat.tokenizer.DefaultTokenizer".to_owned(),
            sentence_seg: sentence_seg,
            support_default_translations: true,
            remove_tags: false,
            external_command: String::new(),
            source_dir_excludes: excludes,
            repositories: Vec::new(),
            raw_unknown: String::new(),
        };
        assert(strs(r.source_dir_excludes@) =~= default_excludes());
        assert(r.repositories@.map_values(|x: RepositoryDef| x@) =~= Seq::<RepositoryView>::empty());
        r
    }
}

/// `<tag>`.
pub open spec fn open_tag(tag: Seq<char>) -> Seq<char> {
    seq!['<'] + tag + seq!['>']
}

/// `</tag>`.
pub open spec fn close_tag(tag: Seq<char>) -> Seq<char> {
    seq!['<', '/'] + tag + seq!['>']
}

/// The decoded text between the first `<tag>` and the first `</tag>` after it.
pub open spec fn tag_text(raw: Seq<char>, tag: Seq<char>) -> Option<Seq<char>> {
    match find(raw, open_tag(tag)) {
        None => None,
        Some(s) => {
            let a = s + open_tag(tag).len();
            match find_from(raw, close_tag(tag), a) {
                None => None,
                Some(e) => Some(html_decoded(raw.subrange(a, e))),
            }
        },
    }
}

fn open_tag_exec(tag: &str) -> (r: Vec<char>)
    ensures
        r@ == open_tag(tag@),
{
    let mut r = vec!['<'];
    extend_chars(&mut r, &chars_of(tag));
    r.push('>');
    assert(r@ =~= open_tag(tag@));
    r
}

fn close_tag_exec(tag: &str) -> (r: Vec<char>)
    ensures
        r@ == close_tag(tag@),
{
    let mut r = vec!['<', '/'];
    extend_chars(&mut r, &chars_of(tag));
    r.push('>');
    assert(r@ =~= close_tag(tag@));
    r
}

fn decoded_range(raw: &[char], a: usize, e: usize) -> (r: String)
    requires
        a <= e <= raw@.len(),
    ensures
        r@ == html_decoded(raw@.subrange(a as int, e as int)),
{
    let s = string_of(&slice_vec(raw, a, e));
    decode_html(s.as_str())
}

fn tag_text_exec(raw: &[char], tag: &str) -> (r: Option<String>)
    ensures
        match r { Some(s) => tag_text(raw@, tag@) == Some(s@), None => tag_text(raw@, tag@) is None },
{
    let open = open_tag_exec(tag);
    let close = close_tag_exec(tag);
    let _n = raw.len();
    proof { lemma_find_from_bounds(raw@, open@, 0); }
    match find_from_exec(raw, &open, 0) {
        None => None,
        Some(s) => {
            assert(matches_at(raw@, open@, s as int));
            let a = s + open.len();
            proof { lemma_find_from_bounds(raw@, close@, a as int); }
            match find_from_exec(raw, &close, a) {
                None => None,
                Some(e) => Some(decoded_range(raw, a, e)),
            }
        },
    }
}


/// `name="`.
pub open spec fn attr_key(name: Seq<char>) -> Seq<char> {
    name + seq!['=', '"']
}

/// The text of the first `name="..."` attribute in `block`, as written.
pub open spec fn attr(block: Seq<char>, name: Seq<char>) -> Option<Seq<char>> {
    match find(block, attr_key(name)) {
        None => None,
        Some(s) => {
            let a = s + attr_key(name).len();
            match find_from(block, seq!['"'], a) {
                None => None,
                Some(e) => Some(block.subrange(a, e)),
            }
        },
    }
}

fn attr_exec(block: &[char], name: &str) -> (r: Option<String>)
    ensures
        match r { Some(s) => attr(block@, name@) == Some(s@), None => attr(block@, name@) is None },
{
    let mut key = chars_of(name);
    key.push('=');
    key.push('"');
    assert(key@ =~= attr_key(name@));
    let _n = block.len();
    proof { lemma_find_from_bounds(block@, key@, 0); }
    match find_from_exec(block, &key, 0) {
        None => None,
        Some(s) => {
            assert(matches_at(block@, key@, s as int));
            let a = s + key.len();
            let q = vec!['"'];
            assert(q@ =~= seq!['"']);
            proof { lemma_find_from_bounds(block@, q@, a as int); }
            match find_from_exec(block, &q, a) {
                None => None,
                Some(e) => Some(string_of(&slice_vec(block, a, e))),
            }
        },
    }
}

fn attr_or(block: &[char], name: &str, default: &str) -> (r: String)
    ensures
        r@ == match attr(block@, name@) { Some(v) => v, None => default@ },
{
    match attr_exec(block, name) {
        Some(v) => v,
        None => default.to_owned(),
    }
}

/// The decoded texts between each `open` and the next `close`, scanning from
/// `pos`; stops at an `open` with no `close` after it.
pub open spec fn collect_from(raw: Seq<char>, open: Seq<char>, close: Seq<char>, pos: int) -> Seq<Seq<char>>
    decreases raw.len() - pos,
{
    if pos < 0 || close.len() == 0 {
        Seq::empty()
    } else {
        match find_from(raw, open, pos) {
            None => Seq::empty(),
            Some(s) => match find_from(raw, close, s + open.len()) {
                None => Seq::empty(),
                Some(e) => {
                    proof {
                        lemma_find_from_bounds(raw, open, pos);
                        lemma_find_from_bounds(raw, close, s + open.len());
                    }
                    seq![html_decoded(raw.subrange(s + open.len(), e))] + collect_from(raw, open, close, e + close.len())
                },
            },
        }
    }
}

fn collect_exec(raw: &[char], open: &[char], close: &[char]) -> (r: Vec<String>)
    requires
        close@.len() > 0,
    ensures
        strs(r@) == collect_from(raw@, open@, close@, 0),
{
    let mut out: Vec<String> = Vec::new();
    let mut pos: usize = 0;
    let n = raw.len();
    loop
        invariant
            n == raw@.len(),
            pos <= raw@.len(),
            close@.len() > 0,
            collect_from(raw@, open@, close@, 0) == strs(out@) + collect_from(raw@, open@, close@, pos as int),
        decreases raw@.len() - pos,
    {
        proof { lemma_find_from_bounds(raw@, open@, pos as int); }
        match find_from_exec(raw, open, pos) {
            None => {
                assert(strs(out@) + collect_from(raw@, open@, close@, pos as int) =~= strs(out@));
                return out;
            },
            Some(s) => {
                assert(matches_at(raw@, open@, s as int));
                let a = s + open.len();
                proof { lemma_find_from_bounds(raw@, close@, a as int); }
                match find_from_exec(raw, close, a) {
                    None => {
                        assert(strs(out@) + collect_from(raw@, open@, close@, pos as int) =~= strs(out@));
                        return out;
                    },
                    Some(e) => {
                        assert(matches_at(raw@, close@, e as int));
                        let d = decoded_range(raw, a, e);
                        let ghost before = strs(out@);
                        out.push(d);
                        assert(strs(out@) =~= before.push(html_decoded(raw@.subrange(a as int, e as int))));
                        assert(before + collect_from(raw@, open@, close@, pos as int) =~= strs(out@)
                            + collect_from(raw@, open@, close@, (e + close.len()) as int));
                        pos = e + close.len();
                    },
                }
            },
        }
    }
}

/// Whether the last character that is not whitespace is `/`.
pub open spec fn ends_with_slash(s: Seq<char>) -> bool
    decreases s.len(),
{
    if s.len() == 0 { false } else if is_ws(s.last()) { ends_with_slash(s.drop_last()) } else { s.last() == '/' }
}

fn ends_with_slash_exec(s: &[char], from: usize, to: usize) -> (r: bool)
    requires
        from <= to <= s@.len(),
    ensures
        r == ends_with_slash(s@.subrange(from as int, to as int)),
    decreases to - from,
{
    if from == to {
        false
    } else if is_ws_exec(s[to - 1]) {
        assert(s@.subrange(from as int, to as int).drop_last() =~= s@.subrange(from as int, to - 1));
        ends_with_slash_exec(s, from, to - 1)
    } else {
        s[to - 1] == '/'
    }
}

/// The repository mappings of a repository block, scanning from `pos`.
pub open spec fn mappings_from(b: Seq<char>, pos: int) -> Seq<MappingView>
    decreases b.len() - pos,
{
    if pos < 0 {
        Seq::empty()
    } else {
        match find_from(b, "<mapping"@, pos) {
            None => Seq::empty(),
            Some(st) => match find_from(b, seq!['>'], st + "<mapping"@.len()) {
                None => Seq::empty(),
                Some(gt) => {
                    proof {
                        lemma_find_from_bounds(b, "<mapping"@, pos);
                        lemma_find_from_bounds(b, seq!['>'], st + "<mapping"@.len());
                    }
                    let open = b.subrange(st, gt + 1);
                    let local = match attr(open, "local"@) { Some(v) => v, None => Seq::empty() };
                    let repository = match attr(open, "repository"@) { Some(v) => v, None => Seq::empty() };
                    if ends_with_slash(b.subrange(st + "<mapping"@.len(), gt)) {
                        seq![MappingView { local, repository, includes: Seq::empty(), excludes: Seq::empty() }]
                            + mappings_from(b, gt + 1)
                    } else {
                        match find_from(b, "</mapping>"@, st) {
                            None => Seq::empty(),
                            Some(end) => {
                                proof {
                                    lemma_find_from_bounds(b, "</mapping>"@, st);
                                    reveal_strlit("</mapping>");
                                }
                                let inner = if gt + 1 <= end { b.subrange(gt + 1, end) } else { Seq::empty() };
                                seq![MappingView {
                                    local,
                                    repository,
                                    includes: collect_from(inner, "<includes>"@, "</includes>"@, 0),
                                    excludes: collect_from(inner, "<excludes>"@, "</excludes>"@, 0),
                                }] + mappings_from(b, end + "</mapping>"@.len())
                            },
                        }
                    }
                },
            },
        }
    }
}

pub open spec fn mappings_view(v: Seq<RepositoryMapping>) -> Seq<MappingView> {
    v.map_values(|m: RepositoryMapping| m@)
}

fn mappings_exec(b: &[char]) -> (r: Vec<RepositoryMapping>)
    ensures
        mappings_view(r@) == mappings_from(b@, 0),
{
    let mut out: Vec<RepositoryMapping> = Vec::new();
    let mut pos: usize = 0;
    let n = b.len();
    let tag = chars_of("<mapping");
    let gtv = vec!['>'];
    assert(gtv@ =~= seq!['>']);
    let endtag = chars_of("</mapping>");
    proof { reveal_strlit("<mapping"); reveal_strlit("</mapping>"); }
    loop
        invariant
            n == b@.len(),
            pos <= b@.len(),
            tag@ == "<mapping"@,
            gtv@ == seq!['>'],
            endtag@ == "</mapping>"@,
            "<mapping"@.len() == 8,
            "</mapping>"@.len() == 10,
            mappings_from(b@, 0) == mappings_view(out@) + mappings_from(b@, pos as int),
        decreases b@.len() - pos,
    {
        proof { lemma_find_from_bounds(b@, tag@, pos as int); }
        let st = match find_from_exec(b, &tag, pos) {
            None => {
                assert(mappings_view(out@) + mappings_from(b@, pos as int) =~= mappings_view(out@));
                return out;
            },
            Some(st) => st,
        };
        assert(matches_at(b@, tag@, st as int));
        let after = st + 8;
        proof { lemma_find_from_bounds(b@, gtv@, after as int); }
        let gt = match find_from_exec(b, &gtv, after) {
            None => {
                assert(mappings_view(out@) + mappings_from(b@, pos as int) =~= mappings_view(out@));
                return out;
            },
            Some(gt) => gt,
        };
        assert(matches_at(b@, gtv@, gt as int));
        let open = slice_vec(b, st, gt + 1);
        let local = attr_or(&open, "local", "");
        let repository = attr_or(&open, "repository", "");
        proof { reveal_strlit(""); }
        let ghost before = mappings_view(out@);
        if ends_with_slash_exec(b, after, gt) {
            let m = RepositoryMapping { local, repository, includes: Vec::new(), excludes: Vec::new() };
            assert(strs(m.includes@) =~= Seq::<Seq<char>>::empty());
            assert(strs(m.excludes@) =~= Seq::<Seq<char>>::empty());
            assert(m@ == MappingView { local: local@, repository: repository@, includes: Seq::empty(), excludes: Seq::empty() });
            assert(open@ == b@.subrange(st as int, gt + 1));
            assert(local@ == (match attr(b@.subrange(st as int, gt + 1), "local"@) { Some(v) => v, None => Seq::<char>::empty() }));
            assert(find_from(b@, "<mapping"@, pos as int) == Some(st as int));
            assert(find_from(b@, seq!['>'], st + "<mapping"@.len()) == Some(gt as int));
            assert(ends_with_slash(b@.subrange(st + "<mapping"@.len(), gt as int)));
            assert(repository@ == (match attr(b@.subrange(st as int, gt + 1), "repository"@) { Some(v) => v, None => Seq::<char>::empty() }));
            assert(pos >= 0);
            assert(mappings_from(b@, pos as int) == seq![m@] + mappings_from(b@, (gt + 1) as int));
            out.push(m);
            assert(mappings_view(out@) =~= before.push(m@));
            assert(before + mappings_from(b@, pos as int) =~= mappings_view(out@) + mappings_from(b@, (gt + 1) as int));
            pos = gt + 1;
        } else {
            proof { lemma_find_from_bounds(b@, endtag@, st as int); }
            let end = match find_from_exec(b, &endtag, st) {
                None => {
                    assert(mappings_view(out@) + mappings_from(b@, pos as int) =~= mappings_view(out@));
                    return out;
                },
                Some(end) => end,
            };
            assert(matches_at(b@, endtag@, end as int));
            let inner = if gt + 1 <= end { slice_vec(b, gt + 1, end) } else { Vec::new() };
            let ghost iv = if gt + 1 <= end { b@.subrange(gt + 1, end as int) } else { Seq::<char>::empty() };
            assert(inner@ =~= iv);
            let inc_o = chars_of("<includes>");
            let inc_c = chars_of("</includes>");
            let exc_o = chars_of("<excludes>");
            let exc_c = chars_of("</excludes>");
            proof { reveal_strlit("</includes>"); reveal_strlit("</excludes>"); }
            let m = RepositoryMapping {
                local,
                repository,
                includes: collect_exec(&inner, &inc_o, &inc_c),
                excludes: collect_exec(&inner, &exc_o, &exc_c),
            };
            assert(open@ == b@.subrange(st as int, gt + 1));
            assert(local@ == (match attr(b@.subrange(st as int, gt + 1), "local"@) { Some(v) => v, None => Seq::<char>::empty() }));
            assert(repository@ == (match attr(b@.subrange(st as int, gt + 1), "repository"@) { Some(v) => v, None => Seq::<char>::empty() }));
            assert(find_from(b@, "<mapping"@, pos as int) == Some(st as int));
            assert(find_from(b@, seq!['>'], st + "<mapping"@.len()) == Some(gt as int));
            assert(find_from(b@, "</mapping>"@, st as int) == Some(end as int));
            assert(!ends_with_slash(b@.subrange(st + "<mapping"@.len(), gt as int)));
            assert(m@.includes == collect_from(iv, "<includes>"@, "</includes>"@, 0));
            assert(m@.excludes == collect_from(iv, "<excludes>"@, "</excludes>"@, 0));
            assert(mappings_from(b@, pos as int) == seq![m@] + mappings_from(b@, (end + 10) as int));
            out.push(m);
            assert(mappings_view(out@) =~= before.push(m@));
            assert(before + mappings_from(b@, pos as int) =~= mappings_view(out@) + mappings_from(b@, (end + 10) as int));
            pos = end + 10;
        }
    }
}


/// The team repositories of the project text, scanning from `pos`.
pub open spec fn repos_from(x: Seq<char>, pos: int) -> Seq<RepositoryView>
    decreases x.len() + 1 - pos,
{
    if pos < 0 || pos > x.len() {
        Seq::empty()
    } else {
        match find_from(x, "<repository"@, pos) {
            None => Seq::empty(),
            Some(st) => {
                proof {
                    lemma_find_from_bounds(x, "<repository"@, pos);
                    reveal_strlit("<repository");
                }
                let end = match find_from(x, "</repository>"@, st) { Some(e) => e, None => x.len() as int };
                let block = x.subrange(st, end);
                seq![RepositoryView {
                    repo_type: match attr(block, "type"@) { Some(v) => v, None => "git"@ },
                    url: match attr(block, "url"@) { Some(v) => v, None => Seq::empty() },
                    branch: attr(block, "branch"@),
                    mappings: mappings_from(block, 0),
                }] + repos_from(x, st + 12)
            },
        }
    }
}

pub open spec fn repos_view(v: Seq<RepositoryDef>) -> Seq<RepositoryView> {
    v.map_values(|r: RepositoryDef| r@)
}

fn repos_exec(x: &[char]) -> (r: Vec<RepositoryDef>)
    ensures
        repos_view(r@) == repos_from(x@, 0),
{
    let mut out: Vec<RepositoryDef> = Vec::new();
    let mut pos: usize = 0;
    let n = x.len();
    let tag = chars_of("<repository");
    let endtag = chars_of("</repository>");
    proof { reveal_strlit("<repository"); reveal_strlit(""); }
    while pos <= n
        invariant
            n == x@.len(),
            tag@ == "<repository"@,
            endtag@ == "</repository>"@,
            "<repository"@.len() == 11,
            repos_from(x@, 0) == repos_view(out@) + repos_from(x@, pos as int),
        decreases n + 1 - pos,
    {
        proof { lemma_find_from_bounds(x@, tag@, pos as int); }
        let st = match find_from_exec(x, &tag, pos) {
            None => {
                assert(repos_view(out@) + repos_from(x@, pos as int) =~= repos_view(out@));
                return out;
            },
            Some(st) => st,
        };
        assert(matches_at(x@, tag@, st as int));
        let end = match find_from_exec(x, &endtag, st) { Some(e) => e, None => n };
        proof { lemma_find_from_bounds(x@, endtag@, st as int); }
        assert(st <= end <= n) by {
            if find_from(x@, endtag@, st as int) is Some { assert(matches_at(x@, endtag@, end as int)); }
        }
        let block = slice_vec(x, st, end);
        let repo_type = attr_or(&block, "type", "git");
        let url = attr_or(&block, "url", "");
        proof { reveal_strlit(""); }
        let branch = attr_exec(&block, "branch");
        let mappings = mappings_exec(&block);
        let r = RepositoryDef { repo_type, url, branch, mappings };
        let ghost before = repos_view(out@);
        assert(r@.branch == attr(block@, "branch"@));
        assert(r@.mappings == mappings_from(block@, 0));
        assert(block@ == x@.subrange(st as int, if find_from(x@, endtag@, st as int) is Some { end as int } else { x@.len() as int }));
        assert(find_from(x@, "<repository"@, pos as int) == Some(st as int));
        assert(r@.repo_type == (match attr(block@, "type"@) { Some(v) => v, None => "git"@ }));
        assert(r@.url == (match attr(block@, "url"@) { Some(v) => v, None => Seq::<char>::empty() }));
        assert(repos_from(x@, pos as int) == seq![r@] + repos_from(x@, st + 12));
        out.push(r);
        assert(repos_view(out@) =~= before.push(r@));
        assert(before + repos_from(x@, pos as int) =~= repos_view(out@) + repos_from(x@, st + 12));
        if st + 11 == n {
            assert(repos_from(x@, st + 12) =~= Seq::<RepositoryView>::empty());
            assert(repos_view(out@) + repos_from(x@, st + 12) =~= repos_view(out@));
            return out;
        }
        pos = st + 12;
    }
    assert(repos_from(x@, pos as int) =~= Seq::<RepositoryView>::empty());
    assert(repos_view(out@) + repos_from(x@, pos as int) =~= repos_view(out@));
    out
}

/// The pattern of a DTD entity declaration `<!ENTITY name "value">`.
pub const ENTITY_PATTERN: &'static str = "<!ENTITY\\s+(\\w+)\\s+\"([^\"]*)\"";

/// Group `i` of a match, empty when it did not take part.
pub open spec fn group_text(g: Seq<Option<Seq<char>>>, i: int) -> Seq<char> {
    if 0 <= i < g.len() && g[i] is Some { g[i]->0 } else { Seq::empty() }
}

/// The declared entities, as (name, value), in the order of the text.
pub open spec fn entities_of(caps: Seq<Seq<Option<Seq<char>>>>) -> Seq<(Seq<char>, Seq<char>)> {
    caps.map_values(|g: Seq<Option<Seq<char>>>| (group_text(g, 1), group_text(g, 2)))
}

/// `&name;`.
pub open spec fn entity_ref(name: Seq<char>) -> Seq<char> {
    seq!['&'] + name + seq![';']
}

/// `v` with each entity reference replaced in turn, in declaration order.
pub open spec fn substitute(v: Seq<char>, ents: Seq<(Seq<char>, Seq<char>)>) -> Seq<char>
    decreases ents.len(),
{
    if ents.len() == 0 {
        v
    } else {
        substitute(replace_all(v, entity_ref(ents[0].0), ents[0].1), ents.drop_first())
    }
}

/// One round of expanding the entities inside entity values.
pub open spec fn entity_round(ents: Seq<(Seq<char>, Seq<char>)>) -> Seq<(Seq<char>, Seq<char>)> {
    Seq::new(ents.len(), |i: int| (ents[i].0, substitute(ents[i].1, ents)))
}

/// Up to `n` rounds, stopping at the first round that changes nothing.
pub open spec fn entity_rounds(ents: Seq<(Seq<char>, Seq<char>)>, n: nat) -> Seq<(Seq<char>, Seq<char>)>
    decreases n,
{
    if n == 0 {
        ents
    } else if entity_round(ents) == ents {
        ents
    } else {
        entity_rounds(entity_round(ents), (n - 1) as nat)
    }
}

/// The project text with its DTD entities expanded (eight rounds at most).
pub open spec fn expand_entities(raw: Seq<char>) -> Seq<char> {
    substitute(raw, entity_rounds(entities_of(regex_captures(ENTITY_PATTERN@, raw)), 8))
}

pub open spec fn pairs_view(v: Seq<(String, String)>) -> Seq<(Seq<char>, Seq<char>)> {
    v.map_values(|p: (String, String)| (p.0@, p.1@))
}

fn entity_ref_exec(name: &str) -> (r: String)
    ensures
        r@ == entity_ref(name@),
{
    let mut v = vec!['&'];
    extend_chars(&mut v, &chars_of(name));
    v.push(';');
    assert(v@ =~= entity_ref(name@));
    string_of(&v)
}

fn substitute_exec(v: &str, ents: &Vec<(String, String)>) -> (r: String)
    ensures
        r@ == substitute(v@, pairs_view(ents@)),
{
    let mut acc = v.to_owned();
    let mut i: usize = 0;
    assert(pairs_view(ents@).subrange(0, ents@.len() as int) =~= pairs_view(ents@));
    while i < ents.len()
        invariant
            i <= ents@.len(),
            substitute(v@, pairs_view(ents@)) == substitute(acc@, pairs_view(ents@).subrange(i as int, ents@.len() as int)),
        decreases ents@.len() - i,
    {
        let ghost rest = pairs_view(ents@).subrange(i as int, ents@.len() as int);
        assert(rest.drop_first() =~= pairs_view(ents@).subrange(i + 1, ents@.len() as int));
        let r = entity_ref_exec(ents[i].0.as_str());
        acc = replace_str(acc.as_str(), r.as_str(), ents[i].1.as_str());
        i = i + 1;
    }
    assert(pairs_view(ents@).subrange(i as int, ents@.len() as int) =~= Seq::<(Seq<char>, Seq<char>)>::empty());
    acc
}

fn entity_round_exec(ents: &Vec<(String, String)>) -> (r: (Vec<(String, String)>, bool))
    ensures
        pairs_view(r.0@) == entity_round(pairs_view(ents@)),
        r.1 <==> entity_round(pairs_view(ents@)) != pairs_view(ents@),
{
    let ghost e = pairs_view(ents@);
    let mut next: Vec<(String, String)> = Vec::new();
    let mut changed = false;
    let mut i: usize = 0;
    while i < ents.len()
        invariant
            i <= ents@.len(),
            e == pairs_view(ents@),
            pairs_view(next@) =~= entity_round(e).subrange(0, i as int),
            changed <==> exists|j: int| 0 <= j < i && #[trigger] entity_round(e)[j] != e[j],
        decreases ents@.len() - i,
    {
        let v2 = substitute_exec(ents[i].1.as_str(), ents);
        if !str_eq(v2.as_str(), ents[i].1.as_str()) {
            changed = true;
            assert(entity_round(e)[i as int] != e[i as int]);
        }
        let k = ents[i].0.as_str().to_owned();
        let ghost before = pairs_view(next@);
        assert(entity_round(e)[i as int] == (k@, v2@));
        next.push((k, v2));
        assert(pairs_view(next@) =~= before.push((k@, v2@)));
        assert(pairs_view(next@) =~= entity_round(e).subrange(0, i + 1));
        i = i + 1;
    }
    if !changed {
        assert(entity_round(e) =~= e);
    } else {
        let ghost j = choose|j: int| 0 <= j < i && #[trigger] entity_round(e)[j] != e[j];
        assert(entity_round(e)[j] != e[j]);
    }
    (next, changed)
}

fn group_exec(caps: &Vec<Vec<Option<String>>>, m: usize, i: usize) -> (r: String)
    requires
        m < caps@.len(),
    ensures
        r@ == group_text(groups_view(caps@)[m as int], i as int),
{
    let g = &caps[m];
    assert(groups_view(caps@)[m as int] =~= g@.map_values(|o: Option<String>| match o { Some(s) => Some(s@), None => None }));
    if i < g.len() {
        match &g[i] {
            Some(s) => s.as_str().to_owned(),
            None => String::new(),
        }
    } else {
        String::new()
    }
}

/// Expands the project text's DTD entities; `None` when the regex engine
/// refuses the entity pattern.
fn expand_entities_exec(raw: &str) -> (r: Option<String>)
    ensures
        r is Some <==> regex_valid(ENTITY_PATTERN@),
        r matches Some(x) ==> x@ == expand_entities(raw@),
{
    let p = match compile(ENTITY_PATTERN) {
        Some(p) => p,
        None => { return None; },
    };
    let caps = captures_all(&p, raw);
    let ghost cv = groups_view(caps@);
    let mut ents: Vec<(String, String)> = Vec::new();
    let mut i: usize = 0;
    while i < caps.len()
        invariant
            i <= caps@.len(),
            cv == groups_view(caps@),
            pairs_view(ents@) =~= entities_of(cv).subrange(0, i as int),
        decreases caps@.len() - i,
    {
        let a = group_exec(&caps, i, 1);
        let b = group_exec(&caps, i, 2);
        let ghost before = pairs_view(ents@);
        ents.push((a, b));
        assert(pairs_view(ents@) =~= before.push((a@, b@)));
        assert(pairs_view(ents@) =~= entities_of(cv).subrange(0, i + 1));
        i = i + 1;
    }
    assert(entities_of(cv).subrange(0, i as int) =~= entities_of(cv));
    let ghost e0 = pairs_view(ents@);
    let mut k: usize = 0;
    let mut done = false;
    while k < 8 && !done
        invariant
            k <= 8,
            done ==> entity_rounds(e0, 8) == pairs_view(ents@),
            !done ==> entity_rounds(e0, 8) == entity_rounds(pairs_view(ents@), (8 - k) as nat),
        decreases 2 * (8 - k) + (if done { 0int } else { 1int }),
    {
        let (next, changed) = entity_round_exec(&ents);
        if !changed {
            done = true;
        } else {
            ents = next;
            k = k + 1;
        }
    }
    Some(substitute_exec(raw, &ents))
}


/// A folder setting resolved against the root: empty or `__DEFAULT__` gives
/// the default folder, an absolute path stays, a relative one is joined.
pub open spec fn resolve_dir(root: Seq<char>, v: Seq<char>, default: Seq<char>) -> Seq<char> {
    if v.len() == 0 || v == "__DEFAULT__"@ {
        path_join(root, default)
    } else if v.len() > 0 && v[0] == '/' {
        v
    } else {
        path_join(root, v)
    }
}

/// The glossary file setting: `__DEFAULT__` is `glossary.txt` in the glossary
/// folder, an absolute path stays, a path with a separator is resolved against
/// the root, a bare name lies in the glossary folder.
pub open spec fn glossary_file_of(root: Seq<char>, glossary_dir: Seq<char>, v: Seq<char>) -> Seq<char> {
    if v == "__DEFAULT__"@ {
        path_join(glossary_dir, "glossary.txt"@)
    } else if v.len() > 0 && v[0] == '/' {
        v
    } else if v.contains('/') || v.contains('\\') {
        resolve_dir(root, v, "glossary.txt"@)
    } else {
        path_join(glossary_dir, v)
    }
}

pub open spec fn opt_or(o: Option<Seq<char>>, d: Seq<char>) -> Seq<char> {
    match o { Some(v) => v, None => d }
}

pub open spec fn flag_or(o: Option<Seq<char>>, d: bool) -> bool {
    match o { Some(v) => v == "true"@, None => d }
}

pub open spec fn dir_or(root: Seq<char>, o: Option<Seq<char>>, default: Seq<char>, d: Seq<char>) -> Seq<char> {
    match o { Some(v) => resolve_dir(root, v, default), None => d }
}

/// The settings that the project text at `root` describes (entities expanded
/// first; settings that are absent keep the values of a new project).
pub open spec fn project_of_xml(root: Seq<char>, raw: Seq<char>) -> ProjectView {
    let x = expand_entities(raw);
    let base = created(root, opt_or(tag_text(x, "source_lang"@), "en"@), opt_or(tag_text(x, "target_lang"@), "fr"@),
        flag_or(tag_text(x, "sentence_seg"@), true));
    let gdir = dir_or(root, tag_text(x, "glossary_dir"@), "glossary"@, base.glossary_dir);
    let masks = collect_from(x, "<mask>"@, "</mask>"@, 0);
    ProjectView {
        root: root,
        source_dir: dir_or(root, tag_text(x, "source_dir"@), "source"@, base.source_dir),
        target_dir: dir_or(root, tag_text(x, "target_dir"@), "target"@, base.target_dir),
        tm_dir: dir_or(root, tag_text(x, "tm_dir"@), "tm"@, base.tm_dir),
        glossary_dir: gdir,
        glossary_file: match tag_text(x, "glossary_file"@) {
            Some(v) => glossary_file_of(root, gdir, v),
            None => base.glossary_file,
        },
        dictionary_dir: dir_or(root, tag_text(x, "dictionary_dir"@), "dictionary"@, base.dictionary_dir),
        export_tm_dir: dir_or(root, tag_text(x, "export_tm_dir"@), Seq::empty(), base.export_tm_dir),
        export_tm_levels: opt_or(tag_text(x, "export_tm_levels"@), base.export_tm_levels),
        source_lang: base.source_lang,
        target_lang: base.target_lang,
        source_tok: opt_or(tag_text(x, "source_tok"@), base.source_tok),
        target_tok: opt_or(tag_text(x, "target_tok"@), base.target_tok),
        sentence_seg: base.sentence_seg,
        support_default_translations: flag_or(tag_text(x, "support_default_translations"@), true),
        remove_tags: flag_or(tag_text(x, "remove_tags"@), false),
        external_command: opt_or(tag_text(x, "external_command"@), Seq::empty()),
        source_dir_excludes: if masks.len() > 0 { masks } else { default_excludes() },
        repositories: repos_from(x, 0),
        raw_unknown: Seq::empty(),
    }
}

fn resolve_dir_exec(root: &str, v: &str, default: &str) -> (r: String)
    ensures
        r@ == resolve_dir(root@, v@, default@),
{
    if v.unicode_len() == 0 || str_eq(v, "__DEFAULT__") {
        join_str(root, default)
    } else if v.get_char(0) == '/' {
        v.to_owned()
    } else {
        join_str(root, v)
    }
}

fn has_char(v: &str, c: char) -> (r: bool)
    ensures
        r == v@.contains(c),
{
    let n = v.unicode_len();
    let mut i: usize = 0;
    while i < n
        invariant
            n == v@.len(),
            i <= n,
            forall|j: int| 0 <= j < i ==> v@[j] != c,
        decreases n - i,
    {
        if v.get_char(i) == c {
            assert(v@[i as int] == c);
            return true;
        }
        i = i + 1;
    }
    false
}

fn glossary_file_exec(root: &str, glossary_dir: &str, v: &str) -> (r: String)
    ensures
        r@ == glossary_file_of(root@, glossary_dir@, v@),
{
    if str_eq(v, "__DEFAULT__") {
        join_str(glossary_dir, "glossary.txt")
    } else if v.unicode_len() > 0 && v.get_char(0) == '/' {
        v.to_owned()
    } else if has_char(v, '/') || has_char(v, '\\') {
        resolve_dir_exec(root, v, "glossary.txt")
    } else {
        join_str(glossary_dir, v)
    }
}

fn flag_exec(x: &[char], tag: &str, d: bool) -> (r: bool)
    ensures
        r == flag_or(tag_text(x@, tag@), d),
{
    match tag_text_exec(x, tag) {
        Some(v) => str_eq(v.as_str(), "true"),
        None => d,
    }
}

fn text_or_exec(x: &[char], tag: &str, d: &str) -> (r: String)
    ensures
        r@ == opt_or(tag_text(x@, tag@), d@),
{
    match tag_text_exec(x, tag) {
        Some(v) => v,
        None => d.to_owned(),
    }
}

fn dir_exec(root: &str, x: &[char], tag: &str, default: &str, d: String) -> (r: String)
    ensures
        r@ == dir_or(root@, tag_text(x@, tag@), default@, d@),
{
    match tag_text_exec(x, tag) {
        Some(v) => resolve_dir_exec(root, v.as_str(), default),
        None => d,
    }
}

/// Reads a project's settings from the text of its `omegat.project` file.
/// Fails only where the regex engine refuses the entity-declaration pattern.
pub fn parse_project_xml(root: &str, raw: &str) -> (r: Result<ProjectProperties, String>)
    ensures
        r is Ok <==> regex_valid(ENTITY_PATTERN@),
        r matches Ok(p) ==> p@ == project_of_xml(root@, raw@),
{
    let xs = match expand_entities_exec(raw) {
        Some(xs) => xs,
        None => { return Err("the entity pattern was refused".to_owned()); },
    };
    let x = chars_of(xs.as_str());
    let sl = text_or_exec(&x, "source_lang", "en");
    let tl = text_or_exec(&x, "target_lang", "fr");
    let seg = flag_exec(&x, "sentence_seg", true);
    let mut p = ProjectProperties::create(root, sl.as_str(), tl.as_str(), seg);
    let ghost base = p@;
    p.source_dir = dir_exec(root, &x, "source_dir", "source", p.source_dir);
    p.target_dir = dir_exec(root, &x, "target_dir", "target", p.target_dir);
    p.tm_dir = dir_exec(root, &x, "tm_dir", "tm", p.tm_dir);
    p.glossary_dir = dir_exec(root, &x, "glossary_dir", "glossary", p.glossary_dir);
    match tag_text_exec(&x, "glossary_file") {
        Some(v) => { p.glossary_file = glossary_file_exec(root, p.glossary_dir.as_str(), v.as_str()); },
        None => {},
    }
    p.dictionary_dir = dir_exec(root, &x, "dictionary_dir", "dictionary", p.dictionary_dir);
    p.export_tm_dir = dir_exec(root, &x, "export_tm_dir", "", p.export_tm_dir);
    p.export_tm_levels = text_or_exec(&x, "export_tm_levels", p.export_tm_levels.as_str());
    p.source_tok = text_or_exec(&x, "source_tok", p.source_tok.as_str());
    p.target_tok = text_or_exec(&x, "target_tok", p.target_tok.as_str());
    p.support_default_translations = flag_exec(&x, "support_default_translations", p.support_default_translations);
    p.remove_tags = flag_exec(&x, "remove_tags", p.remove_tags);
    p.external_command = text_or_exec(&x, "external_command", p.external_command.as_str());
    let mo = chars_of("<mask>");
    let mc = chars_of("</mask>");
    proof { reveal_strlit("</mask>"); reveal_strlit(""); }
    let masks = collect_exec(&x, &mo, &mc);
    if masks.len() > 0 {
        p.source_dir_excludes = masks;
    }
    p.repositories = repos_exec(&x);
    assert(p@ == project_of_xml(root@, raw@));
    Ok(p)
}


/// The parts of a path kept as components: not empty and not `.`.
pub open spec fn kept_parts(parts: Seq<Seq<char>>) -> Seq<Seq<char>>
    decreases parts.len(),
{
    if parts.len() == 0 {
        Seq::empty()
    } else {
        let r = kept_parts(parts.drop_last());
        if parts.last().len() > 0 && parts.last() != seq!['.'] { r.push(parts.last()) } else { r }
    }
}

/// The components of a `/`-separated path: `/` for a root, `.` for a leading
/// current folder, then each non-empty part other than `.`.
pub open spec fn path_components(p: Seq<char>) -> Seq<Seq<char>> {
    let root = p.len() > 0 && p[0] == '/';
    let cur = !root && p.len() > 0 && p[0] == '.' && (p.len() == 1 || p[1] == '/');
    (if root { seq![seq!['/']] } else { Seq::empty() }) + (if cur { seq![seq!['.']] } else { Seq::empty() })
        + kept_parts(split_char(p, '/'))
}

fn components_exec(p: &[char]) -> (r: Vec<Vec<char>>)
    ensures
        vecs_view(r@) == path_components(p@),
{
    let parts = split_chars(p, '/');
    let ghost sp = split_char(p@, '/');
    let mut r: Vec<Vec<char>> = Vec::new();
    let root = p.len() > 0 && p[0] == '/';
    let cur = !root && p.len() > 0 && p[0] == '.' && (p.len() == 1 || p[1] == '/');
    if root {
        let sl = vec!['/'];
        assert(sl@ =~= seq!['/']);
        r.push(sl);
    }
    if cur {
        let d = vec!['.'];
        assert(d@ =~= seq!['.']);
        r.push(d);
    }
    let ghost head = vecs_view(r@);
    assert(head =~= (if root { seq![seq!['/']] } else { Seq::<Seq<char>>::empty() })
        + (if cur { seq![seq!['.']] } else { Seq::<Seq<char>>::empty() }));
    let mut k: usize = 0;
    assert(sp.subrange(0, 0) =~= Seq::<Seq<char>>::empty());
    while k < parts.len()
        invariant
            k <= parts@.len(),
            parts@.len() == sp.len(),
            forall|j: int| 0 <= j < parts@.len() ==> #[trigger] parts@[j]@ == sp[j],
            vecs_view(r@) == head + kept_parts(sp.subrange(0, k as int)),
        decreases parts@.len() - k,
    {
        let ghost before = vecs_view(r@);
        assert(sp.subrange(0, k + 1).drop_last() =~= sp.subrange(0, k as int));
        let part = &parts[k];
        let dot = vec!['.'];
        if part.len() > 0 && !chars_eq(part, &dot) {
            assert(dot@ =~= seq!['.']);
            r.push(slice_vec(part, 0, part.len()));
            assert(part@.subrange(0, part@.len() as int) =~= part@);
            assert(vecs_view(r@) =~= before.push(part@));
        } else {
            assert(dot@ =~= seq!['.']);
        }
        k = k + 1;
    }
    assert(sp.subrange(0, k as int) =~= sp);
    r
}

/// The first index from `i` at which `a` and `b` differ (or one ends).
pub open spec fn common_len(a: Seq<Seq<char>>, b: Seq<Seq<char>>, i: int) -> int
    decreases a.len() - i,
{
    if 0 <= i < a.len() && i < b.len() && a[i] == b[i] { common_len(a, b, i + 1) } else { i }
}

/// The components leading from `root` to `target`: `..` for each root
/// component past the shared start, then the rest of the target; `None` when
/// the two share no first component.
pub open spec fn relative_parts(root: Seq<char>, target: Seq<char>) -> Option<Seq<Seq<char>>> {
    let rc = path_components(root);
    let tc = path_components(target);
    let i = common_len(rc, tc, 0);
    if i == 0 && !(rc.len() == 0 && tc.len() == 0) {
        None
    } else {
        Some(Seq::new((rc.len() - i) as nat, |_k: int| seq!['.', '.']) + tc.subrange(i, tc.len() as int))
    }
}

/// How many `..` components a list holds.
pub open spec fn parent_hops(parts: Seq<Seq<char>>) -> nat
    decreases parts.len(),
{
    if parts.len() == 0 {
        0
    } else {
        parent_hops(parts.drop_last()) + if parts.last() == seq!['.', '.'] { 1nat } else { 0nat }
    }
}

/// Backslashes written as slashes.
pub open spec fn forward_slashes(s: Seq<char>) -> Seq<char> {
    s.map_values(|c: char| if c == '\\' { '/' } else { c })
}

/// How a folder is written in the project file: `__DEFAULT__` where it is the
/// default folder under the root (the root itself when `default` is empty);
/// else relative to the root when that climbs at most five folders; else as
/// given. Paths compare by their components.
pub open spec fn path_for_storing(root: Seq<char>, p: Seq<char>, default: Seq<char>) -> Seq<char> {
    if default.len() > 0 && path_components(p) == path_components(path_join(root, default)) {
        "__DEFAULT__"@
    } else if default.len() == 0 && path_components(p) == path_components(root) {
        "__DEFAULT__"@
    } else {
        match relative_parts(root, p) {
            Some(rel) => if parent_hops(rel) <= 5 {
                forward_slashes(if rel.len() == 0 { seq!['.'] } else { join_slash(rel) })
            } else {
                forward_slashes(p)
            },
            None => forward_slashes(p),
        }
    }
}

fn forward_slashes_exec(s: &[char]) -> (r: String)
    ensures
        r@ == forward_slashes(s@),
{
    let mut v: Vec<char> = Vec::new();
    let mut i: usize = 0;
    while i < s.len()
        invariant
            i <= s@.len(),
            v@ =~= forward_slashes(s@.subrange(0, i as int)),
        decreases s@.len() - i,
    {
        v.push(if s[i] == '\\' { '/' } else { s[i] });
        assert(v@ =~= forward_slashes(s@.subrange(0, i + 1)));
        i = i + 1;
    }
    assert(s@.subrange(0, i as int) =~= s@);
    string_of(&v)
}

fn vecs_eq(a: &Vec<Vec<char>>, b: &Vec<Vec<char>>) -> (r: bool)
    ensures
        r == (vecs_view(a@) == vecs_view(b@)),
{
    if a.len() != b.len() {
        assert(vecs_view(a@).len() != vecs_view(b@).len());
        return false;
    }
    let mut i: usize = 0;
    while i < a.len()
        invariant
            i <= a@.len(),
            a@.len() == b@.len(),
            forall|k: int| 0 <= k < i ==> vecs_view(a@)[k] == vecs_view(b@)[k],
        decreases a@.len() - i,
    {
        if !chars_eq(&a[i], &b[i]) {
            assert(vecs_view(a@)[i as int] != vecs_view(b@)[i as int]);
            return false;
        }
        i = i + 1;
    }
    assert(vecs_view(a@) =~= vecs_view(b@));
    true
}

/// How a folder is written in the project file (see `path_for_storing`).
pub fn path_for_storing_exec(root: &str, p: &str, default: &str) -> (r: String)
    ensures
        r@ == path_for_storing(root@, p@, default@),
{
    let rv = chars_of(root);
    let pv = chars_of(p);
    let dv = chars_of(default);
    let pc = components_exec(&pv);
    let rc = components_exec(&rv);
    proof { reveal_strlit("__DEFAULT__"); }
    if dv.len() > 0 {
        let joined = path_join_exec(&rv, &dv);
        let jc = components_exec(&joined);
        if vecs_eq(&pc, &jc) {
            return "__DEFAULT__".to_owned();
        }
    } else if vecs_eq(&pc, &rc) {
        return "__DEFAULT__".to_owned();
    }
    let ghost rcs = vecs_view(rc@);
    let ghost tcs = vecs_view(pc@);
    let mut i: usize = 0;
    while i < rc.len() && i < pc.len() && chars_eq(&rc[i], &pc[i])
        invariant
            i <= rc@.len(),
            i <= pc@.len(),
            rcs == vecs_view(rc@),
            tcs == vecs_view(pc@),
            common_len(rcs, tcs, 0) == common_len(rcs, tcs, i as int),
        decreases rc@.len() - i,
    {
        i = i + 1;
    }
    assert(common_len(rcs, tcs, i as int) == i);
    if i == 0 && !(rc.len() == 0 && pc.len() == 0) {
        return forward_slashes_exec(&pv);
    }
    let ghost rel = Seq::new((rcs.len() - i) as nat, |_k: int| seq!['.', '.']) + tcs.subrange(i as int, tcs.len() as int);
    let mut parts: Vec<Vec<char>> = Vec::new();
    let mut hops: usize = 0;
    let mut k: usize = i;
    while k < rc.len()
        invariant
            i <= k <= rc@.len(),
            i <= tcs.len(),
            rcs == vecs_view(rc@),
            tcs == vecs_view(pc@),
            rel == Seq::new((rcs.len() - i) as nat, |_k: int| seq!['.', '.']) + tcs.subrange(i as int, tcs.len() as int),
            vecs_view(parts@) =~= rel.subrange(0, k - i),
            hops == if parent_hops(rel.subrange(0, k - i)) <= 6 { parent_hops(rel.subrange(0, k - i)) } else { 6 },
        decreases rc@.len() - k,
    {
        let ghost before = vecs_view(parts@);
        parts.push(vec!['.', '.']);
        assert(rel.subrange(0, k + 1 - i).drop_last() =~= rel.subrange(0, k - i));
        assert(rel[k - i] == seq!['.', '.']);
        assert(vecs_view(parts@) =~= rel.subrange(0, k + 1 - i));
        if hops < 6 {
            hops = hops + 1;
        }
        k = k + 1;
    }
    let mut m: usize = i;
    while m < pc.len()
        invariant
            i <= m <= pc@.len(),
            i <= rc@.len(),
            tcs == vecs_view(pc@),
            rcs == vecs_view(rc@),
            rel == Seq::new((rcs.len() - i) as nat, |_k: int| seq!['.', '.']) + tcs.subrange(i as int, tcs.len() as int),
            vecs_view(parts@) =~= rel.subrange(0, rcs.len() - i + m - i),
            hops == if parent_hops(rel.subrange(0, rcs.len() - i + m - i)) <= 6 {
                parent_hops(rel.subrange(0, rcs.len() - i + m - i)) } else { 6 },
        decreases pc@.len() - m,
    {
        let ghost before = vecs_view(parts@);
        let w = slice_vec(&pc[m], 0, pc[m].len());
        assert(w@ =~= tcs[m as int]);
        let dd = vec!['.', '.'];
        let is_up = chars_eq(&w, &dd);
        assert(dd@ =~= seq!['.', '.']);
        parts.push(w);
        let ghost upto = rcs.len() - i + m + 1 - i;
        assert(rel.subrange(0, upto).drop_last() =~= rel.subrange(0, upto - 1));
        assert(rel[upto - 1] == tcs[m as int]);
        assert(vecs_view(parts@) =~= rel.subrange(0, upto));
        if is_up && hops < 6 {
            hops = hops + 1;
        }
        m = m + 1;
    }
    assert(rel.subrange(0, rel.len() as int) =~= rel);
    assert(relative_parts(root@, p@) == Some(rel));
    if hops <= 5 {
        if parts.len() == 0 {
            let dot = vec!['.'];
            forward_slashes_exec(&dot)
        } else {
            let j = join_slash_exec(&parts);
            assert(parts@.map_values(|q: Vec<char>| q@) =~= vecs_view(parts@));
            forward_slashes_exec(&j)
        }
    } else {
        forward_slashes_exec(&pv)
    }
}


/// Text with `&`, `<`, `>` and `"` written as XML entities.
pub open spec fn xml_escape(s: Seq<char>) -> Seq<char> {
    replace_all(replace_all(replace_all(replace_all(s, "&"@, "&amp;"@), "<"@, "&lt;"@), ">"@, "&gt;"@), "\""@, "&quot;"@)
}

fn xml_escape_exec(s: &str) -> (r: String)
    ensures
        r@ == xml_escape(s@),
{
    let a = replace_str(s, "&", "&amp;");
    let b = replace_str(a.as_str(), "<", "&lt;");
    let c = replace_str(b.as_str(), ">", "&gt;");
    replace_str(c.as_str(), "\"", "&quot;")
}

/// Each item escaped and written between `pre` and `post`, in order.
pub open spec fn wrapped(items: Seq<Seq<char>>, pre: Seq<char>, post: Seq<char>) -> Seq<char>
    decreases items.len(),
{
    if items.len() == 0 {
        Seq::empty()
    } else {
        wrapped(items.drop_last(), pre, post) + pre + xml_escape(items.last()) + post
    }
}

fn wrapped_exec(items: &Vec<String>, pre: &str, post: &str) -> (r: String)
    ensures
        r@ == wrapped(strs(items@), pre@, post@),
{
    let mut out = String::new();
    let mut i: usize = 0;
    while i < items.len()
        invariant
            i <= items@.len(),
            out@ == wrapped(strs(items@).subrange(0, i as int), pre@, post@),
        decreases items@.len() - i,
    {
        assert(strs(items@).subrange(0, i + 1).drop_last() =~= strs(items@).subrange(0, i as int));
        out = concat_str(out.as_str(), pre);
        out = concat_str(out.as_str(), xml_escape_exec(items[i].as_str()).as_str());
        out = concat_str(out.as_str(), post);
        i = i + 1;
    }
    assert(strs(items@).subrange(0, i as int) =~= strs(items@));
    out
}

/// A repository mapping as written in the project file.
pub open spec fn mapping_text(m: MappingView) -> Seq<char> {
    if m.includes.len() == 0 && m.excludes.len() == 0 {
        "                <mapping local=\""@ + xml_escape(m.local) + "\" repository=\""@ + xml_escape(m.repository)
            + "\"/>\n"@
    } else {
        "                <mapping local=\""@ + xml_escape(m.local) + "\" repository=\""@ + xml_escape(m.repository)
            + "\">\n"@ + wrapped(m.includes, "                    <includes>"@, "</includes>\n"@)
            + wrapped(m.excludes, "                    <excludes>"@, "</excludes>\n"@) + "                </mapping>\n"@
    }
}

pub open spec fn mappings_text(ms: Seq<MappingView>) -> Seq<char>
    decreases ms.len(),
{
    if ms.len() == 0 { Seq::empty() } else { mappings_text(ms.drop_last()) + mapping_text(ms.last()) }
}

pub open spec fn branch_attr(b: Option<Seq<char>>) -> Seq<char> {
    match b { Some(x) => " branch=\""@ + xml_escape(x) + "\""@, None => Seq::empty() }
}

/// A repository as written in the project file.
pub open spec fn repository_text(r: RepositoryView) -> Seq<char> {
    "            <repository type=\""@ + xml_escape(r.repo_type) + "\" url=\""@ + xml_escape(r.url) + "\""@
        + branch_attr(r.branch) + ">\n"@ + mappings_text(r.mappings) + "            </repository>\n"@
}

pub open spec fn repositories_text(rs: Seq<RepositoryView>) -> Seq<char>
    decreases rs.len(),
{
    if rs.len() == 0 { Seq::empty() } else { repositories_text(rs.drop_last()) + repository_text(rs.last()) }
}

/// The repositories section: absent when there are none.
pub open spec fn repositories_section(rs: Seq<RepositoryView>) -> Seq<char> {
    if rs.len() == 0 {
        Seq::empty()
    } else {
        "        <repositories>\n"@ + repositories_text(rs) + "        </repositories>\n"@
    }
}

pub open spec fn bool_text(b: bool) -> Seq<char> {
    if b { "true"@ } else { "false"@ }
}

/// The text of the `omegat.project` file for the settings `p`.
pub open spec fn project_xml_text(p: ProjectView) -> Seq<char> {
    "<?xml version=\"1.0\" encoding=\"UTF-8\" standalone=\"yes\"?>\n<omegat>\n    <project version=\"1.0\">\n        <source_dir>"@
        + xml_escape(path_for_storing(p.root, p.source_dir, "source"@))
        + "</source_dir>\n        <source_dir_excludes>\n"@
        + wrapped(p.source_dir_excludes, "            <mask>"@, "</mask>\n"@)
        + "        </source_dir_excludes>\n        <target_dir>"@
        + xml_escape(path_for_storing(p.root, p.target_dir, "target"@))
        + "</target_dir>\n        <tm_dir>"@
        + xml_escape(path_for_storing(p.root, p.tm_dir, "tm"@))
        + "</tm_dir>\n        <glossary_dir>"@
        + xml_escape(path_for_storing(p.root, p.glossary_dir, "glossary"@))
        + "</glossary_dir>\n        <glossary_file>"@
        + xml_escape(path_for_storing(p.root, p.glossary_file, "glossary.txt"@))
        + "</glossary_file>\n        <dictionary_dir>"@
        + xml_escape(path_for_storing(p.root, p.dictionary_dir, "dictionary"@))
        + "</dictionary_dir>\n        <export_tm_dir>"@
        + xml_escape(path_for_storing(p.root, p.export_tm_dir, ""@))
        + "</export_tm_dir>\n        <export_tm_levels>"@
        + xml_escape(p.export_tm_levels)
        + "</export_tm_levels>\n        <source_lang>"@
        + xml_escape(p.source_lang)
        + "</source_lang>\n        <target_lang>"@
        + xml_escape(p.target_lang)
        + "</target_lang>\n        <source_tok>"@
        + xml_escape(p.source_tok)
        + "</source_tok>\n        <target_tok>"@
        + xml_escape(p.target_tok)
        + "</target_tok>\n        <sentence_seg>"@
        + bool_text(p.sentence_seg)
        + "</sentence_seg>\n        <support_default_translations>"@
        + bool_text(p.support_default_translations)
        + "</support_default_translations>\n        <remove_tags>"@
        + bool_text(p.remove_tags)
        + "</remove_tags>\n        <external_command>"@
        + xml_escape(p.external_command)
        + "</external_command>\n"@
        + repositories_section(p.repositories)
        + "    </project>\n</omegat>\n"@
}

fn mapping_text_exec(m: &RepositoryMapping) -> (r: String)
    ensures
        r@ == mapping_text(m@),
{
    let mut out = "                <mapping local=\"".to_owned();
    out = concat_str(out.as_str(), xml_escape_exec(m.local.as_str()).as_str());
    out = concat_str(out.as_str(), "\" repository=\"");
    out = concat_str(out.as_str(), xml_escape_exec(m.repository.as_str()).as_str());
    if m.includes.len() == 0 && m.excludes.len() == 0 {
        out = concat_str(out.as_str(), "\"/>\n");
    } else {
        out = concat_str(out.as_str(), "\">\n");
        out = concat_str(out.as_str(), wrapped_exec(&m.includes, "                    <includes>", "</includes>\n").as_str());
        out = concat_str(out.as_str(), wrapped_exec(&m.excludes, "                    <excludes>", "</excludes>\n").as_str());
        out = concat_str(out.as_str(), "                </mapping>\n");
    }
    out
}

fn repository_text_exec(r: &RepositoryDef) -> (t: String)
    ensures
        t@ == repository_text(r@),
{
    let mut out = "            <repository type=\"".to_owned();
    out = concat_str(out.as_str(), xml_escape_exec(r.repo_type.as_str()).as_str());
    out = concat_str(out.as_str(), "\" url=\"");
    out = concat_str(out.as_str(), xml_escape_exec(r.url.as_str()).as_str());
    out = concat_str(out.as_str(), "\"");
    match &r.branch {
        Some(b) => {
            let mut ba = " branch=\"".to_owned();
            ba = concat_str(ba.as_str(), xml_escape_exec(b.as_str()).as_str());
            ba = concat_str(ba.as_str(), "\"");
            out = concat_str(out.as_str(), ba.as_str());
        },
        None => {
            proof { reveal_strlit(""); }
            let e = String::new();
            assert(out@ + e@ =~= out@);
            out = concat_str(out.as_str(), e.as_str());
        },
    }
    out = concat_str(out.as_str(), ">\n");
    let mut ms = String::new();
    let mut i: usize = 0;
    let ghost mv = mappings_view(r.mappings@);
    while i < r.mappings.len()
        invariant
            i <= r.mappings@.len(),
            mv == mappings_view(r.mappings@),
            ms@ == mappings_text(mv.subrange(0, i as int)),
        decreases r.mappings@.len() - i,
    {
        assert(mv.subrange(0, i + 1).drop_last() =~= mv.subrange(0, i as int));
        ms = concat_str(ms.as_str(), mapping_text_exec(&r.mappings[i]).as_str());
        i = i + 1;
    }
    assert(mv.subrange(0, i as int) =~= mv);
    out = concat_str(out.as_str(), ms.as_str());
    out = concat_str(out.as_str(), "            </repository>\n");
    out
}

fn repositories_section_exec(rs: &Vec<RepositoryDef>) -> (t: String)
    ensures
        t@ == repositories_section(repos_view(rs@)),
{
    if rs.len() == 0 {
        return String::new();
    }
    let ghost rv = repos_view(rs@);
    let mut body = String::new();
    let mut i: usize = 0;
    while i < rs.len()
        invariant
            i <= rs@.len(),
            rv == repos_view(rs@),
            body@ == repositories_text(rv.subrange(0, i as int)),
        decreases rs@.len() - i,
    {
        assert(rv.subrange(0, i + 1).drop_last() =~= rv.subrange(0, i as int));
        body = concat_str(body.as_str(), repository_text_exec(&rs[i]).as_str());
        i = i + 1;
    }
    assert(rv.subrange(0, i as int) =~= rv);
    let mut out = "        <repositories>\n".to_owned();
    out = concat_str(out.as_str(), body.as_str());
    concat_str(out.as_str(), "        </repositories>\n")
}

fn bool_text_exec(b: bool) -> (r: &'static str)
    ensures
        r@ == bool_text(b),
{
    if b { "true" } else { "false" }
}

fn stored_exec(root: &str, p: &str, default: &str) -> (r: String)
    ensures
        r@ == xml_escape(path_for_storing(root@, p@, default@)),
{
    let s = path_for_storing_exec(root, p, default);
    xml_escape_exec(s.as_str())
}

impl ProjectProperties {
    /// The text of the `omegat.project` file for these settings.
    pub fn to_xml(&self) -> (r: String)
        ensures
            r@ == project_xml_text(self@),
    {
        let root = self.root.as_str();
        let mut out = "<?xml version=\"1.0\" encoding=\"UTF-8\" standalone=\"yes\"?>\n<omegat>\n    <project version=\"1.0\">\n        <source_dir>".to_owned();
        out = concat_str(out.as_str(), stored_exec(root, self.source_dir.as_str(), "source").as_str());
        out = concat_str(out.as_str(), "</source_dir>\n        <source_dir_excludes>\n");
        out = concat_str(out.as_str(), wrapped_exec(&self.source_dir_excludes, "            <mask>", "</mask>\n").as_str());
        out = concat_str(out.as_str(), "        </source_dir_excludes>\n        <target_dir>");
        out = concat_str(out.as_str(), stored_exec(root, self.target_dir.as_str(), "target").as_str());
        out = concat_str(out.as_str(), "</target_dir>\n        <tm_dir>");
        out = concat_str(out.as_str(), stored_exec(root, self.tm_dir.as_str(), "tm").as_str());
        out = concat_str(out.as_str(), "</tm_dir>\n        <glossary_dir>");
        out = concat_str(out.as_str(), stored_exec(root, self.glossary_dir.as_str(), "glossary").as_str());
        out = concat_str(out.as_str(), "</glossary_dir>\n        <glossary_file>");
        out = concat_str(out.as_str(), stored_exec(root, self.glossary_file.as_str(), "glossary.txt").as_str());
        out = concat_str(out.as_str(), "</glossary_file>\n        <dictionary_dir>");
        out = concat_str(out.as_str(), stored_exec(root, self.dictionary_dir.as_str(), "dictionary").as_str());
        out = concat_str(out.as_str(), "</dictionary_dir>\n        <export_tm_dir>");
        out = concat_str(out.as_str(), stored_exec(root, self.export_tm_dir.as_str(), "").as_str());
        out = concat_str(out.as_str(), "</export_tm_dir>\n        <export_tm_levels>");
        out = concat_str(out.as_str(), xml_escape_exec(self.export_tm_levels.as_str()).as_str());
        out = concat_str(out.as_str(), "</export_tm_levels>\n        <source_lang>");
        out = concat_str(out.as_str(), xml_escape_exec(self.source_lang.as_str()).as_str());
        out = concat_str(out.as_str(), "</source_lang>\n        <target_lang>");
        out = concat_str(out.as_str(), xml_escape_exec(self.target_lang.as_str()).as_str());
        out = concat_str(out.as_str(), "</target_lang>\n        <source_tok>");
        out = concat_str(out.as_str(), xml_escape_exec(self.source_tok.as_str()).as_str());
        out = concat_str(out.as_str(), "</source_tok>\n        <target_tok>");
        out = concat_str(out.as_str(), xml_escape_exec(self.target_tok.as_str()).as_str());
        out = concat_str(out.as_str(), "</target_tok>\n        <sentence_seg>");
        out = concat_str(out.as_str(), bool_text_exec(self.sentence_seg));
        out = concat_str(out.as_str(), "</sentence_seg>\n        <support_default_translations>");
        out = concat_str(out.as_str(), bool_text_exec(self.support_default_translations));
        out = concat_str(out.as_str(), "</support_default_translations>\n        <remove_tags>");
        out = concat_str(out.as_str(), bool_text_exec(self.remove_tags));
        out = concat_str(out.as_str(), "</remove_tags>\n        <external_command>");
        out = concat_str(out.as_str(), xml_escape_exec(self.external_command.as_str()).as_str());
        out = concat_str(out.as_str(), "</external_command>\n");
        out = concat_str(out.as_str(), repositories_section_exec(&self.repositories).as_str());
        out = concat_str(out.as_str(), "    </project>\n</omegat>\n");
        out
    }
}

} // verus!
