//! Issue list model: simple issues, project issue collection, table model, type counts.
use vstd::prelude::*;
use crate::text::{
    chars_of, string_of, str_eq, trim, trim_str, find_from, find_from_exec, slice_vec,
    extend_chars, lex_lt, lex_order, lemma_lex_total, lemma_lex_trans, lemma_lex_asym,
    lemma_find_from_bounds, usize_to_string, nat_digits,
};
use crate::regex_ops::{Pattern, compile, is_match, escape, regex_valid, regex_match, regex_escaped};

verus! {

pub struct Issue {
    pub entry_num: usize,
    pub issue_type: String,
    pub description: String,
}

pub struct IssueDetail {
    pub source: String,
    pub translation: String,
}

pub struct SimpleColorIcon {
    pub color: String,
}

impl SimpleColorIcon {
    pub fn class_name(&self) -> (r: &'static str)
        ensures
            r@ == "SimpleColorIcon"@,
    {
        "SimpleColorIcon"
    }
}

pub struct IssueDetailSplitPanel {
    pub first_text: String,
    pub last_text: String,
}

impl IssueDetailSplitPanel {
    pub fn class_name(&self) -> (r: &'static str)
        ensures
            r@ == "IssueDetailSplitPanel"@,
    {
        "IssueDetailSplitPanel"
    }
}

/// An issue attached to one entry, shown with a colored icon.
pub struct SimpleIssue {
    entry_num: usize,
    source: String,
    translation: String,
    color: String,
}

impl SimpleIssue {
    pub closed spec fn spec_entry_num(&self) -> usize {
        self.entry_num
    }

    pub closed spec fn spec_source(&self) -> Seq<char> {
        self.source@
    }

    pub closed spec fn spec_translation(&self) -> Seq<char> {
        self.translation@
    }

    pub closed spec fn spec_color(&self) -> Seq<char> {
        self.color@
    }

    pub fn new(entry_num: usize, source: &str, translation: &str, color: &str) -> (r: Self)
        ensures
            r.spec_entry_num() == entry_num,
            r.spec_source() == source@,
            r.spec_translation() == translation@,
            r.spec_color() == color@,
    {
        SimpleIssue {
            entry_num,
            source: source.to_owned(),
            translation: translation.to_owned(),
            color: color.to_owned(),
        }
    }

    pub fn icon_color(&self) -> (r: &str)
        ensures
            r@ == self.spec_color(),
    {
        self.color.as_str()
    }

    pub fn icon(&self) -> (r: SimpleColorIcon)
        ensures
            r.color@ == self.spec_color(),
    {
        SimpleColorIcon { color: self.color.clone() }
    }

    pub fn entry_num(&self) -> (r: usize)
        ensures
            r == self.spec_entry_num(),
    {
        self.entry_num
    }

    pub fn detail(&self) -> (r: IssueDetail)
        ensures
            r.source@ == self.spec_source(),
            r.translation@ == self.spec_translation(),
    {
        IssueDetail { source: self.source.clone(), translation: self.translation.clone() }
    }

    pub fn detail_component(&self) -> (r: IssueDetailSplitPanel)
        ensures
            r.first_text@ == self.spec_source(),
            r.last_text@ == self.spec_translation(),
    {
        IssueDetailSplitPanel { first_text: self.source.clone(), last_text: self.translation.clone() }
    }
}

pub struct ProjectIssueEntry {
    pub file: String,
    pub entry_num: usize,
    pub source: String,
    pub translation: String,
    pub duplicate: bool,
}

#[derive(Clone, Copy, PartialEq, Eq, Structural)]
pub enum ProjectIssueKind {
    Tag,
    Provider,
}

pub struct ProjectIssue {
    pub kind: ProjectIssueKind,
    pub file: String,
    pub entry_num: usize,
    pub source: String,
    pub translation: String,
}

/// The file-name pattern of `collect_project_issues` is not a valid regular expression.
pub struct PatternError {
    pub pattern: String,
}

/// Pattern text with each `\Q...\E` section replaced by its escaped literal.
pub open spec fn quoted_to_regex(p: Seq<char>) -> Seq<char>
    decreases p.len(),
{
    match find_from(p, seq!['\\', 'Q'], 0) {
        None => p,
        Some(start) => if 0 <= start && start + 2 <= p.len() {
            let quoted = p.subrange(start + 2, p.len() as int);
            match find_from(quoted, seq!['\\', 'E'], 0) {
                Some(end) => if 0 <= end && end + 2 <= quoted.len() {
                    p.subrange(0, start) + regex_escaped(quoted.subrange(0, end))
                        + quoted_to_regex(quoted.subrange(end + 2, quoted.len() as int))
                } else {
                    p
                },
                None => p.subrange(0, start) + regex_escaped(quoted),
            }
        } else {
            p
        },
    }
}

fn quoted_to_regex_exec(p: &[char]) -> (r: Vec<char>)
    ensures
        r@ == quoted_to_regex(p@),
    decreases p.len(),
{
    let q = vec!['\\', 'Q'];
    let e = vec!['\\', 'E'];
    assert(q@ =~= seq!['\\', 'Q']);
    assert(e@ =~= seq!['\\', 'E']);
    proof { lemma_find_from_bounds(p@, q@, 0); }
    match find_from_exec(p, &q, 0) {
        None => slice_vec(p, 0, p.len()),
        Some(start) => {
            let quoted = slice_vec(p, start + 2, p.len());
            proof { lemma_find_from_bounds(quoted@, e@, 0); }
            let mut out = slice_vec(p, 0, start);
            match find_from_exec(&quoted, &e, 0) {
                Some(end) => {
                    let lit = slice_vec(&quoted, 0, end);
                    let ls = string_of(&lit);
                    let esc = escape(ls.as_str());
                    let ev = chars_of(esc.as_str());
                    extend_chars(&mut out, &ev);
                    let rest = slice_vec(&quoted, end + 2, quoted.len());
                    let tail = quoted_to_regex_exec(&rest);
                    extend_chars(&mut out, &tail);
                    out
                },
                None => {
                    let ls = string_of(&quoted);
                    let esc = escape(ls.as_str());
                    let ev = chars_of(esc.as_str());
                    extend_chars(&mut out, &ev);
                    out
                },
            }
        },
    }
}

pub ghost struct IssueEntryView {
    pub file: Seq<char>,
    pub entry_num: usize,
    pub source: Seq<char>,
    pub translation: Seq<char>,
    pub duplicate: bool,
}

pub ghost struct ProjectIssueView {
    pub kind: ProjectIssueKind,
    pub file: Seq<char>,
    pub entry_num: usize,
    pub source: Seq<char>,
    pub translation: Seq<char>,
}

impl View for ProjectIssueEntry {
    type V = IssueEntryView;

    open spec fn view(&self) -> IssueEntryView {
        IssueEntryView {
            file: self.file@,
            entry_num: self.entry_num,
            source: self.source@,
            translation: self.translation@,
            duplicate: self.duplicate,
        }
    }
}

impl View for ProjectIssue {
    type V = ProjectIssueView;

    open spec fn view(&self) -> ProjectIssueView {
        ProjectIssueView {
            kind: self.kind,
            file: self.file@,
            entry_num: self.entry_num,
            source: self.source@,
            translation: self.translation@,
        }
    }
}

pub open spec fn issue_of(kind: ProjectIssueKind, e: IssueEntryView) -> ProjectIssueView {
    ProjectIssueView { kind, file: e.file, entry_num: e.entry_num, source: e.source, translation: e.translation }
}

/// Provider issues: entries whose file matches, that are translated, and (if asked) not duplicates.
pub open spec fn provider_issues(entries: Seq<IssueEntryView>, pat: Seq<char>, filter_duplicates: bool) -> Seq<ProjectIssueView>
    decreases entries.len(),
{
    if entries.len() == 0 {
        Seq::empty()
    } else {
        let e = entries.last();
        let rest = provider_issues(entries.drop_last(), pat, filter_duplicates);
        if regex_match(pat, e.file) && e.translation.len() > 0 && (!filter_duplicates || !e.duplicate) {
            rest.push(issue_of(ProjectIssueKind::Provider, e))
        } else {
            rest
        }
    }
}

/// First entry of `file`.
pub open spec fn first_in_file(entries: Seq<IssueEntryView>, file: Seq<char>) -> Option<IssueEntryView>
    decreases entries.len(),
{
    if entries.len() == 0 {
        None
    } else if entries[0].file == file {
        Some(entries[0])
    } else {
        first_in_file(entries.drop_first(), file)
    }
}

pub open spec fn tag_issues(entries: Seq<IssueEntryView>, pat: Seq<char>, tag_file: Option<Seq<char>>) -> Seq<ProjectIssueView> {
    match tag_file {
        Some(f) => if regex_match(pat, f) {
            match first_in_file(entries, f) {
                Some(e) => seq![issue_of(ProjectIssueKind::Tag, e)],
                None => Seq::empty(),
            }
        } else {
            Seq::empty()
        },
        None => Seq::empty(),
    }
}

/// Tag issue (if any) first, then provider issues, in entry order.
pub fn collect_project_issues(
    entries: &[ProjectIssueEntry],
    source_pattern: &str,
    filter_duplicates: bool,
    tag_issue_file: Option<&str>,
) -> (r: Result<Vec<ProjectIssue>, PatternError>)
    ensures
        r is Err <==> !regex_valid(quoted_to_regex(source_pattern@)),
        r matches Ok(v) ==> v@.map_values(|x: ProjectIssue| x@) == tag_issues(
            entries@.map_values(|x: ProjectIssueEntry| x@),
            quoted_to_regex(source_pattern@),
            match tag_issue_file { Some(f) => Some(f@), None => None },
        ) + provider_issues(entries@.map_values(|x: ProjectIssueEntry| x@), quoted_to_regex(source_pattern@), filter_duplicates),
{
    let ghost ev = entries@.map_values(|x: ProjectIssueEntry| x@);
    let sp = chars_of(source_pattern);
    let pv = quoted_to_regex_exec(&sp);
    let ps = string_of(&pv);
    let pattern = match compile(ps.as_str()) {
        Some(p) => p,
        None => {
            return Err(PatternError { pattern: source_pattern.to_owned() });
        },
    };
    let ghost pat = pv@;
    let mut out: Vec<ProjectIssue> = Vec::new();
    match tag_issue_file {
        Some(file) => {
            if is_match(&pattern, file) {
                let mut k: usize = 0;
                let mut found = false;
                assert(ev.subrange(0, ev.len() as int) =~= ev);
                while k < entries.len() && !found
                    invariant
                        k <= entries.len(),
                        ev == entries@.map_values(|x: ProjectIssueEntry| x@),
                        !found ==> first_in_file(ev, file@) == first_in_file(ev.subrange(k as int, ev.len() as int), file@),
                        !found ==> out@.len() == 0,
                        found ==> out@.map_values(|x: ProjectIssue| x@) == seq![issue_of(ProjectIssueKind::Tag, first_in_file(ev, file@).unwrap())],
                        found ==> first_in_file(ev, file@) is Some,
                    decreases entries.len() - k + (if found { 0int } else { 1int }),
                {
                    let ghost tail = ev.subrange(k as int, ev.len() as int);
                    assert(tail.drop_first() =~= ev.subrange(k + 1, ev.len() as int));
                    if str_eq(entries[k].file.as_str(), file) {
                        let e = &entries[k];
                        out.push(ProjectIssue {
                            kind: ProjectIssueKind::Tag,
                            file: e.file.clone(),
                            entry_num: e.entry_num,
                            source: e.source.clone(),
                            translation: e.translation.clone(),
                        });
                        found = true;
                        assert(out@.map_values(|x: ProjectIssue| x@) =~= seq![issue_of(ProjectIssueKind::Tag, first_in_file(ev, file@).unwrap())]);
                    } else {
                        k = k + 1;
                    }
                }
                if !found {
                    assert(ev.subrange(entries.len() as int, ev.len() as int) =~= Seq::<IssueEntryView>::empty());
                }
            }
        },
        None => {},
    }
    assert(ev.subrange(0, ev.len() as int) =~= ev);
    let ghost head = out@.map_values(|x: ProjectIssue| x@);
    assert(head == tag_issues(ev, pat, match tag_issue_file { Some(f) => Some(f@), None => None }));
    let mut i: usize = 0;
    while i < entries.len()
        invariant
            i <= entries.len(),
            ev == entries@.map_values(|x: ProjectIssueEntry| x@),
            pattern.source() == pat,
            out@.map_values(|x: ProjectIssue| x@) == head + provider_issues(ev.subrange(0, i as int), pat, filter_duplicates),
        decreases entries.len() - i,
    {
        let e = &entries[i];
        let ghost before = out@.map_values(|x: ProjectIssue| x@);
        assert(ev.subrange(0, i + 1).drop_last() =~= ev.subrange(0, i as int));
        if is_match(&pattern, e.file.as_str()) && !e.translation.as_str().is_empty() && (!filter_duplicates || !e.duplicate) {
            out.push(ProjectIssue {
                kind: ProjectIssueKind::Provider,
                file: e.file.clone(),
                entry_num: e.entry_num,
                source: e.source.clone(),
                translation: e.translation.clone(),
            });
            assert(out@.map_values(|x: ProjectIssue| x@) =~= before.push(issue_of(ProjectIssueKind::Provider, ev[i as int])));
        }
        i = i + 1;
    }
    Ok(out)
}

pub struct IssuesTableModel {
    pub issues: Vec<Issue>,
    pub mouseover_row: i32,
    pub mouseover_col: i32,
}

impl IssuesTableModel {
    pub fn new(issues: Vec<Issue>) -> (r: Self)
        ensures
            r.issues == issues,
            r.mouseover_row == -1 && r.mouseover_col == -1,
    {
        IssuesTableModel { issues, mouseover_row: -1, mouseover_col: -1 }
    }

    pub fn row_count(&self) -> (r: usize)
        ensures
            r == self.issues@.len(),
    {
        self.issues.len()
    }

    pub fn column_count(&self) -> (r: usize)
        ensures
            r == 5,
    {
        5
    }

    /// Header of column `col`: Segment, (icon), Type, Description, (menu).
    pub fn column_name(col: usize) -> (r: &'static str)
        ensures
            col == 0 ==> r@ == "Segment"@,
            col == 2 ==> r@ == "Type"@,
            col == 3 ==> r@ == "Description"@,
            col != 0 && col != 2 && col != 3 ==> r@ == ""@,
    {
        if col == 0 {
            "Segment"
        } else if col == 2 {
            "Type"
        } else if col == 3 {
            "Description"
        } else {
            ""
        }
    }

    /// Cell text: entry number, type or description; empty elsewhere or past the last row.
    pub fn value_at(&self, row: usize, col: usize) -> (r: String)
        ensures
            row >= self.issues@.len() ==> r@.len() == 0,
            row < self.issues@.len() && col == 0 ==> r@ == nat_digits(self.issues@[row as int].entry_num as nat),
            row < self.issues@.len() && col == 2 ==> r@ == self.issues@[row as int].issue_type@,
            row < self.issues@.len() && col == 3 ==> r@ == self.issues@[row as int].description@,
            row < self.issues@.len() && col != 0 && col != 2 && col != 3 ==> r@.len() == 0,
    {
        if row >= self.issues.len() {
            return String::new();
        }
        let issue = &self.issues[row];
        if col == 0 {
            usize_to_string(issue.entry_num)
        } else if col == 2 {
            issue.issue_type.clone()
        } else if col == 3 {
            issue.description.clone()
        } else {
            String::new()
        }
    }

    pub fn set_mouseover(&mut self, row: i32, col: i32)
        ensures
            final(self).mouseover_row == row,
            final(self).mouseover_col == col,
            final(self).issues == old(self).issues,
    {
        self.mouseover_row = row;
        self.mouseover_col = col;
    }

    /// The action-menu icon is always shown.
    pub fn action_menu_icon_visible(&self, has_menu: bool, row: usize, col: usize) -> (r: bool)
        ensures
            r,
    {
        true
    }

    pub fn issue_at(&self, row: usize) -> (r: Option<&Issue>)
        ensures
            row < self.issues@.len() ==> r == Some(&self.issues@[row as int]),
            row >= self.issues@.len() ==> r is None,
    {
        if row < self.issues.len() {
            Some(&self.issues[row])
        } else {
            None
        }
    }
}

pub fn enabled_provider_ids() -> (r: Vec<&'static str>)
    ensures
        r@.len() == 4,
        r@[0]@ == "tag"@ && r@[1]@ == "spell"@ && r@[2]@ == "terminology"@ && r@[3]@ == "languagetool"@,
{
    vec!["tag", "spell", "terminology", "languagetool"]
}

/// Whether some term is not blank.
pub fn terminology_has_target(terms: &[&str]) -> (r: bool)
    ensures
        r == exists|i: int| 0 <= i < terms@.len() && #[trigger] trim(terms@[i]@).len() > 0,
{
    let mut i: usize = 0;
    while i < terms.len()
        invariant
            i <= terms.len(),
            forall|j: int| 0 <= j < i ==> #[trigger] trim(terms@[j]@).len() == 0,
        decreases terms.len() - i,
    {
        let t = trim_str(terms[i]);
        if !t.as_str().is_empty() {
            return true;
        }
        i = i + 1;
    }
    false
}

pub fn disabled_provider_ids() -> (r: Vec<&'static str>)
    ensures
        r@.len() == 0,
{
    Vec::new()
}

/// The non-empty ones of `src` and `loc`, in that order.
pub fn get_set_of_terms(src: &str, loc: &str) -> (r: Vec<String>)
    ensures
        r@.map_values(|s: String| s@) == (if src@.len() > 0 { seq![src@] } else { Seq::empty() })
            + (if loc@.len() > 0 { seq![loc@] } else { Seq::empty() }),
{
    let mut out: Vec<String> = Vec::new();
    if !src.is_empty() {
        out.push(src.to_owned());
    }
    if !loc.is_empty() {
        out.push(loc.to_owned());
    }
    assert(out@.map_values(|s: String| s@) =~= (if src@.len() > 0 { seq![src@] } else { Seq::<Seq<char>>::empty() })
        + (if loc@.len() > 0 { seq![loc@] } else { Seq::<Seq<char>>::empty() }));
    out
}

pub struct TypeCount {
    pub issue_type: String,
    pub count: usize,
}

/// Number of issues of type `name`.
pub open spec fn count_of(names: Seq<Seq<char>>, name: Seq<char>) -> nat
    decreases names.len(),
{
    if names.len() == 0 {
        0
    } else {
        count_of(names.drop_last(), name) + (if names.last() == name { 1nat } else { 0nat })
    }
}

pub open spec fn issue_names(issues: Seq<Issue>) -> Seq<Seq<char>> {
    issues.map_values(|i: Issue| i.issue_type@)
}

/// One row per distinct type, ascending by type name, with its number of issues.
pub open spec fn type_data_ok(names: Seq<Seq<char>>, out: Seq<TypeCount>) -> bool {
    &&& forall|a: int, b: int| 0 <= a < b < out.len() ==> lex_lt(#[trigger] out[a].issue_type@, #[trigger] out[b].issue_type@)
    &&& forall|a: int| 0 <= a < out.len() ==> #[trigger] out[a].count == count_of(names, out[a].issue_type@)
    &&& forall|a: int| 0 <= a < out.len() ==> #[trigger] count_of(names, out[a].issue_type@) > 0
    &&& forall|n: Seq<char>| #[trigger] count_of(names, n) > 0 ==> exists|a: int| 0 <= a < out.len() && out[a].issue_type@ == n
}

pub proof fn lemma_count_pos(names: Seq<Seq<char>>, n: Seq<char>)
    ensures
        count_of(names, n) > 0 <==> exists|k: int| 0 <= k < names.len() && names[k] == n,
    decreases names.len(),
{
    if names.len() > 0 {
        lemma_count_pos(names.drop_last(), n);
        if count_of(names.drop_last(), n) > 0 {
            let k = choose|k: int| 0 <= k < names.drop_last().len() && names.drop_last()[k] == n;
            assert(names[k] == n);
        }
        if exists|k: int| 0 <= k < names.len() && names[k] == n {
            let k = choose|k: int| 0 <= k < names.len() && names[k] == n;
            if k < names.len() - 1 {
                assert(names.drop_last()[k] == n);
            }
        }
    }
}

pub proof fn lemma_count_bound(names: Seq<Seq<char>>, n: Seq<char>)
    ensures
        count_of(names, n) <= names.len(),
    decreases names.len(),
{
    if names.len() > 0 {
        lemma_count_bound(names.drop_last(), n);
    }
}

pub fn calculate_type_data(issues: &[Issue]) -> (r: Vec<TypeCount>)
    ensures
        type_data_ok(issue_names(issues@), r@),
{
    let ghost names = issue_names(issues@);
    let mut out: Vec<TypeCount> = Vec::new();
    let mut i: usize = 0;
    while i < issues.len()
        invariant
            i <= issues.len(),
            names == issue_names(issues@),
            type_data_ok(names.subrange(0, i as int), out@),
        decreases issues.len() - i,
    {
        let ghost pre = names.subrange(0, i as int);
        let ghost post = names.subrange(0, i + 1);
        assert(post.drop_last() =~= pre);
        let name = chars_of(issues[i].issue_type.as_str());
        assert(post.last() == name@);
        proof { lemma_count_bound(pre, name@); }
        let mut p: usize = 0;
        let mut done = false;
        while p < out.len() && !done
            invariant
                p <= out@.len(),
                !done ==> type_data_ok(pre, out@),
                !done ==> forall|a: int| 0 <= a < p ==> lex_lt(#[trigger] out@[a].issue_type@, name@),
                done ==> type_data_ok(post, out@),
                i < issues.len(),
                names == issue_names(issues@),
                pre == names.subrange(0, i as int),
                post == names.subrange(0, i + 1),
                post.drop_last() == pre,
                post.last() == name@,
                count_of(pre, name@) <= pre.len(),
                pre.len() == i,
            decreases (if done { 0int } else { out@.len() - p + 1 }),
        {
            let oc = chars_of(out[p].issue_type.as_str());
            let c = lex_order(&oc, &name);
            if c == 0 {
                let ghost old_out = out@;
                let n = out[p].count + 1;
                let tn = out[p].issue_type.clone();
                out.set(p, TypeCount { issue_type: tn, count: n });
                proof {
                    assert forall|a: int| 0 <= a < out@.len() implies #[trigger] out@[a].issue_type@ == old_out[a].issue_type@ by {}
                    assert forall|a: int, b: int| 0 <= a < b < out@.len() implies lex_lt(#[trigger] out@[a].issue_type@, #[trigger] out@[b].issue_type@) by {
                        assert(lex_lt(old_out[a].issue_type@, old_out[b].issue_type@));
                    }
                    assert forall|a: int| 0 <= a < out@.len() implies #[trigger] count_of(post, out@[a].issue_type@) > 0 by {
                        assert(count_of(pre, old_out[a].issue_type@) > 0);
                        assert(count_of(post, old_out[a].issue_type@) >= count_of(pre, old_out[a].issue_type@));
                    }
                    assert forall|a: int| 0 <= a < out@.len() implies #[trigger] out@[a].count == count_of(post, out@[a].issue_type@) by {
                        if a != p {
                            assert(old_out[a].issue_type@ != name@) by {
                                if a < p as int { lemma_lex_asym(old_out[a].issue_type@, old_out[p as int].issue_type@); }
                                else { lemma_lex_asym(old_out[p as int].issue_type@, old_out[a].issue_type@); }
                            }
                        }
                    }
                    assert forall|n: Seq<char>| #[trigger] count_of(post, n) > 0 implies exists|a: int| 0 <= a < out@.len() && out@[a].issue_type@ == n by {
                        if n != name@ {
                            assert(count_of(pre, n) > 0);
                            let a = choose|a: int| 0 <= a < old_out.len() && old_out[a].issue_type@ == n;
                            assert(out@[a].issue_type@ == n);
                        } else {
                            assert(out@[p as int].issue_type@ == n);
                        }
                    }
                }
                done = true;
            } else if c == 1 {
                let ghost old_out = out@;
                proof {
                    lemma_count_pos(pre, name@);
                    if count_of(pre, name@) > 0 {
                        let a = choose|a: int| 0 <= a < old_out.len() && old_out[a].issue_type@ == name@;
                        if a < p as int {
                            lemma_lex_asym(old_out[a].issue_type@, name@);
                        } else if a > p as int {
                            lemma_lex_trans(name@, old_out[p as int].issue_type@, old_out[a].issue_type@);
                            lemma_lex_asym(name@, old_out[a].issue_type@);
                        } else {
                            lemma_lex_asym(name@, old_out[a].issue_type@);
                        }
                    }
                }
                assert(count_of(pre, name@) == 0);
                out.insert(p, TypeCount { issue_type: string_of(&name), count: 1 });
                proof {
                    assert forall|a: int, b: int| 0 <= a < b < out@.len() implies lex_lt(#[trigger] out@[a].issue_type@, #[trigger] out@[b].issue_type@) by {
                        if a < p as int && b == p as int {
                        } else if a < p as int && b > p as int {
                            if b - 1 > p as int {
                                lemma_lex_trans(name@, old_out[p as int].issue_type@, old_out[b - 1].issue_type@);
                            }
                            lemma_lex_trans(old_out[a].issue_type@, name@, old_out[b - 1].issue_type@);
                        } else if a == p as int && b > p as int + 1 {
                            lemma_lex_trans(name@, old_out[p as int].issue_type@, old_out[b - 1].issue_type@);
                        } else if a == p as int {
                        } else if a > p as int {
                            assert(out@[a] == old_out[a - 1]);
                            assert(out@[b] == old_out[b - 1]);
                        } else {
                            assert(out@[a] == old_out[a]);
                            assert(out@[b] == old_out[b - 1] || b < p);
                        }
                    }
                    assert forall|a: int| 0 <= a < out@.len() implies #[trigger] out@[a].count == count_of(post, out@[a].issue_type@) by {
                        if a < p as int {
                            lemma_lex_asym(old_out[a].issue_type@, name@);
                        } else if a > p as int {
                            if a - 1 > p as int {
                                lemma_lex_trans(name@, old_out[p as int].issue_type@, old_out[a - 1].issue_type@);
                            }
                            lemma_lex_asym(name@, old_out[a - 1].issue_type@);
                        }
                    }
                    assert forall|a: int| 0 <= a < out@.len() implies #[trigger] count_of(post, out@[a].issue_type@) > 0 by {
                        if a < p as int {
                            assert(out@[a] == old_out[a]);
                            assert(count_of(pre, old_out[a].issue_type@) > 0);
                            assert(count_of(post, old_out[a].issue_type@) >= count_of(pre, old_out[a].issue_type@));
                        } else if a > p as int {
                            assert(out@[a] == old_out[a - 1]);
                            assert(count_of(pre, old_out[a - 1].issue_type@) > 0);
                            assert(count_of(post, old_out[a - 1].issue_type@) >= count_of(pre, old_out[a - 1].issue_type@));
                        } else {
                            assert(count_of(post, name@) == count_of(pre, name@) + 1);
                        }
                    }
                    assert forall|n: Seq<char>| #[trigger] count_of(post, n) > 0 implies exists|a: int| 0 <= a < out@.len() && out@[a].issue_type@ == n by {
                        if n != name@ {
                            assert(count_of(pre, n) > 0);
                            let a = choose|a: int| 0 <= a < old_out.len() && old_out[a].issue_type@ == n;
                            if a < p as int {
                                assert(out@[a].issue_type@ == n);
                            } else {
                                assert(out@[a + 1].issue_type@ == n);
                            }
                        } else {
                            assert(out@[p as int].issue_type@ == n);
                        }
                    }
                }
                done = true;
            } else {
                proof { lemma_lex_total(oc@, name@); }
                assert(lex_lt(out@[p as int].issue_type@, name@));
                p = p + 1;
            }
        }
        if !done {
            let ghost old_out = out@;
            proof {
                lemma_count_pos(pre, name@);
                if count_of(pre, name@) > 0 {
                    let a = choose|a: int| 0 <= a < old_out.len() && old_out[a].issue_type@ == name@;
                    lemma_lex_asym(old_out[a].issue_type@, name@);
                }
            }
            out.push(TypeCount { issue_type: string_of(&name), count: 1 });
            proof {
                assert forall|a: int| 0 <= a < out@.len() implies #[trigger] out@[a].count == count_of(post, out@[a].issue_type@) by {
                    if a < old_out.len() {
                        lemma_lex_asym(old_out[a].issue_type@, name@);
                    }
                }
                assert forall|a: int| 0 <= a < out@.len() implies #[trigger] count_of(post, out@[a].issue_type@) > 0 by {
                    if a < old_out.len() {
                        assert(out@[a] == old_out[a]);
                        assert(count_of(pre, old_out[a].issue_type@) > 0);
                        assert(count_of(post, old_out[a].issue_type@) >= count_of(pre, old_out[a].issue_type@));
                    } else {
                        assert(count_of(post, name@) == count_of(pre, name@) + 1);
                    }
                }
                assert forall|n: Seq<char>| #[trigger] count_of(post, n) > 0 implies exists|a: int| 0 <= a < out@.len() && out@[a].issue_type@ == n by {
                    if n != name@ {
                        assert(count_of(pre, n) > 0);
                        let a = choose|a: int| 0 <= a < old_out.len() && old_out[a].issue_type@ == n;
                        assert(out@[a].issue_type@ == n);
                    } else {
                        assert(out@[old_out.len() as int].issue_type@ == n);
                    }
                }
            }
        }
        i = i + 1;
    }
    assert(names.subrange(0, issues.len() as int) =~= names);
    out
}

/// Tag issues followed by the other issues.
pub fn collect_issues(tag: Vec<Issue>, extra: Vec<Issue>) -> (r: Vec<Issue>)
    ensures
        r@ == tag@ + extra@,
{
    let mut out = tag;
    let mut extra = extra;
    out.append(&mut extra);
    out
}

} // verus!
