//! External finder: the items of a finder XML file (URL and command
//! templates), and a template filled in for a selection.
use vstd::prelude::*;
use vstd::utf8::encode_utf8;
use crate::text::{chars_of, string_of, slice_vec, find, find_from, find_from_exec, contains, trim, trim_chars,
    replace_all, replace_str, is_ws, is_ws_exec, lemma_find_from_bounds};
use crate::mt::request::{percent_encoded, url_encode};

verus! {

/// One finder entry: its name, URL and command templates, keystroke, scope
/// and flags.
pub struct FinderItem {
    pub name: String,
    pub url: Option<String>,
    pub urls: Vec<String>,
    pub command: Option<String>,
    pub commands: Vec<String>,
    pub keystroke: Option<String>,
    pub scope: String,
    pub nopopup: bool,
    pub ascii_only: bool,
    pub non_ascii_only: bool,
}

pub ghost struct FinderView {
    pub name: Seq<char>,
    pub url: Option<Seq<char>>,
    pub urls: Seq<Seq<char>>,
    pub command: Option<Seq<char>>,
    pub commands: Seq<Seq<char>>,
    pub keystroke: Option<Seq<char>>,
    pub scope: Seq<char>,
    pub nopopup: bool,
    pub ascii_only: bool,
    pub non_ascii_only: bool,
}

pub open spec fn opt_text(o: Option<String>) -> Option<Seq<char>> {
    match o {
        Some(s) => Some(s@),
        None => None,
    }
}

pub open spec fn texts(v: Seq<String>) -> Seq<Seq<char>> {
    Seq::new(v.len(), |i: int| v[i]@)
}

pub open spec fn finder_view(f: FinderItem) -> FinderView {
    FinderView {
        name: f.name@,
        url: opt_text(f.url),
        urls: texts(f.urls@),
        command: opt_text(f.command),
        commands: texts(f.commands@),
        keystroke: opt_text(f.keystroke),
        scope: f.scope@,
        nopopup: f.nopopup,
        ascii_only: f.ascii_only,
        non_ascii_only: f.non_ascii_only,
    }
}

/// The four XML entities a finder file uses, decoded.
pub open spec fn unescaped(s: Seq<char>) -> Seq<char> {
    replace_all(replace_all(replace_all(replace_all(s, "&amp;"@, "&"@), "&lt;"@, "<"@), "&gt;"@, ">"@), "&quot;"@, "\""@)
}

fn unescape_xml(s: &[char]) -> (r: String)
    ensures
        r@ == unescaped(s@),
{
    let a = string_of(s);
    let b = replace_str(a.as_str(), "&amp;", "&");
    let c = replace_str(b.as_str(), "&lt;", "<");
    let d = replace_str(c.as_str(), "&gt;", ">");
    replace_str(d.as_str(), "&quot;", "\"")
}

/// Where an `<item` tag (not `<items>`) starts at or after `from`: the next
/// `<item` followed by `>` or whitespace; none once one ends the text.
pub open spec fn item_at(s: Seq<char>, from: int) -> Option<int>
    decreases s.len() + 1 - from,
{
    if from < 0 {
        None
    } else {
        match find_from(s, "<item"@, from) {
            None => None,
            Some(a) => {
                proof {
                    lemma_find_from_bounds(s, "<item"@, from);
                }
                if a + 5 >= s.len() {
                    None
                } else if s[a + 5] == '>' || is_ws(s[a + 5]) {
                    Some(a)
                } else {
                    item_at(s, a + 5)
                }
            },
        }
    }
}

pub proof fn lemma_item_at_bounds(s: Seq<char>, from: int)
    ensures
        item_at(s, from) matches Some(a) ==> 0 <= from <= a && a + 5 < s.len(),
    decreases s.len() + 1 - from,
{
    if from >= 0 {
        lemma_find_from_bounds(s, "<item"@, from);
        match find_from(s, "<item"@, from) {
            Some(a) => {
                if a + 5 < s.len() && !(s[a + 5] == '>' || is_ws(s[a + 5])) {
                    lemma_item_at_bounds(s, a + 5);
                }
            },
            None => {},
        }
    }
}

/// The bodies of the `open ... >body close` elements, left to right.
pub open spec fn tags_of(rest: Seq<char>, open: Seq<char>, close: Seq<char>) -> Seq<Seq<char>>
    decreases rest.len(),
{
    match find(rest, open) {
        None => Seq::empty(),
        Some(s) => {
            proof {
                lemma_find_from_bounds(rest, open, 0);
            }
            let after = rest.subrange(s, rest.len() as int);
            match find(after, seq!['>']) {
                None => Seq::empty(),
                Some(gt) => {
                    proof {
                        lemma_find_from_bounds(after, seq!['>'], 0);
                    }
                    let inner = after.subrange(gt + 1, after.len() as int);
                    match find(inner, close) {
                        None => Seq::empty(),
                        Some(e) => {
                            proof {
                                lemma_find_from_bounds(inner, close, 0);
                            }
                            seq![unescaped(inner.subrange(0, e))]
                                + tags_of(inner.subrange(e + close.len(), inner.len() as int), open, close)
                        },
                    }
                },
            }
        },
    }
}

/// The trimmed text between the first `open` and the next `close`.
pub open spec fn tag_of(raw: Seq<char>, open: Seq<char>, close: Seq<char>) -> Option<Seq<char>> {
    match find(raw, open) {
        None => None,
        Some(i) => {
            let start = i + open.len();
            match find(raw.subrange(start, raw.len() as int), close) {
                None => None,
                Some(e) => Some(trim(raw.subrange(start, start + e))),
            }
        },
    }
}

/// The value of the first `key"` attribute (`key` ends with `=`).
pub open spec fn attr_of(raw: Seq<char>, key: Seq<char>) -> Option<Seq<char>> {
    match find(raw, key) {
        None => None,
        Some(i) => {
            let start = i + key.len();
            match find(raw.subrange(start, raw.len() as int), seq!['"']) {
                None => None,
                Some(e) => Some(raw.subrange(start, start + e)),
            }
        },
    }
}

pub open spec fn or_else(a: Option<Seq<char>>, b: Option<Seq<char>>) -> Option<Seq<char>> {
    match a {
        Some(x) => Some(x),
        None => b,
    }
}

pub open spec fn first_of(v: Seq<Seq<char>>) -> Option<Seq<char>> {
    if v.len() > 0 { Some(v[0]) } else { None }
}

/// The item an `<item>` block describes.
pub open spec fn item_view(block: Seq<char>) -> FinderView {
    let urls = tags_of(block, "<url"@, "</url>"@);
    let commands = tags_of(block, "<command"@, "</command>"@);
    FinderView {
        name: unescaped(match or_else(tag_of(block, "<name>"@, "</name>"@), attr_of(block, "name=\""@)) {
            Some(n) => n,
            None => Seq::empty(),
        }),
        url: first_of(urls),
        urls,
        command: first_of(commands),
        commands,
        keystroke: or_else(tag_of(block, "<keystroke>"@, "</keystroke>"@), attr_of(block, "keystroke=\""@)),
        scope: match or_else(tag_of(block, "<scope>"@, "</scope>"@), attr_of(block, "scope=\""@)) {
            Some(s) => s,
            None => "selection"@,
        },
        nopopup: contains(block, "nopopup=\"true\""@),
        ascii_only: contains(block, "target=\"ascii_only\""@) && !contains(block, "target=\"both\""@),
        non_ascii_only: contains(block, "target=\"non_ascii_only\""@),
    }
}

/// An item's block: from its tag to the next `</item>`, or to the end.
pub open spec fn block_of(slice: Seq<char>) -> Seq<char> {
    match find(slice, "</item>"@) {
        Some(e) => slice.subrange(0, e),
        None => slice,
    }
}

/// The items of a finder file, in order; each search for the next item
/// starts just past the previous `<item`.
pub open spec fn finder_items(rest: Seq<char>) -> Seq<FinderView>
    decreases rest.len(),
{
    match item_at(rest, 0) {
        None => Seq::empty(),
        Some(s) => {
            proof {
                lemma_item_at_bounds(rest, 0);
            }
            seq![item_view(block_of(rest.subrange(s, rest.len() as int)))]
                + finder_items(rest.subrange(s + 5, rest.len() as int))
        },
    }
}

fn item_at_exec(s: &Vec<char>) -> (r: Option<usize>)
    ensures
        match r {
            Some(a) => item_at(s@, 0) == Some(a as int),
            None => item_at(s@, 0) is None,
        },
{
    let open = chars_of("<item");
    let mut from: usize = 0;
    loop
        invariant
            open@ == "<item"@,
            from <= s@.len(),
            item_at(s@, 0) == item_at(s@, from as int),
        decreases s@.len() + 1 - from,
    {
        proof {
            lemma_find_from_bounds(s@, "<item"@, from as int);
        }
        match find_from_exec(s, &open, from) {
            None => {
                return None;
            },
            Some(a) => {
                if a >= s.len() || s.len() - a <= 5 {
                    return None;
                }
                let c = s[a + 5];
                if c == '>' || is_ws_exec(c) {
                    return Some(a);
                }
                from = a + 5;
            },
        }
    }
}

fn tags_exec(block: &Vec<char>, open: &str, close: &str) -> (r: Vec<String>)
    ensures
        texts(r@) == tags_of(block@, open@, close@),
{
    let ov = chars_of(open);
    let cv = chars_of(close);
    let mut gt: Vec<char> = Vec::new();
    gt.push('>');
    assert(gt@ =~= seq!['>']);
    let mut out: Vec<String> = Vec::new();
    let mut rest = slice_vec(block, 0, block.len());
    assert(rest@ =~= block@);
    assert(texts(out@) =~= Seq::<Seq<char>>::empty());
    loop
        invariant
            ov@ == open@,
            cv@ == close@,
            gt@ == seq!['>'],
            texts(out@) + tags_of(rest@, open@, close@) == tags_of(block@, open@, close@),
        decreases rest@.len(),
    {
        proof {
            lemma_find_from_bounds(rest@, open@, 0);
        }
        let s = match find_from_exec(&rest, &ov, 0) {
            None => {
                assert(texts(out@) =~= tags_of(block@, open@, close@));
                return out;
            },
            Some(s) => s,
        };
        assert(crate::text::matches_at(rest@, open@, s as int));
        let after = slice_vec(&rest, s, rest.len());
        proof {
            lemma_find_from_bounds(after@, seq!['>'], 0);
        }
        let g = match find_from_exec(&after, &gt, 0) {
            None => {
                assert(texts(out@) =~= tags_of(block@, open@, close@));
                return out;
            },
            Some(g) => g,
        };
        assert(crate::text::matches_at(after@, seq!['>'], g as int));
        let inner = slice_vec(&after, g + 1, after.len());
        proof {
            lemma_find_from_bounds(inner@, close@, 0);
        }
        let e = match find_from_exec(&inner, &cv, 0) {
            None => {
                assert(texts(out@) =~= tags_of(block@, open@, close@));
                return out;
            },
            Some(e) => e,
        };
        assert(crate::text::matches_at(inner@, close@, e as int));
        let body = slice_vec(&inner, 0, e);
        let text = unescape_xml(&body);
        let ghost before = texts(out@);
        out.push(text);
        assert(texts(out@) =~= before.push(unescaped(inner@.subrange(0, e as int))));
        let next = slice_vec(&inner, e + cv.len(), inner.len());
        assert(tags_of(rest@, open@, close@) == seq![unescaped(inner@.subrange(0, e as int))] + tags_of(next@, open@, close@));
        assert(texts(out@) + tags_of(next@, open@, close@) =~= before + tags_of(rest@, open@, close@));
        rest = next;
    }
}

fn tag_exec(raw: &Vec<char>, open: &str, close: &str) -> (r: Option<Vec<char>>)
    ensures
        match r {
            Some(t) => tag_of(raw@, open@, close@) == Some(t@),
            None => tag_of(raw@, open@, close@) is None,
        },
{
    let ov = chars_of(open);
    let cv = chars_of(close);
    proof {
        lemma_find_from_bounds(raw@, open@, 0);
    }
    let i = match find_from_exec(raw, &ov, 0) {
        None => { return None; },
        Some(i) => i,
    };
    assert(crate::text::matches_at(raw@, open@, i as int));
    let n = raw.len();
    assert(i + ov@.len() <= n);
    let start = i + ov.len();
    let tail = slice_vec(raw, start, raw.len());
    proof {
        lemma_find_from_bounds(tail@, close@, 0);
    }
    let e = match find_from_exec(&tail, &cv, 0) {
        None => { return None; },
        Some(e) => e,
    };
    assert(crate::text::matches_at(tail@, close@, e as int));
    let inner = slice_vec(raw, start, start + e);
    assert(inner@ =~= raw@.subrange(start as int, start + e));
    Some(trim_chars(&inner))
}

fn attr_exec(raw: &Vec<char>, key: &str) -> (r: Option<Vec<char>>)
    ensures
        match r {
            Some(t) => attr_of(raw@, key@) == Some(t@),
            None => attr_of(raw@, key@) is None,
        },
{
    let kv = chars_of(key);
    let mut q: Vec<char> = Vec::new();
    q.push('"');
    assert(q@ =~= seq!['"']);
    proof {
        lemma_find_from_bounds(raw@, key@, 0);
    }
    let i = match find_from_exec(raw, &kv, 0) {
        None => { return None; },
        Some(i) => i,
    };
    assert(crate::text::matches_at(raw@, key@, i as int));
    let n = raw.len();
    assert(i + kv@.len() <= n);
    let start = i + kv.len();
    let tail = slice_vec(raw, start, raw.len());
    proof {
        lemma_find_from_bounds(tail@, seq!['"'], 0);
    }
    let e = match find_from_exec(&tail, &q, 0) {
        None => { return None; },
        Some(e) => e,
    };
    assert(crate::text::matches_at(tail@, seq!['"'], e as int));
    Some(slice_vec(raw, start, start + e))
}

fn occurs(raw: &Vec<char>, p: &str) -> (r: bool)
    ensures
        r == contains(raw@, p@),
{
    let pv = chars_of(p);
    find_from_exec(raw, &pv, 0).is_some()
}

fn either(a: Option<Vec<char>>, b: Option<Vec<char>>) -> (r: Option<Vec<char>>)
    ensures
        match r {
            Some(x) => or_else(match a { Some(y) => Some(y@), None => None }, match b { Some(y) => Some(y@), None => None })
                == Some(x@),
            None => a is None && b is None,
        },
{
    match a {
        Some(x) => Some(x),
        None => b,
    }
}

fn first_string(v: &Vec<String>) -> (r: Option<String>)
    ensures
        opt_text(r) == first_of(texts(v@)),
{
    if v.len() > 0 { Some(v[0].clone()) } else { None }
}

fn item_of(block: &Vec<char>) -> (r: FinderItem)
    ensures
        finder_view(r) == item_view(block@),
{
    let urls = tags_exec(block, "<url", "</url>");
    let commands = tags_exec(block, "<command", "</command>");
    let name_raw = either(tag_exec(block, "<name>", "</name>"), attr_exec(block, "name=\""));
    let name = match name_raw {
        Some(n) => unescape_xml(&n),
        None => {
            let e: Vec<char> = Vec::new();
            unescape_xml(&e)
        },
    };
    let key = either(tag_exec(block, "<keystroke>", "</keystroke>"), attr_exec(block, "keystroke=\""));
    let scope = match either(tag_exec(block, "<scope>", "</scope>"), attr_exec(block, "scope=\"")) {
        Some(s) => string_of(&s),
        None => "selection".to_string(),
    };
    let url = first_string(&urls);
    let command = first_string(&commands);
    let r = FinderItem {
        name,
        url,
        urls,
        command,
        commands,
        keystroke: match key { Some(k) => Some(string_of(&k)), None => None },
        scope,
        nopopup: occurs(block, "nopopup=\"true\""),
        ascii_only: occurs(block, "target=\"ascii_only\"") && !occurs(block, "target=\"both\""),
        non_ascii_only: occurs(block, "target=\"non_ascii_only\""),
    };
    assert(finder_view(r) == item_view(block@));
    r
}

pub open spec fn finder_views(v: Seq<FinderItem>) -> Seq<FinderView> {
    Seq::new(v.len(), |i: int| finder_view(v[i]))
}

/// The items of a finder XML file, in order.
pub fn parse_finder_xml(raw: &str) -> (r: Vec<FinderItem>)
    ensures
        finder_views(r@) == finder_items(raw@),
{
    let mut items: Vec<FinderItem> = Vec::new();
    let mut rest = chars_of(raw);
    let close = chars_of("</item>");
    assert(finder_views(items@) =~= Seq::<FinderView>::empty());
    loop
        invariant
            close@ == "</item>"@,
            finder_views(items@) + finder_items(rest@) == finder_items(raw@),
        decreases rest@.len(),
    {
        proof {
            lemma_item_at_bounds(rest@, 0);
        }
        let s = match item_at_exec(&rest) {
            None => {
                assert(finder_views(items@) =~= finder_items(raw@));
                return items;
            },
            Some(s) => s,
        };
        let slice = slice_vec(&rest, s, rest.len());
        proof {
            lemma_find_from_bounds(slice@, "</item>"@, 0);
        }
        let block = match find_from_exec(&slice, &close, 0) {
            Some(e) => {
                assert(crate::text::matches_at(slice@, "</item>"@, e as int));
                slice_vec(&slice, 0, e)
            },
            None => slice_vec(&slice, 0, slice.len()),
        };
        assert(block@ =~= block_of(slice@));
        let item = item_of(&block);
        let ghost before = finder_views(items@);
        items.push(item);
        assert(finder_views(items@) =~= before.push(item_view(block_of(slice@))));
        let next = slice_vec(&rest, s + 5, rest.len());
        assert(finder_items(rest@) == seq![item_view(block_of(slice@))] + finder_items(next@));
        assert(finder_views(items@) + finder_items(next@) =~= before + finder_items(rest@));
        rest = next;
    }
}

pub open spec fn url_text(s: Seq<char>) -> Seq<char> {
    percent_encoded(encode_utf8(s))
}

/// A template with its placeholders filled in, each value URL-encoded.
pub open spec fn expanded(t: Seq<char>, selection: Seq<char>, source: Seq<char>, target: Seq<char>) -> Seq<char> {
    let a = replace_all(t, "{selection}"@, url_text(selection));
    let b = replace_all(a, "{sourceText}"@, url_text(source));
    let c = replace_all(b, "{targetText}"@, url_text(target));
    let d = replace_all(c, "{source}"@, url_text(source));
    replace_all(d, "{target}"@, url_text(target))
}

/// The item's URL template (else its command template) filled in for a
/// selection and the current segment; none where it has neither.
pub fn expand(item: &FinderItem, selection: &str, source: &str, target: &str) -> (r: Option<String>)
    ensures
        match or_else(opt_text(item.url), opt_text(item.command)) {
            Some(t) => r matches Some(x) && x@ == expanded(t, selection@, source@, target@),
            None => r is None,
        },
{
    let t: &String = match &item.url {
        Some(u) => u,
        None => match &item.command {
            Some(c) => c,
            None => { return None; },
        },
    };
    let sel = url_encode(selection);
    let src = url_encode(source);
    let tgt = url_encode(target);
    let a = replace_str(t.as_str(), "{selection}", sel.as_str());
    let b = replace_str(a.as_str(), "{sourceText}", src.as_str());
    let c = replace_str(b.as_str(), "{targetText}", tgt.as_str());
    let d = replace_str(c.as_str(), "{source}", src.as_str());
    Some(replace_str(d.as_str(), "{target}", tgt.as_str()))
}

} // verus!
