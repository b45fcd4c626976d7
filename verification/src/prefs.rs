//! Preference defaults and the key/value preference store.
use vstd::prelude::*;
use crate::store::{StringMap, pairs_view, pairs_map};
use crate::text::{chars_of, chars_eq, str_eq, string_of, extend_chars};
use crate::regex_ops::{regex_valid, regex_captures, groups_view, compile, captures_all};

verus! {

pub struct ColorPrefs {
    pub source: String,
    pub target: String,
    pub match_hit: String,
    pub glossary: String,
    pub nbsp: String,
}

impl Default for ColorPrefs {
    fn default() -> (r: Self)
        ensures
            r.source@ == "#9b2c1a"@ && r.target@ == "#9b2c1a"@ && r.match_hit@ == "#9b2c1a"@
                && r.glossary@ == "#9b2c1a"@ && r.nbsp@ == "#9b2c1a"@,
    {
        ColorPrefs {
            source: "#9b2c1a".to_owned(),
            target: "#9b2c1a".to_owned(),
            match_hit: "#9b2c1a".to_owned(),
            glossary: "#9b2c1a".to_owned(),
            nbsp: "#9b2c1a".to_owned(),
        }
    }
}

pub struct MarkPrefs {
    pub whitespace: bool,
    pub nbsp: bool,
    pub bidi: bool,
    pub glossary: bool,
    pub translated: bool,
    pub untranslated: bool,
    pub noted: bool,
    pub non_unique: bool,
    pub auto_populated: bool,
    pub alternative: bool,
    pub paragraph_start: bool,
    pub display_source: bool,
    pub language_checker: bool,
    pub font_fallback: bool,
    pub modification: String,
}

impl Default for MarkPrefs {
    fn default() -> (r: Self)
        ensures
            !r.whitespace && !r.nbsp && !r.bidi && r.glossary && r.translated && r.untranslated
                && r.noted && !r.non_unique && r.auto_populated && r.alternative && !r.paragraph_start
                && r.display_source && !r.language_checker && !r.font_fallback,
            r.modification@ == "none"@,
    {
        MarkPrefs {
            whitespace: false,
            nbsp: false,
            bidi: false,
            glossary: true,
            translated: true,
            untranslated: true,
            noted: true,
            non_unique: false,
            auto_populated: true,
            alternative: true,
            paragraph_start: false,
            display_source: true,
            language_checker: false,
            font_fallback: false,
            modification: "none".to_owned(),
        }
    }
}

pub struct SearchWindowPrefs {
    pub search_type: String,
    pub case_sensitive: bool,
    pub whole_word: bool,
    pub source: bool,
    pub translation: bool,
    pub notes: bool,
    pub comments: bool,
    pub untranslated: bool,
    pub author: String,
    pub date_from: String,
    pub date_to: String,
}

impl Default for SearchWindowPrefs {
    fn default() -> (r: Self)
        ensures
            r.search_type@ == "exact"@,
            !r.case_sensitive && !r.whole_word && r.source && r.translation && !r.notes && !r.comments && !r.untranslated,
            r.author@.len() == 0 && r.date_from@.len() == 0 && r.date_to@.len() == 0,
    {
        SearchWindowPrefs {
            search_type: "exact".to_owned(),
            case_sensitive: false,
            whole_word: false,
            source: true,
            translation: true,
            notes: false,
            comments: false,
            untranslated: false,
            author: String::new(),
            date_from: String::new(),
            date_to: String::new(),
        }
    }
}

/// Key/value preferences as stored in `omegat.prefs`.
pub struct JavaPreferences {
    pub map: StringMap,
}

impl JavaPreferences {
    pub fn new() -> (r: Self)
        ensures
            r.map.wf(),
            r.map.view() == Map::<Seq<char>, Seq<char>>::empty(),
    {
        JavaPreferences { map: StringMap::new() }
    }

    /// Stores `value` under `key`; a missing or empty key or a missing value stores
    /// nothing. Returns the replaced value.
    pub fn set_preference(&mut self, key: Option<&str>, value: Option<&str>) -> (r: Option<String>)
        requires
            old(self).map.wf(),
        ensures
            final(self).map.wf(),
            match (key, value) {
                (Some(k), Some(v)) => k@.len() > 0 ==> {
                    &&& final(self).map.view() == old(self).map.view().insert(k@, v@)
                    &&& match r {
                        Some(p) => old(self).map.view().dom().contains(k@) && old(self).map.view()[k@] == p@,
                        None => !old(self).map.view().dom().contains(k@),
                    }
                },
                _ => true,
            },
            !(key matches Some(k) && k@.len() > 0 && value is Some) ==> (final(self).map.view() == old(self).map.view() && r is None),
    {
        match (key, value) {
            (Some(k), Some(v)) => {
                if k.is_empty() {
                    None
                } else {
                    self.map.insert(k, v)
                }
            },
            _ => None,
        }
    }

    /// Stored value of `key`, or `""`.
    pub fn get_preference(&self, key: Option<&str>) -> (r: String)
        requires
            self.map.wf(),
        ensures
            match key {
                Some(k) => if self.map.view().dom().contains(k@) { r@ == self.map.view()[k@] } else { r@.len() == 0 },
                None => r@.len() == 0,
            },
    {
        match key {
            Some(k) => match self.map.get(k) {
                Some(v) => v,
                None => String::new(),
            },
            None => String::new(),
        }
    }

    pub fn exists_preference(&self, key: &str) -> (r: bool)
        requires
            self.map.wf(),
        ensures
            r == self.map.view().dom().contains(key@),
    {
        self.map.contains_key(key)
    }

    /// Whether the stored value of `key` is exactly `true`.
    pub fn is_preference(&self, key: &str) -> (r: bool)
        requires
            self.map.wf(),
        ensures
            r == (self.map.view().dom().contains(key@) && self.map.view()[key@] == "true"@),
    {
        let v = self.get_preference(Some(key));
        let vc = chars_of(v.as_str());
        let t = chars_of("true");
        proof { reveal_strlit("true"); }
        chars_eq(&vc, &t)
    }
}

/// Law: a value that was set is read back unchanged.
pub proof fn law_get_after_set(m: Map<Seq<char>, Seq<char>>, k: Seq<char>, v: Seq<char>)
    ensures
        m.insert(k, v).dom().contains(k) && m.insert(k, v)[k] == v,
{
}


/// The element pattern a preferences file is read with: an open tag, text
/// without `<`, a close tag.
pub open spec fn pref_pattern() -> Seq<char> {
    "<([A-Za-z0-9_.-]+)>([^<]*)</([A-Za-z0-9_.-]+)>"@
}

/// The key and value a match gives: where the open and close tag names
/// are equal and the name is neither `omegat` nor `preference`.
pub open spec fn pref_pair(c: Seq<Option<Seq<char>>>) -> Option<(Seq<char>, Seq<char>)> {
    if c.len() > 3 && c[1] is Some && c[2] is Some && c[3] is Some && c[1]->0 == c[3]->0
        && c[1]->0 != "omegat"@ && c[1]->0 != "preference"@ {
        Some((c[1]->0, c[2]->0))
    } else {
        None
    }
}

/// The preferences the first `n` matches give, a later one replacing an
/// earlier one of the same key.
pub open spec fn prefs_from_captures(caps: Seq<Seq<Option<Seq<char>>>>, n: int) -> Map<Seq<char>, Seq<char>>
    decreases n,
{
    if n <= 0 || n > caps.len() {
        Map::empty()
    } else {
        let m = prefs_from_captures(caps, n - 1);
        match pref_pair(caps[n - 1]) {
            Some(p) => m.insert(p.0, p.1),
            None => m,
        }
    }
}

impl JavaPreferences {
    /// The preferences a preferences file's text holds (`None` only where
    /// the regex engine refuses the element pattern).
    pub fn prefs_of_xml(raw: &str) -> (r: Option<JavaPreferences>)
        ensures
            r is Some <==> regex_valid(pref_pattern()),
            r matches Some(p) ==> p.map.wf() && p.map.view()
                == prefs_from_captures(regex_captures(pref_pattern(), raw@), regex_captures(pref_pattern(), raw@).len() as int),
    {
        let pat = match compile("<([A-Za-z0-9_.-]+)>([^<]*)</([A-Za-z0-9_.-]+)>") {
            Some(p) => p,
            None => { return None; },
        };
        let caps = captures_all(&pat, raw);
        let ghost cv = regex_captures(pref_pattern(), raw@);
        let mut p = JavaPreferences::new();
        let mut i: usize = 0;
        while i < caps.len()
            invariant
                i <= caps@.len(),
                groups_view(caps@) == cv,
                p.map.wf(),
                p.map.view() == prefs_from_captures(cv, i as int),
            decreases caps@.len() - i,
        {
            let c = &caps[i];
            assert(cv[i as int] == groups_view(caps@)[i as int]);
            let ghost g = cv[i as int];
            assert(g.len() == c@.len());
            if c.len() > 3 {
                match (&c[1], &c[2], &c[3]) {
                    (Some(a), Some(v), Some(b)) => {
                        assert(g[1] == Some(a@) && g[2] == Some(v@) && g[3] == Some(b@));
                        if str_eq(a.as_str(), b.as_str()) && !str_eq(a.as_str(), "omegat")
                            && !str_eq(a.as_str(), "preference") {
                            p.map.insert(a.as_str(), v.as_str());
                        }
                    },
                    _ => {
                        assert(pref_pair(g) is None);
                    },
                }
            }
            i = i + 1;
        }
        Some(p)
    }
}

pub open spec fn pref_line(k: Seq<char>, v: Seq<char>) -> Seq<char> {
    seq!['<'] + k + seq!['>'] + v + seq!['<', '/'] + k + seq!['>', '\n']
}

/// The element lines of the first `n` pairs, in order.
pub open spec fn pref_lines(ps: Seq<(Seq<char>, Seq<char>)>, n: int) -> Seq<char>
    decreases n,
{
    if n <= 0 || n > ps.len() { Seq::empty() } else { pref_lines(ps, n - 1) + pref_line(ps[n - 1].0, ps[n - 1].1) }
}

pub open spec fn prefs_header() -> Seq<char> {
    "<?xml version=\"1.0\" encoding=\"UTF-8\" ?>\n<omegat>\n<preference version=\"1.0\">\n"@
}

pub open spec fn prefs_footer() -> Seq<char> {
    "</preference>\n</omegat>\n"@
}

/// The text a preferences file is written with: the header, one element
/// line per stored pair (in the store's order), the footer.
pub fn prefs_xml_text(p: &JavaPreferences) -> (r: String)
    ensures
        r@ == prefs_header() + pref_lines(p.map.pairs(), p.map.pairs().len() as int) + prefs_footer(),
{
    let es = p.map.entries();
    let ghost ps = p.map.pairs();
    let mut out = chars_of("<?xml version=\"1.0\" encoding=\"UTF-8\" ?>\n<omegat>\n<preference version=\"1.0\">\n");
    let mut i: usize = 0;
    while i < es.len()
        invariant
            i <= es@.len(),
            pairs_view(es@) == ps,
            out@ == prefs_header() + pref_lines(ps, i as int),
        decreases es@.len() - i,
    {
        let k = chars_of(es[i].0.as_str());
        let v = chars_of(es[i].1.as_str());
        assert(ps[i as int] == (k@, v@));
        let ghost before = out@;
        out.push('<');
        extend_chars(&mut out, &k);
        out.push('>');
        extend_chars(&mut out, &v);
        out.push('<');
        out.push('/');
        extend_chars(&mut out, &k);
        out.push('>');
        out.push('\n');
        assert(out@ =~= before + pref_line(k@, v@));
        i = i + 1;
    }
    let f = chars_of("</preference>\n</omegat>\n");
    extend_chars(&mut out, &f);
    string_of(&out)
}

} // verus!
