//! Language tags: language code, country code and normalized tag.
use vstd::prelude::*;
use crate::text::{split_char, split_chars, lower_ascii_seq, upper_ascii_seq, utf8_len, utf8_len_exec, chars_of, chars_eq, lower_ascii_chars, upper_ascii_chars, slice_vec, extend_chars, string_of};

verus! {

/// Tag with `_` separators turned into `-`.
pub open spec fn dash_sep(s: Seq<char>) -> Seq<char> {
    s.map_values(|c: char| if c == '_' { '-' } else { c })
}

pub open spec fn tag_parts(raw: Seq<char>) -> Seq<Seq<char>> {
    split_char(dash_sep(raw), '-')
}

/// Lower-case language part of a raw tag (empty for an empty tag).
pub open spec fn language_of(raw: Seq<char>) -> Seq<char> {
    if raw.len() == 0 { Seq::empty() } else { lower_ascii_seq(tag_parts(raw)[0]) }
}

/// Upper-case country part: the second part unless it is a four-byte script,
/// else the third part.
pub open spec fn country_of(raw: Seq<char>) -> Seq<char> {
    let parts = tag_parts(raw);
    if raw.len() == 0 {
        Seq::empty()
    } else if parts.len() >= 2 && utf8_len(parts[1]) != 4 {
        upper_ascii_seq(parts[1])
    } else if parts.len() >= 3 {
        upper_ascii_seq(parts[2])
    } else {
        Seq::empty()
    }
}

/// Normalized tag: `lang`, `lang-COUNTRY` or `lang-Script-COUNTRY`.
pub open spec fn tag_of(raw: Seq<char>) -> Seq<char> {
    let parts = tag_parts(raw);
    let language = language_of(raw);
    let country = country_of(raw);
    if country.len() == 0 {
        language
    } else if parts.len() >= 3 && utf8_len(parts[1]) == 4 {
        language + seq!['-'] + parts[1] + seq!['-'] + country
    } else {
        language + seq!['-'] + country
    }
}

pub struct Language {
    language: String,
    country: String,
    tag: String,
}

impl Language {
    pub closed spec fn lang(&self) -> Seq<char> {
        self.language@
    }

    pub closed spec fn country(&self) -> Seq<char> {
        self.country@
    }

    pub closed spec fn tag(&self) -> Seq<char> {
        self.tag@
    }

    /// Parses a tag such as `en`, `pt_BR` or `sr-Latn-RS`; `None` and `""` give an empty language.
    pub fn new(raw: Option<&str>) -> (l: Self)
        ensures
            l.lang() == language_of(opt_chars(raw)),
            l.country() == country_of(opt_chars(raw)),
            l.tag() == tag_of(opt_chars(raw)),
    {
        let empty = Language { language: String::new(), country: String::new(), tag: String::new() };
        let s = match raw {
            None => { return empty; },
            Some(s) => s,
        };
        let v = chars_of(s);
        if v.len() == 0 {
            return empty;
        }
        let mut d: Vec<char> = Vec::new();
        let mut i: usize = 0;
        while i < v.len()
            invariant
                i <= v.len(),
                d@ == dash_sep(v@.subrange(0, i as int)),
            decreases v.len() - i,
        {
            d.push(if v[i] == '_' { '-' } else { v[i] });
            i = i + 1;
            assert(dash_sep(v@.subrange(0, i as int)) =~= dash_sep(v@.subrange(0, i - 1)).push(
                if v@[i - 1] == '_' { '-' } else { v@[i - 1] },
            ));
        }
        assert(v@.subrange(0, v.len() as int) =~= v@);
        let parts = split_chars(&d, '-');
        assert(d@ == dash_sep(s@));
        assert(forall|k: int| 0 <= k < parts@.len() ==> #[trigger] parts@[k]@ == tag_parts(s@)[k]);
        proof {
            reveal_with_fuel(split_char, 2);
        }
        assert(parts@.len() >= 1);
        let language = lower_ascii_chars(&parts[0]);
        let country: Vec<char> = if parts.len() >= 2 && utf8_len_exec(&parts[1]) != 4 {
            upper_ascii_chars(&parts[1])
        } else if parts.len() >= 3 {
            upper_ascii_chars(&parts[2])
        } else {
            Vec::new()
        };
        let tag: Vec<char> = if country.len() == 0 {
            slice_vec(&language, 0, language.len())
        } else if parts.len() >= 3 && utf8_len_exec(&parts[1]) == 4 {
            let mut t = slice_vec(&language, 0, language.len());
            t.push('-');
            extend_chars(&mut t, &parts[1]);
            t.push('-');
            extend_chars(&mut t, &country);
            t
        } else {
            let mut t = slice_vec(&language, 0, language.len());
            t.push('-');
            extend_chars(&mut t, &country);
            t
        };
        proof {
            assert(language@.subrange(0, language@.len() as int) =~= language@);
        }
        Language { language: string_of(&language), country: string_of(&country), tag: string_of(&tag) }
    }

    /// The normalized tag (`get_language`).
    pub fn get_language(&self) -> (r: String)
        ensures
            r@ == self.tag(),
    {
        self.tag.clone()
    }

    /// Locale code `lang` or `lang_COUNTRY`, with legacy `in`/`iw`/`ji` mapped to `id`/`he`/`yi`.
    pub fn get_locale_code(&self) -> (r: String)
        ensures
            r@ == locale_code(self.lang(), self.country()),
    {
        if self.language.as_str().is_empty() {
            return String::new();
        }
        let l = chars_of(self.language.as_str());
        let mut lang: Vec<char> = if chars_eq(&l, &['i', 'n']) {
            vec!['i', 'd']
        } else if chars_eq(&l, &['i', 'w']) {
            vec!['h', 'e']
        } else if chars_eq(&l, &['j', 'i']) {
            vec!['y', 'i']
        } else {
            l
        };
        if self.country.as_str().is_empty() {
            string_of(&lang)
        } else {
            lang.push('_');
            let c = chars_of(self.country.as_str());
            extend_chars(&mut lang, &c);
            string_of(&lang)
        }
    }

    pub fn get_language_code(&self) -> (r: &str)
        ensures
            r@ == self.lang(),
    {
        self.language.as_str()
    }

    pub fn get_country_code(&self) -> (r: &str)
        ensures
            r@ == self.country(),
    {
        self.country.as_str()
    }

    /// False exactly for Chinese, Japanese and Tibetan.
    pub fn is_space_delimited(&self) -> (r: bool)
        ensures
            r == !(upper_ascii_seq(self.lang()) == seq!['Z', 'H'] || upper_ascii_seq(self.lang())
                == seq!['J', 'A'] || upper_ascii_seq(self.lang()) == seq!['B', 'O']),
    {
        let l = chars_of(self.language.as_str());
        let u = upper_ascii_chars(&l);
        !(chars_eq(&u, &['Z', 'H']) || chars_eq(&u, &['J', 'A']) || chars_eq(&u, &['B', 'O']))
    }

    /// A single BCP-47-like code: 1–8 ASCII letters, then `-`-separated parts of
    /// 1–8 ASCII letters or digits; `+` is refused.
    pub fn verify_single_lang_code(code: &str) -> (r: bool)
        ensures
            r == single_lang_code(code@),
    {
        let v = chars_of(code);
        let parts = split_chars(&v, '-');
        let mut k: usize = 0;
        while k < parts.len()
            invariant
                k <= parts@.len(),
                v@ == code@,
                parts@.len() == split_char(v@, '-').len(),
                forall|j: int| 0 <= j < parts@.len() ==> #[trigger] parts@[j]@ == split_char(v@, '-')[j],
                forall|j: int| 0 <= j < k ==> lang_code_part(#[trigger] split_char(v@, '-')[j], j == 0),
            decreases parts.len() - k,
        {
            if !lang_code_part_exec(&parts[k], k == 0) {
                assert(!lang_code_part(split_char(code@, '-')[k as int], k == 0));
                return false;
            }
            k = k + 1;
        }
        true
    }

    /// Lower-case language part of `tag`.
    pub fn lower_case_language_from_tag(tag: &str) -> (r: String)
        ensures
            r@ == language_of(tag@),
    {
        Self::new(Some(tag)).language
    }

    /// Upper-case country part of `tag`.
    pub fn upper_case_country_from_tag(tag: &str) -> (r: String)
        ensures
            r@ == country_of(tag@),
    {
        Self::new(Some(tag)).country
    }
}

pub open spec fn opt_chars(raw: Option<&str>) -> Seq<char> {
    match raw {
        Some(s) => s@,
        None => Seq::empty(),
    }
}

pub open spec fn locale_code(lang: Seq<char>, country: Seq<char>) -> Seq<char> {
    let l = if lang == seq!['i', 'n'] {
        seq!['i', 'd']
    } else if lang == seq!['i', 'w'] {
        seq!['h', 'e']
    } else if lang == seq!['j', 'i'] {
        seq!['y', 'i']
    } else {
        lang
    };
    if lang.len() == 0 {
        Seq::empty()
    } else if country.len() == 0 {
        l
    } else {
        l + seq!['_'] + country
    }
}

pub open spec fn is_ascii_letter(c: char) -> bool {
    ('a' <= c && c <= 'z') || ('A' <= c && c <= 'Z')
}

pub open spec fn is_ascii_alnum(c: char) -> bool {
    is_ascii_letter(c) || ('0' <= c && c <= '9')
}

/// One `-`-separated part of a language code (the first part letters only).
pub open spec fn lang_code_part(p: Seq<char>, first: bool) -> bool {
    1 <= p.len() <= 8 && forall|i: int| 0 <= i < p.len() ==> (if first { is_ascii_letter(
        #[trigger] p[i],
    ) } else { is_ascii_alnum(p[i]) })
}

pub open spec fn single_lang_code(code: Seq<char>) -> bool {
    forall|j: int| 0 <= j < split_char(code, '-').len() ==> lang_code_part(
        #[trigger] split_char(code, '-')[j],
        j == 0,
    )
}

fn lang_code_part_exec(p: &[char], first: bool) -> (r: bool)
    ensures
        r == lang_code_part(p@, first),
{
    if p.len() < 1 || p.len() > 8 {
        return false;
    }
    let mut i: usize = 0;
    while i < p.len()
        invariant
            i <= p.len(),
            forall|k: int| 0 <= k < i ==> (if first { is_ascii_letter(#[trigger] p@[k]) } else {
                is_ascii_alnum(p@[k])
            }),
        decreases p.len() - i,
    {
        let c = p[i];
        let letter = ('a' <= c && c <= 'z') || ('A' <= c && c <= 'Z');
        let ok = if first { letter } else { letter || ('0' <= c && c <= '9') };
        if !ok {
            return false;
        }
        i = i + 1;
    }
    true
}

} // verus!
