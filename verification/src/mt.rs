//! Machine-translation connectors: the engine list, request headers and a
//! result cache.
use vstd::prelude::*;
use vstd::utf8::encode_utf8;
use crate::text::{str_eq, concat_str, string_of};

pub mod google;
pub mod ibmwatson;
pub mod mymemory;
pub mod mymemory_human;
pub mod apertium;
pub mod yandex;
pub mod belazar;
pub mod request;
pub mod response;

verus! {

pub struct MtEngine {
    pub id: String,
    pub name: String,
    pub endpoint: String,
    pub glossary_supplier: Option<String>,
}

pub open spec fn headers_view(h: Seq<(String, String)>) -> Seq<(Seq<char>, Seq<char>)> {
    Seq::new(h.len(), |i: int| (h[i].0@, h[i].1@))
}

/// The connectors as (id, display name, endpoint), in menu order.
pub open spec fn engine_table() -> Seq<(Seq<char>, Seq<char>, Seq<char>)> {
    seq![
        ("google"@, "Google Translate"@, "https://translation.googleapis.com/language/translate/v2"@),
        ("ibmwatson"@, "IBM Watson"@, "https://api.us-south.language-translator.watson.cloud.ibm.com/v3/translate"@),
        ("mymemory"@, "MyMemory Machine"@, "https://api.mymemory.translated.net/get"@),
        ("mymemory-human"@, "MyMemory Human"@, "https://api.mymemory.translated.net/get"@),
        ("apertium"@, "Apertium"@, "https://www.apertium.org/apy/translate"@),
        ("yandex"@, "Yandex Cloud"@, "https://translate.api.cloud.yandex.net/translate/v2/translate"@),
        ("belazar"@, "Belazar"@, "http://www.belazar.by/translate"@),
    ]
}

pub open spec fn engines_view(v: Seq<MtEngine>) -> Seq<(Seq<char>, Seq<char>, Seq<char>)> {
    Seq::new(v.len(), |i: int| (v[i].id@, v[i].name@, v[i].endpoint@))
}

fn engine(id: &str, name: &str, endpoint: &str) -> (r: MtEngine)
    ensures
        r.id@ == id@ && r.name@ == name@ && r.endpoint@ == endpoint@ && r.glossary_supplier is None,
{
    MtEngine { id: id.to_string(), name: name.to_string(), endpoint: endpoint.to_string(), glossary_supplier: None }
}

/// The seven connectors, with no glossary supplier set.
pub fn engines() -> (r: Vec<MtEngine>)
    ensures
        engines_view(r@) == engine_table(),
        forall|i: int| 0 <= i < r@.len() ==> (#[trigger] r@[i]).glossary_supplier is None,
{
    let v = vec![
        engine("google", "Google Translate", "https://translation.googleapis.com/language/translate/v2"),
        engine("ibmwatson", "IBM Watson", "https://api.us-south.language-translator.watson.cloud.ibm.com/v3/translate"),
        engine("mymemory", "MyMemory Machine", "https://api.mymemory.translated.net/get"),
        engine("mymemory-human", "MyMemory Human", "https://api.mymemory.translated.net/get"),
        engine("apertium", "Apertium", "https://www.apertium.org/apy/translate"),
        engine("yandex", "Yandex Cloud", "https://translate.api.cloud.yandex.net/translate/v2/translate"),
        engine("belazar", "Belazar", "http://www.belazar.by/translate"),
    ];
    assert(engines_view(v@) =~= engine_table());
    v
}

/// Gives every connector the same glossary supplier (or none).
pub fn set_glossary_map(translators: &mut Vec<MtEngine>, supplier: Option<&str>)
    ensures
        final(translators)@.len() == old(translators)@.len(),
        engines_view(final(translators)@) == engines_view(old(translators)@),
        forall|i: int| 0 <= i < final(translators)@.len() ==> match (#[trigger] final(translators)@[i]).glossary_supplier {
            Some(s) => supplier matches Some(x) && s@ == x@,
            None => supplier is None,
        },
{
    let mut i: usize = 0;
    while i < translators.len()
        invariant
            i <= translators@.len(),
            translators@.len() == old(translators)@.len(),
            engines_view(translators@) == engines_view(old(translators)@),
            forall|k: int| 0 <= k < i ==> match (#[trigger] translators@[k]).glossary_supplier {
                Some(s) => supplier matches Some(x) && s@ == x@,
                None => supplier is None,
            },
        decreases translators@.len() - i,
    {
        let ghost before = translators@;
        let mut t = translators.remove(i);
        t.glossary_supplier = match supplier {
            Some(s) => Some(s.to_string()),
            None => None,
        };
        translators.insert(i, t);
        proof {
            assert forall|k: int| 0 <= k < translators@.len() && k != i implies translators@[k] == before[k] by {}
            assert(engines_view(translators@) =~= engines_view(before));
        }
        i = i + 1;
    }
}

/// The base64 alphabet.
pub open spec fn b64_char(i: int) -> char {
    if i < 26 {
        ('A' as int + i) as char
    } else if i < 52 {
        ('a' as int + i - 26) as char
    } else if i < 62 {
        ('0' as int + i - 52) as char
    } else if i == 62 {
        '+'
    } else {
        '/'
    }
}

/// The four characters for up to three bytes (padded with `=`).
pub open spec fn b64_quad(b: Seq<u8>) -> Seq<char> {
    let x = b[0] as int * 65536 + (if b.len() > 1 { b[1] as int * 256 } else { 0 }) + (if b.len() > 2 { b[2] as int } else { 0 });
    seq![
        b64_char(x / 262144),
        b64_char((x / 4096) % 64),
        if b.len() > 1 { b64_char((x / 64) % 64) } else { '=' },
        if b.len() > 2 { b64_char(x % 64) } else { '=' },
    ]
}

/// Standard base64 with padding.
pub open spec fn base64_of(b: Seq<u8>) -> Seq<char>
    decreases b.len(),
{
    if b.len() == 0 {
        Seq::empty()
    } else if b.len() <= 3 {
        b64_quad(b)
    } else {
        b64_quad(b.subrange(0, 3)) + base64_of(b.subrange(3, b.len() as int))
    }
}

fn b64_char_exec(i: u32) -> (c: char)
    requires
        i < 64,
    ensures
        c == b64_char(i as int),
{
    let b: u8 = if i < 26 {
        65 + i as u8
    } else if i < 52 {
        97 + (i - 26) as u8
    } else if i < 62 {
        48 + (i - 52) as u8
    } else if i == 62 {
        43
    } else {
        47
    };
    b as char
}

/// The text's UTF-8 bytes in standard base64 (with `=` padding).
pub fn base64_basic(s: &str) -> (r: String)
    ensures
        r@ == base64_of(encode_utf8(s@)),
{
    let b = s.as_bytes();
    let ghost bv = b@;
    let mut out: Vec<char> = Vec::new();
    let mut i: usize = 0;
    assert(bv.subrange(0, bv.len() as int) =~= bv);
    assert(out@ + base64_of(bv) =~= base64_of(bv));
    while i < b.len()
        invariant
            i <= b@.len(),
            bv == b@,
            base64_of(bv) == out@ + base64_of(bv.subrange(i as int, bv.len() as int)),
        decreases b@.len() - i,
    {
        let left = b.len() - i;
        let n: usize = if left == 1 { 1 } else if left == 2 { 2 } else { 3 };
        let x: u32 = (b[i] as u32) * 65536 + (if n > 1 { (b[i + 1] as u32) * 256 } else { 0 })
            + (if n > 2 { b[i + 2] as u32 } else { 0 });
        out.push(b64_char_exec(x / 262144));
        out.push(b64_char_exec((x / 4096) % 64));
        out.push(if n > 1 { b64_char_exec((x / 64) % 64) } else { '=' });
        out.push(if n > 2 { b64_char_exec(x % 64) } else { '=' });
        proof {
            let rest = bv.subrange(i as int, bv.len() as int);
            if rest.len() <= 3 {
                assert(rest.subrange(0, n as int) =~= rest);
                assert(bv.subrange(i + n, bv.len() as int) =~= Seq::<u8>::empty());
            } else {
                assert(rest.subrange(3, rest.len() as int) =~= bv.subrange(i + 3, bv.len() as int));
            }
            let q = rest.subrange(0, n as int);
            assert(q[0] == bv[i as int]);
            if n > 1 { assert(q[1] == bv[i + 1]); }
            if n > 2 { assert(q[2] == bv[i + 2]); }
        }
        i = i + n;
    }
    assert(base64_of(bv.subrange(i as int, bv.len() as int)) =~= Seq::<char>::empty());
    assert(out@ + Seq::<char>::empty() =~= out@);
    string_of(&out)
}


/// Engine credentials.
pub struct MtCreds {
    pub google_key: Option<String>,
    pub ibm_login: Option<String>,
    pub ibm_password: Option<String>,
    pub yandex_iam: Option<String>,
    pub mymemory_key: Option<String>,
}

impl Default for MtCreds {
    fn default() -> (r: Self)
        ensures
            r.google_key is None && r.ibm_login is None && r.ibm_password is None && r.yandex_iam is None
                && r.mymemory_key is None,
    {
        MtCreds { google_key: None, ibm_login: None, ibm_password: None, yandex_iam: None, mymemory_key: None }
    }
}

pub open spec fn opt_text(o: Option<String>) -> Option<Seq<char>> {
    match o {
        Some(s) => Some(s@),
        None => None,
    }
}

pub open spec fn or_empty(o: Option<Seq<char>>) -> Seq<char> {
    match o {
        Some(s) => s,
        None => Seq::empty(),
    }
}

/// The request headers of an engine, or why it cannot be asked: a missing
/// key (outside recorded-fixture mode) or an unknown engine.
pub open spec fn engine_headers(engine: Seq<char>, c: MtCreds, fixture_dir_set: bool) -> Result<Seq<(Seq<char>, Seq<char>)>, Seq<char>> {
    if engine == "google"@ {
        if or_empty(opt_text(c.google_key)).len() == 0 && !fixture_dir_set {
            Err("google.api.key missing"@)
        } else {
            Ok(seq![("X-HTTP-Method-Override"@, "GET"@)])
        }
    } else if engine == "ibmwatson"@ {
        let login = match opt_text(c.ibm_login) { Some(l) => l, None => "apikey"@ };
        let pass = match opt_text(c.ibm_password) { Some(p) => p, None => or_empty(opt_text(c.ibm_login)) };
        if pass.len() == 0 && !fixture_dir_set {
            Err("IBM Watson API key missing"@)
        } else {
            Ok(seq![
                ("Authorization"@, "Basic "@ + base64_of(encode_utf8(login + ":"@ + pass))),
                ("X-Watson-Learning-Opt-Out"@, "true"@),
                ("Accept"@, "application/json"@),
            ])
        }
    } else if engine == "yandex"@ {
        let iam = or_empty(opt_text(c.yandex_iam));
        if iam.len() == 0 && !fixture_dir_set {
            Err("Yandex IAM token missing"@)
        } else {
            Ok(seq![("Authorization"@, "Bearer "@ + iam)])
        }
    } else if engine == "mymemory"@ || engine == "mymemory-human"@ || engine == "apertium"@ || engine == "belazar"@ {
        Ok(Seq::empty())
    } else {
        Err("unknown engine "@ + engine)
    }
}

fn opt_or(o: &Option<String>, d: &str) -> (r: String)
    ensures
        r@ == (match opt_text(*o) { Some(s) => s, None => d@ }),
{
    match o {
        Some(s) => s.clone(),
        None => d.to_string(),
    }
}

#[verifier::rlimit(60)]
/// The request headers for an engine; `fixture_dir_set` says whether
/// recorded fixtures stand in for the network (then no key is needed).
pub fn auth_headers(engine: &str, creds: &MtCreds, fixture_dir_set: bool) -> (r: Result<Vec<(String, String)>, String>)
    ensures
        match r {
            Ok(h) => engine_headers(engine@, *creds, fixture_dir_set) == Ok::<Seq<(Seq<char>, Seq<char>)>, Seq<char>>(headers_view(h@)),
            Err(e) => engine_headers(engine@, *creds, fixture_dir_set) == Err::<Seq<(Seq<char>, Seq<char>)>, Seq<char>>(e@),
        },
{
    proof { reveal_strlit(""); }
    if str_eq(engine, "google") {
        let key = opt_or(&creds.google_key, "");
        return google::auth_headers(!key.as_str().is_empty(), fixture_dir_set);
    }
    if str_eq(engine, "ibmwatson") {
        let login = opt_or(&creds.ibm_login, "apikey");
        let pass = match &creds.ibm_password {
            Some(p) => p.clone(),
            None => opt_or(&creds.ibm_login, ""),
        };
        return ibmwatson::auth_headers(login.as_str(), pass.as_str(), fixture_dir_set);
    }
    if str_eq(engine, "yandex") {
        let iam = opt_or(&creds.yandex_iam, "");
        return yandex::auth_headers(iam.as_str(), fixture_dir_set);
    }
    if str_eq(engine, "mymemory") || str_eq(engine, "mymemory-human") || str_eq(engine, "apertium") || str_eq(engine, "belazar") {
        let h: Vec<(String, String)> = Vec::new();
        assert(headers_view(h@) =~= Seq::<(Seq<char>, Seq<char>)>::empty());
        return Ok(h);
    }
    Err(concat_str("unknown engine ", engine))
}

/// Translations already fetched, by request key.
pub struct MtCache {
    entries: Vec<(String, String)>,
}

impl MtCache {
    pub closed spec fn wf(&self) -> bool {
        forall|i: int, j: int| 0 <= i < j < self.entries@.len() ==> self.entries@[i].0@ != self.entries@[j].0@
    }

    /// The cached translations by key.
    pub closed spec fn view(&self) -> Map<Seq<char>, Seq<char>> {
        Map::new(
            |k: Seq<char>| exists|i: int| 0 <= i < self.entries@.len() && #[trigger] self.entries@[i].0@ == k,
            |k: Seq<char>| self.entries@[choose|i: int| 0 <= i < self.entries@.len() && #[trigger] self.entries@[i].0@ == k].1@,
        )
    }

    pub fn new() -> (r: Self)
        ensures
            r.wf(),
            r@ == Map::<Seq<char>, Seq<char>>::empty(),
    {
        let r = MtCache { entries: Vec::new() };
        assert(r@ =~= Map::<Seq<char>, Seq<char>>::empty());
        r
    }

    fn index_of(&self, key: &str) -> (r: Option<usize>)
        ensures
            match r {
                Some(i) => i < self.entries@.len() && self.entries@[i as int].0@ == key@,
                None => forall|i: int| 0 <= i < self.entries@.len() ==> self.entries@[i].0@ != key@,
            },
    {
        let mut i: usize = 0;
        while i < self.entries.len()
            invariant
                i <= self.entries@.len(),
                forall|k: int| 0 <= k < i ==> self.entries@[k].0@ != key@,
            decreases self.entries@.len() - i,
        {
            if str_eq(self.entries[i].0.as_str(), key) {
                return Some(i);
            }
            i = i + 1;
        }
        None
    }

    /// The cached translation for a key.
    pub fn get(&self, key: &str) -> (r: Option<String>)
        requires
            self.wf(),
        ensures
            match r {
                Some(v) => self@.contains_key(key@) && self@[key@] == v@,
                None => !self@.contains_key(key@),
            },
    {
        match self.index_of(key) {
            Some(i) => {
                proof {
                    let j = choose|j: int| 0 <= j < self.entries@.len() && #[trigger] self.entries@[j].0@ == key@;
                    if j != i as int {
                        if j < i { assert(self.entries@[j].0@ != self.entries@[i as int].0@); }
                        else { assert(self.entries@[i as int].0@ != self.entries@[j].0@); }
                    }
                }
                Some(self.entries[i].1.clone())
            },
            None => None,
        }
    }

    /// Stores a translation under a key, replacing an earlier one.
    pub fn put(&mut self, key: String, value: String)
        requires
            old(self).wf(),
        ensures
            final(self).wf(),
            final(self)@ == old(self)@.insert(key@, value@),
    {
        let ghost kv = key@;
        let ghost vv = value@;
        match self.index_of(key.as_str()) {
            Some(i) => {
                let ghost before = self.entries@;
                self.entries.set(i, (key, value));
                proof {
                    assert forall|a: int, b: int| 0 <= a < b < self.entries@.len() implies self.entries@[a].0@ != self.entries@[b].0@ by {
                        if a != i && b != i {
                            assert(before[a].0@ != before[b].0@);
                        } else if a == i {
                            assert(before[a].0@ != before[b].0@);
                        } else {
                            assert(before[a].0@ != before[b].0@);
                        }
                    }
                    assert forall|k: Seq<char>| self.view().contains_key(k) <==> old(self).view().insert(kv, vv).contains_key(k) by {
                        if old(self).view().contains_key(k) {
                            let j = choose|j: int| 0 <= j < before.len() && #[trigger] before[j].0@ == k;
                            if j == i as int {
                                assert(self.entries@[j].0@ == kv);
                            } else {
                                assert(self.entries@[j].0@ == k);
                            }
                        }
                        if k == kv {
                            assert(self.entries@[i as int].0@ == k);
                        }
                        if self.view().contains_key(k) {
                            let j = choose|j: int| 0 <= j < self.entries@.len() && #[trigger] self.entries@[j].0@ == k;
                            if j != i as int {
                                assert(before[j].0@ == k);
                            }
                        }
                    }
                    assert forall|k: Seq<char>| #[trigger] self.view().contains_key(k) implies self.view()[k] == old(self).view().insert(kv, vv)[k] by {
                        let j = choose|j: int| 0 <= j < self.entries@.len() && #[trigger] self.entries@[j].0@ == k;
                        if k == kv {
                            if j != i as int {
                                if j < i { assert(self.entries@[j].0@ != self.entries@[i as int].0@); }
                                else { assert(self.entries@[i as int].0@ != self.entries@[j].0@); }
                            }
                        } else {
                            assert(before[j].0@ == k);
                            let j0 = choose|j0: int| 0 <= j0 < before.len() && #[trigger] before[j0].0@ == k;
                            if j0 != j {
                                if j0 < j { assert(before[j0].0@ != before[j].0@); }
                                else { assert(before[j].0@ != before[j0].0@); }
                            }
                        }
                    }
                    assert(self.view() =~= old(self).view().insert(kv, vv));
                }
            },
            None => {
                let ghost before = self.entries@;
                self.entries.push((key, value));
                proof {
                    let n = before.len();
                    assert(self.entries@[n as int].0@ == kv);
                    assert forall|a: int, b: int| 0 <= a < b < self.entries@.len() implies self.entries@[a].0@ != self.entries@[b].0@ by {
                        if b < n {
                            assert(before[a].0@ != before[b].0@);
                        } else {
                            assert(before[a].0@ != kv);
                        }
                    }
                    assert forall|k: Seq<char>| self.view().contains_key(k) <==> old(self).view().insert(kv, vv).contains_key(k) by {
                        if old(self).view().contains_key(k) {
                            let j = choose|j: int| 0 <= j < before.len() && #[trigger] before[j].0@ == k;
                            assert(self.entries@[j].0@ == k);
                        }
                        if k == kv {
                            assert(self.entries@[n as int].0@ == k);
                        }
                    }
                    assert forall|k: Seq<char>| #[trigger] self.view().contains_key(k) implies self.view()[k] == old(self).view().insert(kv, vv)[k] by {
                        let j = choose|j: int| 0 <= j < self.entries@.len() && #[trigger] self.entries@[j].0@ == k;
                        if k == kv {
                            if j != n as int {
                                assert(before[j].0@ != kv);
                            }
                        } else {
                            let j0 = choose|j0: int| 0 <= j0 < before.len() && #[trigger] before[j0].0@ == k;
                            assert(self.entries@[j0].0@ == k);
                            if j0 != j {
                                if j0 < j { assert(self.entries@[j0].0@ != self.entries@[j].0@); }
                                else { assert(self.entries@[j].0@ != self.entries@[j0].0@); }
                            }
                        }
                    }
                    assert(self.view() =~= old(self).view().insert(kv, vv));
                }
            },
        }
    }
}

/// A translation stored in the cache is what a later read of its key
/// gives, and other keys keep theirs.
pub proof fn law_cache_read_after_write(before: MtCache, after: MtCache, key: Seq<char>, value: Seq<char>, other: Seq<char>)
    requires
        after@ == before@.insert(key, value),
    ensures
        after@.contains_key(key) && after@[key] == value,
        other != key ==> (after@.contains_key(other) == before@.contains_key(other)),
        other != key && before@.contains_key(other) ==> after@[other] == before@[other],
{
}
} // verus!
