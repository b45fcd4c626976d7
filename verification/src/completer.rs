//! History completion: words already used in translations that complete
//! what is being typed.
use vstd::prelude::*;
use crate::regex_ops::{char_alphanumeric, is_alphanumeric};
use crate::text::{chars_of, string_of, starts_with, starts_with_exec, chars_eq, lowercase_of, to_lowercase, utf8_len,
    utf8_len_exec};

verus! {

/// A completion offered to the editor: its kind, text and a detail label.
pub struct CompleterItem {
    pub kind: String,
    pub text: String,
    pub detail: String,
}

/// Characters that end a word: anything but letters, digits and apostrophes.
pub open spec fn word_break(c: char) -> bool {
    !char_alphanumeric(c) && c != '\''
}

/// The pieces of the first `n` characters between word breaks: the finished
/// pieces and the one being read.
pub open spec fn pieces_upto(s: Seq<char>, n: int) -> (Seq<Seq<char>>, Seq<char>)
    decreases n,
{
    if n <= 0 || n > s.len() {
        (Seq::empty(), Seq::empty())
    } else {
        let (done, cur) = pieces_upto(s, n - 1);
        if word_break(s[n - 1]) { (done.push(cur), Seq::empty()) } else { (done, cur.push(s[n - 1])) }
    }
}

/// The text split at every word break (empty pieces included).
pub open spec fn word_pieces(s: Seq<char>) -> Seq<Seq<char>> {
    let (done, cur) = pieces_upto(s, s.len() as int);
    done.push(cur)
}

/// A word completes `prefix` (already lower-cased): longer than one byte,
/// starting with it ignoring case, and not just the prefix again.
pub open spec fn completes(w: Seq<char>, prefix: Seq<char>) -> bool {
    utf8_len(w) > 1 && starts_with(lowercase_of(w), prefix) && lowercase_of(w) != prefix
}

/// The completions after the first `n` words, each word once.
pub open spec fn add_words(acc: Seq<Seq<char>>, ws: Seq<Seq<char>>, prefix: Seq<char>, n: int) -> Seq<Seq<char>>
    decreases n,
{
    if n <= 0 || n > ws.len() {
        acc
    } else {
        let before = add_words(acc, ws, prefix, n - 1);
        if completes(ws[n - 1], prefix) && !before.contains(ws[n - 1]) { before.push(ws[n - 1]) } else { before }
    }
}

/// The completions of the first `n` translations, in the order first met.
pub open spec fn completions(ts: Seq<Seq<char>>, prefix: Seq<char>, n: int) -> Seq<Seq<char>>
    decreases n,
{
    if n <= 0 || n > ts.len() {
        Seq::empty()
    } else {
        let ws = word_pieces(ts[n - 1]);
        add_words(completions(ts, prefix, n - 1), ws, prefix, ws.len() as int)
    }
}

fn word_pieces_exec(s: &str) -> (r: Vec<Vec<char>>)
    ensures
        r@.len() == word_pieces(s@).len(),
        forall|k: int| 0 <= k < r@.len() ==> #[trigger] r@[k]@ == word_pieces(s@)[k],
{
    let v = chars_of(s);
    let mut done: Vec<Vec<char>> = Vec::new();
    let mut cur: Vec<char> = Vec::new();
    let mut i: usize = 0;
    while i < v.len()
        invariant
            i <= v@.len(),
            v@ == s@,
            done@.len() == pieces_upto(s@, i as int).0.len(),
            forall|k: int| 0 <= k < done@.len() ==> #[trigger] done@[k]@ == pieces_upto(s@, i as int).0[k],
            cur@ == pieces_upto(s@, i as int).1,
        decreases v@.len() - i,
    {
        let c = v[i];
        let ghost old_done = done@;
        if !is_alphanumeric(c) && c != '\'' {
            let piece = cur;
            done.push(piece);
            cur = Vec::new();
            assert forall|k: int| 0 <= k < done@.len() implies #[trigger] done@[k]@ == pieces_upto(s@, i + 1).0[k] by {
                if k < old_done.len() {
                    assert(done@[k] == old_done[k]);
                }
            }
        } else {
            cur.push(c);
        }
        i = i + 1;
    }
    let ghost old_done = done@;
    done.push(cur);
    assert forall|k: int| 0 <= k < done@.len() implies #[trigger] done@[k]@ == word_pieces(s@)[k] by {
        if k < old_done.len() {
            assert(done@[k] == old_done[k]);
        }
    }
    done
}

fn listed_text(out: &Vec<CompleterItem>, w: &Vec<char>) -> (r: bool)
    ensures
        r == Seq::new(out@.len(), |i: int| out@[i].text@).contains(w@),
{
    let ghost texts = Seq::new(out@.len(), |i: int| out@[i].text@);
    let mut i: usize = 0;
    while i < out.len()
        invariant
            i <= out@.len(),
            texts == Seq::new(out@.len(), |i: int| out@[i].text@),
            forall|k: int| 0 <= k < i ==> texts[k] != w@,
        decreases out@.len() - i,
    {
        let t = chars_of(out[i].text.as_str());
        if chars_eq(&t, w) {
            assert(texts[i as int] == w@);
            return true;
        }
        i = i + 1;
    }
    false
}

/// Words of earlier translations that complete `prefix` (ignoring case),
/// each once, in the order first met; none for an empty prefix.
pub fn history_complete(translations: &[&str], prefix: &str) -> (r: Vec<CompleterItem>)
    ensures
        prefix@.len() == 0 ==> r@.len() == 0,
        prefix@.len() > 0 ==> Seq::new(r@.len(), |i: int| r@[i].text@)
            == completions(Seq::new(translations@.len(), |i: int| translations@[i]@), lowercase_of(prefix@),
                translations@.len() as int),
        forall|i: int| 0 <= i < r@.len() ==> (#[trigger] r@[i]).kind@ == "history"@
            && r@[i].detail@ == "history-completer"@,
{
    let mut out: Vec<CompleterItem> = Vec::new();
    if prefix.unicode_len() == 0 {
        return out;
    }
    let p = chars_of(to_lowercase(prefix).as_str());
    let ghost ts = Seq::new(translations@.len(), |i: int| translations@[i]@);
    let mut t: usize = 0;
    while t < translations.len()
        invariant
            t <= translations@.len(),
            ts == Seq::new(translations@.len(), |i: int| translations@[i]@),
            p@ == lowercase_of(prefix@),
            Seq::new(out@.len(), |i: int| out@[i].text@) == completions(ts, p@, t as int),
            forall|i: int| 0 <= i < out@.len() ==> (#[trigger] out@[i]).kind@ == "history"@
                && out@[i].detail@ == "history-completer"@,
        decreases translations@.len() - t,
    {
        let ws = word_pieces_exec(translations[t]);
        let ghost wv = word_pieces(ts[t as int]);
        let ghost acc = completions(ts, p@, t as int);
        let mut k: usize = 0;
        while k < ws.len()
            invariant
                k <= ws@.len(),
                ws@.len() == wv.len(),
                forall|j: int| 0 <= j < ws@.len() ==> #[trigger] ws@[j]@ == wv[j],
                p@ == lowercase_of(prefix@),
                Seq::new(out@.len(), |i: int| out@[i].text@) == add_words(acc, wv, p@, k as int),
                forall|i: int| 0 <= i < out@.len() ==> (#[trigger] out@[i]).kind@ == "history"@
                    && out@[i].detail@ == "history-completer"@,
            decreases ws@.len() - k,
        {
            let w = &ws[k];
            assert(w@ == wv[k as int]);
            let ws_str = string_of(w);
            let lw = chars_of(to_lowercase(ws_str.as_str()).as_str());
            let n = utf8_len_exec(w);
            let fits = n > 1 && starts_with_exec(&lw, &p) && !chars_eq(&lw, &p);
            assert(fits == completes(wv[k as int], p@));
            if fits && !listed_text(&out, w) {
                let ghost before = Seq::new(out@.len(), |i: int| out@[i].text@);
                let item = CompleterItem {
                    kind: "history".to_string(),
                    text: ws_str,
                    detail: "history-completer".to_string(),
                };
                out.push(item);
                assert(Seq::new(out@.len(), |i: int| out@[i].text@) =~= before.push(wv[k as int]));
            }
            k = k + 1;
        }
        t = t + 1;
    }
    out
}

/// Offered words each complete the prefix and none is offered twice.
pub open spec fn good_offers(c: Seq<Seq<char>>, prefix: Seq<char>) -> bool {
    &&& forall|i: int| 0 <= i < c.len() ==> completes(#[trigger] c[i], prefix)
    &&& forall|i: int, j: int| 0 <= i < j < c.len() ==> #[trigger] c[i] != #[trigger] c[j]
}

proof fn lemma_add_words(acc: Seq<Seq<char>>, ws: Seq<Seq<char>>, prefix: Seq<char>, n: int)
    requires
        good_offers(acc, prefix),
        n <= ws.len(),
    ensures
        good_offers(add_words(acc, ws, prefix, n), prefix),
        forall|w: Seq<char>| acc.contains(w) ==> #[trigger] add_words(acc, ws, prefix, n).contains(w),
        forall|k: int| 0 <= k < n && completes(#[trigger] ws[k], prefix) ==> add_words(acc, ws, prefix, n).contains(ws[k]),
    decreases n,
{
    if n > 0 {
        lemma_add_words(acc, ws, prefix, n - 1);
        let before = add_words(acc, ws, prefix, n - 1);
        let w = ws[n - 1];
        if completes(w, prefix) && !before.contains(w) {
            let r = before.push(w);
            assert forall|i: int, j: int| 0 <= i < j < r.len() implies #[trigger] r[i] != #[trigger] r[j] by {
                if j == r.len() - 1 {
                    assert(r[i] == before[i]);
                    if r[i] == w {
                        assert(before.contains(w));
                    }
                } else {
                    assert(r[i] == before[i] && r[j] == before[j]);
                }
            }
            assert forall|i: int| 0 <= i < r.len() implies completes(#[trigger] r[i], prefix) by {
                if i < before.len() {
                    assert(r[i] == before[i]);
                }
            }
            assert forall|x: Seq<char>| before.contains(x) implies #[trigger] r.contains(x) by {
                let i = choose|i: int| 0 <= i < before.len() && before[i] == x;
                assert(r[i] == x);
            }
            assert(r[r.len() - 1] == w);
        }
    }
}

/// Law: the words offered as completions each complete the prefix
/// (ignoring case, and not the prefix itself), none is offered twice, and
/// every word of the given translations that completes the prefix is
/// offered.
pub proof fn law_completions_complete_prefix(ts: Seq<Seq<char>>, prefix: Seq<char>, n: int)
    requires
        0 <= n <= ts.len(),
    ensures
        good_offers(completions(ts, prefix, n), prefix),
        forall|t: int, k: int| 0 <= t < n && 0 <= k < word_pieces(ts[t]).len()
            && completes(#[trigger] word_pieces(ts[t])[k], prefix)
            ==> completions(ts, prefix, n).contains(word_pieces(ts[t])[k]),
    decreases n,
{
    if n > 0 {
        law_completions_complete_prefix(ts, prefix, n - 1);
        let ws = word_pieces(ts[n - 1]);
        let before = completions(ts, prefix, n - 1);
        lemma_add_words(before, ws, prefix, ws.len() as int);
    }
}

} // verus!
