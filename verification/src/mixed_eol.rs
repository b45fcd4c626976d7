//! Reading text line by line under its dominant line ending.
use vstd::prelude::*;
use crate::text::{chars_of, string_of, split_seq, split_seq_exec, vecs_view};

verus! {

/// Counts of `\r\n`, lone `\r` and lone `\n` line ends, left to right.
pub open spec fn eol_counts(s: Seq<char>) -> (nat, nat, nat)
    decreases s.len(),
{
    if s.len() == 0 {
        (0, 0, 0)
    } else if s.len() >= 2 && s[0] == '\r' && s[1] == '\n' {
        let c = eol_counts(s.subrange(2, s.len() as int));
        (c.0 + 1, c.1, c.2)
    } else {
        let c = eol_counts(s.drop_first());
        if s[0] == '\r' { (c.0, c.1 + 1, c.2) } else if s[0] == '\n' { (c.0, c.1, c.2 + 1) } else { c }
    }
}

/// The line end to split on and whether several kinds occur: the most
/// frequent kind (`\r\n` before `\r` before `\n` on ties); the platform's
/// where there is none, or where lone `\r` and `\n` are equally frequent.
pub open spec fn detect_eol(s: Seq<char>, platform_eol: Seq<char>) -> (Seq<char>, bool) {
    let (crlf, cr, lf) = eol_counts(s);
    let kinds = (if crlf > 0 { 1int } else { 0int }) + (if cr > 0 { 1int } else { 0int }) + (if lf > 0 { 1int } else { 0int });
    if crlf == 0 && cr == 0 && lf == 0 {
        (platform_eol, false)
    } else if crlf == 0 && cr == lf && cr > 0 {
        (platform_eol, true)
    } else if crlf >= cr && crlf >= lf {
        (seq!['\r', '\n'], kinds > 1)
    } else if cr >= lf {
        (seq!['\r'], kinds > 1)
    } else {
        (seq!['\n'], kinds > 1)
    }
}

/// A reader over the lines of a text split at its detected line end.
pub struct MixedEolReader {
    pub detected_eol: String,
    pub mixed: bool,
    lines: Vec<Vec<char>>,
    idx: usize,
}

impl MixedEolReader {
    /// The lines not read yet.
    pub closed spec fn remaining(&self) -> Seq<Seq<char>> {
        vecs_view(self.lines@).subrange(self.idx as int, self.lines@.len() as int)
    }

    pub closed spec fn eol(&self) -> Seq<char> {
        self.detected_eol@
    }

    pub closed spec fn is_mixed(&self) -> bool {
        self.mixed
    }

    pub closed spec fn wf(&self) -> bool {
        self.idx <= self.lines@.len()
    }

    fn counts(t: &Vec<char>) -> (r: (usize, usize, usize))
        ensures
            (r.0 as nat, r.1 as nat, r.2 as nat) == eol_counts(t@),
    {
        let mut a: usize = 0;
        let mut b: usize = 0;
        let mut c: usize = 0;
        let mut i: usize = 0;
        let n = t.len();
        assert(t@.subrange(0, n as int) =~= t@);
        while i < n
            invariant
                n == t@.len(),
                i <= n,
                a + b + c <= i,
                eol_counts(t@) == ((a + eol_counts(t@.subrange(i as int, n as int)).0) as nat,
                    (b + eol_counts(t@.subrange(i as int, n as int)).1) as nat,
                    (c + eol_counts(t@.subrange(i as int, n as int)).2) as nat),
            decreases n - i,
        {
            let ghost r = t@.subrange(i as int, n as int);
            if t[i] == '\r' && i + 1 < n && t[i + 1] == '\n' {
                assert(r[0] == t@[i as int] && r[1] == t@[i + 1]);
                assert(r.subrange(2, r.len() as int) =~= t@.subrange(i + 2, n as int));
                a = a + 1;
                i = i + 2;
            } else {
                assert(r[0] == t@[i as int]);
                if i + 1 < n { assert(r[1] == t@[i + 1]); }
                assert(r.drop_first() =~= t@.subrange(i + 1, n as int));
                if t[i] == '\r' {
                    b = b + 1;
                } else if t[i] == '\n' {
                    c = c + 1;
                }
                i = i + 1;
            }
        }
        assert(eol_counts(t@.subrange(n as int, n as int)) == (0nat, 0nat, 0nat));
        (a, b, c)
    }

    /// Splits a text at its dominant line end; `platform_eol` is the line
    /// end of the platform (`\r\n` on Windows, else `\n`).
    pub fn from_text(text: &str, platform_eol: &str) -> (r: Self)
        ensures
            r.wf(),
            (r.eol(), r.is_mixed()) == detect_eol(text@, platform_eol@),
            r.remaining() == split_seq(text@, detect_eol(text@, platform_eol@).0),
    {
        let t = chars_of(text);
        let (crlf, cr, lf) = Self::counts(&t);
        let kinds: usize = (if crlf > 0 { 1 } else { 0 }) + (if cr > 0 { 1 } else { 0 }) + (if lf > 0 { 1 } else { 0 });
        let (eol, mixed): (Vec<char>, bool) = if crlf == 0 && cr == 0 && lf == 0 {
            (chars_of(platform_eol), false)
        } else if crlf == 0 && cr == lf && cr > 0 {
            (chars_of(platform_eol), true)
        } else if crlf >= cr && crlf >= lf {
            (vec!['\r', '\n'], kinds > 1)
        } else if cr >= lf {
            (vec!['\r'], kinds > 1)
        } else {
            (vec!['\n'], kinds > 1)
        };
        assert(eol@ =~= detect_eol(text@, platform_eol@).0);
        let lines = split_seq_exec(&t, &eol);
        let r = MixedEolReader { detected_eol: string_of(&eol), mixed, lines, idx: 0 };
        assert(r.remaining() =~= split_seq(text@, detect_eol(text@, platform_eol@).0));
        r
    }

    /// The next line, or `None` after the last.
    pub fn read_line(&mut self) -> (r: Option<String>)
        requires
            old(self).wf(),
        ensures
            final(self).wf(),
            final(self).eol() == old(self).eol() && final(self).is_mixed() == old(self).is_mixed(),
            old(self).remaining().len() == 0 ==> r is None && final(self).remaining() == old(self).remaining(),
            old(self).remaining().len() > 0 ==> (r matches Some(l) && l@ == old(self).remaining()[0])
                && final(self).remaining() == old(self).remaining().drop_first(),
    {
        if self.idx >= self.lines.len() {
            return None;
        }
        let line = string_of(&self.lines[self.idx]);
        self.idx = self.idx + 1;
        assert(self.remaining() =~= old(self).remaining().drop_first());
        Some(line)
    }
}

/// The pieces joined again with the separator between them.
pub open spec fn joined_with(ps: Seq<Seq<char>>, sep: Seq<char>) -> Seq<char>
    decreases ps.len(),
{
    if ps.len() == 0 {
        Seq::empty()
    } else if ps.len() == 1 {
        ps[0]
    } else {
        ps[0] + sep + joined_with(ps.drop_first(), sep)
    }
}

/// Splitting at a line end and joining the lines with it again gives the
/// text back: reading lines loses nothing but the line ends themselves.
pub proof fn law_lines_rejoin(s: Seq<char>, sep: Seq<char>)
    ensures
        split_seq(s, sep).len() >= 1,
        joined_with(split_seq(s, sep), sep) == s,
    decreases s.len(),
{
    if sep.len() > 0 {
        crate::text::lemma_find_from_bounds(s, sep, 0);
        match crate::text::find(s, sep) {
            Some(i) => {
                if 0 <= i && i + sep.len() <= s.len() {
                    let rest = s.subrange(i + sep.len(), s.len() as int);
                    law_lines_rejoin(rest, sep);
                    let ps = split_seq(s, sep);
                    assert(ps[0] == s.subrange(0, i));
                    assert(ps.drop_first() =~= split_seq(rest, sep));
                    assert(s.subrange(i, i + sep.len()) == sep);
                    assert(s.subrange(0, i) + sep + rest =~= s);
                }
            },
            None => {},
        }
    }
}

proof fn lemma_counts_without_cr(s: Seq<char>)
    requires
        forall|i: int| 0 <= i < s.len() ==> s[i] != '\r',
    ensures
        eol_counts(s).0 == 0,
        eol_counts(s).1 == 0,
        (exists|i: int| 0 <= i < s.len() && s[i] == '\n') ==> eol_counts(s).2 > 0,
    decreases s.len(),
{
    if s.len() > 0 {
        let d = s.drop_first();
        assert forall|i: int| 0 <= i < d.len() implies d[i] != '\r' by {
            assert(d[i] == s[i + 1]);
        }
        lemma_counts_without_cr(d);
        if exists|i: int| 0 <= i < s.len() && s[i] == '\n' {
            let i = choose|i: int| 0 <= i < s.len() && s[i] == '\n';
            if i > 0 {
                assert(d[i - 1] == s[i]);
            }
        }
    }
}

/// A text whose lines all end in `\n` alone is read at `\n` and is not
/// mixed, whatever the platform.
pub proof fn law_lf_text_reads_at_lf(s: Seq<char>, platform_eol: Seq<char>)
    requires
        forall|i: int| 0 <= i < s.len() ==> s[i] != '\r',
        exists|i: int| 0 <= i < s.len() && s[i] == '\n',
    ensures
        detect_eol(s, platform_eol) == (seq!['\n'], false),
{
    lemma_counts_without_cr(s);
}

} // verus!
