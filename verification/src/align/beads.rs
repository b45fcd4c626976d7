//! Manual alignment state: beads of source and target lines, and the edits
//! of the manual aligner (merges, moves, splits, review status, enabling).
use vstd::prelude::*;
use crate::align::{AlignSide, BeadStatus};
use crate::language::{Language, language_of};
use crate::text::{upper_ascii_seq, chars_of, string_of, extend_chars};

verus! {

/// The bit pattern of `f32::MAX`, the score of a bead nobody scored.
pub const UNSCORED_BITS: u32 = 0x7F7F_FFFFu32;

pub type LinesView = Seq<Option<Seq<char>>>;

pub open spec fn lines_view(v: Seq<Option<String>>) -> LinesView {
    Seq::new(v.len(), |i: int| match v[i] { Some(s) => Some(s@), None => None })
}

/// A bead of the manual aligner: source and target lines kept apart (a
/// `None` line is a placeholder cell), whether it goes to the output, and
/// its review status. The alignment score is held as the bit pattern of an
/// `f32`.
pub struct MutableBead {
    pub score_bits: u32,
    pub source_lines: Vec<Option<String>>,
    pub target_lines: Vec<Option<String>>,
    pub enabled: bool,
    pub status: BeadStatus,
}

pub type BeadView = (u32, LinesView, LinesView, bool, BeadStatus);

pub open spec fn bead_view(b: MutableBead) -> BeadView {
    (b.score_bits, lines_view(b.source_lines@), lines_view(b.target_lines@), b.enabled, b.status)
}

pub open spec fn beads_view(v: Seq<MutableBead>) -> Seq<BeadView> {
    Seq::new(v.len(), |i: int| bead_view(v[i]))
}

pub open spec fn empty_bead(b: BeadView) -> bool {
    b.1.len() == 0 && b.2.len() == 0
}

/// The beads of the first `n` that are not empty, in order.
pub open spec fn non_empty(v: Seq<BeadView>, n: int) -> Seq<BeadView>
    decreases n,
{
    if n <= 0 || n > v.len() {
        Seq::empty()
    } else if empty_bead(v[n - 1]) {
        non_empty(v, n - 1)
    } else {
        non_empty(v, n - 1).push(v[n - 1])
    }
}

fn copy_lines(v: &Vec<Option<String>>) -> (r: Vec<Option<String>>)
    ensures
        lines_view(r@) == lines_view(v@),
{
    let mut r: Vec<Option<String>> = Vec::new();
    let mut i: usize = 0;
    while i < v.len()
        invariant
            i <= v@.len(),
            lines_view(r@) == lines_view(v@).subrange(0, i as int),
        decreases v@.len() - i,
    {
        let c = match &v[i] {
            Some(s) => Some(s.clone()),
            None => None,
        };
        let ghost before = lines_view(r@);
        r.push(c);
        assert(lines_view(r@) =~= before.push(lines_view(v@)[i as int]));
        assert(lines_view(v@).subrange(0, i + 1) =~= lines_view(v@).subrange(0, i as int).push(lines_view(v@)[i as int]));
        i = i + 1;
    }
    assert(lines_view(v@).subrange(0, i as int) =~= lines_view(v@));
    r
}

fn copy_bead(b: &MutableBead) -> (r: MutableBead)
    ensures
        bead_view(r) == bead_view(*b),
{
    MutableBead {
        score_bits: b.score_bits,
        source_lines: copy_lines(&b.source_lines),
        target_lines: copy_lines(&b.target_lines),
        enabled: b.enabled,
        status: b.status,
    }
}

fn copy_beads(v: &[MutableBead]) -> (r: Vec<MutableBead>)
    ensures
        beads_view(r@) == beads_view(v@),
{
    let mut r: Vec<MutableBead> = Vec::new();
    let mut i: usize = 0;
    while i < v.len()
        invariant
            i <= v@.len(),
            beads_view(r@) == beads_view(v@).subrange(0, i as int),
        decreases v@.len() - i,
    {
        let c = copy_bead(&v[i]);
        let ghost before = beads_view(r@);
        r.push(c);
        assert(beads_view(r@) =~= before.push(beads_view(v@)[i as int]));
        assert(beads_view(v@).subrange(0, i + 1) =~= beads_view(v@).subrange(0, i as int).push(beads_view(v@)[i as int]));
        i = i + 1;
    }
    assert(beads_view(v@).subrange(0, i as int) =~= beads_view(v@));
    r
}

fn lines_eq(a: &Vec<Option<String>>, b: &Vec<Option<String>>) -> (r: bool)
    ensures
        r == (lines_view(a@) == lines_view(b@)),
{
    if a.len() != b.len() {
        assert(lines_view(a@).len() != lines_view(b@).len());
        return false;
    }
    let mut i: usize = 0;
    while i < a.len()
        invariant
            i <= a@.len(),
            a@.len() == b@.len(),
            forall|k: int| 0 <= k < i ==> lines_view(a@)[k] == lines_view(b@)[k],
        decreases a@.len() - i,
    {
        let same = match (&a[i], &b[i]) {
            (Some(x), Some(y)) => crate::text::str_eq(x.as_str(), y.as_str()),
            (None, None) => true,
            _ => false,
        };
        if !same {
            assert(lines_view(a@)[i as int] != lines_view(b@)[i as int]);
            return false;
        }
        i = i + 1;
    }
    assert(lines_view(a@) =~= lines_view(b@));
    true
}

/// Whether texts of this language are written with spaces between words.
pub open spec fn spaced(language: Seq<char>) -> bool {
    let l = upper_ascii_seq(language_of(language));
    !(l == seq!['Z', 'H'] || l == seq!['J', 'A'] || l == seq!['B', 'O'])
}

pub open spec fn cell_text(c: Option<Seq<char>>) -> Seq<char> {
    match c {
        Some(s) => s,
        None => seq!['n', 'u', 'l', 'l'],
    }
}

/// The lines joined with the delimiter, a placeholder reading `null`.
pub open spec fn joined_lines(ls: LinesView, delimiter: Seq<char>) -> Seq<char>
    decreases ls.len(),
{
    if ls.len() == 0 {
        Seq::empty()
    } else if ls.len() == 1 {
        cell_text(ls[0])
    } else {
        joined_lines(ls.drop_last(), delimiter) + delimiter + cell_text(ls.last())
    }
}

pub open spec fn bead_text(ls: LinesView, language: Seq<char>) -> Seq<char> {
    joined_lines(ls, if spaced(language) { seq![' '] } else { Seq::empty() })
}

fn join_bead_lines(language: &str, lines: &Vec<Option<String>>) -> (r: String)
    ensures
        r@ == bead_text(lines_view(lines@), language@),
{
    let sp = Language::new(Some(language)).is_space_delimited();
    let mut out: Vec<char> = Vec::new();
    let ghost d: Seq<char> = if spaced(language@) { seq![' '] } else { Seq::empty() };
    let ghost lv = lines_view(lines@);
    let mut i: usize = 0;
    while i < lines.len()
        invariant
            i <= lines@.len(),
            lv == lines_view(lines@),
            sp == spaced(language@),
            d == (if spaced(language@) { seq![' '] } else { Seq::<char>::empty() }),
            out@ == joined_lines(lv.subrange(0, i as int), d),
        decreases lines@.len() - i,
    {
        let ghost prev = lv.subrange(0, i as int);
        assert(lv.subrange(0, i + 1).drop_last() =~= prev);
        if i > 0 && sp {
            out.push(' ');
        }
        let cell: Vec<char> = match &lines[i] {
            Some(s) => chars_of(s.as_str()),
            None => {
                let n = chars_of("null");
                proof {
                    reveal_strlit("null");
                }
                assert(n@ =~= seq!['n', 'u', 'l', 'l']);
                n
            },
        };
        assert(cell@ == cell_text(lv[i as int]));
        extend_chars(&mut out, &cell);
        proof {
            if i == 0 {
                assert(lv.subrange(0, 1) =~= seq![lv[0]]);
                assert(out@ =~= cell_text(lv[0]));
            } else {
                assert(out@ =~= joined_lines(prev, d) + d + cell_text(lv[i as int]));
            }
        }
        i = i + 1;
    }
    assert(lv.subrange(0, i as int) =~= lv);
    string_of(&out)
}

impl MutableBead {
    /// A bead of these lines; one whose sides are equal needs no
    /// translation: accepted and left out of the output.
    pub fn from_lines(score_bits: u32, source_lines: Vec<Option<String>>, target_lines: Vec<Option<String>>)
        -> (r: Self)
        ensures
            r.score_bits == score_bits,
            lines_view(r.source_lines@) == lines_view(source_lines@),
            lines_view(r.target_lines@) == lines_view(target_lines@),
            r.enabled == (lines_view(source_lines@) != lines_view(target_lines@)),
            r.status == (if lines_view(source_lines@) == lines_view(target_lines@) { BeadStatus::Accepted }
                else { BeadStatus::Default }),
    {
        let equal = lines_eq(&source_lines, &target_lines);
        MutableBead {
            score_bits,
            source_lines,
            target_lines,
            enabled: !equal,
            status: if equal { BeadStatus::Accepted } else { BeadStatus::Default },
        }
    }

    /// An unscored bead of one source and one target line.
    pub fn new(source: &str, target: &str) -> (r: Self)
        ensures
            r.score_bits == UNSCORED_BITS,
            lines_view(r.source_lines@) == seq![Some(source@)],
            lines_view(r.target_lines@) == seq![Some(target@)],
            r.enabled == (source@ != target@),
            r.status == (if source@ == target@ { BeadStatus::Accepted } else { BeadStatus::Default }),
    {
        let s = vec![Some(source.to_string())];
        let t = vec![Some(target.to_string())];
        assert(lines_view(s@) =~= seq![Some(source@)]);
        assert(lines_view(t@) =~= seq![Some(target@)]);
        assert((lines_view(s@) == lines_view(t@)) == (source@ == target@)) by {
            if lines_view(s@) == lines_view(t@) {
                assert(lines_view(s@)[0] == lines_view(t@)[0]);
            }
        }
        Self::from_lines(UNSCORED_BITS, s, t)
    }

    /// An unscored, enabled bead with no lines.
    pub fn empty() -> (r: Self)
        ensures
            r.score_bits == UNSCORED_BITS,
            r.source_lines@.len() == 0 && r.target_lines@.len() == 0,
            r.enabled && r.status == BeadStatus::Default,
    {
        MutableBead {
            score_bits: UNSCORED_BITS,
            source_lines: Vec::new(),
            target_lines: Vec::new(),
            enabled: true,
            status: BeadStatus::Default,
        }
    }

    pub fn is_balanced(&self) -> (r: bool)
        ensures
            r == (self.source_lines@.len() == self.target_lines@.len()),
    {
        self.source_lines.len() == self.target_lines.len()
    }

    pub fn is_empty(&self) -> (r: bool)
        ensures
            r == empty_bead(bead_view(*self)),
    {
        self.source_lines.len() == 0 && self.target_lines.len() == 0
    }

    /// The source lines joined for `language`: with spaces where its words
    /// are space-delimited.
    pub fn source_text(&self, language: &str) -> (r: String)
        ensures
            r@ == bead_text(lines_view(self.source_lines@), language@),
    {
        join_bead_lines(language, &self.source_lines)
    }

    pub fn target_text(&self, language: &str) -> (r: String)
        ensures
            r@ == bead_text(lines_view(self.target_lines@), language@),
    {
        join_bead_lines(language, &self.target_lines)
    }
}

/// The enabled beads of the first `n` as source and target texts.
pub open spec fn bead_pairs(v: Seq<BeadView>, sl: Seq<char>, tl: Seq<char>, n: int) -> Seq<(Seq<char>, Seq<char>)>
    decreases n,
{
    if n <= 0 || n > v.len() {
        Seq::empty()
    } else if v[n - 1].3 {
        bead_pairs(v, sl, tl, n - 1).push((bead_text(v[n - 1].1, sl), bead_text(v[n - 1].2, tl)))
    } else {
        bead_pairs(v, sl, tl, n - 1)
    }
}

pub open spec fn string_pairs(v: Seq<(String, String)>) -> Seq<(Seq<char>, Seq<char>)> {
    Seq::new(v.len(), |i: int| (v[i].0@, v[i].1@))
}

/// The enabled beads as (source, target) texts, for the output.
pub fn beads_to_pairs(beads: &[MutableBead], source_language: &str, target_language: &str)
    -> (r: Vec<(String, String)>)
    ensures
        string_pairs(r@) == bead_pairs(beads_view(beads@), source_language@, target_language@, beads@.len() as int),
{
    let ghost bv = beads_view(beads@);
    let mut r: Vec<(String, String)> = Vec::new();
    let mut i: usize = 0;
    while i < beads.len()
        invariant
            i <= beads@.len(),
            bv == beads_view(beads@),
            string_pairs(r@) == bead_pairs(bv, source_language@, target_language@, i as int),
        decreases beads@.len() - i,
    {
        assert(bv[i as int] == bead_view(beads@[i as int]));
        if beads[i].enabled {
            let s = beads[i].source_text(source_language);
            let t = beads[i].target_text(target_language);
            let ghost before = string_pairs(r@);
            r.push((s, t));
            assert(string_pairs(r@) =~= before.push((s@, t@)));
        }
        i = i + 1;
    }
    r
}


pub open spec fn with_lines(b: BeadView, src: LinesView, tgt: LinesView, status: BeadStatus) -> BeadView {
    (b.0, src, tgt, b.3, status)
}

/// The beads after merging bead `index` with the next one: both sides (the
/// next bead goes away), or one side's lines (the next bead keeps the
/// other); touched beads lose their status, and emptied beads are dropped.
pub open spec fn merged_beads(v: Seq<BeadView>, index: int, side: AlignSide) -> Seq<BeadView> {
    if index + 1 >= v.len() {
        v
    } else {
        let a = v[index];
        let b = v[index + 1];
        let d = BeadStatus::Default;
        let w = match side {
            AlignSide::Both => v.update(index, with_lines(a, a.1 + b.1, a.2 + b.2, d)).remove(index + 1),
            AlignSide::Source => v.update(index, with_lines(a, a.1 + b.1, a.2, d))
                .update(index + 1, with_lines(b, Seq::empty(), b.2, d)),
            AlignSide::Target => v.update(index, with_lines(a, a.1, a.2 + b.2, d))
                .update(index + 1, with_lines(b, b.1, Seq::empty(), d)),
        };
        non_empty(w, w.len() as int)
    }
}

fn concat_lines(a: &Vec<Option<String>>, b: &Vec<Option<String>>) -> (r: Vec<Option<String>>)
    ensures
        lines_view(r@) == lines_view(a@) + lines_view(b@),
{
    let mut r = copy_lines(a);
    let mut i: usize = 0;
    while i < b.len()
        invariant
            i <= b@.len(),
            lines_view(r@) == lines_view(a@) + lines_view(b@).subrange(0, i as int),
        decreases b@.len() - i,
    {
        let c = match &b[i] {
            Some(x) => Some(x.clone()),
            None => None,
        };
        let ghost before = lines_view(r@);
        r.push(c);
        assert(lines_view(r@) =~= before.push(lines_view(b@)[i as int]));
        assert(lines_view(a@) + lines_view(b@).subrange(0, i + 1)
            =~= (lines_view(a@) + lines_view(b@).subrange(0, i as int)).push(lines_view(b@)[i as int]));
        i = i + 1;
    }
    assert(lines_view(b@).subrange(0, i as int) =~= lines_view(b@));
    r
}

fn rebuilt(b: &MutableBead, src: Vec<Option<String>>, tgt: Vec<Option<String>>, status: BeadStatus) -> (r: MutableBead)
    ensures
        bead_view(r) == with_lines(bead_view(*b), lines_view(src@), lines_view(tgt@), status),
{
    MutableBead { score_bits: b.score_bits, source_lines: src, target_lines: tgt, enabled: b.enabled, status }
}

fn keep_non_empty(v: &Vec<MutableBead>) -> (r: Vec<MutableBead>)
    ensures
        beads_view(r@) == non_empty(beads_view(v@), v@.len() as int),
{
    let ghost bv = beads_view(v@);
    let mut r: Vec<MutableBead> = Vec::new();
    let mut i: usize = 0;
    assert(beads_view(r@) =~= Seq::<BeadView>::empty());
    while i < v.len()
        invariant
            i <= v@.len(),
            bv == beads_view(v@),
            beads_view(r@) == non_empty(bv, i as int),
        decreases v@.len() - i,
    {
        assert(bv[i as int] == bead_view(v@[i as int]));
        if !v[i].is_empty() {
            let c = copy_bead(&v[i]);
            let ghost before = beads_view(r@);
            r.push(c);
            assert(beads_view(r@) =~= before.push(bv[i as int]));
        }
        i = i + 1;
    }
    r
}

/// Merge bead `index` with the next one on the given side (both sides: the
/// next bead's lines join this one's).
pub fn merge_beads(beads: &[MutableBead], index: usize, side: AlignSide) -> (r: Vec<MutableBead>)
    ensures
        beads_view(r@) == merged_beads(beads_view(beads@), index as int, side),
{
    let mut out = copy_beads(beads);
    if index >= out.len() || out.len() - index < 2 {
        return out;
    }
    let ghost bv = beads_view(beads@);
    assert(bv[index as int] == bead_view(out@[index as int]));
    assert(bv[index + 1] == bead_view(out@[index + 1]));
    match side {
        AlignSide::Both => {
            let src = concat_lines(&out[index].source_lines, &out[index + 1].source_lines);
            let tgt = concat_lines(&out[index].target_lines, &out[index + 1].target_lines);
            let nb = rebuilt(&out[index], src, tgt, BeadStatus::Default);
            out.set(index, nb);
            let _ = out.remove(index + 1);
        },
        AlignSide::Source => {
            let src = concat_lines(&out[index].source_lines, &out[index + 1].source_lines);
            let tgt = copy_lines(&out[index].target_lines);
            let nb = rebuilt(&out[index], src, tgt, BeadStatus::Default);
            let tgt2 = copy_lines(&out[index + 1].target_lines);
            let none: Vec<Option<String>> = Vec::new();
            assert(lines_view(none@) =~= Seq::<Option<Seq<char>>>::empty());
            let nb2 = rebuilt(&out[index + 1], none, tgt2, BeadStatus::Default);
            out.set(index, nb);
            out.set(index + 1, nb2);
        },
        AlignSide::Target => {
            let src = copy_lines(&out[index].source_lines);
            let tgt = concat_lines(&out[index].target_lines, &out[index + 1].target_lines);
            let nb = rebuilt(&out[index], src, tgt, BeadStatus::Default);
            let src2 = copy_lines(&out[index + 1].source_lines);
            let none: Vec<Option<String>> = Vec::new();
            assert(lines_view(none@) =~= Seq::<Option<Seq<char>>>::empty());
            let nb2 = rebuilt(&out[index + 1], src2, none, BeadStatus::Default);
            out.set(index, nb);
            out.set(index + 1, nb2);
        },
    }
    let ghost w = match side {
        AlignSide::Both => bv.update(index as int, with_lines(bv[index as int], bv[index as int].1 + bv[index + 1].1,
            bv[index as int].2 + bv[index + 1].2, BeadStatus::Default)).remove(index + 1),
        AlignSide::Source => bv.update(index as int, with_lines(bv[index as int], bv[index as int].1 + bv[index + 1].1,
            bv[index as int].2, BeadStatus::Default)).update(index + 1, with_lines(bv[index + 1], Seq::empty(),
            bv[index + 1].2, BeadStatus::Default)),
        AlignSide::Target => bv.update(index as int, with_lines(bv[index as int], bv[index as int].1,
            bv[index as int].2 + bv[index + 1].2, BeadStatus::Default)).update(index + 1, with_lines(bv[index + 1],
            bv[index + 1].1, Seq::empty(), BeadStatus::Default)),
    };
    assert(beads_view(out@) =~= w);
    keep_non_empty(&out)
}

/// The beads after exchanging beads `from` and `to` (both sides), or only
/// their lines on one side (both losing their status).
pub open spec fn moved_side(v: Seq<BeadView>, from: int, to: int, side: AlignSide) -> Seq<BeadView> {
    if from >= v.len() || to >= v.len() || from == to {
        v
    } else {
        let a = v[from];
        let b = v[to];
        let d = BeadStatus::Default;
        match side {
            AlignSide::Both => v.update(from, b).update(to, a),
            AlignSide::Source => v.update(from, with_lines(a, b.1, a.2, d)).update(to, with_lines(b, a.1, b.2, d)),
            AlignSide::Target => v.update(from, with_lines(a, a.1, b.2, d)).update(to, with_lines(b, b.1, a.2, d)),
        }
    }
}

/// Exchange two beads, or their lines on one side.
pub fn move_bead_side(beads: &[MutableBead], from: usize, to: usize, side: AlignSide) -> (r: Vec<MutableBead>)
    ensures
        beads_view(r@) == moved_side(beads_view(beads@), from as int, to as int, side),
{
    let mut out = copy_beads(beads);
    if from >= out.len() || to >= out.len() || from == to {
        return out;
    }
    let ghost bv = beads_view(beads@);
    assert(bv[from as int] == bead_view(out@[from as int]));
    assert(bv[to as int] == bead_view(out@[to as int]));
    let (na, nb) = match side {
        AlignSide::Both => (copy_bead(&out[to]), copy_bead(&out[from])),
        AlignSide::Source => {
            let a = rebuilt(&out[from], copy_lines(&out[to].source_lines), copy_lines(&out[from].target_lines),
                BeadStatus::Default);
            let b = rebuilt(&out[to], copy_lines(&out[from].source_lines), copy_lines(&out[to].target_lines),
                BeadStatus::Default);
            (a, b)
        },
        AlignSide::Target => {
            let a = rebuilt(&out[from], copy_lines(&out[from].source_lines), copy_lines(&out[to].target_lines),
                BeadStatus::Default);
            let b = rebuilt(&out[to], copy_lines(&out[to].source_lines), copy_lines(&out[from].target_lines),
                BeadStatus::Default);
            (a, b)
        },
    };
    out.set(from, na);
    out.set(to, nb);
    assert(beads_view(out@) =~= moved_side(bv, from as int, to as int, side));
    out
}

pub open spec fn parts_view(p: Seq<String>) -> LinesView {
    Seq::new(p.len(), |i: int| Some(p[i]@))
}

pub open spec fn spliced(ls: LinesView, at: int, parts: LinesView) -> LinesView {
    ls.subrange(0, at) + parts + ls.subrange(at + 1, ls.len() as int)
}

/// The beads after line `line_index` of one side of bead `index` is split
/// into `parts` (at least two); the bead loses its status.
pub open spec fn split_line(v: Seq<BeadView>, index: int, side: AlignSide, line_index: int, parts: Seq<String>)
    -> Seq<BeadView> {
    if index >= v.len() || side == AlignSide::Both || parts.len() < 2 {
        v
    } else {
        let b = v[index];
        let d = BeadStatus::Default;
        if side == AlignSide::Source {
            if line_index >= b.1.len() { v } else {
                v.update(index, with_lines(b, spliced(b.1, line_index, parts_view(parts)), b.2, d))
            }
        } else {
            if line_index >= b.2.len() { v } else {
                v.update(index, with_lines(b, b.1, spliced(b.2, line_index, parts_view(parts)), d))
            }
        }
    }
}

fn spliced_lines(ls: &Vec<Option<String>>, at: usize, parts: &[String]) -> (r: Vec<Option<String>>)
    requires
        at < ls@.len(),
    ensures
        lines_view(r@) == spliced(lines_view(ls@), at as int, parts_view(parts@)),
{
    let ghost lv = lines_view(ls@);
    let mut r: Vec<Option<String>> = Vec::new();
    let mut i: usize = 0;
    while i < at
        invariant
            i <= at < ls@.len(),
            lv == lines_view(ls@),
            lines_view(r@) == lv.subrange(0, i as int),
        decreases at - i,
    {
        let c = match &ls[i] {
            Some(x) => Some(x.clone()),
            None => None,
        };
        let ghost before = lines_view(r@);
        r.push(c);
        assert(lines_view(r@) =~= before.push(lv[i as int]));
        assert(lv.subrange(0, i + 1) =~= lv.subrange(0, i as int).push(lv[i as int]));
        i = i + 1;
    }
    let ghost pv = parts_view(parts@);
    let mut k: usize = 0;
    while k < parts.len()
        invariant
            k <= parts@.len(),
            at < ls@.len(),
            lv == lines_view(ls@),
            pv == parts_view(parts@),
            lines_view(r@) == lv.subrange(0, at as int) + pv.subrange(0, k as int),
        decreases parts@.len() - k,
    {
        let ghost before = lines_view(r@);
        r.push(Some(parts[k].clone()));
        assert(lines_view(r@) =~= before.push(pv[k as int]));
        assert(lv.subrange(0, at as int) + pv.subrange(0, k + 1)
            =~= (lv.subrange(0, at as int) + pv.subrange(0, k as int)).push(pv[k as int]));
        k = k + 1;
    }
    assert(pv.subrange(0, k as int) =~= pv);
    let n = ls.len();
    assert(at < n);
    let mut j: usize = at + 1;
    while j < ls.len()
        invariant
            at + 1 <= j <= ls@.len(),
            lv == lines_view(ls@),
            pv == parts_view(parts@),
            lines_view(r@) == lv.subrange(0, at as int) + pv + lv.subrange(at + 1, j as int),
        decreases ls@.len() - j,
    {
        let c = match &ls[j] {
            Some(x) => Some(x.clone()),
            None => None,
        };
        let ghost before = lines_view(r@);
        r.push(c);
        assert(lines_view(r@) =~= before.push(lv[j as int]));
        assert(lv.subrange(0, at as int) + pv + lv.subrange(at + 1, j + 1)
            =~= (lv.subrange(0, at as int) + pv + lv.subrange(at + 1, j as int)).push(lv[j as int]));
        j = j + 1;
    }
    r
}

/// Split one line of a bead into several.
pub fn split_bead_line(beads: &[MutableBead], index: usize, side: AlignSide, line_index: usize, parts: &[String])
    -> (r: Vec<MutableBead>)
    ensures
        beads_view(r@) == split_line(beads_view(beads@), index as int, side, line_index as int, parts@),
{
    let mut out = copy_beads(beads);
    if index >= out.len() || parts.len() < 2 {
        return out;
    }
    let ghost bv = beads_view(beads@);
    assert(bv[index as int] == bead_view(out@[index as int]));
    match side {
        AlignSide::Both => {
            return out;
        },
        AlignSide::Source => {
            if line_index >= out[index].source_lines.len() {
                return out;
            }
            let src = spliced_lines(&out[index].source_lines, line_index, parts);
            let nb = rebuilt(&out[index], src, copy_lines(&out[index].target_lines), BeadStatus::Default);
            out.set(index, nb);
        },
        AlignSide::Target => {
            if line_index >= out[index].target_lines.len() {
                return out;
            }
            let tgt = spliced_lines(&out[index].target_lines, line_index, parts);
            let nb = rebuilt(&out[index], copy_lines(&out[index].source_lines), tgt, BeadStatus::Default);
            out.set(index, nb);
        },
    }
    assert(beads_view(out@) =~= split_line(bv, index as int, side, line_index as int, parts@));
    out
}


pub open spec fn listed(indexes: Seq<usize>, i: int) -> bool {
    exists|k: int| 0 <= k < indexes.len() && indexes[k] == i
}

fn is_listed(indexes: &[usize], i: usize) -> (r: bool)
    ensures
        r == listed(indexes@, i as int),
{
    let mut k: usize = 0;
    while k < indexes.len()
        invariant
            k <= indexes@.len(),
            forall|j: int| 0 <= j < k ==> indexes@[j] != i,
        decreases indexes@.len() - k,
    {
        if indexes[k] == i {
            return true;
        }
        k = k + 1;
    }
    false
}

fn with_status_at(b: &MutableBead, status: BeadStatus) -> (r: MutableBead)
    ensures
        bead_view(r) == (bead_view(*b).0, bead_view(*b).1, bead_view(*b).2, bead_view(*b).3, status),
{
    MutableBead { status, ..copy_bead(b) }
}

fn with_enabled_at(b: &MutableBead, enabled: bool) -> (r: MutableBead)
    ensures
        bead_view(r) == (bead_view(*b).0, bead_view(*b).1, bead_view(*b).2, enabled, bead_view(*b).4),
{
    MutableBead { enabled, ..copy_bead(b) }
}

/// The listed beads (indexes past the end are ignored) with this status.
pub fn set_bead_status(beads: &[MutableBead], indexes: &[usize], status: BeadStatus) -> (r: Vec<MutableBead>)
    ensures
        beads_view(r@) == Seq::new(beads@.len(), |i: int| {
            let b = bead_view(beads@[i]);
            if listed(indexes@, i) { (b.0, b.1, b.2, b.3, status) } else { b }
        }),
{
    let mut out: Vec<MutableBead> = Vec::new();
    let mut i: usize = 0;
    while i < beads.len()
        invariant
            i <= beads@.len(),
            out@.len() == i,
            forall|k: int| 0 <= k < i ==> #[trigger] bead_view(out@[k]) == {
                let b = bead_view(beads@[k]);
                if listed(indexes@, k) { (b.0, b.1, b.2, b.3, status) } else { b }
            },
        decreases beads@.len() - i,
    {
        let b = if is_listed(indexes, i) { with_status_at(&beads[i], status) } else { copy_bead(&beads[i]) };
        out.push(b);
        i = i + 1;
    }
    assert(beads_view(out@) =~= Seq::new(beads@.len(), |i: int| {
        let b = bead_view(beads@[i]);
        if listed(indexes@, i) { (b.0, b.1, b.2, b.3, status) } else { b }
    }));
    out
}

/// The listed beads (every bead without a list) enabled or disabled.
pub fn set_beads_enabled(beads: &[MutableBead], indexes: Option<&[usize]>, enabled: bool) -> (r: Vec<MutableBead>)
    ensures
        beads_view(r@) == Seq::new(beads@.len(), |i: int| {
            let b = bead_view(beads@[i]);
            let pick = match indexes { Some(ix) => listed(ix@, i), None => true };
            if pick { (b.0, b.1, b.2, enabled, b.4) } else { b }
        }),
{
    let mut out: Vec<MutableBead> = Vec::new();
    let mut i: usize = 0;
    while i < beads.len()
        invariant
            i <= beads@.len(),
            out@.len() == i,
            forall|k: int| 0 <= k < i ==> #[trigger] bead_view(out@[k]) == {
                let b = bead_view(beads@[k]);
                let pick = match indexes { Some(ix) => listed(ix@, k), None => true };
                if pick { (b.0, b.1, b.2, enabled, b.4) } else { b }
            },
        decreases beads@.len() - i,
    {
        let pick = match indexes {
            Some(ix) => is_listed(ix, i),
            None => true,
        };
        let b = if pick { with_enabled_at(&beads[i], enabled) } else { copy_bead(&beads[i]) };
        out.push(b);
        i = i + 1;
    }
    assert(beads_view(out@) =~= Seq::new(beads@.len(), |i: int| {
        let b = bead_view(beads@[i]);
        let pick = match indexes { Some(ix) => listed(ix@, i), None => true };
        if pick { (b.0, b.1, b.2, enabled, b.4) } else { b }
    }));
    out
}

/// The beads with each listed one's enabling flipped.
pub open spec fn toggled_beads(v: Seq<BeadView>, indexes: Seq<usize>) -> Seq<BeadView> {
    Seq::new(v.len(), |i: int| if listed(indexes, i) { (v[i].0, v[i].1, v[i].2, !v[i].3, v[i].4) } else { v[i] })
}

/// Toggling the same selection twice gives the beads back.
pub proof fn law_toggle_twice_restores(v: Seq<BeadView>, indexes: Seq<usize>)
    ensures
        toggled_beads(toggled_beads(v, indexes), indexes) == v,
{
    assert(toggled_beads(toggled_beads(v, indexes), indexes) =~= v);
}

/// Each listed bead toggled once, however often it is listed.
pub fn toggle_beads_enabled(beads: &[MutableBead], indexes: &[usize]) -> (r: Vec<MutableBead>)
    ensures
        beads_view(r@) == toggled_beads(beads_view(beads@), indexes@),
{
    let mut out: Vec<MutableBead> = Vec::new();
    let mut i: usize = 0;
    while i < beads.len()
        invariant
            i <= beads@.len(),
            out@.len() == i,
            forall|k: int| 0 <= k < i ==> #[trigger] bead_view(out@[k]) == {
                let b = bead_view(beads@[k]);
                if listed(indexes@, k) { (b.0, b.1, b.2, !b.3, b.4) } else { b }
            },
        decreases beads@.len() - i,
    {
        let b = if is_listed(indexes, i) { with_enabled_at(&beads[i], !beads[i].enabled) } else { copy_bead(&beads[i]) };
        out.push(b);
        i = i + 1;
    }
    assert(beads_view(out@) =~= toggled_beads(beads_view(beads@), indexes@));
    out
}

/// The visual rows a bead takes: as many as its longer side has lines.
pub open spec fn row_count(b: BeadView) -> int {
    if b.1.len() >= b.2.len() { b.1.len() as int } else { b.2.len() as int }
}

/// The visual rows of the first `n` beads.
pub open spec fn rows_before(v: Seq<BeadView>, n: int) -> int
    decreases n,
{
    if n <= 0 || n > v.len() { 0 } else { rows_before(v, n - 1) + row_count(v[n - 1]) }
}

/// An anchor and a focus row of the manual aligner's table.
#[derive(Debug, Clone, Copy, PartialEq, Eq)]
pub struct BeadRowSelection {
    pub anchor_row: usize,
    pub focus_row: usize,
}

/// One visual row: its bead, its row in the bead, and the line it shows on
/// each side (none on the shorter side).
#[derive(Debug, Clone, Copy, PartialEq, Eq)]
pub struct BeadRow {
    pub bead_index: usize,
    pub row_in_bead: usize,
    pub source_line_index: Option<usize>,
    pub target_line_index: Option<usize>,
}

pub open spec fn max_listed(indexes: Seq<usize>) -> int
    decreases indexes.len(),
{
    if indexes.len() == 0 {
        -1
    } else {
        let m = max_listed(indexes.drop_last());
        if indexes.last() as int > m { indexes.last() as int } else { m }
    }
}

/// After a status change: the first row of the bead after the last listed
/// one, where there is such a bead.
pub fn selection_after_bead_status(beads: &[MutableBead], indexes: &[usize]) -> (r: Option<BeadRowSelection>)
    requires
        rows_before(beads_view(beads@), beads@.len() as int) <= usize::MAX,
    ensures
        ({
            let next = max_listed(indexes@) + 1;
            if indexes@.len() == 0 || next > usize::MAX || next >= beads@.len() {
                r is None
            } else {
                r == Some(BeadRowSelection {
                    anchor_row: rows_before(beads_view(beads@), next) as usize,
                    focus_row: rows_before(beads_view(beads@), next) as usize,
                })
            }
        }),
{
    if indexes.len() == 0 {
        return None;
    }
    let mut m: usize = indexes[0];
    let mut k: usize = 1;
    assert(indexes@.subrange(0, 1).drop_last() =~= Seq::<usize>::empty());
    assert(indexes@.subrange(0, 1).last() == indexes@[0]);
    assert(max_listed(indexes@.subrange(0, 1).drop_last()) == -1);
    assert(max_listed(indexes@.subrange(0, 1)) == indexes@[0] as int);
    while k < indexes.len()
        invariant
            1 <= k <= indexes@.len(),
            m == max_listed(indexes@.subrange(0, k as int)),
        decreases indexes@.len() - k,
    {
        assert(indexes@.subrange(0, k + 1).drop_last() =~= indexes@.subrange(0, k as int));
        if indexes[k] > m {
            m = indexes[k];
        }
        k = k + 1;
    }
    assert(indexes@.subrange(0, k as int) =~= indexes@);
    if m == usize::MAX {
        return None;
    }
    let next = m + 1;
    if next >= beads.len() {
        return None;
    }
    let ghost bv = beads_view(beads@);
    let mut rows: usize = 0;
    let mut i: usize = 0;
    while i < next
        invariant
            i <= next < beads@.len(),
            bv == beads_view(beads@),
            rows == rows_before(bv, i as int),
            rows_before(bv, beads@.len() as int) <= usize::MAX,
        decreases next - i,
    {
        proof {
            lemma_rows_before_grows(bv, i as int + 1, beads@.len() as int);
        }
        assert(bv[i as int] == bead_view(beads@[i as int]));
        let s = beads[i].source_lines.len();
        let t = beads[i].target_lines.len();
        rows = rows + if s >= t { s } else { t };
        i = i + 1;
    }
    Some(BeadRowSelection { anchor_row: rows, focus_row: rows })
}

proof fn lemma_rows_before_grows(v: Seq<BeadView>, n: int, m: int)
    requires
        0 <= n <= m <= v.len(),
    ensures
        rows_before(v, n) <= rows_before(v, m),
    decreases m - n,
{
    if m > n {
        lemma_rows_before_grows(v, n, m - 1);
    }
}

/// The visual rows of bead `bi`.
pub open spec fn rows_of(b: BeadView, bi: int) -> Seq<BeadRow> {
    Seq::new(row_count(b) as nat, |r: int| BeadRow {
        bead_index: bi as usize,
        row_in_bead: r as usize,
        source_line_index: if r < b.1.len() { Some(r as usize) } else { None },
        target_line_index: if r < b.2.len() { Some(r as usize) } else { None },
    })
}

/// The visual rows of the first `n` beads, in order.
pub open spec fn all_rows(v: Seq<BeadView>, n: int) -> Seq<BeadRow>
    decreases n,
{
    if n <= 0 || n > v.len() { Seq::empty() } else { all_rows(v, n - 1) + rows_of(v[n - 1], n - 1) }
}

/// The beads laid out as the rows of the manual aligner's table.
pub fn bead_rows(beads: &[MutableBead]) -> (r: Vec<BeadRow>)
    ensures
        r@ == all_rows(beads_view(beads@), beads@.len() as int),
{
    let ghost bv = beads_view(beads@);
    let mut rows: Vec<BeadRow> = Vec::new();
    let mut b: usize = 0;
    while b < beads.len()
        invariant
            b <= beads@.len(),
            bv == beads_view(beads@),
            rows@ == all_rows(bv, b as int),
        decreases beads@.len() - b,
    {
        assert(bv[b as int] == bead_view(beads@[b as int]));
        let s = beads[b].source_lines.len();
        let t = beads[b].target_lines.len();
        let count = if s >= t { s } else { t };
        let ghost before = rows@;
        let ghost mine = rows_of(bv[b as int], b as int);
        let mut r: usize = 0;
        while r < count
            invariant
                r <= count,
                count == row_count(bv[b as int]),
                s == bv[b as int].1.len(),
                t == bv[b as int].2.len(),
                mine == rows_of(bv[b as int], b as int),
                rows@ == before + mine.subrange(0, r as int),
            decreases count - r,
        {
            let row = BeadRow {
                bead_index: b,
                row_in_bead: r,
                source_line_index: if r < s { Some(r) } else { None },
                target_line_index: if r < t { Some(r) } else { None },
            };
            rows.push(row);
            assert(mine[r as int] == row);
            assert(rows@ =~= before + mine.subrange(0, r + 1));
            r = r + 1;
        }
        assert(mine.subrange(0, r as int) =~= mine);
        b = b + 1;
    }
    rows
}


pub open spec fn side_of(b: BeadView, side: AlignSide) -> LinesView {
    if side == AlignSide::Source { b.1 } else { b.2 }
}

pub open spec fn other_side_of(b: BeadView, side: AlignSide) -> LinesView {
    if side == AlignSide::Source { b.2 } else { b.1 }
}

/// The real (non-placeholder) line that a row shows on one side, as
/// (bead, line).
pub open spec fn real_at(v: Seq<BeadView>, row: BeadRow, side: AlignSide) -> Option<(int, int)> {
    let li = if side == AlignSide::Source { row.source_line_index } else { row.target_line_index };
    match li {
        Some(l) => if (row.bead_index as int) < v.len() && (l as int) < side_of(v[row.bead_index as int], side).len()
            && side_of(v[row.bead_index as int], side)[l as int] is Some {
            Some((row.bead_index as int, l as int))
        } else {
            None
        },
        None => None,
    }
}

/// The real lines of rows `low..low + n`, as (row, bead, line).
pub open spec fn real_rows_from(v: Seq<BeadView>, rows: Seq<BeadRow>, low: int, side: AlignSide, n: int)
    -> Seq<(int, int, int)>
    decreases n,
{
    if n <= 0 {
        Seq::empty()
    } else {
        let before = real_rows_from(v, rows, low, side, n - 1);
        match real_at(v, rows[low + n - 1], side) {
            Some(bl) => before.push((low + n - 1, bl.0, bl.1)),
            None => before,
        }
    }
}

pub open spec fn span_low(start: int, end: int, count: int) -> int {
    let m = if start <= end { start } else { end };
    if m <= count - 1 { m } else { count - 1 }
}

pub open spec fn span_high(start: int, end: int, count: int) -> int {
    let m = if start >= end { start } else { end };
    if m <= count - 1 { m } else { count - 1 }
}

/// The real lines of one side in the selected row span (clamped to the
/// table), as (row, bead, line).
pub open spec fn real_line_rows(v: Seq<BeadView>, start: int, end: int, side: AlignSide) -> Seq<(int, int, int)> {
    let rows = all_rows(v, v.len() as int);
    if side == AlignSide::Both || rows.len() == 0 {
        Seq::empty()
    } else {
        let low = span_low(start, end, rows.len() as int);
        let high = span_high(start, end, rows.len() as int);
        real_rows_from(v, rows, low, side, high - low + 1)
    }
}

fn real_line_rows_exec(beads: &[MutableBead], rows: &Vec<BeadRow>, start_row: usize, end_row: usize, side: AlignSide)
    -> (r: Vec<(usize, usize, usize)>)
    requires
        rows@ == all_rows(beads_view(beads@), beads@.len() as int),
    ensures
        r@.len() == real_line_rows(beads_view(beads@), start_row as int, end_row as int, side).len(),
        forall|k: int| 0 <= k < r@.len() ==> ({
            let x = #[trigger] real_line_rows(beads_view(beads@), start_row as int, end_row as int, side)[k];
            r@[k].0 as int == x.0 && r@[k].1 as int == x.1 && r@[k].2 as int == x.2
        }),
{
    let ghost bv = beads_view(beads@);
    let mut out: Vec<(usize, usize, usize)> = Vec::new();
    if rows.len() == 0 {
        return out;
    }
    match side {
        AlignSide::Both => { return out; },
        _ => {},
    }
    let lo = if start_row <= end_row { start_row } else { end_row };
    let hi = if start_row >= end_row { start_row } else { end_row };
    let low = if lo <= rows.len() - 1 { lo } else { rows.len() - 1 };
    let high = if hi <= rows.len() - 1 { hi } else { rows.len() - 1 };
    let ghost target = real_line_rows(bv, start_row as int, end_row as int, side);
    let mut i: usize = low;
    while i <= high
        invariant
            low <= i <= high + 1,
            high < rows@.len(),
            rows@.len() <= usize::MAX,
            side != AlignSide::Both,
            bv == beads_view(beads@),
            rows@ == all_rows(bv, beads@.len() as int),
            out@.len() == real_rows_from(bv, rows@, low as int, side, i - low).len(),
            forall|k: int| 0 <= k < out@.len() ==> ({
                let x = #[trigger] real_rows_from(bv, rows@, low as int, side, i - low)[k];
                out@[k].0 as int == x.0 && out@[k].1 as int == x.1 && out@[k].2 as int == x.2
            }),
        decreases high + 1 - i,
    {
        let row = rows[i];
        let li = match side {
            AlignSide::Source => row.source_line_index,
            _ => row.target_line_index,
        };
        let ghost prev = real_rows_from(bv, rows@, low as int, side, i - low);
        assert(rows@[low + (i + 1 - low) - 1] == row);
        match li {
            Some(l) => {
                if row.bead_index < beads.len() {
                    assert(bv[row.bead_index as int] == bead_view(beads@[row.bead_index as int]));
                    let lines = match side {
                        AlignSide::Source => &beads[row.bead_index].source_lines,
                        _ => &beads[row.bead_index].target_lines,
                    };
                    assert(lines_view(lines@) == side_of(bv[row.bead_index as int], side));
                    if l < lines.len() && lines[l].is_some() {
                        out.push((i, row.bead_index, l));
                        assert(real_rows_from(bv, rows@, low as int, side, i + 1 - low)
                            == prev.push((i as int, row.bead_index as int, l as int)));
                    }
                }
            },
            None => {},
        }
        i = i + 1;
    }
    proof {
        assert(low as int == span_low(start_row as int, end_row as int, rows@.len() as int));
        assert(high as int == span_high(start_row as int, end_row as int, rows@.len() as int));
    }
    out
}

/// Whether dropping the selected row span of one side at `target_row` is a
/// move the manual aligner allows: the span must hold a real line, the drop
/// must fall outside it, the edge line must leave its bead (at the table's
/// ends, only when the bead keeps lines on the other side), and the drop
/// must land in another bead.
pub open spec fn can_move_to(v: Seq<BeadView>, start: int, end: int, side: AlignSide, target_row: int) -> bool {
    let rr = real_line_rows(v, start, end, side);
    let rows = all_rows(v, v.len() as int);
    if rr.len() == 0 || side == AlignSide::Both {
        false
    } else if target_row >= (rr[0].0 as isize) as int && target_row <= (rr.last().0 as isize) as int {
        false
    } else {
        let up = target_row < (rr[0].0 as isize) as int;
        let edge = if up { rr[0] } else { rr.last() };
        let b = v[edge.1];
        let movable = if (edge.0 == 0 && up) || (edge.0 + 1 == rows.len() && !up) {
            other_side_of(b, side).len() > 0
        } else if up {
            edge.2 == 0
        } else {
            edge.2 + 1 == side_of(b, side).len()
        };
        movable && (0 <= target_row < rows.len() ==> rows[target_row].bead_index as int != edge.1)
    }
}

proof fn lemma_real_rows_in_range(v: Seq<BeadView>, rows: Seq<BeadRow>, low: int, side: AlignSide, n: int)
    requires
        0 <= n,
        0 <= low,
        low + n <= rows.len(),
    ensures
        forall|k: int| 0 <= k < real_rows_from(v, rows, low, side, n).len() ==> {
            let x = #[trigger] real_rows_from(v, rows, low, side, n)[k];
            0 <= x.1 < v.len() && low <= x.0 < low + n && 0 <= x.2 < side_of(v[x.1], side).len()
        },
    decreases n,
{
    if n > 0 {
        lemma_real_rows_in_range(v, rows, low, side, n - 1);
        let prev = real_rows_from(v, rows, low, side, n - 1);
        let cur = real_rows_from(v, rows, low, side, n);
        assert forall|k: int| 0 <= k < cur.len() implies {
            let x = #[trigger] cur[k];
            0 <= x.1 < v.len() && low <= x.0 < low + n && 0 <= x.2 < side_of(v[x.1], side).len()
        } by {
            if k < prev.len() {
                assert(cur[k] == prev[k]);
            }
        }
    }
}

/// Whether the selected span of one side may be dropped at `target_row`.
pub fn can_move_bead_row_span_to(beads: &[MutableBead], start_row: usize, end_row: usize, side: AlignSide,
    target_row: isize) -> (r: bool)
    ensures
        r == can_move_to(beads_view(beads@), start_row as int, end_row as int, side, target_row as int),
{
    let ghost bv = beads_view(beads@);
    let rows = bead_rows(beads);
    let spans = real_line_rows_exec(beads, &rows, start_row, end_row, side);
    let ghost rr = real_line_rows(bv, start_row as int, end_row as int, side);
    if spans.len() == 0 {
        return false;
    }
    match side {
        AlignSide::Both => { return false; },
        _ => {},
    }
    proof {
        let rows_s = all_rows(bv, bv.len() as int);
        let low = span_low(start_row as int, end_row as int, rows_s.len() as int);
        let high = span_high(start_row as int, end_row as int, rows_s.len() as int);
        lemma_real_rows_in_range(bv, rows_s, low, side, high - low + 1);
        assert(rr[0] == real_rows_from(bv, rows_s, low, side, high - low + 1)[0]);
        assert(rr.last() == real_rows_from(bv, rows_s, low, side, high - low + 1)[rr.len() - 1]);
        assert(high < rows_s.len());
        assert(rr[0].0 < rows@.len() && rr.last().0 < rows@.len());
        assert(rr[0].2 < side_of(bv[rr[0].1], side).len());
        assert(rr.last().2 < side_of(bv[rr.last().1], side).len());
    }
    let first = spans[0];
    let last = spans[spans.len() - 1];
    assert(first.0 as int == rr[0].0 && first.1 as int == rr[0].1 && first.2 as int == rr[0].2);
    assert(last.0 as int == rr.last().0 && last.1 as int == rr.last().1 && last.2 as int == rr.last().2);
    let up: bool;
    let edge: (usize, usize, usize);
    if target_row < first.0 as isize {
        up = true;
        edge = first;
    } else if target_row > last.0 as isize {
        up = false;
        edge = last;
    } else {
        return false;
    }
    assert(bv[edge.1 as int] == bead_view(beads@[edge.1 as int]));
    let (side_lines, other_lines) = match side {
        AlignSide::Source => (&beads[edge.1].source_lines, &beads[edge.1].target_lines),
        _ => (&beads[edge.1].target_lines, &beads[edge.1].source_lines),
    };
    assert(lines_view(side_lines@) == side_of(bv[edge.1 as int], side));
    assert(lines_view(other_lines@) == other_side_of(bv[edge.1 as int], side));
    let nrows = rows.len();
    let nlines = side_lines.len();
    assert(edge.0 < nrows && edge.2 < nlines);
    let movable = if (edge.0 == 0 && up) || (edge.0 + 1 == nrows && !up) {
        other_lines.len() > 0
    } else if up {
        edge.2 == 0
    } else {
        edge.2 + 1 == nlines
    };
    if !movable {
        return false;
    }
    if target_row >= 0 && (target_row as usize) < rows.len() {
        return rows[target_row as usize].bead_index != edge.1;
    }
    true
}

} // verus!
