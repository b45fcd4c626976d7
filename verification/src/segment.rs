//! SRX sentence segmentation: rules are applied in reverse order; break rules
//! add positions, exception rules remove them, and exceptions win. Language
//! maps cascade. Regular expressions are the `regex` crate's.
use vstd::prelude::*;
use crate::text::{str_eq, concat_str, chars_of, string_of, slice_vec, extend_chars, contains, str_contains, trim, trim_chars, is_ws, is_ws_exec, lead_ws, trail_ws, utf8_len, char_utf8_len_exec, starts_with, replace_all, replace_str, upper_ascii_seq, to_ascii_uppercase, str_starts_with, trim_str};
use crate::regex_ops::{Pattern, compile, is_match, regex_valid, regex_match, regex_spans, find_spans, regex_captures, captures_all, html_decoded, decode_html, groups_view};

verus! {

pub struct SrxRule {
    pub breaks: bool,
    pub before: String,
    pub after: String,
}

pub struct SrxTable {
    pub rules: Vec<SrxRule>,
}

/// The pattern in the regex syntax: always dot-all, case-insensitive when
/// asked or when the pattern says `(?i)`.
pub open spec fn java_pattern(pattern: Seq<char>, force_i: bool) -> Seq<char> {
    (if force_i || contains(pattern, "(?i)"@) { "(?si)"@ } else { "(?s)"@ }) + pattern
}

pub fn java_pattern_to_rust(pattern: &str, force_i: bool) -> (r: String)
    ensures
        r@ == java_pattern(pattern@, force_i),
{
    let flags = if force_i || str_contains(pattern, "(?i)") { "(?si)" } else { "(?s)" };
    concat_str(flags, pattern)
}

fn compile_java_regex(pattern: &str, case_insensitive: bool) -> (r: Option<Pattern>)
    ensures
        r is Some <==> regex_valid(java_pattern(pattern@, case_insensitive)),
        r matches Some(p) ==> p.source() == java_pattern(pattern@, case_insensitive),
{
    let p = java_pattern_to_rust(pattern, case_insensitive);
    compile(p.as_str())
}

/// The pattern a rule's side is matched with: any character for an empty
/// before-side; `None` where the pattern is refused (or the after-side is empty).
pub open spec fn side_pattern(side: Seq<char>, is_before: bool) -> Option<Seq<char>> {
    if side.len() == 0 {
        if is_before && regex_valid("(?s)."@) { Some("(?s)."@) } else { None }
    } else if regex_valid(java_pattern(side, false)) {
        Some(java_pattern(side, false))
    } else {
        None
    }
}

/// The break positions of one rule, merging before-match ends with
/// after-match starts as the matcher walks them (it stops once the after
/// matches run out).
pub open spec fn merged_breaks(ends: Seq<usize>, starts: Seq<usize>, ai: int) -> Seq<usize>
    decreases ends.len(), starts.len() - ai,
{
    if ends.len() == 0 {
        Seq::empty()
    } else if ai < starts.len() && starts[ai] < ends[0] {
        merged_breaks(ends, starts, ai + 1)
    } else if ai >= starts.len() {
        Seq::empty()
    } else if starts[ai] == ends[0] {
        seq![ends[0]] + merged_breaks(ends.drop_first(), starts, ai)
    } else {
        merged_breaks(ends.drop_first(), starts, ai)
    }
}

pub open spec fn rule_breaks(text: Seq<char>, before: Seq<char>, after: Seq<char>) -> Seq<usize> {
    match side_pattern(before, true) {
        None => Seq::empty(),
        Some(bp) => {
            let ends = regex_spans(bp, text).map_values(|s: (usize, usize)| s.1);
            match side_pattern(after, false) {
                None => ends,
                Some(ap) => {
                    let starts = regex_spans(ap, text).map_values(|s: (usize, usize)| s.0);
                    if starts.len() == 0 { Seq::empty() } else { merged_breaks(ends, starts, 0) }
                },
            }
        },
    }
}


fn side_regex(side: &str, is_before: bool) -> (r: Option<Pattern>)
    ensures
        r is Some <==> side_pattern(side@, is_before) is Some,
        r matches Some(p) ==> side_pattern(side@, is_before) == Some(p.source()),
{
    if side.is_empty() {
        if is_before { compile("(?s).") } else { None }
    } else {
        compile_java_regex(side, false)
    }
}

fn ends_of(v: &Vec<(usize, usize)>, start: bool) -> (r: Vec<usize>)
    ensures
        r@ == v@.map_values(|s: (usize, usize)| if start { s.0 } else { s.1 }),
{
    let mut r: Vec<usize> = Vec::new();
    let mut i: usize = 0;
    while i < v.len()
        invariant
            i <= v@.len(),
            r@ == v@.subrange(0, i as int).map_values(|s: (usize, usize)| if start { s.0 } else { s.1 }),
        decreases v@.len() - i,
    {
        r.push(if start { v[i].0 } else { v[i].1 });
        i = i + 1;
        assert(r@ =~= v@.subrange(0, i as int).map_values(|s: (usize, usize)| if start { s.0 } else { s.1 }));
    }
    assert(v@.subrange(0, v@.len() as int) =~= v@);
    r
}

/// The break positions (byte offsets) of one rule in a paragraph.
fn get_breaks(text: &str, rule: &SrxRule) -> (r: Vec<usize>)
    ensures
        r@ == rule_breaks(text@, rule.before@, rule.after@),
{
    let before_re = match side_regex(rule.before.as_str(), true) {
        Some(p) => p,
        None => { return Vec::new(); },
    };
    let bspans = find_spans(&before_re, text);
    let ends = ends_of(&bspans, false);
    assert(ends@ =~= regex_spans(side_pattern(rule.before@, true)->0, text@).map_values(|s: (usize, usize)| s.1));
    let after_re = side_regex(rule.after.as_str(), false);
    match after_re {
        None => ends,
        Some(ap) => {
            let aspans = find_spans(&ap, text);
            let starts = ends_of(&aspans, true);
            assert(starts@ =~= regex_spans(side_pattern(rule.after@, false)->0, text@).map_values(|s: (usize, usize)| s.0));
            if starts.len() == 0 {
                return Vec::new();
            }
            let mut res: Vec<usize> = Vec::new();
            let mut ai: usize = 0;
            let mut bi: usize = 0;
            assert(merged_breaks(ends@, starts@, 0) == rule_breaks(text@, rule.before@, rule.after@));
            assert(ends@.subrange(0, ends@.len() as int) =~= ends@);
            assert(res@ + merged_breaks(ends@, starts@, 0) =~= merged_breaks(ends@, starts@, 0));
            while bi < ends.len()
                invariant
                    merged_breaks(ends@, starts@, 0) == rule_breaks(text@, rule.before@, rule.after@),
                    bi <= ends@.len(),
                    ai <= starts@.len(),
                    starts@.len() > 0,
                    res@ + merged_breaks(ends@.subrange(bi as int, ends@.len() as int), starts@, ai as int)
                        == merged_breaks(ends@, starts@, 0),
                decreases ends@.len() - bi,
            {
                let bbe = ends[bi];
                let ghost rest = ends@.subrange(bi as int, ends@.len() as int);
                assert(rest[0] == bbe);
                while ai < starts.len() && starts[ai] < bbe
                    invariant
                        merged_breaks(ends@, starts@, 0) == rule_breaks(text@, rule.before@, rule.after@),
                        ai <= starts@.len(),
                        rest.len() > 0,
                        rest[0] == bbe,
                        res@ + merged_breaks(rest, starts@, ai as int) == merged_breaks(ends@, starts@, 0),
                    decreases starts@.len() - ai,
                {
                    ai = ai + 1;
                }
                if ai >= starts.len() {
                    assert(merged_breaks(rest, starts@, ai as int) =~= Seq::<usize>::empty());
                    assert(res@ =~= merged_breaks(ends@, starts@, 0));
                    return res;
                }
                assert(rest.drop_first() =~= ends@.subrange(bi + 1, ends@.len() as int));
                if starts[ai] == bbe {
                    res.push(bbe);
                    assert(res@ + merged_breaks(rest.drop_first(), starts@, ai as int)
                        =~= merged_breaks(ends@, starts@, 0));
                }
                bi = bi + 1;
            }
            assert(ends@.subrange(bi as int, ends@.len() as int) =~= Seq::<usize>::empty());
            assert(res@ =~= merged_breaks(ends@, starts@, 0));
            res
        },
    }
}


pub ghost struct RuleView {
    pub breaks: bool,
    pub before: Seq<char>,
    pub after: Seq<char>,
}

pub open spec fn rules_view(r: Seq<SrxRule>) -> Seq<RuleView> {
    r.map_values(|x: SrxRule| RuleView { breaks: x.breaks, before: x.before@, after: x.after@ })
}

/// Whether rule `r` breaks or forbids a break at byte position `p`.
pub open spec fn rule_hits(text: Seq<char>, r: RuleView, p: int) -> bool {
    rule_breaks(text, r.before, r.after).contains(p as usize) && 0 <= p <= usize::MAX
}

/// After rules `k..` (applied last to first): the rule recorded at byte
/// position `p`, and whether an exception forbids it.
pub open spec fn pos_state(text: Seq<char>, rules: Seq<RuleView>, k: int, p: int) -> (Option<int>, bool)
    decreases rules.len() - k,
{
    if k < 0 || k >= rules.len() {
        (None, false)
    } else {
        let st = pos_state(text, rules, k + 1, p);
        if rule_hits(text, rules[k], p) {
            if rules[k].breaks { (if st.0 is None { Some(k) } else { st.0 }, false) } else { (None, true) }
        } else {
            st
        }
    }
}

/// Byte offset of the character boundary before character `k`.
pub open spec fn byte_at(text: Seq<char>, k: int) -> int {
    utf8_len(text.subrange(0, k)) as int
}

/// The segment ends: character boundaries (after the start) where the rules break.
pub open spec fn cut_points(text: Seq<char>, rules: Seq<RuleView>, k: int) -> Seq<int>
    decreases k,
{
    if k <= 0 {
        Seq::empty()
    } else {
        let st = pos_state(text, rules, 0, byte_at(text, k));
        cut_points(text, rules, k - 1) + (if st.0 is Some && !st.1 { seq![k] } else { Seq::empty() })
    }
}

/// The pieces of `text` ending at each cut, the first from the start.
pub open spec fn pieces(text: Seq<char>, cuts: Seq<int>) -> Seq<Seq<char>>
    decreases cuts.len(),
{
    if cuts.len() == 0 {
        Seq::empty()
    } else {
        let start = if cuts.len() > 1 { cuts[cuts.len() - 2] } else { 0 };
        pieces(text, cuts.drop_last()) + seq![text.subrange(start, cuts.last())]
    }
}

/// Paragraph chunks: the pieces between cuts; a blank tail joins the last
/// piece, any other tail is a piece of its own.
pub open spec fn chunks(text: Seq<char>, rules: Seq<RuleView>) -> Seq<Seq<char>> {
    if text.len() == 0 {
        Seq::empty()
    } else {
        let cuts = cut_points(text, rules, text.len() as int);
        let ps = pieces(text, cuts);
        let last_start = if cuts.len() == 0 { 0 } else { cuts.last() };
        let tail = text.subrange(last_start, text.len() as int);
        if trim(tail).len() == 0 && ps.len() > 0 {
            ps.update(ps.len() - 1, ps.last() + tail)
        } else {
            ps.push(tail)
        }
    }
}

/// The rules that made each cut.
pub open spec fn cut_rules(text: Seq<char>, rules: Seq<RuleView>) -> Seq<RuleView> {
    if text.len() == 0 {
        Seq::empty()
    } else {
        cut_points(text, rules, text.len() as int).map_values(|k: int| rules[pos_state(text, rules, 0, byte_at(text, k)).0->0])
    }
}


/// One rule's effect on a position it hits.
pub open spec fn hit_state(st: (Option<int>, bool), k: int, breaks: bool) -> (Option<int>, bool) {
    if breaks { (if st.0 is None { Some(k) } else { st.0 }, false) } else { (None, true) }
}

pub open spec fn opt_int(o: Option<usize>) -> Option<int> {
    match o { Some(x) => Some(x as int), None => None }
}

fn byte_offsets(t: &Vec<char>) -> (b: Vec<u128>)
    ensures
        b@.len() == t@.len(),
        forall|k: int| 0 <= k < b@.len() ==> #[trigger] b@[k] == byte_at(t@, k + 1),
        forall|k: int, l: int| 0 <= k < l < b@.len() ==> #[trigger] b@[k] < #[trigger] b@[l],
{
    let mut b: Vec<u128> = Vec::new();
    let mut acc: u128 = 0;
    let mut i: usize = 0;
    while i < t.len()
        invariant
            i <= t@.len(),
            b@.len() == i,
            acc == byte_at(t@, i as int),
            acc <= 4 * i,
            forall|k: int| 0 <= k < i ==> #[trigger] b@[k] == byte_at(t@, k + 1),
            forall|k: int, l: int| 0 <= k < l < i ==> #[trigger] b@[k] < #[trigger] b@[l],
            forall|k: int| 0 <= k < i ==> #[trigger] b@[k] <= acc,
        decreases t@.len() - i,
    {
        let ghost pre = t@.subrange(0, i as int);
        assert(t@.subrange(0, i + 1).drop_last() =~= pre);
        let c = char_utf8_len_exec(t[i]);
        acc = acc + c as u128;
        b.push(acc);
        i = i + 1;
    }
    b
}

/// Index `k` with `b[k] == p`, in a strictly increasing list.
fn index_of_offset(b: &Vec<u128>, p: usize) -> (r: Option<usize>)
    requires
        forall|k: int, l: int| 0 <= k < l < b@.len() ==> #[trigger] b@[k] < #[trigger] b@[l],
    ensures
        r matches Some(k) ==> k < b@.len() && b@[k as int] == p as u128,
        r is None ==> forall|k: int| 0 <= k < b@.len() ==> #[trigger] b@[k] != p as u128,
{
    let mut i: usize = 0;
    while i < b.len()
        invariant
            i <= b@.len(),
            forall|k: int| 0 <= k < i ==> #[trigger] b@[k] != p as u128,
        decreases b@.len() - i,
    {
        if b[i] == p as u128 {
            return Some(i);
        }
        i = i + 1;
    }
    None
}

proof fn lemma_contains_push(v: Seq<usize>, x: usize, p: usize)
    ensures
        v.push(x).contains(p) == (v.contains(p) || x == p),
{
    if v.push(x).contains(p) {
        let i = choose|i: int| 0 <= i < v.push(x).len() && v.push(x)[i] == p;
        if i < v.len() { assert(v[i] == p); }
    }
    if v.contains(p) {
        let i = choose|i: int| 0 <= i < v.len() && v[i] == p;
        assert(v.push(x)[i] == p);
    }
    if x == p {
        assert(v.push(x)[v.len() as int] == p);
    }
}

/// The break state of every character boundary after all rules.
fn boundary_states(text: &str, t: &Vec<char>, b: &Vec<u128>, rules: &Vec<SrxRule>) -> (r: (Vec<Option<usize>>, Vec<bool>))
    requires
        t@ == text@,
        b@.len() == t@.len(),
        forall|k: int| 0 <= k < b@.len() ==> #[trigger] b@[k] == byte_at(t@, k + 1),
        forall|k: int, l: int| 0 <= k < l < b@.len() ==> #[trigger] b@[k] < #[trigger] b@[l],
    ensures
        r.0@.len() == t@.len() && r.1@.len() == t@.len(),
        forall|k: int| 0 <= k < t@.len() ==> (opt_int(#[trigger] r.0@[k]), r.1@[k])
            == pos_state(text@, rules_view(rules@), 0, byte_at(text@, k + 1)),
{
    let ghost rv = rules_view(rules@);
    let n = t.len();
    let mut bk: Vec<Option<usize>> = Vec::new();
    let mut dont: Vec<bool> = Vec::new();
    let mut i: usize = 0;
    while i < n
        invariant
            i <= n, n == t@.len(),
            bk@.len() == i, dont@.len() == i,
            forall|k: int| 0 <= k < i ==> #[trigger] bk@[k] is None && !dont@[k],
        decreases n - i,
    {
        bk.push(None);
        dont.push(false);
        i = i + 1;
    }
    let mut r: usize = rules.len();
    while r > 0
        invariant
            r <= rules@.len(),
            rv == rules_view(rules@),
            n == t@.len(), t@ == text@,
            b@.len() == n,
            forall|k: int| 0 <= k < b@.len() ==> #[trigger] b@[k] == byte_at(t@, k + 1),
            forall|k: int, l: int| 0 <= k < l < b@.len() ==> #[trigger] b@[k] < #[trigger] b@[l],
            bk@.len() == n, dont@.len() == n,
            forall|k: int| 0 <= k < n ==> (opt_int(#[trigger] bk@[k]), dont@[k]) == pos_state(text@, rv, r as int, byte_at(text@, k + 1)),
        decreases r,
    {
        let ri = r - 1;
        let rule = &rules[ri];
        let ghost rw = rv[ri as int];
        assert(rw.before == rule.before@ && rw.after == rule.after@ && rw.breaks == rule.breaks);
        let ps = get_breaks(text, rule);
        let ghost before_k = Seq::new(n as nat, |k: int| (opt_int(bk@[k]), dont@[k]));
        let mut j: usize = 0;
        while j < ps.len()
            invariant
                j <= ps@.len(),
                ri < rules@.len(),
                rw == rv[ri as int],
                rw.breaks == rule.breaks,
                rv == rules_view(rules@),
                n == t@.len(), t@ == text@,
                b@.len() == n,
                forall|k: int| 0 <= k < b@.len() ==> #[trigger] b@[k] == byte_at(t@, k + 1),
                forall|k: int, l: int| 0 <= k < l < b@.len() ==> #[trigger] b@[k] < #[trigger] b@[l],
                bk@.len() == n, dont@.len() == n,
                before_k.len() == n,
                forall|k: int| 0 <= k < n ==> #[trigger] before_k[k] == pos_state(text@, rv, ri + 1, byte_at(text@, k + 1)),
                forall|k: int| 0 <= k < n ==> (opt_int(#[trigger] bk@[k]), dont@[k]) == (
                    if ps@.subrange(0, j as int).contains(b@[k] as usize) && b@[k] <= usize::MAX {
                        hit_state(before_k[k], ri as int, rw.breaks)
                    } else {
                        before_k[k]
                    }),
            decreases ps@.len() - j,
        {
            let p = ps[j];
            let ghost pre = ps@.subrange(0, j as int);
            assert(ps@.subrange(0, j + 1) =~= pre.push(p));
            match index_of_offset(b, p) {
                Some(k) => {
                    let cur = bk[k];
                    let ghost old_st = (opt_int(cur), dont@[k as int]);
                    let ghost bk0 = bk@;
                    let ghost dont0 = dont@;
                    if rule.breaks {
                        if cur.is_none() {
                            bk.set(k, Some(ri));
                        }
                        dont.set(k, false);
                    } else {
                        bk.set(k, None);
                        dont.set(k, true);
                    }
                    proof {
                        assert forall|m: int| 0 <= m < n implies (opt_int(#[trigger] bk@[m]), dont@[m]) == (
                            if ps@.subrange(0, j + 1).contains(b@[m] as usize) && b@[m] <= usize::MAX {
                                hit_state(before_k[m], ri as int, rw.breaks)
                            } else {
                                before_k[m]
                            }) by {
                            lemma_contains_push(pre, p, b@[m] as usize);
                            if m != k as int {
                                assert(bk@[m] == bk0[m] && dont@[m] == dont0[m]);
                                if b@[m] <= usize::MAX && b@[m] as usize == p {
                                    assert(b@[m] == b@[k as int]);
                                    if m < k { assert(b@[m] < b@[k as int]); } else { assert(b@[k as int] < b@[m]); }
                                }
                            } else {
                                assert(b@[m] == p as u128);
                                assert((opt_int(bk@[m]), dont@[m]) == hit_state(old_st, ri as int, rw.breaks));
                                if pre.contains(p) {
                                    assert(old_st == hit_state(before_k[m], ri as int, rw.breaks));
                                } else {
                                    assert(old_st == before_k[m]);
                                }
                            }
                        }
                    }
                },
                None => {
                    proof {
                        assert forall|m: int| 0 <= m < n implies (opt_int(#[trigger] bk@[m]), dont@[m]) == (
                            if ps@.subrange(0, j + 1).contains(b@[m] as usize) && b@[m] <= usize::MAX {
                                hit_state(before_k[m], ri as int, rw.breaks)
                            } else {
                                before_k[m]
                            }) by {
                            lemma_contains_push(pre, p, b@[m] as usize);
                            assert(b@[m] != p as u128);
                        }
                    }
                },
            }
            j = j + 1;
        }
        proof {
            assert(ps@.subrange(0, ps@.len() as int) =~= ps@);
            assert forall|k: int| 0 <= k < n implies (opt_int(#[trigger] bk@[k]), dont@[k]) == pos_state(text@, rv, ri as int, byte_at(text@, k + 1)) by {
                let p = byte_at(text@, k + 1);
                assert(b@[k] == p);
                assert(rule_hits(text@, rw, p) == (ps@.contains(p as usize) && 0 <= p <= usize::MAX));
            }
        }
        r = ri;
    }
    (bk, dont)
}


pub open spec fn strings_view(v: Seq<String>) -> Seq<Seq<char>> {
    v.map_values(|x: String| x@)
}

fn copy_rule(r: &SrxRule) -> (c: SrxRule)
    ensures
        c.breaks == r.breaks && c.before@ == r.before@ && c.after@ == r.after@,
{
    SrxRule { breaks: r.breaks, before: r.before.clone(), after: r.after.clone() }
}

proof fn lemma_cut_points_bound(text: Seq<char>, rules: Seq<RuleView>, k: int)
    ensures
        forall|a: int| 0 <= a < cut_points(text, rules, k).len() ==> 1 <= #[trigger] cut_points(text, rules, k)[a] <= k,
        forall|a: int, c: int| 0 <= a < c < cut_points(text, rules, k).len() ==>
            #[trigger] cut_points(text, rules, k)[a] < #[trigger] cut_points(text, rules, k)[c],
    decreases k,
{
    if k > 0 {
        lemma_cut_points_bound(text, rules, k - 1);
        let c0 = cut_points(text, rules, k - 1);
        let c1 = cut_points(text, rules, k);
        let st = pos_state(text, rules, 0, byte_at(text, k));
        if st.0 is Some && !st.1 {
            assert(c1 =~= c0.push(k));
            assert forall|a: int| 0 <= a < c1.len() implies 1 <= #[trigger] c1[a] <= k by {
                if a < c0.len() { assert(c1[a] == c0[a]); }
            }
            assert forall|a: int, c: int| 0 <= a < c < c1.len() implies #[trigger] c1[a] < #[trigger] c1[c] by {
                assert(c1[a] == c0[a]);
                if c < c0.len() { assert(c1[c] == c0[c]); }
            }
        } else {
            assert(c1 =~= c0);
        }
    }
}

proof fn lemma_pos_state_range(text: Seq<char>, rules: Seq<RuleView>, k: int, p: int)
    requires
        0 <= k,
    ensures
        pos_state(text, rules, k, p).0 matches Some(x) ==> k <= x < rules.len(),
    decreases rules.len() - k,
{
    if k < rules.len() {
        lemma_pos_state_range(text, rules, k + 1, p);
    }
}

/// The paragraph's chunks and the rule of each break.
pub fn break_paragraph(text: &str, rules: &Vec<SrxRule>) -> (r: (Vec<String>, Vec<SrxRule>))
    ensures
        strings_view(r.0@) == chunks(text@, rules_view(rules@)),
        rules_view(r.1@) == cut_rules(text@, rules_view(rules@)),
{
    let ghost rv = rules_view(rules@);
    if text.is_empty() {
        let a: Vec<String> = Vec::new();
        let c: Vec<SrxRule> = Vec::new();
        assert(strings_view(a@) =~= Seq::<Seq<char>>::empty());
        assert(rules_view(c@) =~= Seq::<RuleView>::empty());
        return (a, c);
    }
    let t = chars_of(text);
    let b = byte_offsets(&t);
    let (bk, dont) = boundary_states(text, &t, &b, rules);
    let n = t.len();
    proof {
        assert forall|k: int| 0 <= k < n implies (#[trigger] bk@[k] matches Some(x) ==> x < rules@.len()) by {
            lemma_pos_state_range(text@, rv, 0, byte_at(text@, k + 1));
        }
    }
    let mut segments: Vec<String> = Vec::new();
    let mut brules: Vec<SrxRule> = Vec::new();
    let mut prev: usize = 0;
    let mut i: usize = 0;
    while i < n
        invariant
            i <= n, n == t@.len(), t@ == text@,
            rv == rules_view(rules@),
            bk@.len() == n, dont@.len() == n,
            forall|k: int| 0 <= k < n ==> (opt_int(#[trigger] bk@[k]), dont@[k]) == pos_state(text@, rv, 0, byte_at(text@, k + 1)),
            forall|k: int| 0 <= k < n ==> (#[trigger] bk@[k] matches Some(x) ==> x < rules@.len()),
            prev <= i,
            prev == (if cut_points(text@, rv, i as int).len() == 0 { 0 } else { cut_points(text@, rv, i as int).last() }),
            strings_view(segments@) == pieces(text@, cut_points(text@, rv, i as int)),
            rules_view(brules@) == cut_points(text@, rv, i as int).map_values(|k: int| rv[pos_state(text@, rv, 0, byte_at(text@, k)).0->0]),
        decreases n - i,
    {
        let ghost cp = cut_points(text@, rv, i as int);
        let ghost cn = cut_points(text@, rv, i + 1);
        proof { lemma_cut_points_bound(text@, rv, i as int); }
        match bk[i] {
            Some(ri) => {
                if !dont[i] {
                    assert(cn =~= cp.push(i + 1));
                    let piece = slice_vec(&t, prev, i + 1);
                    let ghost sb = strings_view(segments@);
                    segments.push(string_of(&piece));
                    assert(strings_view(segments@) =~= sb.push(text@.subrange(prev as int, i + 1)));
                    assert(cn.drop_last() =~= cp);
                    let ghost rb = rules_view(brules@);
                    brules.push(copy_rule(&rules[ri]));
                    assert(rules_view(brules@) =~= rb.push(rv[ri as int]));
                    assert(rules_view(brules@) =~= cn.map_values(|k: int| rv[pos_state(text@, rv, 0, byte_at(text@, k)).0->0]));
                    prev = i + 1;
                } else {
                    assert(cn =~= cp);
                }
            },
            None => {
                assert(cn =~= cp);
            },
        }
        i = i + 1;
    }
    let ghost cuts = cut_points(text@, rv, n as int);
    let tail = slice_vec(&t, prev, n);
    let tt = trim_chars(&tail);
    if tt.len() == 0 && segments.len() > 0 {
        let last = segments.pop().unwrap();
        let mut lv = chars_of(last.as_str());
        extend_chars(&mut lv, &tail);
        let ghost sb = strings_view(segments@);
        segments.push(string_of(&lv));
        assert(strings_view(segments@) =~= sb.push(lv@));
    } else {
        let ghost sb = strings_view(segments@);
        segments.push(string_of(&tail));
        assert(strings_view(segments@) =~= sb.push(tail@));
    }
    proof {
        let ps = pieces(text@, cuts);
        assert(ps.len() == cuts.len()) by { lemma_pieces_len(text@, cuts); }
    }
    (segments, brules)
}

proof fn lemma_pieces_len(text: Seq<char>, cuts: Seq<int>)
    ensures
        pieces(text, cuts).len() == cuts.len(),
    decreases cuts.len(),
{
    if cuts.len() > 0 {
        lemma_pieces_len(text, cuts.drop_last());
    }
}


/// A segmented paragraph: trimmed sentences, the spaces around each (leading,
/// trailing), and the rule of each break.
pub struct Segmented {
    pub sentences: Vec<String>,
    pub spaces: Vec<String>,
    pub brules: Vec<SrxRule>,
}

/// Leading whitespace of a chunk.
pub open spec fn leading(s: Seq<char>) -> Seq<char> {
    s.subrange(0, lead_ws(s) as int)
}

/// Trailing whitespace of a chunk (after its leading whitespace).
pub open spec fn trailing(s: Seq<char>) -> Seq<char> {
    let rest = s.subrange(lead_ws(s) as int, s.len() as int);
    rest.subrange(rest.len() - trail_ws(rest), rest.len() as int)
}

/// Spaces of the chunks: leading then trailing of each.
pub open spec fn chunk_spaces(cs: Seq<Seq<char>>) -> Seq<Seq<char>>
    decreases cs.len(),
{
    if cs.len() == 0 {
        Seq::empty()
    } else {
        chunk_spaces(cs.drop_last()) + seq![leading(cs.last()), trailing(cs.last())]
    }
}

/// Breaks a text, then keeps each chunk trimmed with its
/// surrounding spaces.
pub fn segment_with_srx(text: &str, table: &SrxTable) -> (r: Segmented)
    ensures
        strings_view(r.sentences@) == chunks(text@, rules_view(table.rules@)).map_values(|c: Seq<char>| trim(c)),
        strings_view(r.spaces@) == chunk_spaces(chunks(text@, rules_view(table.rules@))),
        rules_view(r.brules@) == cut_rules(text@, rules_view(table.rules@)),
{
    let (cs, brules) = break_paragraph(text, &table.rules);
    let ghost cv = strings_view(cs@);
    let mut sentences: Vec<String> = Vec::new();
    let mut spaces: Vec<String> = Vec::new();
    let mut i: usize = 0;
    while i < cs.len()
        invariant
            i <= cs@.len(),
            cv == strings_view(cs@),
            strings_view(sentences@) == cv.subrange(0, i as int).map_values(|c: Seq<char>| trim(c)),
            strings_view(spaces@) == chunk_spaces(cv.subrange(0, i as int)),
        decreases cs@.len() - i,
    {
        let ghost nxt = cv.subrange(0, i + 1);
        assert(nxt.drop_last() =~= cv.subrange(0, i as int));
        let c = chars_of(cs[i].as_str());
        let t = trim_chars(&c);
        let lead = lead_count(&c);
        let lv = slice_vec(&c, 0, lead);
        let rest = slice_vec(&c, lead, c.len());
        let trail = trail_count(&rest);
        let tv = slice_vec(&rest, rest.len() - trail, rest.len());
        let ghost s0 = strings_view(sentences@);
        let ghost p0 = strings_view(spaces@);
        sentences.push(string_of(&t));
        spaces.push(string_of(&lv));
        spaces.push(string_of(&tv));
        assert(strings_view(sentences@) =~= s0.push(trim(cv[i as int])));
        assert(strings_view(spaces@) =~= p0 + seq![leading(cv[i as int]), trailing(cv[i as int])]);
        assert(cv.subrange(0, i + 1).map_values(|c: Seq<char>| trim(c)) =~= cv.subrange(0, i as int).map_values(|c: Seq<char>| trim(c)).push(trim(cv[i as int])));
        i = i + 1;
    }
    assert(cv.subrange(0, cs@.len() as int) =~= cv);
    Segmented { sentences, spaces, brules }
}

fn lead_count(s: &Vec<char>) -> (n: usize)
    ensures
        n == lead_ws(s@),
        n <= s@.len(),
{
    let mut i: usize = 0;
    assert(s@.subrange(0, s@.len() as int) =~= s@);
    while i < s.len() && is_ws_exec(s[i])
        invariant
            i <= s@.len(),
            lead_ws(s@) == i + lead_ws(s@.subrange(i as int, s@.len() as int)),
            forall|k: int| 0 <= k < i ==> is_ws(#[trigger] s@[k]),
        decreases s@.len() - i,
    {
        let ghost r = s@.subrange(i as int, s@.len() as int);
        assert(r.drop_first() =~= s@.subrange(i + 1, s@.len() as int));
        i = i + 1;
    }
    proof {
        assert(s@.subrange(0, s@.len() as int) =~= s@);
        crate::text::lemma_lead_ws_bound(s@);
    }
    i
}

fn trail_count(s: &Vec<char>) -> (n: usize)
    ensures
        n == trail_ws(s@),
        n <= s@.len(),
{
    let mut e: usize = s.len();
    assert(s@.subrange(0, s@.len() as int) =~= s@);
    while e > 0 && is_ws_exec(s[e - 1])
        invariant
            e <= s@.len(),
            trail_ws(s@) == (s@.len() - e) + trail_ws(s@.subrange(0, e as int)),
        decreases e,
    {
        let ghost r = s@.subrange(0, e as int);
        assert(r.drop_last() =~= s@.subrange(0, e - 1));
        e = e - 1;
    }
    proof {
        assert(s@.subrange(0, s@.len() as int) =~= s@);
        crate::text::lemma_trail_ws_bound(s@);
    }
    s.len() - e
}

/// The non-empty sentences of a paragraph.
pub fn split_with_srx(text: &str, table: &SrxTable) -> (r: Vec<String>)
    ensures
        strings_view(r@) == chunks(text@, rules_view(table.rules@)).map_values(|c: Seq<char>| trim(c))
            .filter(|x: Seq<char>| x.len() > 0),
{
    let seg = segment_with_srx(text, table);
    let ghost sv = strings_view(seg.sentences@);
    let ghost f = |x: Seq<char>| x.len() > 0;
    let mut out: Vec<String> = Vec::new();
    let mut i: usize = 0;
    assert(sv.subrange(0, 0).filter(f) =~= Seq::<Seq<char>>::empty()) by { reveal(Seq::filter); }
    while i < seg.sentences.len()
        invariant
            i <= seg.sentences@.len(),
            sv == strings_view(seg.sentences@),
            f == (|x: Seq<char>| x.len() > 0),
            strings_view(out@) == sv.subrange(0, i as int).filter(f),
        decreases seg.sentences@.len() - i,
    {
        let ghost pre = sv.subrange(0, i as int);
        let ghost nxt = sv.subrange(0, i + 1);
        assert(nxt.drop_last() =~= pre);
        assert(nxt.filter(f) == (if f(nxt.last()) { pre.filter(f).push(nxt.last()) } else { pre.filter(f) })) by {
            reveal(Seq::filter);
        }
        if !seg.sentences[i].as_str().is_empty() {
            let ghost ob = strings_view(out@);
            out.push(seg.sentences[i].clone());
            assert(strings_view(out@) =~= ob.push(sv[i as int]));
        }
        i = i + 1;
    }
    assert(sv.subrange(0, seg.sentences@.len() as int) =~= sv);
    out
}


/// The text before the first `-` or `_`.
pub open spec fn first_piece(s: Seq<char>) -> Seq<char>
    decreases s.len(),
{
    if s.len() == 0 || s[0] == '-' || s[0] == '_' { Seq::empty() } else { seq![s[0]] + first_piece(s.drop_first()) }
}

/// Languages written without spaces between words: Chinese, Japanese, Tibetan.
pub open spec fn space_delimited(lang: Seq<char>) -> bool {
    let code = upper_ascii_seq(first_piece(lang));
    code != "ZH"@ && code != "JA"@ && code != "BO"@
}

fn first_piece_exec(s: &Vec<char>, from: usize) -> (r: Vec<char>)
    requires
        from <= s@.len(),
    ensures
        r@ == first_piece(s@.subrange(from as int, s@.len() as int)),
    decreases s@.len() - from,
{
    let ghost rest = s@.subrange(from as int, s@.len() as int);
    if from == s.len() || s[from] == '-' || s[from] == '_' {
        Vec::new()
    } else {
        assert(rest.drop_first() =~= s@.subrange(from + 1, s@.len() as int));
        let mut r = vec![s[from]];
        let more = first_piece_exec(s, from + 1);
        extend_chars(&mut r, &more);
        r
    }
}

/// Whether the language separates words with spaces.
pub fn is_space_delimited(lang: &str) -> (r: bool)
    ensures
        r == space_delimited(lang@),
{
    let v = chars_of(lang);
    let p = first_piece_exec(&v, 0);
    assert(v@.subrange(0, v@.len() as int) =~= lang@);
    let ps = string_of(&p);
    let code = to_ascii_uppercase(ps.as_str());
    !str_eq(code.as_str(), "ZH") && !str_eq(code.as_str(), "JA") && !str_eq(code.as_str(), "BO")
}

pub const LINE_BREAK_OR_TAB: &'static str = "^( *)[\r\n\t]";
pub const SPACY: &'static str = "((\\s|\\\\n|\\\\t|\\\\s)(\\+|\\*)?)+";

/// The spaces between sentences `i - 1` and `i`: the trailing spaces of one
/// and the leading spaces of the next, where recorded.
pub open spec fn gap(spaces: Seq<Seq<char>>, i: int) -> Seq<char> {
    if 2 * i < spaces.len() { spaces[2 * i - 1] + spaces[2 * i] } else { Seq::empty() }
}

/// The leading spaces a line-break match captured in `sp`, if it matched.
pub open spec fn break_lead(sp: Seq<char>) -> Option<Seq<char>> {
    if regex_valid(LINE_BREAK_OR_TAB@) && regex_captures(LINE_BREAK_OR_TAB@, sp).len() > 0 {
        let g = regex_captures(LINE_BREAK_OR_TAB@, sp)[0];
        Some(if g.len() > 1 && g[1] is Some { g[1]->0 } else { Seq::empty() })
    } else {
        None
    }
}

pub open spec fn spacy(s: Seq<char>) -> bool {
    regex_valid(SPACY@) && regex_match(SPACY@, s)
}

/// The separator put before sentence `i` of the translation.
pub open spec fn glue_sep(source_lang: Seq<char>, target_lang: Seq<char>, res: Seq<char>, spaces: Seq<Seq<char>>,
    brules: Seq<RuleView>, i: int) -> Seq<char> {
    let sp = gap(spaces, i);
    if !space_delimited(target_lang) {
        if res.len() == 0 {
            sp
        } else {
            match break_lead(sp) {
                Some(left) => if left.len() > 0 && left.len() <= sp.len() { sp.subrange(left.len() as int, sp.len() as int) } else { sp },
                None => if res.last() != '.' {
                    let before = if i - 1 < brules.len() { brules[i - 1].before } else { Seq::empty() };
                    let after = if i - 1 < brules.len() { brules[i - 1].after } else { Seq::empty() };
                    if !spacy(before) || !spacy(after) { Seq::empty() } else { sp }
                } else {
                    sp
                },
            }
        }
    } else if !space_delimited(source_lang) && sp.len() == 0 {
        seq![' ']
    } else {
        sp
    }
}

/// The sentences `0..k` glued back together.
pub open spec fn glued(source_lang: Seq<char>, target_lang: Seq<char>, sentences: Seq<Seq<char>>, spaces: Seq<Seq<char>>,
    brules: Seq<RuleView>, k: int) -> Seq<char>
    decreases k,
{
    if k <= 0 {
        Seq::empty()
    } else if k == 1 {
        sentences[0]
    } else {
        let res = glued(source_lang, target_lang, sentences, spaces, brules, k - 1);
        res + glue_sep(source_lang, target_lang, res, spaces, brules, k - 1) + sentences[k - 1]
    }
}

fn opt_text(o: &Option<String>) -> (r: Vec<char>)
    ensures
        r@ == (match o { Some(s) => s@, None => Seq::empty() }),
{
    match o {
        Some(s) => chars_of(s.as_str()),
        None => Vec::new(),
    }
}

fn glue_sep_exec(source_lang: &str, target_lang: &str, res: &Vec<char>, spaces: &[String], brules: &[SrxRule], i: usize) -> (r: Vec<char>)
    requires
        1 <= i,
    ensures
        r@ == glue_sep(source_lang@, target_lang@, res@, strings_view(spaces@), rules_view(brules@), i as int),
{
    let mut sp: Vec<char> = Vec::new();
    if i < spaces.len() / 2 + (spaces.len() % 2) && 2 * i < spaces.len() {
        sp = chars_of(spaces[2 * i - 1].as_str());
        let b = chars_of(spaces[2 * i].as_str());
        extend_chars(&mut sp, &b);
    }
    proof {
        if 2 * i < spaces@.len() {
            assert(i < spaces@.len() / 2 + (spaces@.len() % 2));
        }
    }
    if !is_space_delimited(target_lang) {
        if res.len() == 0 {
            return sp;
        }
        let spt = string_of(&sp);
        let lead: Option<Vec<char>> = match compile(LINE_BREAK_OR_TAB) {
            Some(p) => {
                let caps = captures_all(&p, spt.as_str());
                if caps.len() > 0 {
                    let g = &caps[0];
                    let left: Vec<char> = if g.len() > 1 { opt_text(&g[1]) } else { Vec::new() };
                    Some(left)
                } else {
                    None
                }
            },
            None => None,
        };
        match lead {
            Some(left) => {
                if left.len() > 0 && left.len() <= sp.len() {
                    slice_vec(&sp, left.len(), sp.len())
                } else {
                    sp
                }
            },
            None => {
                if res[res.len() - 1] != '.' {
                    let (before, after) = if i - 1 < brules.len() {
                        (brules[i - 1].before.clone(), brules[i - 1].after.clone())
                    } else {
                        (String::new(), String::new())
                    };
                    let sb = match compile(SPACY) { Some(p) => is_match(&p, before.as_str()), None => false };
                    let sa = match compile(SPACY) { Some(p) => is_match(&p, after.as_str()), None => false };
                    if !sb || !sa { Vec::new() } else { sp }
                } else {
                    sp
                }
            },
        }
    } else if !is_space_delimited(source_lang) && sp.len() == 0 {
        vec![' ']
    } else {
        sp
    }
}

/// The sentences joined with the spaces recorded
/// between them, adjusted for languages written without spaces.
pub fn glue(source_lang: &str, target_lang: &str, sentences: &[String], spaces: &[String], brules: &[SrxRule]) -> (r: String)
    ensures
        r@ == glued(source_lang@, target_lang@, strings_view(sentences@), strings_view(spaces@), rules_view(brules@),
            sentences@.len() as int),
{
    if sentences.len() == 0 {
        return String::new();
    }
    let mut res = chars_of(sentences[0].as_str());
    let mut i: usize = 1;
    while i < sentences.len()
        invariant
            1 <= i <= sentences@.len(),
            res@ == glued(source_lang@, target_lang@, strings_view(sentences@), strings_view(spaces@), rules_view(brules@), i as int),
        decreases sentences@.len() - i,
    {
        let sep = glue_sep_exec(source_lang, target_lang, &res, spaces, brules, i);
        extend_chars(&mut res, &sep);
        let t = chars_of(sentences[i].as_str());
        extend_chars(&mut res, &t);
        i = i + 1;
    }
    string_of(&res)
}


/// The rules, language maps and cascade flag of an SRX document. Rule
/// sets are kept in document order under their names; a later set of the
/// same name replaces an earlier one.
pub struct SrxDocument {
    pub languages: Vec<(String, SrxTable)>,
    pub maps: Vec<(String, String)>,
    pub cascade: bool,
}

pub ghost struct DocView {
    pub languages: Seq<(Seq<char>, Seq<RuleView>)>,
    pub maps: Seq<(Seq<char>, Seq<char>)>,
    pub cascade: bool,
}

impl SrxDocument {
    pub open spec fn view(&self) -> DocView {
        DocView {
            languages: langs_view(self.languages@),
            maps: maps_view(self.maps@),
            cascade: self.cascade,
        }
    }
}

pub open spec fn is_nl(c: char) -> bool {
    c == '\n' || c == '\r'
}

pub open spec fn lead_nl(s: Seq<char>) -> nat
    decreases s.len(),
{
    if s.len() > 0 && is_nl(s[0]) { 1 + lead_nl(s.drop_first()) } else { 0 }
}

pub open spec fn trail_nl(s: Seq<char>) -> nat
    decreases s.len(),
{
    if s.len() > 0 && is_nl(s.last()) { 1 + trail_nl(s.drop_last()) } else { 0 }
}

/// The text without leading and trailing line breaks (spaces are kept).
pub open spec fn strip_newlines(s: Seq<char>) -> Seq<char> {
    let rest = s.subrange(lead_nl(s) as int, s.len() as int);
    rest.subrange(0, rest.len() - trail_nl(rest))
}

/// A rule side as the document writes it: line breaks around it dropped,
/// entities decoded.
pub open spec fn unescaped(s: Seq<char>) -> Seq<char> {
    html_decoded(strip_newlines(s))
}

pub open spec fn rule_pattern() -> Seq<char> {
    "(?s)<rule\\s+break=\"(yes|no)\"\\s*>.*?<beforebreak>(.*?)</beforebreak>\\s*<afterbreak>(.*?)</afterbreak>"@
}

pub open spec fn lang_pattern() -> Seq<char> {
    "(?s)<languagerule\\s+languagerulename=\"([^\"]+)\">(.*?)</languagerule>"@
}

pub open spec fn map_pattern() -> Seq<char> {
    "<languagemap\\s+languagepattern=\"([^\"]+)\"\\s+languagerulename=\"([^\"]+)\""@
}

/// Capture group `i` of a match, empty where it is absent.
pub open spec fn group(c: Seq<Option<Seq<char>>>, i: int) -> Seq<char> {
    if 0 <= i < c.len() {
        match c[i] {
            Some(t) => t,
            None => Seq::empty(),
        }
    } else {
        Seq::empty()
    }
}

pub open spec fn rule_of(c: Seq<Option<Seq<char>>>) -> RuleView {
    RuleView { breaks: group(c, 1) == "yes"@, before: unescaped(group(c, 2)), after: unescaped(group(c, 3)) }
}

/// The rules of a language-rule body, in order.
pub open spec fn body_rules(body: Seq<char>) -> Seq<RuleView> {
    regex_captures(rule_pattern(), body).map_values(|c: Seq<Option<Seq<char>>>| rule_of(c))
}

/// The first index of a rule set with this name.
pub open spec fn find_name(langs: Seq<(Seq<char>, Seq<RuleView>)>, name: Seq<char>, i: int) -> Option<int>
    decreases langs.len() - i,
{
    if i < 0 || i >= langs.len() {
        None
    } else if langs[i].0 == name {
        Some(i)
    } else {
        find_name(langs, name, i + 1)
    }
}

pub open spec fn insert_named(langs: Seq<(Seq<char>, Seq<RuleView>)>, name: Seq<char>, rules: Seq<RuleView>)
    -> Seq<(Seq<char>, Seq<RuleView>)>
{
    match find_name(langs, name, 0) {
        Some(i) => langs.update(i, (name, rules)),
        None => langs.push((name, rules)),
    }
}

pub open spec fn langs_from(caps: Seq<Seq<Option<Seq<char>>>>, k: int) -> Seq<(Seq<char>, Seq<RuleView>)>
    decreases k,
{
    if k <= 0 || k > caps.len() {
        Seq::empty()
    } else {
        insert_named(langs_from(caps, k - 1), group(caps[k - 1], 1), body_rules(group(caps[k - 1], 2)))
    }
}

/// The document an SRX text describes.
pub open spec fn parsed_document(raw: Seq<char>) -> DocView {
    let lc = regex_captures(lang_pattern(), raw);
    let mc = regex_captures(map_pattern(), raw);
    DocView {
        languages: if regex_valid(lang_pattern()) && regex_valid(rule_pattern()) {
            langs_from(lc, lc.len() as int)
        } else {
            Seq::empty()
        },
        maps: if regex_valid(map_pattern()) {
            cap_pairs(mc)
        } else {
            Seq::empty()
        },
        cascade: !contains(raw, "cascade=\"no\""@),
    }
}

/// The rules stored under a name (none where there is no such set).
pub open spec fn lookup(langs: Seq<(Seq<char>, Seq<RuleView>)>, name: Seq<char>) -> Seq<RuleView> {
    match find_name(langs, name, 0) {
        Some(i) => langs[i].1,
        None => Seq::empty(),
    }
}

/// `xx_YY` written `xx-YY`, surrounding spaces dropped.
pub open spec fn language_tag(lang: Seq<char>) -> Seq<char> {
    replace_all(trim(lang), "_"@, "-"@)
}

pub open spec fn strip_dot_star(s: Seq<char>) -> Seq<char>
    decreases s.len(),
{
    if s.len() >= 2 && s[s.len() - 2] == '.' && s[s.len() - 1] == '*' {
        strip_dot_star(s.subrange(0, s.len() - 2))
    } else {
        s
    }
}

pub open spec fn strip_star(s: Seq<char>) -> Seq<char>
    decreases s.len(),
{
    if s.len() >= 1 && s[s.len() - 1] == '*' { strip_star(s.drop_last()) } else { s }
}

/// Whether a language map's pattern takes the tag: as a case-insensitive
/// regular expression, or, where the pattern is refused, by its stem as a
/// case-insensitive prefix.
pub open spec fn map_matches(pattern: Seq<char>, tag: Seq<char>) -> bool {
    let jp = java_pattern(pattern, true);
    if regex_valid(jp) {
        regex_match(jp, tag)
    } else {
        let stem = strip_star(strip_dot_star(pattern));
        upper_ascii_seq(tag) == upper_ascii_seq(stem) || starts_with(upper_ascii_seq(tag), upper_ascii_seq(stem))
    }
}

/// The rules of the maps (from index `k` on) that take the tag, stopping at
/// the first that does unless the document cascades.
pub open spec fn mapped_rules(doc: DocView, tag: Seq<char>, k: int) -> Seq<RuleView>
    decreases doc.maps.len() - k,
{
    if k < 0 || k >= doc.maps.len() {
        Seq::empty()
    } else if map_matches(doc.maps[k].0, tag) {
        lookup(doc.languages, doc.maps[k].1) + (if doc.cascade { mapped_rules(doc, tag, k + 1) } else { Seq::empty() })
    } else {
        mapped_rules(doc, tag, k + 1)
    }
}

/// The rules for a language: those of every map that takes it; without
/// maps, the set named after the language and then `Default`.
pub open spec fn table_rules(doc: DocView, lang: Seq<char>) -> Seq<RuleView> {
    if doc.maps.len() == 0 {
        lookup(doc.languages, lang) + lookup(doc.languages, "Default"@)
    } else {
        mapped_rules(doc, language_tag(lang), 0)
    }
}

fn lead_nl_exec(s: &Vec<char>) -> (n: usize)
    ensures
        n == lead_nl(s@),
        n <= s@.len(),
{
    let mut i: usize = 0;
    assert(s@.subrange(0, s@.len() as int) =~= s@);
    while i < s.len() && (s[i] == '\n' || s[i] == '\r')
        invariant
            i <= s@.len(),
            lead_nl(s@) == i + lead_nl(s@.subrange(i as int, s@.len() as int)),
        decreases s@.len() - i,
    {
        let ghost r = s@.subrange(i as int, s@.len() as int);
        assert(r.drop_first() =~= s@.subrange(i + 1, s@.len() as int));
        i = i + 1;
    }
    proof {
        let r = s@.subrange(i as int, s@.len() as int);
        if i < s@.len() {
            assert(r[0] == s@[i as int]);
        }
    }
    i
}

fn trail_nl_exec(s: &Vec<char>) -> (n: usize)
    ensures
        n == trail_nl(s@),
        n <= s@.len(),
{
    let mut e: usize = s.len();
    assert(s@.subrange(0, s@.len() as int) =~= s@);
    while e > 0 && (s[e - 1] == '\n' || s[e - 1] == '\r')
        invariant
            e <= s@.len(),
            trail_nl(s@) == (s@.len() - e) + trail_nl(s@.subrange(0, e as int)),
        decreases e,
    {
        let ghost r = s@.subrange(0, e as int);
        assert(r.drop_last() =~= s@.subrange(0, e - 1));
        e = e - 1;
    }
    proof {
        let r = s@.subrange(0, e as int);
        if e > 0 {
            assert(r.last() == s@[e - 1]);
        }
    }
    assert(s@.subrange(0, s@.len() as int) =~= s@);
    s.len() - e
}

/// A rule side with its surrounding line breaks dropped and its entities
/// decoded.
pub fn unescape_xml(s: &str) -> (r: String)
    ensures
        r@ == unescaped(s@),
{
    let v = chars_of(s);
    let a = lead_nl_exec(&v);
    let rest = slice_vec(&v, a, v.len());
    let t = trail_nl_exec(&rest);
    let core = slice_vec(&rest, 0, rest.len() - t);
    let c = string_of(&core);
    decode_html(c.as_str())
}

pub open spec fn opt_strs(c: Seq<Option<String>>) -> Seq<Option<Seq<char>>> {
    c.map_values(|o: Option<String>| match o { Some(s) => Some(s@), None => None })
}

fn group_exec(c: &Vec<Option<String>>, i: usize) -> (r: String)
    ensures
        r@ == group(opt_strs(c@), i as int),
{
    if i < c.len() {
        match &c[i] {
            Some(t) => t.clone(),
            None => String::new(),
        }
    } else {
        String::new()
    }
}

proof fn lemma_rules_push(v: Seq<SrxRule>, x: SrxRule)
    ensures
        rules_view(v.push(x)) =~= rules_view(v).push(RuleView { breaks: x.breaks, before: x.before@, after: x.after@ }),
{
    assert forall|k: int| 0 <= k < v.len() + 1 implies rules_view(v.push(x))[k] == rules_view(v).push(RuleView { breaks: x.breaks, before: x.before@, after: x.after@ })[k] by {
        if k < v.len() {
            assert(v.push(x)[k] == v[k]);
        }
    }
}

fn rules_of_body(body: &str) -> (r: Vec<SrxRule>)
    requires
        regex_valid(rule_pattern()),
    ensures
        rules_view(r@) == body_rules(body@),
{
    let p = compile("(?s)<rule\\s+break=\"(yes|no)\"\\s*>.*?<beforebreak>(.*?)</beforebreak>\\s*<afterbreak>(.*?)</afterbreak>");
    let p = match p {
        Some(p) => p,
        None => {
            return Vec::new();
        },
    };
    let caps = captures_all(&p, body);
    let ghost cv = groups_view(caps@);
    let mut out: Vec<SrxRule> = Vec::new();
    let mut k: usize = 0;
    while k < caps.len()
        invariant
            k <= caps@.len(),
            cv == groups_view(caps@),
            cv == regex_captures(rule_pattern(), body@),
            rules_view(out@) =~= cv.subrange(0, k as int).map_values(|c: Seq<Option<Seq<char>>>| rule_of(c)),
        decreases caps@.len() - k,
    {
        let c = &caps[k];
        assert(opt_strs(c@) == cv[k as int]);
        let g1 = group_exec(c, 1);
        let g2 = group_exec(c, 2);
        let g3 = group_exec(c, 3);
        proof { reveal_strlit("yes"); }
        let rule = SrxRule { breaks: str_eq(g1.as_str(), "yes"), before: unescape_xml(g2.as_str()), after: unescape_xml(g3.as_str()) };
        let ghost ov = out@;
        let ghost rv = rule;
        out.push(rule);
        proof {
            lemma_rules_push(ov, rv);
            assert(cv.subrange(0, k + 1) =~= cv.subrange(0, k as int).push(cv[k as int]));
        }
        k = k + 1;
    }
    assert(cv.subrange(0, caps@.len() as int) =~= cv);
    out
}

fn copy_rules(rs: &Vec<SrxRule>) -> (r: Vec<SrxRule>)
    ensures
        rules_view(r@) == rules_view(rs@),
{
    let mut out: Vec<SrxRule> = Vec::new();
    let mut k: usize = 0;
    while k < rs.len()
        invariant
            k <= rs@.len(),
            rules_view(out@) =~= rules_view(rs@).subrange(0, k as int),
        decreases rs@.len() - k,
    {
        let c = copy_rule(&rs[k]);
        let ghost ov = out@;
        let ghost cv = c;
        out.push(c);
        proof { lemma_rules_push(ov, cv); }
        k = k + 1;
    }
    out
}

fn append_rules(out: &mut Vec<SrxRule>, rs: &Vec<SrxRule>)
    ensures
        rules_view(final(out)@) == rules_view(old(out)@) + rules_view(rs@),
{
    let ghost start = rules_view(out@);
    let mut k: usize = 0;
    while k < rs.len()
        invariant
            k <= rs@.len(),
            rules_view(out@) =~= start + rules_view(rs@).subrange(0, k as int),
        decreases rs@.len() - k,
    {
        let c = copy_rule(&rs[k]);
        let ghost ov = out@;
        let ghost cv = c;
        out.push(c);
        proof { lemma_rules_push(ov, cv); }
        k = k + 1;
    }
}

pub open spec fn langs_view(v: Seq<(String, SrxTable)>) -> Seq<(Seq<char>, Seq<RuleView>)> {
    Seq::new(v.len(), |i: int| (v[i].0@, rules_view(v[i].1.rules@)))
}

pub open spec fn maps_view(v: Seq<(String, String)>) -> Seq<(Seq<char>, Seq<char>)> {
    Seq::new(v.len(), |i: int| (v[i].0@, v[i].1@))
}

pub open spec fn cap_pairs(c: Seq<Seq<Option<Seq<char>>>>) -> Seq<(Seq<char>, Seq<char>)> {
    Seq::new(c.len(), |i: int| (group(c[i], 1), group(c[i], 2)))
}

fn find_name_exec(langs: &Vec<(String, SrxTable)>, name: &str) -> (r: Option<usize>)
    ensures
        match r {
            Some(i) => find_name(langs_view(langs@), name@, 0) == Some(i as int) && i < langs@.len(),
            None => find_name(langs_view(langs@), name@, 0) is None,
        },
{
    let ghost lv = langs_view(langs@);
    let mut i: usize = 0;
    while i < langs.len()
        invariant
            i <= langs@.len(),
            lv == langs_view(langs@),
            find_name(lv, name@, 0) == find_name(lv, name@, i as int),
        decreases langs@.len() - i,
    {
        assert(lv[i as int].0 == langs@[i as int].0@);
        if str_eq(langs[i].0.as_str(), name) {
            return Some(i);
        }
        i = i + 1;
    }
    None
}

/// Reads the language rules, language maps and cascade flag of an SRX text.
pub fn parse_srx_document(raw: &str) -> (r: SrxDocument)
    ensures
        r.view() == parsed_document(raw@),
{
    proof {
        reveal_strlit("cascade=\"no\"");
    }
    let cascade = !str_contains(raw, "cascade=\"no\"");
    let mut languages: Vec<(String, SrxTable)> = Vec::new();
    let mut maps: Vec<(String, String)> = Vec::new();
    let lp = compile("(?s)<languagerule\\s+languagerulename=\"([^\"]+)\">(.*?)</languagerule>");
    let rp = compile("(?s)<rule\\s+break=\"(yes|no)\"\\s*>.*?<beforebreak>(.*?)</beforebreak>\\s*<afterbreak>(.*?)</afterbreak>");
    if let (Some(lp), Some(_)) = (&lp, &rp) {
        let caps = captures_all(lp, raw);
        let ghost cv = groups_view(caps@);
        let mut k: usize = 0;
        while k < caps.len()
            invariant
                k <= caps@.len(),
                cv == groups_view(caps@),
                cv == regex_captures(lang_pattern(), raw@),
                regex_valid(rule_pattern()),
                langs_view(languages@) == langs_from(cv, k as int),
            decreases caps@.len() - k,
        {
            let c = &caps[k];
            assert(opt_strs(c@) == cv[k as int]);
            let name = group_exec(c, 1);
            let body = group_exec(c, 2);
            let rules = rules_of_body(body.as_str());
            let ghost lv = langs_view(languages@);
            match find_name_exec(&languages, name.as_str()) {
                Some(i) => {
                    languages.set(i, (name, SrxTable { rules }));
                    assert(langs_view(languages@) =~= lv.update(i as int, (group(cv[k as int], 1), body_rules(group(cv[k as int], 2)))));
                },
                None => {
                    languages.push((name, SrxTable { rules }));
                    assert(langs_view(languages@) =~= lv.push((group(cv[k as int], 1), body_rules(group(cv[k as int], 2)))));
                },
            }
            k = k + 1;
        }
    }
    let mp = compile("<languagemap\\s+languagepattern=\"([^\"]+)\"\\s+languagerulename=\"([^\"]+)\"");
    if let Some(mp) = &mp {
        let caps = captures_all(mp, raw);
        let ghost cv = groups_view(caps@);
        let mut k: usize = 0;
        while k < caps.len()
            invariant
                k <= caps@.len(),
                cv == groups_view(caps@),
                cv == regex_captures(map_pattern(), raw@),
                maps@.len() == k,
                cv.len() == caps@.len(),
                maps_view(maps@) =~= cap_pairs(cv.subrange(0, k as int)),
            decreases caps@.len() - k,
        {
            let c = &caps[k];
            assert(opt_strs(c@) == cv[k as int]);
            let a = group_exec(c, 1);
            let b = group_exec(c, 2);
            let ghost old_maps = maps@;
            maps.push((a, b));
            proof {
                let nv = cap_pairs(cv.subrange(0, k + 1));
                assert forall|j: int| 0 <= j < k + 1 implies maps_view(maps@)[j] == nv[j] by {
                    if j < k {
                        assert(maps@[j] == old_maps[j]);
                        assert(maps_view(old_maps)[j] == cap_pairs(cv.subrange(0, k as int))[j]);
                    }
                }
                assert(maps_view(maps@) =~= nv);
            }
            k = k + 1;
        }
        assert(cv.subrange(0, caps@.len() as int) =~= cv);
        assert(maps_view(maps@) == parsed_document(raw@).maps);
    }
    assert(langs_view(languages@) == parsed_document(raw@).languages);
    assert(maps_view(maps@) == parsed_document(raw@).maps);
    SrxDocument { languages, maps, cascade }
}

fn lookup_exec(langs: &Vec<(String, SrxTable)>, name: &str) -> (r: Vec<SrxRule>)
    ensures
        rules_view(r@) == lookup(langs_view(langs@), name@),
{
    match find_name_exec(langs, name) {
        Some(i) => copy_rules(&langs[i].1.rules),
        None => Vec::new(),
    }
}

fn strip_suffixes(p: &Vec<char>) -> (r: Vec<char>)
    ensures
        r@ == strip_star(strip_dot_star(p@)),
{
    let mut e: usize = p.len();
    assert(p@.subrange(0, p@.len() as int) =~= p@);
    while e >= 2 && p[e - 2] == '.' && p[e - 1] == '*'
        invariant
            e <= p@.len(),
            strip_dot_star(p@) == strip_dot_star(p@.subrange(0, e as int)),
        decreases e,
    {
        let ghost q = p@.subrange(0, e as int);
        assert(q.subrange(0, q.len() - 2) =~= p@.subrange(0, e - 2));
        e = e - 2;
    }
    proof {
        let q = p@.subrange(0, e as int);
        if e >= 2 {
            assert(q[q.len() - 2] == p@[e - 2] && q[q.len() - 1] == p@[e - 1]);
        }
    }
    let mut f = e;
    while f >= 1 && p[f - 1] == '*'
        invariant
            f <= e <= p@.len(),
            strip_dot_star(p@) == p@.subrange(0, e as int),
            strip_star(strip_dot_star(p@)) == strip_star(p@.subrange(0, f as int)),
        decreases f,
    {
        let ghost q = p@.subrange(0, f as int);
        assert(q.drop_last() =~= p@.subrange(0, f - 1));
        f = f - 1;
    }
    proof {
        let q = p@.subrange(0, f as int);
        if f >= 1 {
            assert(q.last() == p@[f - 1]);
        }
    }
    slice_vec(p, 0, f)
}

fn map_matches_exec(pattern: &str, tag: &str) -> (r: bool)
    ensures
        r == map_matches(pattern@, tag@),
{
    match compile_java_regex(pattern, true) {
        Some(re) => is_match(&re, tag),
        None => {
            let pv = chars_of(pattern);
            let stem = strip_suffixes(&pv);
            let st = string_of(&stem);
            let ut = to_ascii_uppercase(tag);
            let us = to_ascii_uppercase(st.as_str());
            str_eq(ut.as_str(), us.as_str()) || str_starts_with(ut.as_str(), us.as_str())
        },
    }
}

/// The rules for a language: those of every language map that takes it (only
/// the first, where the document does not cascade); without maps, the set
/// named after the language followed by `Default`.
pub fn table_for(doc: &SrxDocument, lang: &str) -> (r: SrxTable)
    ensures
        rules_view(r.rules@) == table_rules(doc.view(), lang@),
{
    let ghost dv = doc.view();
    assert(langs_view(doc.languages@) == dv.languages);
    if doc.maps.len() == 0 {
        let mut rules = lookup_exec(&doc.languages, lang);
        let def = lookup_exec(&doc.languages, "Default");
        append_rules(&mut rules, &def);
        return SrxTable { rules };
    }
    let t = trim_str(lang);
    let tag = replace_str(t.as_str(), "_", "-");
    let mut rules: Vec<SrxRule> = Vec::new();
    let mut k: usize = 0;
    let mut stop = false;
    while k < doc.maps.len() && !stop
        invariant
            k <= doc.maps@.len(),
            dv == doc.view(),
            langs_view(doc.languages@) == dv.languages,
            tag@ == language_tag(lang@),
            !stop ==> mapped_rules(dv, tag@, 0) == rules_view(rules@) + mapped_rules(dv, tag@, k as int),
            stop ==> mapped_rules(dv, tag@, 0) == rules_view(rules@),
        decreases doc.maps@.len() - k,
    {
        let m = &doc.maps[k];
        assert(dv.maps[k as int] == (m.0@, m.1@));
        if map_matches_exec(m.0.as_str(), tag.as_str()) {
            let found = lookup_exec(&doc.languages, m.1.as_str());
            let ghost before = rules_view(rules@);
            append_rules(&mut rules, &found);
            if !doc.cascade {
                stop = true;
                assert(rules_view(rules@) =~= before + lookup(dv.languages, dv.maps[k as int].1) + Seq::<RuleView>::empty());
            }
        }
        k = k + 1;
    }
    if !stop {
        assert(mapped_rules(dv, tag@, k as int) =~= Seq::<RuleView>::empty());
        assert(rules_view(rules@) + Seq::<RuleView>::empty() =~= rules_view(rules@));
    }
    SrxTable { rules }
}

/// The rules an SRX text gives a language.
pub fn parse_srx(raw: &str, language_rule: &str) -> (r: SrxTable)
    ensures
        rules_view(r.rules@) == table_rules(parsed_document(raw@), language_rule@),
{
    let doc = parse_srx_document(raw);
    table_for(&doc, language_rule)
}

/// The `Default` rules of an SRX text as (before-pattern, breaks) pairs.
pub fn load_srx_rules(raw: &str) -> (r: Vec<(String, bool)>)
    ensures
        r@.len() == table_rules(parsed_document(raw@), "Default"@).len(),
        forall|i: int| 0 <= i < r@.len() ==> (#[trigger] r@[i]).0@ == table_rules(parsed_document(raw@), "Default"@)[i].before
            && r@[i].1 == table_rules(parsed_document(raw@), "Default"@)[i].breaks,
{
    let table = parse_srx(raw, "Default");
    let ghost tv = rules_view(table.rules@);
    let mut out: Vec<(String, bool)> = Vec::new();
    let mut i: usize = 0;
    while i < table.rules.len()
        invariant
            i <= table.rules@.len(),
            tv == rules_view(table.rules@),
            out@.len() == i,
            forall|k: int| 0 <= k < i ==> (#[trigger] out@[k]).0@ == tv[k].before && out@[k].1 == tv[k].breaks,
        decreases table.rules@.len() - i,
    {
        out.push((table.rules[i].before.clone(), table.rules[i].breaks));
        i = i + 1;
    }
    out
}

/// The sentences of a text under the given rules, or the whole text as one
/// piece when segmentation is off (none for blank text).
pub fn split_sentences_lang(text: &str, enabled: bool, table: &SrxTable) -> (r: Vec<String>)
    ensures
        !enabled ==> (if trim(text@).len() == 0 { r@.len() == 0 } else { r@.len() == 1 && r@[0]@ == text@ }),
        enabled ==> strings_view(r@) == chunks(text@, rules_view(table.rules@)).map_values(|c: Seq<char>| trim(c))
            .filter(|x: Seq<char>| x.len() > 0),
{
    if !enabled {
        let t = trim_str(text);
        if t.as_str().is_empty() {
            return Vec::new();
        }
        return vec![text.to_string()];
    }
    split_with_srx(text, table)
}

/// [`split_sentences_lang`] with the rules the caller loaded for the
/// default language.
pub fn split_sentences(text: &str, enabled: bool, default_table: &SrxTable) -> (r: Vec<String>)
    ensures
        !enabled ==> (if trim(text@).len() == 0 { r@.len() == 0 } else { r@.len() == 1 && r@[0]@ == text@ }),
        enabled ==> strings_view(r@) == chunks(text@, rules_view(default_table.rules@)).map_values(|c: Seq<char>| trim(c))
            .filter(|x: Seq<char>| x.len() > 0),
{
    split_sentences_lang(text, enabled, default_table)
}

/// Gluing the translations of a source written without spaces into a
/// target written with them: where no gap was recorded between two
/// sentences, exactly one space joins them.
pub proof fn law_glue_spaces_unspaced_source(src: Seq<char>, tgt: Seq<char>, a: Seq<char>, b: Seq<char>,
    spaces: Seq<Seq<char>>, brules: Seq<RuleView>)
    requires
        !space_delimited(src),
        space_delimited(tgt),
        spaces.len() <= 2,
    ensures
        glued(src, tgt, seq![a, b], spaces, brules, 2) == a + seq![' '] + b,
{
    assert(glued(src, tgt, seq![a, b], spaces, brules, 1) == a);
    assert(gap(spaces, 1) == Seq::<char>::empty());
}

/// Each further sentence of such a translation follows the text glued so
/// far after one space, where no gap was recorded before it.
pub proof fn law_glue_step_unspaced_source(src: Seq<char>, tgt: Seq<char>, sentences: Seq<Seq<char>>,
    spaces: Seq<Seq<char>>, brules: Seq<RuleView>, k: int)
    requires
        !space_delimited(src),
        space_delimited(tgt),
        1 <= k < sentences.len(),
        2 * k >= spaces.len(),
    ensures
        glued(src, tgt, sentences, spaces, brules, k + 1)
            == glued(src, tgt, sentences, spaces, brules, k) + seq![' '] + sentences[k],
{
}


/// Into a language written with spaces, the recorded gap between two
/// sentences (the spaces after the first and before the second) is put
/// back as it was, whenever the source is written with spaces too or the
/// gap is not empty.
pub proof fn law_glue_keeps_recorded_gap(src: Seq<char>, tgt: Seq<char>, a: Seq<char>, b: Seq<char>,
    spaces: Seq<Seq<char>>, brules: Seq<RuleView>)
    requires
        space_delimited(tgt),
        spaces.len() >= 3,
        space_delimited(src) || spaces[1].len() + spaces[2].len() > 0,
    ensures
        glued(src, tgt, seq![a, b], spaces, brules, 2) == a + spaces[1] + spaces[2] + b,
{
    assert(glued(src, tgt, seq![a, b], spaces, brules, 1) == a);
}

/// Into a language written with spaces, sentences of a source written
/// with spaces are joined with nothing between them where no gap was
/// recorded.
pub proof fn law_glue_no_gap_spaced_source(src: Seq<char>, tgt: Seq<char>, a: Seq<char>, b: Seq<char>,
    spaces: Seq<Seq<char>>, brules: Seq<RuleView>)
    requires
        space_delimited(src),
        space_delimited(tgt),
        spaces.len() <= 2,
    ensures
        glued(src, tgt, seq![a, b], spaces, brules, 2) == a + b,
{
    assert(glued(src, tgt, seq![a, b], spaces, brules, 1) == a);
    assert(gap(spaces, 1) == Seq::<char>::empty());
}

/// Into a language written without spaces, the recorded gap after a
/// sentence ending in a full stop is kept, where it holds no line break
/// or tab.
pub proof fn law_glue_unspaced_target_after_stop(src: Seq<char>, tgt: Seq<char>, a: Seq<char>, b: Seq<char>,
    spaces: Seq<Seq<char>>, brules: Seq<RuleView>)
    requires
        !space_delimited(tgt),
        a.len() > 0,
        a.last() == '.',
        spaces.len() >= 3,
        break_lead(spaces[1] + spaces[2]) is None,
    ensures
        glued(src, tgt, seq![a, b], spaces, brules, 2) == a + spaces[1] + spaces[2] + b,
{
    assert(glued(src, tgt, seq![a, b], spaces, brules, 1) == a);
}

/// Into a language written without spaces, the recorded gap after a
/// sentence not ending in a full stop is dropped, unless both sides of the
/// rule that broke there are whitespace patterns.
pub proof fn law_glue_unspaced_target_drops_gap(src: Seq<char>, tgt: Seq<char>, a: Seq<char>, b: Seq<char>,
    spaces: Seq<Seq<char>>, brules: Seq<RuleView>)
    requires
        !space_delimited(tgt),
        a.len() > 0,
        a.last() != '.',
        spaces.len() >= 3,
        break_lead(spaces[1] + spaces[2]) is None,
        brules.len() >= 1,
        !spacy(brules[0].before) || !spacy(brules[0].after),
    ensures
        glued(src, tgt, seq![a, b], spaces, brules, 2) == a + b,
{
    assert(glued(src, tgt, seq![a, b], spaces, brules, 1) == a);
}

/// The pieces written one after another.
pub open spec fn concat_all(ps: Seq<Seq<char>>) -> Seq<char>
    decreases ps.len(),
{
    if ps.len() == 0 { Seq::empty() } else { concat_all(ps.drop_last()) + ps.last() }
}

/// The cuts up to character `k` rise strictly and lie in `1..=k`.
proof fn lemma_cut_points_rise(text: Seq<char>, rules: Seq<RuleView>, k: int)
    ensures
        forall|i: int| 0 <= i < cut_points(text, rules, k).len() ==> 1 <= #[trigger] cut_points(text, rules, k)[i] <= k,
        forall|i: int, j: int| 0 <= i < j < cut_points(text, rules, k).len()
            ==> #[trigger] cut_points(text, rules, k)[i] < #[trigger] cut_points(text, rules, k)[j],
    decreases k,
{
    if k > 0 {
        lemma_cut_points_rise(text, rules, k - 1);
        let prev = cut_points(text, rules, k - 1);
        let c = cut_points(text, rules, k);
        assert forall|i: int| 0 <= i < c.len() implies 1 <= #[trigger] c[i] <= k by {
            if i < prev.len() {
                assert(c[i] == prev[i]);
            }
        }
        assert forall|i: int, j: int| 0 <= i < j < c.len() implies #[trigger] c[i] < #[trigger] c[j] by {
            assert(c[i] == prev[i]);
            if j < prev.len() {
                assert(c[j] == prev[j]);
            }
        }
    }
}

/// The pieces between rising cuts spell the text up to the last cut.
proof fn lemma_pieces_spell(text: Seq<char>, cuts: Seq<int>)
    requires
        forall|i: int| 0 <= i < cuts.len() ==> 1 <= #[trigger] cuts[i] <= text.len(),
        forall|i: int, j: int| 0 <= i < j < cuts.len() ==> #[trigger] cuts[i] < #[trigger] cuts[j],
    ensures
        concat_all(pieces(text, cuts)) == text.subrange(0, if cuts.len() == 0 { 0 } else { cuts.last() }),
    decreases cuts.len(),
{
    if cuts.len() > 0 {
        let d = cuts.drop_last();
        assert forall|i: int| 0 <= i < d.len() implies 1 <= #[trigger] d[i] <= text.len() by {
            assert(d[i] == cuts[i]);
        }
        assert forall|i: int, j: int| 0 <= i < j < d.len() implies #[trigger] d[i] < #[trigger] d[j] by {
            assert(d[i] == cuts[i] && d[j] == cuts[j]);
        }
        lemma_pieces_spell(text, d);
        let ps = pieces(text, cuts);
        let start = if cuts.len() > 1 { cuts[cuts.len() - 2] } else { 0 };
        assert(ps.drop_last() =~= pieces(text, d));
        assert(ps.last() == text.subrange(start, cuts.last()));
        if cuts.len() > 1 {
            assert(d.last() == cuts[cuts.len() - 2]);
            assert(cuts[cuts.len() - 2] < cuts[cuts.len() - 1]);
        }
        assert(text.subrange(0, start) + text.subrange(start, cuts.last()) =~= text.subrange(0, cuts.last()));
    }
}

/// Segmenting loses and adds nothing: the chunks of a paragraph, written one
/// after another, give the paragraph back, whatever the rules.
pub proof fn law_chunks_spell_text(text: Seq<char>, rules: Seq<RuleView>)
    ensures
        concat_all(chunks(text, rules)) == text,
{
    if text.len() > 0 {
        let cuts = cut_points(text, rules, text.len() as int);
        lemma_cut_points_rise(text, rules, text.len() as int);
        lemma_pieces_spell(text, cuts);
        let ps = pieces(text, cuts);
        let last_start = if cuts.len() == 0 { 0 } else { cuts.last() };
        let tail = text.subrange(last_start, text.len() as int);
        assert(text.subrange(0, last_start) + tail =~= text);
        if trim(tail).len() == 0 && ps.len() > 0 {
            let u = ps.update(ps.len() - 1, ps.last() + tail);
            assert(u.drop_last() =~= ps.drop_last());
            assert(concat_all(ps) == concat_all(ps.drop_last()) + ps.last());
            assert(concat_all(u) == concat_all(ps.drop_last()) + (ps.last() + tail));
            assert(concat_all(ps.drop_last()) + (ps.last() + tail) =~= concat_all(ps) + tail);
        } else {
            let u = ps.push(tail);
            assert(u.drop_last() =~= ps);
        }
    } else {
        assert(chunks(text, rules) =~= Seq::<Seq<char>>::empty());
        assert(text =~= Seq::<char>::empty());
    }
}

} // verus!
