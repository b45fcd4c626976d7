//! Token-level Levenshtein distance and the similarity score derived from it.
use vstd::prelude::*;
use crate::text::push_char;

verus! {

/// Longest prefix of each input that the distance considers.
pub const MAX_N: usize = 1000;

pub open spec fn min3(a: int, b: int, c: int) -> int {
    if a <= b && a <= c { a } else if b <= c { b } else { c }
}

/// Edit distance between the first `i` items of `a` and the first `j` items of `b`.
pub open spec fn ed<T>(a: Seq<T>, b: Seq<T>, i: nat, j: nat) -> nat
    decreases i + j,
{
    if i == 0 {
        j
    } else if j == 0 {
        i
    } else {
        min3(
            ed(a, b, (i - 1) as nat, j) as int + 1,
            ed(a, b, i, (j - 1) as nat) as int + 1,
            ed(a, b, (i - 1) as nat, (j - 1) as nat) as int + (if a[i - 1] == b[j - 1] { 0int } else { 1int }),
        ) as nat
    }
}

/// Prefix of `s` kept by the distance.
pub open spec fn capped<T>(s: Seq<T>) -> Seq<T> {
    if s.len() > MAX_N { s.subrange(0, MAX_N as int) } else { s }
}

/// The distance the library computes: an empty side yields the other side's
/// full length; otherwise both sides are capped at `MAX_N` items.
pub open spec fn distance<T>(a: Seq<T>, b: Seq<T>) -> nat {
    if a.len() == 0 {
        b.len()
    } else if b.len() == 0 {
        a.len()
    } else {
        ed(capped(a), capped(b), capped(a).len(), capped(b).len())
    }
}

/// Token view: each token by its characters.
pub open spec fn token_view(s: Seq<String>) -> Seq<Seq<char>> {
    s.map_values(|t: String| t@)
}

/// Character view: each character as a one-character token.
pub open spec fn char_tokens(s: Seq<char>) -> Seq<Seq<char>> {
    s.map_values(|c: char| seq![c])
}

pub open spec fn max_nat(a: nat, b: nat) -> nat {
    if a >= b { a } else { b }
}

/// Similarity in percent between two token sequences.
pub open spec fn similarity_spec(a: Seq<Seq<char>>, b: Seq<Seq<char>>) -> int {
    if a.len() == 0 && b.len() == 0 {
        0
    } else {
        let m = max_nat(a.len(), b.len());
        (m - distance(a, b)) * 100 / (m as int)
    }
}

pub proof fn lemma_ed_le_max<T>(a: Seq<T>, b: Seq<T>, i: nat, j: nat)
    ensures
        ed(a, b, i, j) <= max_nat(i, j),
    decreases i + j,
{
    if i > 0 && j > 0 {
        lemma_ed_le_max(a, b, (i - 1) as nat, (j - 1) as nat);
    }
}

/// The distance of a sequence to itself is zero.
pub proof fn lemma_ed_identical<T>(a: Seq<T>, i: nat)
    ensures
        ed(a, a, i, i) == 0,
    decreases i,
{
    if i > 0 {
        lemma_ed_identical(a, (i - 1) as nat);
    }
}

/// Law: the distance between a token sequence and itself is 0.
pub proof fn law_identical_is_zero<T>(a: Seq<T>)
    ensures
        distance(a, a) == 0,
{
    lemma_ed_identical(capped(a), capped(a).len());
}

/// Law: against an empty sequence the distance is the other sequence's length.
pub proof fn law_empty_is_other_len<T>(a: Seq<T>, e: Seq<T>)
    requires
        e.len() == 0,
    ensures
        distance(a, e) == a.len(),
        distance(e, a) == a.len(),
{
}

/// Law: the distance never exceeds the longer side.
pub proof fn law_distance_le_max<T>(a: Seq<T>, b: Seq<T>)
    ensures
        distance(a, b) <= max_nat(a.len(), b.len()),
{
    if a.len() > 0 && b.len() > 0 {
        lemma_ed_le_max(capped(a), capped(b), capped(a).len(), capped(b).len());
    }
}

pub proof fn lemma_ed_symmetric<T>(a: Seq<T>, b: Seq<T>, i: nat, j: nat)
    ensures
        ed(a, b, i, j) == ed(b, a, j, i),
    decreases i + j,
{
    if i > 0 && j > 0 {
        lemma_ed_symmetric(a, b, (i - 1) as nat, j);
        lemma_ed_symmetric(a, b, i, (j - 1) as nat);
        lemma_ed_symmetric(a, b, (i - 1) as nat, (j - 1) as nat);
    }
}

pub proof fn lemma_ed_ge_gap<T>(a: Seq<T>, b: Seq<T>, i: nat, j: nat)
    ensures
        ed(a, b, i, j) >= i - j,
        ed(a, b, i, j) >= j - i,
    decreases i + j,
{
    if i > 0 && j > 0 {
        lemma_ed_ge_gap(a, b, (i - 1) as nat, j);
        lemma_ed_ge_gap(a, b, i, (j - 1) as nat);
        lemma_ed_ge_gap(a, b, (i - 1) as nat, (j - 1) as nat);
    }
}

pub proof fn lemma_ed_zero<T>(a: Seq<T>, b: Seq<T>, i: nat)
    requires
        i <= a.len(),
        i <= b.len(),
        ed(a, b, i, i) == 0,
    ensures
        a.subrange(0, i as int) == b.subrange(0, i as int),
    decreases i,
{
    if i > 0 {
        lemma_ed_ge_gap(a, b, (i - 1) as nat, i);
        lemma_ed_ge_gap(a, b, i, (i - 1) as nat);
        lemma_ed_zero(a, b, (i - 1) as nat);
        assert(a[i - 1] == b[i - 1]);
        assert(a.subrange(0, i as int) =~= b.subrange(0, i as int)) by {
            assert forall|k: int| 0 <= k < i implies a[k] == b[k] by {
                if k < i - 1 {
                    assert(a.subrange(0, i - 1)[k] == b.subrange(0, i - 1)[k]);
                }
            }
        }
    }
}

/// Law: the distance is symmetric.
pub proof fn law_distance_symmetric<T>(a: Seq<T>, b: Seq<T>)
    ensures
        distance(a, b) == distance(b, a),
{
    if a.len() > 0 && b.len() > 0 {
        lemma_ed_symmetric(capped(a), capped(b), capped(a).len(), capped(b).len());
    }
}

/// Law: for sequences within the length the distance considers, the distance
/// is at least the difference of the lengths.
pub proof fn law_distance_ge_length_gap<T>(a: Seq<T>, b: Seq<T>)
    requires
        a.len() <= MAX_N,
        b.len() <= MAX_N,
    ensures
        distance(a, b) >= a.len() - b.len(),
        distance(a, b) >= b.len() - a.len(),
{
    if a.len() > 0 && b.len() > 0 {
        lemma_ed_ge_gap(capped(a), capped(b), capped(a).len(), capped(b).len());
    }
}

/// Law: for sequences within the length the distance considers, the distance
/// is zero exactly when the sequences are equal.
pub proof fn law_zero_iff_equal<T>(a: Seq<T>, b: Seq<T>)
    requires
        a.len() <= MAX_N,
        b.len() <= MAX_N,
    ensures
        distance(a, b) == 0 <==> a == b,
{
    law_identical_is_zero(a);
    assert(capped(a) == a);
    assert(capped(b) == b);
    if distance(a, b) == 0 && (a.len() == 0 || b.len() == 0) {
        assert(a =~= b);
    }
    if distance(a, b) == 0 && a.len() > 0 && b.len() > 0 {
        lemma_ed_ge_gap(a, b, a.len(), b.len());
        lemma_ed_zero(a, b, a.len());
        assert(a =~= a.subrange(0, a.len() as int));
        assert(b =~= b.subrange(0, b.len() as int));
    }
}

/// Two sequences that agree on their first `i` items are at distance zero
/// over those items.
proof fn lemma_ed_common_prefix<T>(a: Seq<T>, b: Seq<T>, i: nat)
    requires
        i <= a.len(),
        i <= b.len(),
        forall|k: int| 0 <= k < i ==> a[k] == b[k],
    ensures
        ed(a, b, i, i) == 0,
    decreases i,
{
    if i > 0 {
        lemma_ed_common_prefix(a, b, (i - 1) as nat);
    }
}

/// Law: one item added at the end of a sequence is one edit away from it.
pub proof fn law_one_insertion<T>(a: Seq<T>, x: T)
    requires
        a.len() < MAX_N,
    ensures
        distance(a, a.push(x)) == 1,
        distance(a.push(x), a) == 1,
{
    let b = a.push(x);
    law_distance_symmetric(a, b);
    if a.len() > 0 {
        assert(capped(a) == a);
        assert(capped(b) == b);
        lemma_ed_common_prefix(a, b, a.len());
        lemma_ed_ge_gap(a, b, a.len(), b.len());
    }
}

/// Law: replacing the last item of a sequence by a different one is one
/// edit away.
pub proof fn law_one_substitution<T>(a: Seq<T>, x: T, y: T)
    requires
        a.len() < MAX_N,
        x != y,
    ensures
        distance(a.push(x), a.push(y)) == 1,
{
    let c = a.push(x);
    let d = a.push(y);
    assert(capped(c) == c);
    assert(capped(d) == d);
    lemma_ed_common_prefix(c, d, a.len());
    assert(c[a.len() as int] != d[a.len() as int]);
    assert(c != d);
    law_zero_iff_equal(c, d);
}

/// Distance between two token sequences; `None` on either side is refused.
pub fn compute(source: Option<&[String]>, target: Option<&[String]>) -> (r: Result<usize, &'static str>)
    ensures
        (source is None || target is None) <==> r is Err,
        r matches Ok(d) ==> d == distance(token_view(source.unwrap()@), token_view(target.unwrap()@)),
        r matches Err(e) ==> e@ == "LD_NULL_ARRAYS_ERROR"@,
{
    match (source, target) {
        (Some(s), Some(t)) => Ok(compute_tokens(s, t)),
        _ => {
            let e = "LD_NULL_ARRAYS_ERROR";
            Err(e)
        },
    }
}

/// Token-level distance, computed row by row.
pub fn compute_tokens(source: &[String], target: &[String]) -> (d: usize)
    ensures
        d == distance(token_view(source@), token_view(target@)),
        d <= max_nat(source@.len(), target@.len()),
{
    let ghost sv = token_view(source@);
    let ghost tv = token_view(target@);
    proof { law_distance_le_max(sv, tv); }
    let mut source_len = source.len();
    let mut target_len = target.len();
    if source_len == 0 {
        return target_len;
    }
    if target_len == 0 {
        return source_len;
    }
    if source_len > MAX_N {
        source_len = MAX_N;
    }
    if target_len > MAX_N {
        target_len = MAX_N;
    }
    let ghost a = capped(sv);
    let ghost b = capped(tv);
    assert(a.len() == source_len && b.len() == target_len);
    assert(forall|k: int| 0 <= k < source_len ==> #[trigger] a[k] == source@[k]@);
    assert(forall|k: int| 0 <= k < target_len ==> #[trigger] b[k] == target@[k]@);
    let mut previous: Vec<usize> = Vec::new();
    let mut k: usize = 0;
    while k <= source_len
        invariant
            k <= source_len + 1,
            source_len <= MAX_N,
            previous@.len() == k,
            forall|x: int| 0 <= x < k ==> #[trigger] previous@[x] == x,
        decreases source_len + 1 - k,
    {
        previous.push(k);
        k = k + 1;
    }
    let mut current: Vec<usize> = Vec::new();
    k = 0;
    while k <= source_len
        invariant
            k <= source_len + 1,
            source_len <= MAX_N,
            current@.len() == k,
        decreases source_len + 1 - k,
    {
        current.push(0);
        k = k + 1;
    }
    assert forall|x: int| 0 <= x <= source_len implies #[trigger] previous@[x] == ed(a, b, x as nat, 0) by {}
    let mut j: usize = 0;
    while j < target_len
        invariant
            j <= target_len <= MAX_N,
            0 < source_len <= MAX_N,
            a.len() == source_len,
            b.len() == target_len,
            forall|k: int| 0 <= k < source_len ==> #[trigger] a[k] == source@[k]@,
            forall|k: int| 0 <= k < target_len ==> #[trigger] b[k] == target@[k]@,
            source_len <= source@.len(),
            target_len <= target@.len(),
            previous@.len() == source_len + 1,
            current@.len() == source_len + 1,
            forall|x: int| 0 <= x <= source_len ==> #[trigger] previous@[x] == ed(a, b, x as nat, j as nat),
        decreases target_len - j,
    {
        current.set(0, j + 1);
        let mut i: usize = 0;
        while i < source_len
            invariant
                i <= source_len,
                j < target_len <= MAX_N,
                0 < source_len <= MAX_N,
                a.len() == source_len,
                b.len() == target_len,
                forall|k: int| 0 <= k < source_len ==> #[trigger] a[k] == source@[k]@,
                forall|k: int| 0 <= k < target_len ==> #[trigger] b[k] == target@[k]@,
                source_len <= source@.len(),
                target_len <= target@.len(),
                previous@.len() == source_len + 1,
                current@.len() == source_len + 1,
                forall|x: int| 0 <= x <= source_len ==> #[trigger] previous@[x] == ed(a, b, x as nat, j as nat),
                forall|x: int| 0 <= x <= i ==> #[trigger] current@[x] == ed(a, b, x as nat, (j + 1) as nat),
            decreases source_len - i,
        {
            proof {
                lemma_ed_le_max(a, b, i as nat, (j + 1) as nat);
                lemma_ed_le_max(a, b, (i + 1) as nat, j as nat);
                lemma_ed_le_max(a, b, i as nat, j as nat);
            }
            let cost: usize = if source[i] == target[j] { 0 } else { 1 };
            let x1 = current[i] + 1;
            let x2 = previous[i + 1] + 1;
            let x3 = previous[i] + cost;
            let mut m = x1;
            if x2 < m {
                m = x2;
            }
            if x3 < m {
                m = x3;
            }
            assert(m == ed(a, b, (i + 1) as nat, (j + 1) as nat));
            current.set(i + 1, m);
            i = i + 1;
        }
        std::mem::swap(&mut previous, &mut current);
        j = j + 1;
    }
    previous[source_len]
}

/// Token-level distance.
pub fn token_levenshtein(a: &[String], b: &[String]) -> (d: usize)
    ensures
        d == distance(token_view(a@), token_view(b@)),
{
    compute_tokens(a, b)
}

/// Similarity in percent: `(max - distance) * 100 / max`, 0 for two empty inputs.
pub fn token_similarity(a: &[String], b: &[String]) -> (r: i32)
    ensures
        r == similarity_spec(token_view(a@), token_view(b@)),
        0 <= r <= 100,
{
    if a.len() == 0 && b.len() == 0 {
        return 0;
    }
    let max = if a.len() >= b.len() { a.len() } else { b.len() };
    let ld = compute_tokens(a, b);
    assert((max - ld) * 100 <= max * 100) by (nonlinear_arith)
        requires ld <= max;
    assert((max - ld) * 100 / (max as int) <= 100) by (nonlinear_arith)
        requires (max - ld) * 100 <= max * 100, max > 0;
    assert(max * 100 <= 100 * usize::MAX) by (nonlinear_arith);
    let prod: u128 = ((max - ld) as u128) * 100;
    let q: u128 = prod / (max as u128);
    q as i32
}

/// Each character as its own one-character token.
pub fn char_tokens_of(s: &str) -> (v: Vec<String>)
    ensures
        token_view(v@) == char_tokens(s@),
{
    let n = s.unicode_len();
    let mut v: Vec<String> = Vec::new();
    let mut i: usize = 0;
    while i < n
        invariant
            n == s@.len(),
            i <= n,
            v@.len() == i,
            forall|k: int| 0 <= k < i ==> #[trigger] v@[k]@ == seq![s@[k]],
        decreases n - i,
    {
        let mut t = String::new();
        push_char(&mut t, s.get_char(i));
        v.push(t);
        i = i + 1;
    }
    assert(token_view(v@) =~= char_tokens(s@));
    v
}

/// Character-level distance.
pub fn char_levenshtein(a: &str, b: &str) -> (d: usize)
    ensures
        d == distance(char_tokens(a@), char_tokens(b@)),
        d <= max_nat(a@.len(), b@.len()),
{
    let av = char_tokens_of(a);
    let bv = char_tokens_of(b);
    compute_tokens(&av, &bv)
}

} // verus!
