//! Settings written in a first-line comment between `-*-` markers, as
//! `key: value` pairs separated by `;`.
use vstd::prelude::*;
use crate::text::{chars_of, string_of, slice_vec, trim, trim_chars, find, find_from, find_from_exec, split_char, split_chars, lex_lt, lex_order, lemma_lex_trans, lemma_lex_total, lemma_lex_asym, lemma_find_from_bounds};

verus! {

/// The text between the first two `-*-` markers, trimmed.
pub open spec fn comment_body(s: Seq<char>) -> Option<Seq<char>> {
    match find(s, "-*-"@) {
        None => None,
        Some(a) => {
            let rest = s.subrange(a + 3, s.len() as int);
            match find(rest, "-*-"@) {
                None => None,
                Some(b) => Some(trim(rest.subrange(0, b))),
            }
        },
    }
}

/// The `key: value` pair of one `;`-separated part, both trimmed.
pub open spec fn part_pair(part: Seq<char>) -> Option<(Seq<char>, Seq<char>)> {
    let p = trim(part);
    if p.len() == 0 {
        None
    } else {
        match find(p, ":"@) {
            None => None,
            Some(k) => Some((trim(p.subrange(0, k)), trim(p.subrange(k + 1, p.len() as int)))),
        }
    }
}

pub open spec fn part_pairs(parts: Seq<Seq<char>>) -> Seq<(Seq<char>, Seq<char>)>
    decreases parts.len(),
{
    if parts.len() == 0 {
        Seq::empty()
    } else {
        match part_pair(parts.last()) {
            Some(kv) => part_pairs(parts.drop_last()).push(kv),
            None => part_pairs(parts.drop_last()),
        }
    }
}

/// Pairs as a map, a later pair replacing an earlier one of the same key.
pub open spec fn pairs_map(ps: Seq<(Seq<char>, Seq<char>)>) -> Map<Seq<char>, Seq<char>>
    decreases ps.len(),
{
    if ps.len() == 0 {
        Map::empty()
    } else {
        pairs_map(ps.drop_last()).insert(ps.last().0, ps.last().1)
    }
}

/// The settings a comment line holds.
pub open spec fn comment_settings(input: Option<Seq<char>>) -> Map<Seq<char>, Seq<char>> {
    match input {
        None => Map::empty(),
        Some(s) => match comment_body(s) {
            None => Map::empty(),
            Some(body) => pairs_map(part_pairs(split_char(body, ';'))),
        },
    }
}

pub open spec fn sorted_keys(v: Seq<(Seq<char>, Seq<char>)>) -> bool {
    forall|i: int, j: int| 0 <= i < j < v.len() ==> lex_lt(#[trigger] v[i].0, #[trigger] v[j].0)
}

pub open spec fn kv_view(v: Seq<(String, String)>) -> Seq<(Seq<char>, Seq<char>)> {
    Seq::new(v.len(), |i: int| (v[i].0@, v[i].1@))
}

pub open spec fn kvc_view(v: Seq<(Vec<char>, Vec<char>)>) -> Seq<(Seq<char>, Seq<char>)> {
    Seq::new(v.len(), |i: int| (v[i].0@, v[i].1@))
}

proof fn lemma_sorted_map(v: Seq<(Seq<char>, Seq<char>)>)
    requires
        sorted_keys(v),
    ensures
        forall|i: int| 0 <= i < v.len() ==> #[trigger] pairs_map(v).contains_key(v[i].0) && pairs_map(v)[v[i].0] == v[i].1,
        forall|k: Seq<char>| #[trigger] pairs_map(v).contains_key(k) ==> exists|i: int| 0 <= i < v.len() && v[i].0 == k,
    decreases v.len(),
{
    if v.len() > 0 {
        let u = v.drop_last();
        assert(sorted_keys(u)) by {
            assert forall|i: int, j: int| 0 <= i < j < u.len() implies lex_lt(#[trigger] u[i].0, #[trigger] u[j].0) by {
                assert(u[i] == v[i] && u[j] == v[j]);
            }
        }
        lemma_sorted_map(u);
        assert forall|i: int| 0 <= i < v.len() implies #[trigger] pairs_map(v).contains_key(v[i].0) && pairs_map(v)[v[i].0] == v[i].1 by {
            if i < v.len() - 1 {
                assert(u[i] == v[i]);
                assert(pairs_map(u).contains_key(u[i].0));
                assert(lex_lt(v[i].0, v[v.len() - 1].0));
                lemma_lex_asym(v[i].0, v[v.len() - 1].0);
            }
        }
        assert forall|k: Seq<char>| #[trigger] pairs_map(v).contains_key(k) implies exists|i: int| 0 <= i < v.len() && v[i].0 == k by {
            if k != v.last().0 {
                assert(pairs_map(u).contains_key(k));
                let i = choose|i: int| 0 <= i < u.len() && u[i].0 == k;
                assert(v[i] == u[i]);
            } else {
                assert(v[v.len() - 1].0 == k);
            }
        }
    }
}

/// Inserts (or replaces) a key in a key-sorted list.
fn sorted_insert(v: &mut Vec<(Vec<char>, Vec<char>)>, key: Vec<char>, value: Vec<char>)
    requires
        sorted_keys(kvc_view(old(v)@)),
    ensures
        sorted_keys(kvc_view(final(v)@)),
        pairs_map(kvc_view(final(v)@)) == pairs_map(kvc_view(old(v)@)).insert(key@, value@),
{
    let ghost ov = kvc_view(v@);
    let mut j: usize = 0;
    while j < v.len() && lex_order(&v[j].0, &key) == -1
        invariant
            j <= v@.len(),
            ov == kvc_view(v@),
            forall|i: int| 0 <= i < j ==> lex_lt(#[trigger] ov[i].0, key@),
        decreases v@.len() - j,
    {
        j = j + 1;
    }
    let ghost kv = key@;
    let ghost vv = value@;
    proof { lemma_sorted_map(ov); }
    if j < v.len() && lex_order(&v[j].0, &key) == 0 {
        v.set(j, (key, value));
        let ghost nv = kvc_view(v@);
        proof {
            assert(nv =~= ov.update(j as int, (kv, vv)));
            assert(sorted_keys(nv)) by {
                assert forall|a: int, b: int| 0 <= a < b < nv.len() implies lex_lt(#[trigger] nv[a].0, #[trigger] nv[b].0) by {
                    assert(lex_lt(ov[a].0, ov[b].0));
                }
            }
            lemma_sorted_map(nv);
            assert forall|k: Seq<char>| pairs_map(nv).contains_key(k) <==> pairs_map(ov).insert(kv, vv).contains_key(k) by {
                if pairs_map(nv).contains_key(k) {
                    let i = choose|i: int| 0 <= i < nv.len() && nv[i].0 == k;
                    if i != j { assert(nv[i] == ov[i]); }
                }
                if pairs_map(ov).contains_key(k) {
                    let i = choose|i: int| 0 <= i < ov.len() && ov[i].0 == k;
                    if i != j { assert(nv[i] == ov[i]); assert(pairs_map(nv).contains_key(nv[i].0)); }
                    else { assert(pairs_map(nv).contains_key(nv[i].0)); }
                }
                if k == kv { assert(pairs_map(nv).contains_key(nv[j as int].0)); }
            }
            assert forall|k: Seq<char>| #[trigger] pairs_map(nv).contains_key(k) implies pairs_map(nv)[k] == pairs_map(ov).insert(kv, vv)[k] by {
                let i = choose|i: int| 0 <= i < nv.len() && nv[i].0 == k;
                if i != j {
                    assert(nv[i] == ov[i]);
                    assert(pairs_map(nv).contains_key(nv[i].0));
                    assert(pairs_map(ov).contains_key(ov[i].0));
                    if i < j { assert(lex_lt(ov[i].0, ov[j as int].0)); lemma_lex_asym(ov[i].0, ov[j as int].0); }
                    else { assert(lex_lt(ov[j as int].0, ov[i].0)); lemma_lex_asym(ov[j as int].0, ov[i].0); }
                } else {
                    assert(pairs_map(nv).contains_key(nv[i].0));
                }
            }
            assert(pairs_map(nv) =~= pairs_map(ov).insert(kv, vv));
        }
    } else {
        proof {
            if j < ov.len() {
                lemma_lex_total(ov[j as int].0, kv);
            }
        }
        v.insert(j, (key, value));
        let ghost nv = kvc_view(v@);
        proof {
            assert(nv =~= ov.insert(j as int, (kv, vv)));
            assert(sorted_keys(nv)) by {
                assert forall|a: int, b: int| 0 <= a < b < nv.len() implies lex_lt(#[trigger] nv[a].0, #[trigger] nv[b].0) by {
                    if b < j {
                        assert(lex_lt(ov[a].0, ov[b].0));
                    } else if b == j {
                        assert(lex_lt(ov[a].0, kv));
                    } else if a == j {
                        if b - 1 > j { assert(lex_lt(ov[j as int].0, ov[b - 1].0)); lemma_lex_trans(kv, ov[j as int].0, ov[b - 1].0); }
                    } else if a < j {
                        assert(lex_lt(ov[a].0, kv));
                        if b - 1 > j { assert(lex_lt(ov[j as int].0, ov[b - 1].0)); lemma_lex_trans(kv, ov[j as int].0, ov[b - 1].0); }
                        lemma_lex_trans(ov[a].0, kv, ov[b - 1].0);
                    } else {
                        assert(lex_lt(ov[a - 1].0, ov[b - 1].0));
                    }
                }
            }
            lemma_sorted_map(nv);
            assert forall|i: int| 0 <= i < ov.len() implies #[trigger] ov[i].0 != kv by {
                if i < j { lemma_lex_asym(ov[i].0, kv); }
                else if i > j { assert(lex_lt(ov[j as int].0, ov[i].0)); lemma_lex_trans(kv, ov[j as int].0, ov[i].0); lemma_lex_asym(kv, ov[i].0); }
                else { lemma_lex_asym(kv, ov[i].0); }
            }
            assert forall|k: Seq<char>| pairs_map(nv).contains_key(k) <==> pairs_map(ov).insert(kv, vv).contains_key(k) by {
                if pairs_map(nv).contains_key(k) {
                    let i = choose|i: int| 0 <= i < nv.len() && nv[i].0 == k;
                    if i < j { assert(nv[i] == ov[i]); assert(pairs_map(ov).contains_key(ov[i].0)); }
                    else if i > j { assert(nv[i] == ov[i - 1]); assert(pairs_map(ov).contains_key(ov[i - 1].0)); }
                }
                if pairs_map(ov).contains_key(k) {
                    let i = choose|i: int| 0 <= i < ov.len() && ov[i].0 == k;
                    if i < j { assert(nv[i] == ov[i]); assert(pairs_map(nv).contains_key(nv[i].0)); }
                    else { assert(nv[i + 1] == ov[i]); assert(pairs_map(nv).contains_key(nv[i + 1].0)); }
                }
                if k == kv { assert(pairs_map(nv).contains_key(nv[j as int].0)); }
            }
            assert forall|k: Seq<char>| #[trigger] pairs_map(nv).contains_key(k) implies pairs_map(nv)[k] == pairs_map(ov).insert(kv, vv)[k] by {
                let i = choose|i: int| 0 <= i < nv.len() && nv[i].0 == k;
                assert(pairs_map(nv).contains_key(nv[i].0));
                if i < j {
                    assert(nv[i] == ov[i]);
                    assert(pairs_map(ov).contains_key(ov[i].0));
                } else if i > j {
                    assert(nv[i] == ov[i - 1]);
                    assert(pairs_map(ov).contains_key(ov[i - 1].0));
                }
            }
            assert(pairs_map(nv) =~= pairs_map(ov).insert(kv, vv));
        }
    }
}


fn part_pair_exec(part: &Vec<char>) -> (r: Option<(Vec<char>, Vec<char>)>)
    ensures
        match r {
            Some(kv) => part_pair(part@) == Some((kv.0@, kv.1@)),
            None => part_pair(part@) is None,
        },
{
    let p = trim_chars(part);
    if p.len() == 0 {
        return None;
    }
    let colon = chars_of(":");
    proof { reveal_strlit(":"); lemma_find_from_bounds(p@, colon@, 0); }
    match find_from_exec(&p, &colon, 0) {
        None => None,
        Some(k) => {
            let a = trim_chars(&slice_vec(&p, 0, k));
            let b = trim_chars(&slice_vec(&p, k + 1, p.len()));
            Some((a, b))
        },
    }
}

/// The `key: value` settings of a `-*- ... -*-` comment, by key (a later
/// setting replaces an earlier one), in key order; none without a
/// complete comment.
pub fn parse(input: Option<&str>) -> (r: Vec<(String, String)>)
    ensures
        sorted_keys(kv_view(r@)),
        pairs_map(kv_view(r@)) == comment_settings(match input { Some(s) => Some(s@), None => None }),
{
    let mut v: Vec<(Vec<char>, Vec<char>)> = Vec::new();
    let s = match input {
        Some(s) => s,
        None => {
            let e: Vec<(String, String)> = Vec::new();
            assert(kv_view(e@) =~= Seq::<(Seq<char>, Seq<char>)>::empty());
            assert(pairs_map(kv_view(e@)) =~= Map::<Seq<char>, Seq<char>>::empty());
            return e;
        },
    };
    let t = chars_of(s);
    let mark = chars_of("-*-");
    proof { reveal_strlit("-*-"); lemma_find_from_bounds(t@, mark@, 0); }
    let a = match find_from_exec(&t, &mark, 0) {
        None => {
            let e: Vec<(String, String)> = Vec::new();
            assert(kv_view(e@) =~= Seq::<(Seq<char>, Seq<char>)>::empty());
            assert(pairs_map(kv_view(e@)) =~= Map::<Seq<char>, Seq<char>>::empty());
            return e;
        },
        Some(a) => a,
    };
    assert(mark@.len() == 3);
    assert(find_from(t@, mark@, 0) == Some(a as int));
    assert(crate::text::matches_at(t@, mark@, a as int));
    let n = t.len();
    assert(a + 3 <= n);
    let rest = slice_vec(&t, a + 3, n);
    proof { lemma_find_from_bounds(rest@, mark@, 0); }
    let b = match find_from_exec(&rest, &mark, 0) {
        None => {
            let e: Vec<(String, String)> = Vec::new();
            assert(kv_view(e@) =~= Seq::<(Seq<char>, Seq<char>)>::empty());
            assert(pairs_map(kv_view(e@)) =~= Map::<Seq<char>, Seq<char>>::empty());
            return e;
        },
        Some(b) => b,
    };
    let body = trim_chars(&slice_vec(&rest, 0, b));
    let parts = split_chars(&body, ';');
    let ghost pv = split_char(body@, ';');
    let mut i: usize = 0;
    assert(pairs_map(kvc_view(v@)) =~= Map::<Seq<char>, Seq<char>>::empty());
    assert(part_pairs(pv.subrange(0, 0)) =~= Seq::<(Seq<char>, Seq<char>)>::empty());
    while i < parts.len()
        invariant
            i <= parts@.len(),
            parts@.len() == pv.len(),
            forall|k: int| 0 <= k < parts@.len() ==> #[trigger] parts@[k]@ == pv[k],
            sorted_keys(kvc_view(v@)),
            pairs_map(kvc_view(v@)) == pairs_map(part_pairs(pv.subrange(0, i as int))),
        decreases parts@.len() - i,
    {
        let ghost nxt = pv.subrange(0, i + 1);
        assert(nxt.drop_last() =~= pv.subrange(0, i as int));
        assert(nxt.last() == parts@[i as int]@);
        match part_pair_exec(&parts[i]) {
            Some(kv) => {
                let ghost pp = part_pairs(pv.subrange(0, i as int));
                let ghost kvv = (kv.0@, kv.1@);
                assert(part_pairs(nxt) == pp.push(kvv));
                assert(pp.push(kvv).drop_last() =~= pp);
                sorted_insert(&mut v, kv.0, kv.1);
            },
            None => {},
        }
        i = i + 1;
    }
    assert(pv.subrange(0, pv.len() as int) =~= pv);
    let mut out: Vec<(String, String)> = Vec::new();
    let mut k: usize = 0;
    while k < v.len()
        invariant
            k <= v@.len(),
            out@.len() == k,
            forall|q: int| 0 <= q < k ==> #[trigger] kv_view(out@)[q] == kvc_view(v@)[q],
        decreases v@.len() - k,
    {
        let ghost old_out = out@;
        out.push((string_of(&v[k].0), string_of(&v[k].1)));
        proof {
            assert forall|q: int| 0 <= q < k + 1 implies #[trigger] kv_view(out@)[q] == kvc_view(v@)[q] by {
                if q < k { assert(out@[q] == old_out[q]); assert(kv_view(old_out)[q] == kvc_view(v@)[q]); }
            }
        }
        k = k + 1;
    }
    assert(kv_view(out@) =~= kvc_view(v@));
    out
}
} // verus!
