//! The order of paths by components (root first, then names by code point).
use vstd::prelude::*;
use crate::text::{
    chars_of, split_char, split_chars, lex_lt, lex_order, lemma_lex_irrefl, lemma_lex_trans,
    lemma_lex_total, lemma_lex_asym, chars_eq, vecs_view,
};

verus! {

/// Normal components: non-empty `/`-separated names other than `.`.
pub open spec fn names_of(pieces: Seq<Seq<char>>) -> Seq<Seq<char>>
    decreases pieces.len(),
{
    if pieces.len() == 0 {
        Seq::empty()
    } else {
        let rest = names_of(pieces.drop_last());
        let p = pieces.last();
        if p.len() == 0 || p == seq!['.'] { rest } else { rest.push(p) }
    }
}

/// Components of a path: `None` for the root of an absolute path, then its names.
pub open spec fn components(p: Seq<char>) -> Seq<Option<Seq<char>>> {
    let names = names_of(split_char(p, '/')).map_values(|n: Seq<char>| Some(n));
    if p.len() > 0 && p[0] == '/' { seq![None::<Seq<char>>] + names } else { names }
}

pub open spec fn comp_lt(a: Option<Seq<char>>, b: Option<Seq<char>>) -> bool {
    match (a, b) {
        (None, None) => false,
        (None, Some(_)) => true,
        (Some(_), None) => false,
        (Some(x), Some(y)) => lex_lt(x, y),
    }
}

/// Lexicographic order of component lists (a proper prefix comes first).
pub open spec fn comps_lt(a: Seq<Option<Seq<char>>>, b: Seq<Option<Seq<char>>>) -> bool
    decreases a.len(),
{
    if a.len() == 0 {
        b.len() > 0
    } else if b.len() == 0 {
        false
    } else if comp_lt(a[0], b[0]) {
        true
    } else if comp_lt(b[0], a[0]) {
        false
    } else {
        comps_lt(a.drop_first(), b.drop_first())
    }
}

pub open spec fn path_lt(a: Seq<char>, b: Seq<char>) -> bool {
    comps_lt(components(a), components(b))
}

pub open spec fn same_path(a: Seq<char>, b: Seq<char>) -> bool {
    components(a) == components(b)
}

proof fn lemma_comp(a: Option<Seq<char>>, b: Option<Seq<char>>, c: Option<Seq<char>>)
    ensures
        !comp_lt(a, a),
        comp_lt(a, b) ==> !comp_lt(b, a),
        comp_lt(a, b) && comp_lt(b, c) ==> comp_lt(a, c),
        a == b || comp_lt(a, b) || comp_lt(b, a),
{
    match a { Some(x) => lemma_lex_irrefl(x), None => {} }
    match (a, b) {
        (Some(x), Some(y)) => {
            lemma_lex_total(x, y);
            if lex_lt(x, y) { lemma_lex_asym(x, y); }
        },
        _ => {},
    }
    match (a, b, c) {
        (Some(x), Some(y), Some(z)) => {
            if lex_lt(x, y) && lex_lt(y, z) { lemma_lex_trans(x, y, z); }
        },
        _ => {},
    }
}

pub proof fn lemma_comps_irrefl(a: Seq<Option<Seq<char>>>)
    ensures
        !comps_lt(a, a),
    decreases a.len(),
{
    if a.len() > 0 {
        lemma_comp(a[0], a[0], a[0]);
        lemma_comps_irrefl(a.drop_first());
    }
}

pub proof fn lemma_comps_trans(a: Seq<Option<Seq<char>>>, b: Seq<Option<Seq<char>>>, c: Seq<Option<Seq<char>>>)
    requires
        comps_lt(a, b),
        comps_lt(b, c),
    ensures
        comps_lt(a, c),
    decreases a.len(),
{
    if a.len() > 0 && b.len() > 0 && c.len() > 0 {
        lemma_comp(a[0], b[0], c[0]);
        lemma_comp(b[0], c[0], a[0]);
        lemma_comp(c[0], a[0], b[0]);
        lemma_comp(a[0], c[0], b[0]);
        lemma_comp(b[0], a[0], c[0]);
        lemma_comp(c[0], b[0], a[0]);
        if a[0] == b[0] && b[0] == c[0] {
            lemma_comps_trans(a.drop_first(), b.drop_first(), c.drop_first());
        }
    }
}

pub proof fn lemma_comps_total(a: Seq<Option<Seq<char>>>, b: Seq<Option<Seq<char>>>)
    ensures
        a == b || comps_lt(a, b) || comps_lt(b, a),
    decreases a.len(),
{
    if a.len() > 0 && b.len() > 0 {
        lemma_comp(a[0], b[0], a[0]);
        if a[0] == b[0] {
            lemma_comps_total(a.drop_first(), b.drop_first());
            if a.drop_first() == b.drop_first() {
                assert(a =~= seq![a[0]] + a.drop_first());
                assert(b =~= seq![b[0]] + b.drop_first());
            }
        }
    } else if a.len() == 0 && b.len() == 0 {
        assert(a =~= b);
    }
}

pub proof fn lemma_comps_asym(a: Seq<Option<Seq<char>>>, b: Seq<Option<Seq<char>>>)
    requires
        comps_lt(a, b),
    ensures
        !comps_lt(b, a),
        a != b,
{
    lemma_comps_irrefl(a);
    if comps_lt(b, a) {
        lemma_comps_trans(a, b, a);
    }
}

/// Executable component list.
pub struct Components {
    pub absolute: bool,
    pub names: Vec<Vec<char>>,
}

impl Components {
    pub open spec fn view(&self) -> Seq<Option<Seq<char>>> {
        let names = vecs_view(self.names@).map_values(|n: Seq<char>| Some(n));
        if self.absolute { seq![None::<Seq<char>>] + names } else { names }
    }
}

pub fn components_of(p: &str) -> (r: Components)
    ensures
        r.view() == components(p@),
{
    let v = chars_of(p);
    let pieces = split_chars(&v, '/');
    let ghost pv = split_char(v@, '/');
    let mut names: Vec<Vec<char>> = Vec::new();
    let mut i: usize = 0;
    let dot = vec!['.'];
    assert(dot@ =~= seq!['.']);
    while i < pieces.len()
        invariant
            i <= pieces.len(),
            pieces@.len() == pv.len(),
            forall|k: int| 0 <= k < pieces@.len() ==> #[trigger] pieces@[k]@ == pv[k],
            dot@ == seq!['.'],
            vecs_view(names@) == names_of(pv.subrange(0, i as int)),
        decreases pieces.len() - i,
    {
        let ghost pre = pv.subrange(0, i + 1);
        assert(pre.drop_last() =~= pv.subrange(0, i as int));
        let ghost before = vecs_view(names@);
        let piece = &pieces[i];
        if !(piece.len() == 0 || chars_eq(piece, &dot)) {
            let mut c: Vec<char> = Vec::new();
            let mut k: usize = 0;
            while k < piece.len()
                invariant
                    k <= piece.len(),
                    c@ == piece@.subrange(0, k as int),
                decreases piece.len() - k,
            {
                c.push(piece[k]);
                k = k + 1;
            }
            assert(piece@.subrange(0, piece.len() as int) =~= piece@);
            names.push(c);
            assert(vecs_view(names@) =~= before.push(pv[i as int]));
        }
        i = i + 1;
    }
    assert(pv.subrange(0, pieces.len() as int) =~= pv);
    let absolute = v.len() > 0 && v[0] == '/';
    Components { absolute, names }
}

/// Three-way comparison of paths by components: -1, 0 or 1.
pub fn path_order(a: &str, b: &str) -> (r: i8)
    ensures
        r == -1 <==> path_lt(a@, b@),
        r == 0 <==> same_path(a@, b@),
        r == 1 <==> path_lt(b@, a@),
{
    let ca = components_of(a);
    let cb = components_of(b);
    let ghost x = ca.view();
    let ghost y = cb.view();
    proof {
        lemma_comps_total(x, y);
        lemma_comps_irrefl(x);
        if comps_lt(x, y) { lemma_comps_asym(x, y); }
        if comps_lt(y, x) { lemma_comps_asym(y, x); }
    }
    let na = ca.names.len();
    let nb = cb.names.len();
    if ca.absolute != cb.absolute {
        // The root sorts before every name, and an empty list before the root.
        if ca.absolute {
            if nb == 0 {
                assert(comps_lt(y, x));
                return 1;
            }
            assert(comp_lt(x[0], y[0]));
            assert(comps_lt(x, y));
            return -1;
        } else {
            if na == 0 {
                assert(comps_lt(x, y));
                return -1;
            }
            assert(comp_lt(y[0], x[0]));
            assert(comps_lt(y, x));
            return 1;
        }
    }
    let ghost o: int = if ca.absolute { 1int } else { 0int };
    let mut i: usize = 0;
    assert(x.subrange(0, o) =~= y.subrange(0, o));
    proof {
        if ca.absolute {
            lemma_comp(x[0], y[0], x[0]);
            assert(x.subrange(1, x.len() as int) =~= x.drop_first());
            assert(y.subrange(1, y.len() as int) =~= y.drop_first());
        } else {
            assert(x.subrange(0, x.len() as int) =~= x);
            assert(y.subrange(0, y.len() as int) =~= y);
        }
    }
    // Walk the names of the common prefix.
    while i < na && i < nb
        invariant
            na == ca.names.len(),
            nb == cb.names.len(),
            o == (if ca.absolute { 1int } else { 0int }),
            ca.absolute == cb.absolute,
            x.len() == na + o,
            y.len() == nb + o,
            x == ca.view(),
            y == cb.view(),
            x == components(a@),
            y == components(b@),
            comps_lt(x, y) ==> !comps_lt(y, x) && x != y,
            comps_lt(y, x) ==> !comps_lt(x, y) && x != y,
            i <= na,
            i <= nb,
            x.subrange(0, i + o) == y.subrange(0, i + o),
            comps_lt(x, y) == comps_lt(x.subrange(i + o, x.len() as int), y.subrange(i + o, y.len() as int)),
            comps_lt(y, x) == comps_lt(y.subrange(i + o, y.len() as int), x.subrange(i + o, x.len() as int)),
        decreases na - i,
    {
        let ghost k: int = i + o;
        let ghost xr = x.subrange(k, x.len() as int);
        let ghost yr = y.subrange(k, y.len() as int);
        assert(xr.drop_first() =~= x.subrange(k + 1, x.len() as int));
        assert(yr.drop_first() =~= y.subrange(k + 1, y.len() as int));
        let p = &ca.names[i];
        let q = &cb.names[i];
        assert(x[k] == Some(p@));
        assert(y[k] == Some(q@));
        let c: i8 = lex_order(p, q);
        proof {
            lemma_comp(x[k], y[k], x[k]);
            assert(xr[0] == x[k]);
            assert(yr[0] == y[k]);
            if c == -1 {
                assert(comp_lt(x[k], y[k]));
                assert(comps_lt(xr, yr));
            }
            if c == 1 {
                assert(comp_lt(y[k], x[k]));
                assert(comps_lt(yr, xr));
            }
        }
        if c == -1 {
            return -1;
        }
        if c == 1 {
            return 1;
        }
        assert(x[k] == y[k]);
        assert(x.subrange(0, k + 1) =~= x.subrange(0, k).push(x[k]));
        assert(y.subrange(0, k + 1) =~= y.subrange(0, k).push(y[k]));
        i = i + 1;
    }
    if i == na && i == nb {
        assert(x =~= x.subrange(0, i + o));
        assert(y =~= y.subrange(0, i + o));
        0
    } else if i == na {
        assert(x.subrange(i + o, x.len() as int).len() == 0);
        -1
    } else {
        assert(y.subrange(i + o, y.len() as int).len() == 0);
        1
    }
}

/// Law: paths are ordered strictly and totally: no path sorts before
/// itself, of two paths at most one sorts first, the order is transitive,
/// and two paths either have the same components or one sorts first.
pub proof fn law_path_order_is_total(a: Seq<char>, b: Seq<char>, c: Seq<char>)
    ensures
        !path_lt(a, a),
        path_lt(a, b) ==> !path_lt(b, a),
        path_lt(a, b) && path_lt(b, c) ==> path_lt(a, c),
        same_path(a, b) || path_lt(a, b) || path_lt(b, a),
{
    lemma_comps_irrefl(components(a));
    lemma_comps_total(components(a), components(b));
    if path_lt(a, b) {
        lemma_comps_asym(components(a), components(b));
        if path_lt(b, c) {
            lemma_comps_trans(components(a), components(b), components(c));
        }
    }
}

/// Law: a component list sorts before every longer list that extends it,
/// and the root of an absolute path sorts before any name.
pub proof fn law_prefix_and_root_first(a: Seq<Option<Seq<char>>>, b: Seq<Option<Seq<char>>>, n: Seq<char>)
    requires
        b.len() > 0,
    ensures
        comps_lt(a, a + b),
        comps_lt(seq![None::<Seq<char>>] + a, seq![Some(n)] + b),
    decreases a.len(),
{
    if a.len() > 0 {
        law_prefix_and_root_first(a.drop_first(), b, n);
        assert((a + b).drop_first() =~= a.drop_first() + b);
        assert((a + b)[0] == a[0]);
        lemma_comp(a[0], a[0], a[0]);
    } else {
        assert(a + b =~= b);
    }
}

} // verus!
