//! The order of paths as `std::path::Path` orders them: component by
//! component, a root before a leading `.`, before a `..`, before a normal
//! name, and names by their characters (UTF-8 byte order is code point
//! order). Repeated separators and non-leading `.` components do not count.
use vstd::prelude::*;

use crate::text::{chars_of, split_chars, split_on, views};

verus! {

/// A component of a path as (rank, text): 1 root, 2 leading `.`, 3 `..`,
/// 4 a normal name (the only rank with text).
pub type Component = (nat, Seq<char>);

/// The component a `/`-separated piece after the first stands for, if any:
/// an empty piece or a `.` stands for none.
pub open spec fn piece_component(p: Seq<char>) -> Option<Component> {
    if p.len() == 0 || p == seq!['.'] {
        None
    } else if p == seq!['.', '.'] {
        Some((3nat, Seq::empty()))
    } else {
        Some((4nat, p))
    }
}

/// The components of a run of pieces, in order.
pub open spec fn piece_components(ps: Seq<Seq<char>>) -> Seq<Component>
    decreases ps.len(),
{
    if ps.len() == 0 {
        Seq::empty()
    } else {
        piece_components(ps.drop_last()) + match piece_component(ps.last()) {
            Some(c) => seq![c],
            None => Seq::empty(),
        }
    }
}

/// The components of a path: a root for a leading `/`, a `.` component for
/// a relative path that starts with `.`, then the components of its pieces.
pub open spec fn path_components(s: Seq<char>) -> Seq<Component> {
    let ps = split_on(s, '/');
    if s.len() > 0 && s[0] == '/' {
        seq![(1nat, Seq::empty())] + piece_components(ps.drop_first())
    } else if ps[0] == seq!['.'] {
        seq![(2nat, Seq::empty())] + piece_components(ps.drop_first())
    } else {
        piece_components(ps)
    }
}

/// Lexicographic order of texts by code point; a proper prefix comes first.
pub open spec fn text_lt(a: Seq<char>, b: Seq<char>) -> bool
    decreases a.len(),
{
    if b.len() == 0 {
        false
    } else if a.len() == 0 {
        true
    } else if a[0] != b[0] {
        (a[0] as u32) < (b[0] as u32)
    } else {
        text_lt(a.drop_first(), b.drop_first())
    }
}

/// Order of components: by rank, then by text.
pub open spec fn component_lt(x: Component, y: Component) -> bool {
    x.0 < y.0 || (x.0 == y.0 && text_lt(x.1, y.1))
}

/// Lexicographic order of component sequences.
pub open spec fn components_lt(a: Seq<Component>, b: Seq<Component>) -> bool
    decreases a.len(),
{
    if b.len() == 0 {
        false
    } else if a.len() == 0 {
        true
    } else if a[0] != b[0] {
        component_lt(a[0], b[0])
    } else {
        components_lt(a.drop_first(), b.drop_first())
    }
}

/// Whether path `a` comes strictly before path `b`.
pub open spec fn path_lt(a: Seq<char>, b: Seq<char>) -> bool {
    components_lt(path_components(a), path_components(b))
}

proof fn lemma_text_lt_irreflexive(a: Seq<char>)
    ensures
        !text_lt(a, a),
    decreases a.len(),
{
    if a.len() > 0 {
        lemma_text_lt_irreflexive(a.drop_first());
    }
}

proof fn lemma_text_lt_transitive(a: Seq<char>, b: Seq<char>, c: Seq<char>)
    requires
        text_lt(a, b),
        text_lt(b, c),
    ensures
        text_lt(a, c),
    decreases a.len(),
{
    if a.len() > 0 && b.len() > 0 && c.len() > 0 && a[0] == b[0] && b[0] == c[0] {
        lemma_text_lt_transitive(a.drop_first(), b.drop_first(), c.drop_first());
    }
}

proof fn lemma_components_lt_transitive(a: Seq<Component>, b: Seq<Component>, c: Seq<Component>)
    requires
        components_lt(a, b),
        components_lt(b, c),
    ensures
        components_lt(a, c),
    decreases a.len(),
{
    if a.len() > 0 && b.len() > 0 && c.len() > 0 {
        if a[0] == b[0] && b[0] == c[0] {
            lemma_components_lt_transitive(a.drop_first(), b.drop_first(), c.drop_first());
        } else if a[0] != b[0] && b[0] != c[0] {
            if a[0].0 == b[0].0 && b[0].0 == c[0].0 {
                lemma_text_lt_transitive(a[0].1, b[0].1, c[0].1);
            }
            if a[0] == c[0] {
                if a[0].0 == b[0].0 {
                    lemma_text_lt_transitive(a[0].1, b[0].1, a[0].1);
                    lemma_text_lt_irreflexive(a[0].1);
                }
            }
        }
    }
}

/// Path order is transitive.
pub proof fn lemma_path_lt_transitive(a: Seq<char>, b: Seq<char>, c: Seq<char>)
    requires
        path_lt(a, b),
        path_lt(b, c),
    ensures
        path_lt(a, c),
{
    lemma_components_lt_transitive(path_components(a), path_components(b), path_components(c));
}

// ── Computing the order ─────────────────────────────────────────────────────

/// The components of executable (rank, text) pairs.
pub open spec fn components_view(v: Seq<(u8, Vec<char>)>) -> Seq<Component> {
    Seq::new(v.len(), |i: int| (v[i].0 as nat, v[i].1@))
}

fn same_chars(a: &Vec<char>, b: &Vec<char>) -> (r: bool)
    ensures
        r == (a@ == b@),
{
    if a.len() != b.len() {
        return false;
    }
    let mut i: usize = 0;
    while i < a.len()
        invariant
            i <= a@.len(),
            a@.len() == b@.len(),
            forall|k: int| 0 <= k < i ==> a@[k] == b@[k],
        decreases a.len() - i,
    {
        if a[i] != b[i] {
            return false;
        }
        i = i + 1;
    }
    proof {
        assert(a@ =~= b@);
    }
    true
}

fn piece_component_of(p: &String) -> (r: Option<(u8, Vec<char>)>)
    ensures
        match r {
            Some(c) => piece_component(p@) == Some((c.0 as nat, c.1@)),
            None => piece_component(p@) is None,
        },
{
    let v = chars_of(p.as_str());
    if v.len() == 0 || (v.len() == 1 && v[0] == '.') {
        proof {
            if v@.len() == 1 {
                assert(v@ =~= seq!['.']);
            }
        }
        return None;
    }
    proof {
        if v@.len() == 1 {
            assert(v@ != seq!['.']) by {
                assert(v@[0] != '.');
            }
        } else {
            assert(v@.len() != seq!['.'].len());
        }
    }
    if v.len() == 2 && v[0] == '.' && v[1] == '.' {
        proof {
            assert(v@ =~= seq!['.', '.']);
        }
        return Some((3, Vec::new()));
    }
    proof {
        if v@.len() == 2 {
            assert(v@ != seq!['.', '.']) by {
                assert(v@[0] != '.' || v@[1] != '.');
            }
        } else {
            assert(v@.len() != seq!['.', '.'].len());
        }
    }
    Some((4, v))
}

/// The components of a path (see [`path_components`]).
fn components_of(s: &str) -> (r: Vec<(u8, Vec<char>)>)
    ensures
        components_view(r@) == path_components(s@),
{
    let pieces = split_chars(s, '/');
    let ghost ps = split_on(s@, '/');
    let sv = chars_of(s);
    proof {
        assert(ps.len() >= 1);
    }
    let mut out: Vec<(u8, Vec<char>)> = Vec::new();
    let mut start: usize = 0;
    if sv.len() > 0 && sv[0] == '/' {
        out.push((1, Vec::new()));
        start = 1;
    } else {
        let first = chars_of(pieces[0].as_str());
        if first.len() == 1 && first[0] == '.' {
            proof {
                assert(first@ =~= seq!['.']);
            }
            out.push((2, Vec::new()));
            start = 1;
        } else {
            proof {
                if first@.len() == 1 {
                    assert(first@[0] != '.');
                    assert(ps[0] != seq!['.']) by {
                        assert(ps[0][0] != seq!['.'][0]);
                    }
                } else {
                    assert(ps[0].len() != seq!['.'].len());
                }
            }
        }
    }
    let ghost head = components_view(out@);
    proof {
        assert(ps.subrange(start as int, start as int) =~= Seq::<Seq<char>>::empty());
        assert(head + piece_components(Seq::empty()) =~= head);
    }
    let mut i: usize = start;
    while i < pieces.len()
        invariant
            start <= i <= pieces@.len(),
            views(pieces@) == ps,
            ps.len() == pieces@.len(),
            components_view(out@) == head + piece_components(ps.subrange(start as int, i as int)),
        decreases pieces.len() - i,
    {
        let ghost before = out@;
        proof {
            let q = ps.subrange(start as int, i + 1);
            assert(q.drop_last() =~= ps.subrange(start as int, i as int));
            assert(q.last() == pieces@[i as int]@);
        }
        match piece_component_of(&pieces[i]) {
            Some(c) => {
                out.push(c);
                proof {
                    assert(components_view(out@) =~= components_view(before) + seq![(c.0 as nat, c.1@)]);
                }
            },
            None => {
                proof {
                    assert(components_view(out@) =~= components_view(before) + Seq::<Component>::empty());
                }
            },
        }
        i = i + 1;
    }
    proof {
        assert(ps.subrange(start as int, ps.len() as int) =~= (if start == 0 {
            ps
        } else {
            ps.drop_first()
        }));
        if start == 0 {
            assert(head =~= Seq::<Component>::empty());
            assert(components_view(out@) =~= piece_components(ps));
        }
    }
    out
}

fn text_less(a: &Vec<char>, b: &Vec<char>) -> (r: bool)
    ensures
        r == text_lt(a@, b@),
{
    let mut i: usize = 0;
    proof {
        assert(a@.skip(0) =~= a@);
        assert(b@.skip(0) =~= b@);
    }
    loop
        invariant
            i <= a@.len(),
            i <= b@.len(),
            text_lt(a@, b@) == text_lt(a@.skip(i as int), b@.skip(i as int)),
        decreases a@.len() - i,
    {
        if i == b.len() {
            return false;
        }
        if i == a.len() {
            return true;
        }
        if a[i] != b[i] {
            proof {
                assert(a@.skip(i as int)[0] == a@[i as int]);
                assert(b@.skip(i as int)[0] == b@[i as int]);
            }
            return (a[i] as u32) < (b[i] as u32);
        }
        proof {
            assert(a@.skip(i as int).drop_first() =~= a@.skip(i + 1));
            assert(b@.skip(i as int).drop_first() =~= b@.skip(i + 1));
        }
        i = i + 1;
    }
}

fn components_less(a: &Vec<(u8, Vec<char>)>, b: &Vec<(u8, Vec<char>)>) -> (r: bool)
    ensures
        r == components_lt(components_view(a@), components_view(b@)),
{
    let ghost av = components_view(a@);
    let ghost bv = components_view(b@);
    let mut i: usize = 0;
    proof {
        assert(av.skip(0) =~= av);
        assert(bv.skip(0) =~= bv);
    }
    loop
        invariant
            i <= a@.len(),
            i <= b@.len(),
            av == components_view(a@),
            bv == components_view(b@),
            components_lt(av, bv) == components_lt(av.skip(i as int), bv.skip(i as int)),
        decreases a@.len() - i,
    {
        if i == b.len() {
            return false;
        }
        if i == a.len() {
            return true;
        }
        proof {
            assert(av.skip(i as int)[0] == av[i as int]);
            assert(bv.skip(i as int)[0] == bv[i as int]);
        }
        let same = a[i].0 == b[i].0 && same_chars(&a[i].1, &b[i].1);
        if !same {
            proof {
                assert(av[i as int] != bv[i as int]);
            }
            if a[i].0 < b[i].0 {
                return true;
            }
            if a[i].0 > b[i].0 {
                return false;
            }
            return text_less(&a[i].1, &b[i].1);
        }
        proof {
            assert(av[i as int] == bv[i as int]);
            assert(av.skip(i as int).drop_first() =~= av.skip(i + 1));
            assert(bv.skip(i as int).drop_first() =~= bv.skip(i + 1));
        }
        i = i + 1;
    }
}

/// Whether path `a` comes strictly before path `b` (see [`path_lt`]).
pub fn path_less(a: &str, b: &str) -> (r: bool)
    ensures
        r == path_lt(a@, b@),
{
    let x = components_of(a);
    let y = components_of(b);
    components_less(&x, &y)
}

proof fn lemma_components_lt_irreflexive(a: Seq<Component>)
    ensures
        !components_lt(a, a),
    decreases a.len(),
{
    if a.len() > 0 {
        lemma_components_lt_irreflexive(a.drop_first());
    }
}

/// Whether `v` is in path order: no later entry comes before an earlier one.
pub open spec fn in_path_order(v: Seq<Seq<char>>) -> bool {
    forall|i: int, j: int| 0 <= i < j < v.len() ==> !path_lt(#[trigger] v[j], #[trigger] v[i])
}

/// Path order or text order.
pub open spec fn order_lt(by_path: bool, a: Seq<char>, b: Seq<char>) -> bool {
    if by_path {
        path_lt(a, b)
    } else {
        text_lt(a, b)
    }
}

/// Whether no later entry of `v` comes before an earlier one in the order.
pub open spec fn in_order(by_path: bool, v: Seq<Seq<char>>) -> bool {
    forall|i: int, j: int| 0 <= i < j < v.len() ==> !order_lt(by_path, #[trigger] v[j], #[trigger] v[i])
}

/// Whether `v` is in text order: no later entry comes before an earlier one.
pub open spec fn in_text_order(v: Seq<Seq<char>>) -> bool {
    forall|i: int, j: int| 0 <= i < j < v.len() ==> !text_lt(#[trigger] v[j], #[trigger] v[i])
}

proof fn lemma_order_irreflexive(by_path: bool, a: Seq<char>)
    ensures
        !order_lt(by_path, a, a),
{
    if by_path {
        lemma_components_lt_irreflexive(path_components(a));
    } else {
        lemma_text_lt_irreflexive(a);
    }
}

proof fn lemma_order_transitive(by_path: bool, a: Seq<char>, b: Seq<char>, c: Seq<char>)
    requires
        order_lt(by_path, a, b),
        order_lt(by_path, b, c),
    ensures
        order_lt(by_path, a, c),
{
    if by_path {
        lemma_path_lt_transitive(a, b, c);
    } else {
        lemma_text_lt_transitive(a, b, c);
    }
}

fn order_less(by_path: bool, a: &str, b: &str) -> (r: bool)
    ensures
        r == order_lt(by_path, a@, b@),
{
    if by_path {
        path_less(a, b)
    } else {
        let x = chars_of(a);
        let y = chars_of(b);
        text_less(&x, &y)
    }
}

/// The index of an entry of `v` that no entry comes before.
fn least_index(v: &Vec<String>, by_path: bool) -> (m: usize)
    requires
        v@.len() > 0,
    ensures
        m < v@.len(),
        forall|j: int| 0 <= j < v@.len() ==> !order_lt(by_path, #[trigger] v@[j]@, v@[m as int]@),
{
    let mut m: usize = 0;
    let mut k: usize = 1;
    proof {
        lemma_order_irreflexive(by_path, v@[0]@);
    }
    while k < v.len()
        invariant
            m < k <= v@.len(),
            forall|j: int| 0 <= j < k ==> !order_lt(by_path, #[trigger] v@[j]@, v@[m as int]@),
        decreases v.len() - k,
    {
        if order_less(by_path, v[k].as_str(), v[m].as_str()) {
            proof {
                assert forall|j: int| 0 <= j < k + 1 implies !order_lt(by_path, #[trigger] v@[j]@, v@[k as int]@) by {
                    if j == k {
                        lemma_order_irreflexive(by_path, v@[k as int]@);
                    } else if order_lt(by_path, v@[j]@, v@[k as int]@) {
                        lemma_order_transitive(by_path, v@[j]@, v@[k as int]@, v@[m as int]@);
                    }
                }
            }
            m = k;
        }
        k = k + 1;
    }
    m
}

/// The same texts, each once, in path order or in text order.
pub(crate) fn sort_by(v: Vec<String>, by_path: bool) -> (r: Vec<String>)
    requires
        views(v@).no_duplicates(),
    ensures
        views(r@).no_duplicates(),
        forall|n: Seq<char>| views(r@).contains(n) <==> views(v@).contains(n),
        in_order(by_path, views(r@)),
{
    let ghost orig = views(v@);
    let mut rest = v;
    let mut out: Vec<String> = Vec::new();
    while rest.len() > 0
        invariant
            views(out@).no_duplicates(),
            views(rest@).no_duplicates(),
            forall|n: Seq<char>| orig.contains(n) <==> (views(out@).contains(n) || views(rest@).contains(n)),
            forall|n: Seq<char>| views(out@).contains(n) ==> !views(rest@).contains(n),
            in_order(by_path, views(out@)),
            forall|i: int, k: int|
                0 <= i < out@.len() && 0 <= k < rest@.len() ==> !order_lt(by_path, #[trigger] rest@[k]@, #[trigger] out@[i]@),
        decreases rest.len(),
    {
        let m = least_index(&rest, by_path);
        let ghost r0 = rest@;
        let ghost o0 = out@;
        let x = rest.remove(m);
        out.push(x);
        proof {
            assert(views(rest@) =~= views(r0).remove(m as int));
            assert(views(out@) =~= views(o0).push(r0[m as int]@));
            assert(views(r0)[m as int] == r0[m as int]@);
            assert forall|n: Seq<char>| views(rest@).contains(n) <==> (views(r0).contains(n) && n != r0[m as int]@) by {
                if views(rest@).contains(n) {
                    let k = choose|k: int| 0 <= k < views(rest@).len() && views(rest@)[k] == n;
                    if k < m {
                        assert(views(r0)[k] == n);
                    } else {
                        assert(views(r0)[k + 1] == n);
                    }
                }
                if views(r0).contains(n) && n != r0[m as int]@ {
                    let k = choose|k: int| 0 <= k < views(r0).len() && views(r0)[k] == n;
                    if k < m {
                        assert(views(rest@)[k] == n);
                    } else {
                        assert(k != m);
                        assert(views(rest@)[k - 1] == n);
                    }
                }
            }
            assert forall|n: Seq<char>| views(out@).contains(n) <==> (views(o0).contains(n) || n == r0[m as int]@) by {
                if views(out@).contains(n) {
                    let k = choose|k: int| 0 <= k < views(out@).len() && views(out@)[k] == n;
                    if k < o0.len() {
                        assert(views(o0)[k] == n);
                    }
                }
                if views(o0).contains(n) {
                    let k = choose|k: int| 0 <= k < views(o0).len() && views(o0)[k] == n;
                    assert(views(out@)[k] == n);
                }
                if n == r0[m as int]@ {
                    assert(views(out@)[o0.len() as int] == n);
                }
            }
            assert(!views(o0).contains(r0[m as int]@)) by {
                assert(views(r0).contains(r0[m as int]@));
            }
            assert forall|n: Seq<char>| views(out@).contains(n) implies !views(rest@).contains(n) by {
                if views(o0).contains(n) {
                    assert(!views(r0).contains(n));
                }
            }
            assert(views(out@).no_duplicates()) by {
                assert forall|i: int, j: int| 0 <= i < views(out@).len() && 0 <= j < views(out@).len() && i != j
                    implies views(out@)[i] != views(out@)[j] by {
                    if i < o0.len() && j < o0.len() {
                        assert(views(o0)[i] != views(o0)[j]);
                    } else if i < o0.len() {
                        assert(views(o0).contains(views(o0)[i]));
                    } else if j < o0.len() {
                        assert(views(o0).contains(views(o0)[j]));
                    }
                }
            }
            assert(views(rest@).no_duplicates()) by {
                assert forall|i: int, j: int| 0 <= i < views(rest@).len() && 0 <= j < views(rest@).len() && i != j
                    implies views(rest@)[i] != views(rest@)[j] by {
                    let ii = if i < m { i } else { i + 1 };
                    let jj = if j < m { j } else { j + 1 };
                    assert(views(rest@)[i] == views(r0)[ii]);
                    assert(views(rest@)[j] == views(r0)[jj]);
                }
            }
            assert forall|i: int, j: int| 0 <= i < j < views(out@).len() implies !order_lt(by_path, 
                #[trigger] views(out@)[j],
                #[trigger] views(out@)[i],
            ) by {
                if j < o0.len() {
                    assert(views(o0)[j] == views(out@)[j] && views(o0)[i] == views(out@)[i]);
                } else {
                    assert(out@[i] == o0[i]);
                    assert(!order_lt(by_path, r0[m as int]@, o0[i]@));
                }
            }
            assert forall|i: int, k: int|
                0 <= i < out@.len() && 0 <= k < rest@.len() implies !order_lt(by_path, #[trigger] rest@[k]@, #[trigger] out@[i]@) by {
                let kk = if k < m { k } else { k + 1 };
                assert(rest@[k] == r0[kk]);
                if i < o0.len() {
                    assert(out@[i] == o0[i]);
                } else {
                    assert(out@[i] == r0[m as int]);
                }
            }
        }
    }
    proof {
        assert(views(rest@) =~= Seq::<Seq<char>>::empty());
    }
    out
}


/// The same paths, each once, in path order.
pub(crate) fn sort_paths(v: Vec<String>) -> (r: Vec<String>)
    requires
        views(v@).no_duplicates(),
    ensures
        views(r@).no_duplicates(),
        forall|n: Seq<char>| views(r@).contains(n) <==> views(v@).contains(n),
        in_path_order(views(r@)),
{
    let r = sort_by(v, true);
    proof {
        assert forall|i: int, j: int| 0 <= i < j < views(r@).len() implies !path_lt(
            #[trigger] views(r@)[j],
            #[trigger] views(r@)[i],
        ) by {
            assert(!order_lt(true, views(r@)[j], views(r@)[i]));
        }
    }
    r
}

/// The same texts, each once, in text order.
pub(crate) fn sort_texts(v: Vec<String>) -> (r: Vec<String>)
    requires
        views(v@).no_duplicates(),
    ensures
        views(r@).no_duplicates(),
        forall|n: Seq<char>| views(r@).contains(n) <==> views(v@).contains(n),
        in_text_order(views(r@)),
{
    let r = sort_by(v, false);
    proof {
        assert forall|i: int, j: int| 0 <= i < j < views(r@).len() implies !text_lt(
            #[trigger] views(r@)[j],
            #[trigger] views(r@)[i],
        ) by {
            assert(!order_lt(false, views(r@)[j], views(r@)[i]));
        }
    }
    r
}

} // verus!
