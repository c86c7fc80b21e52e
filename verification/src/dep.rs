//! Dependency resolver: the transitive dependent set of a changed file over
//! an undirected graph of governed files, governing documents and index
//! sources, and the index names a rule's `key()` calls reference.
use vstd::prelude::*;

use crate::path_order::{in_path_order, sort_paths};

use crate::confine::{confine_lexically, confinement};
use crate::dsl::expr::{DslValue, Expr, SExpr, SValue};
use crate::dsl::expr_parser::{parse_aborts, parse_expression, spec_parse_expression};
use crate::dsl::types::Rule;
use crate::text::{chars_of, first_occurrence, string_from, trim};
use crate::pattern::glob_matches;
use crate::route::Route;
use crate::text::{owned, views};

verus! {

/// A governed file the resolver reasons about: its root-relative path and its
/// `schema_class` (`None` when the file carries no frontmatter).
#[derive(Debug, Clone)]
pub struct GovernedFile {
    pub path: String,
    pub schema_class: Option<String>,
}

/// Undirected dependency graph: the node names, and each edge once as a pair
/// of node indices.
#[derive(Debug)]
pub struct DepGraph {
    names: Vec<String>,
    edges: Vec<(usize, usize)>,
}

/// Whether nodes `a` and `b` are joined by one of `es`, in either direction.
pub open spec fn adjacent(es: Seq<(usize, usize)>, a: int, b: int) -> bool {
    exists|k: int| 0 <= k < es.len() && ((#[trigger] es[k]).0 == a && es[k].1 == b || es[k].0 == b && es[k].1 == a)
}

/// Whether `p` is a walk along `es`: consecutive nodes are adjacent.
pub open spec fn is_walk(es: Seq<(usize, usize)>, p: Seq<int>) -> bool {
    &&& p.len() > 0
    &&& forall|k: int| 0 <= k < p.len() - 1 ==> adjacent(es, #[trigger] p[k], p[k + 1])
}

/// Whether node `t` can be reached from node `s` along `es`.
pub open spec fn reaches(es: Seq<(usize, usize)>, s: int, t: int) -> bool {
    exists|p: Seq<int>| is_walk(es, p) && p[0] == s && #[trigger] p.last() == t
}

impl DepGraph {
    /// The node names.
    pub closed spec fn names(&self) -> Seq<Seq<char>> {
        views(self.names@)
    }

    /// The edges, as node-index pairs.
    pub closed spec fn edge_list(&self) -> Seq<(usize, usize)> {
        self.edges@
    }

    /// Well-formedness: names are distinct and every edge joins two nodes.
    pub closed spec fn wf(&self) -> bool {
        &&& views(self.names@).no_duplicates()
        &&& forall|k: int|
            0 <= k < self.edges@.len() ==> (#[trigger] self.edges@[k]).0 < self.names@.len()
                && self.edges@[k].1 < self.names@.len()
    }

    /// Whether node `b` is reachable from node `a` (by name).
    pub open spec fn connected(&self, a: Seq<char>, b: Seq<char>) -> bool {
        exists|i: int, j: int|
            0 <= i < self.names().len() && 0 <= j < self.names().len() && #[trigger] self.names()[i]
                == a && #[trigger] self.names()[j] == b && reaches(self.edge_list(), i, j)
    }

    /// The empty graph.
    pub fn new() -> (g: Self)
        ensures
            g.wf(),
            g.names().len() == 0,
            g.edge_list().len() == 0,
    {
        let g = DepGraph { names: Vec::new(), edges: Vec::new() };
        proof {
            assert(views(g.names@) =~= Seq::<Seq<char>>::empty());
        }
        g
    }

    fn index_of(&self, name: &String) -> (r: Option<usize>)
        ensures
            match r {
                Some(i) => i < self.names@.len() && self.names()[i as int] == name@,
                None => !self.names().contains(name@),
            },
    {
        let mut i: usize = 0;
        while i < self.names.len()
            invariant
                i <= self.names@.len(),
                forall|k: int| 0 <= k < i ==> self.names@[k]@ != name@,
            decreases self.names.len() - i,
        {
            if self.names[i] == *name {
                proof {
                    assert(self.names()[i as int] == self.names@[i as int]@);
                }
                return Some(i);
            }
            i = i + 1;
        }
        proof {
            if self.names().contains(name@) {
                let k = choose|k: int| 0 <= k < self.names().len() && self.names()[k] == name@;
                assert(self.names@[k]@ == name@);
            }
        }
        None
    }

    fn intern(&mut self, name: &String) -> (i: usize)
        requires
            old(self).wf(),
        ensures
            final(self).wf(),
            i < final(self).names().len(),
            final(self).names()[i as int] == name@,
            final(self).edge_list() == old(self).edge_list(),
            final(self).names().len() >= old(self).names().len(),
            forall|k: int| 0 <= k < old(self).names().len() ==> #[trigger] final(self).names()[k] == old(self).names()[k],
            old(self).names().contains(name@) ==> final(self).names() == old(self).names(),
            !old(self).names().contains(name@) ==> final(self).names() == old(self).names().push(name@),
    {
        match self.index_of(name) {
            Some(i) => i,
            None => {
                let ghost before = self.names();
                let copy = name.clone();
                self.names.push(copy);
                proof {
                    assert(self.names() =~= before.push(name@));
                }
                self.names.len() - 1
            },
        }
    }

    /// Join two nodes (interning either name not yet present) with an
    /// undirected edge; a node is never joined to itself.
    pub fn connect(&mut self, a: &str, b: &str)
        requires
            old(self).wf(),
        ensures
            final(self).wf(),
            a@ == b@ ==> final(self).names() == old(self).names() && final(self).edge_list() == old(self).edge_list(),
            forall|n: Seq<char>| old(self).names().contains(n) ==> #[trigger] final(self).names().contains(n),
            forall|n: Seq<char>| #[trigger] final(self).names().contains(n) ==> old(self).names().contains(n) || n == a@ || n == b@,
            a@ != b@ ==> final(self).connected(a@, b@),
            forall|x: Seq<char>, y: Seq<char>| old(self).connected(x, y) ==> #[trigger] final(self).connected(x, y),
            forall|k: int| 0 <= k < old(self).names().len() ==> #[trigger] final(self).names()[k] == old(self).names()[k],
            a@ != b@ ==> final(self).edge_list().len() == old(self).edge_list().len() + 1
                && final(self).edge_list().take(old(self).edge_list().len() as int) == old(self).edge_list()
                && final(self).names()[final(self).edge_list().last().0 as int] == a@
                && final(self).names()[final(self).edge_list().last().1 as int] == b@,
    {
        let sa = owned(a);
        let sb = owned(b);
        if sa == sb {
            return ;
        }
        let ghost e0 = self.edge_list();
        let ghost n0 = self.names();
        let i = self.intern(&sa);
        let j = self.intern(&sb);
        self.edges.push((i, j));
        proof {
            let es = self.edge_list();
            assert(es == e0.push((i, j)));
            assert(es.take(e0.len() as int) =~= e0);
            assert(forall|k: int| 0 <= k < n0.len() ==> #[trigger] self.names()[k] == n0[k]);
            assert forall|k: int| 0 <= k < es.len() implies (#[trigger] self.edges@[k]).0 < self.names@.len()
                && self.edges@[k].1 < self.names@.len() by {
                if k < e0.len() {
                    assert(self.edges@[k] == e0[k]);
                }
            }
            let w = seq![i as int, j as int];
            assert(adjacent(es, i as int, j as int)) by {
                assert(es[e0.len() as int] == (i, j));
            }
            assert(is_walk(es, w));
            assert(w.last() == j as int);
            assert(reaches(es, i as int, j as int));
            assert(self.names()[i as int] == a@ && self.names()[j as int] == b@);
            assert forall|x: Seq<char>, y: Seq<char>| old(self).connected(x, y) implies #[trigger] self.connected(x, y) by {
                let (u, v) = choose|u: int, v: int|
                    0 <= u < n0.len() && 0 <= v < n0.len() && #[trigger] n0[u] == x && #[trigger] n0[v] == y
                        && reaches(e0, u, v);
                let p = choose|p: Seq<int>| is_walk(e0, p) && p[0] == u && #[trigger] p.last() == v;
                lemma_walk_extends(e0, (i, j), p);
                assert(self.names()[u] == x && self.names()[v] == y);
            }
            assert forall|n: Seq<char>| old(self).names().contains(n) implies #[trigger] self.names().contains(n) by {
                let k = choose|k: int| 0 <= k < n0.len() && n0[k] == n;
                assert(self.names()[k] == n);
            }
            assert forall|n: Seq<char>| #[trigger] self.names().contains(n) implies old(self).names().contains(n) || n == a@ || n == b@ by {
                let k = choose|k: int| 0 <= k < self.names().len() && self.names()[k] == n;
                if k < n0.len() {
                    assert(n0[k] == n);
                }
            }
        }
    }

    /// Join every pair of a group of nodes (files that contribute the same
    /// key to one index).
    pub fn connect_all(&mut self, group: &[String])
        requires
            old(self).wf(),
        ensures
            final(self).wf(),
            forall|x: Seq<char>, y: Seq<char>| old(self).connected(x, y) ==> #[trigger] final(self).connected(x, y),
            forall|a: int, b: int|
                0 <= a < b < group@.len() && group@[a]@ != group@[b]@ ==> final(self).connected(
                    #[trigger] group@[a]@,
                    #[trigger] group@[b]@,
                ),
    {
        let mut a: usize = 0;
        while a < group.len()
            invariant
                self.wf(),
                a <= group@.len(),
                forall|x: Seq<char>, y: Seq<char>| old(self).connected(x, y) ==> #[trigger] self.connected(x, y),
                forall|p: int, q: int|
                    0 <= p < a && p < q < group@.len() && group@[p]@ != group@[q]@ ==> self.connected(
                        #[trigger] group@[p]@,
                        #[trigger] group@[q]@,
                    ),
            decreases group.len() - a,
        {
            let mut b = a + 1;
            while b < group.len()
                invariant
                    self.wf(),
                    a < group@.len(),
                    a + 1 <= b <= group@.len(),
                    forall|x: Seq<char>, y: Seq<char>| old(self).connected(x, y) ==> #[trigger] self.connected(x, y),
                    forall|p: int, q: int|
                        0 <= p < a && p < q < group@.len() && group@[p]@ != group@[q]@ ==> self.connected(
                            #[trigger] group@[p]@,
                            #[trigger] group@[q]@,
                        ),
                    forall|q: int|
                        a < q < b && group@[a as int]@ != group@[q]@ ==> self.connected(
                            group@[a as int]@,
                            #[trigger] group@[q]@,
                        ),
                decreases group.len() - b,
            {
                self.connect(group[a].as_str(), group[b].as_str());
                b = b + 1;
            }
            a = a + 1;
        }
    }
}

/// The number of `true` entries of `s`.
pub open spec fn count_true(s: Seq<bool>) -> nat
    decreases s.len(),
{
    if s.len() == 0 {
        0
    } else {
        count_true(s.drop_last()) + if s.last() {
            1nat
        } else {
            0nat
        }
    }
}

proof fn lemma_count_true_bound(s: Seq<bool>)
    ensures
        count_true(s) <= s.len(),
    decreases s.len(),
{
    if s.len() > 0 {
        lemma_count_true_bound(s.drop_last());
    }
}

proof fn lemma_count_true_set(s: Seq<bool>, i: int)
    requires
        0 <= i < s.len(),
        !s[i],
    ensures
        count_true(s.update(i, true)) == count_true(s) + 1,
    decreases s.len(),
{
    let t = s.update(i, true);
    if i == s.len() - 1 {
        assert(t.drop_last() =~= s.drop_last());
    } else {
        lemma_count_true_set(s.drop_last(), i);
        assert(t.drop_last() =~= s.drop_last().update(i, true));
    }
}

/// A set of nodes closed under the edges contains everything reachable from
/// any of its members.
proof fn lemma_closed_contains_reachable(es: Seq<(usize, usize)>, seen: Seq<bool>, p: Seq<int>)
    requires
        is_walk(es, p),
        0 <= p[0] < seen.len(),
        seen[p[0]],
        forall|a: int, b: int| #![trigger adjacent(es, a, b)] 0 <= a < seen.len() && seen[a] && adjacent(es, a, b) ==> 0 <= b < seen.len() && seen[b],
    ensures
        0 <= p.last() < seen.len() && seen[p.last()],
    decreases p.len(),
{
    if p.len() > 1 {
        let q = p.drop_last();
        assert forall|k: int| 0 <= k < q.len() - 1 implies adjacent(es, #[trigger] q[k], q[k + 1]) by {
            assert(q[k] == p[k] && q[k + 1] == p[k + 1]);
            assert(adjacent(es, p[k], p[k + 1]));
        }
        lemma_closed_contains_reachable(es, seen, q);
        assert(adjacent(es, p[p.len() - 2], p[p.len() - 1]));
        assert(q.last() == p[p.len() - 2]);
    }
}

impl DepGraph {
    /// Every file reachable from `changed` through the edges, excluding
    /// `changed` itself; each once, in path order. A file with no edges, or
    /// not in the graph, has no dependents.
    pub fn dependents(&self, changed: &str) -> (r: Vec<String>)
        requires
            self.wf(),
        ensures
            views(r@).no_duplicates(),
            in_path_order(views(r@)),
            forall|n: Seq<char>| #[trigger] views(r@).contains(n) <==> n != changed@ && self.connected(
                changed@,
                n,
            ),
    {
        let key = owned(changed);
        let es = &self.edges;
        let n = self.names.len();
        let start = match self.index_of(&key) {
            Some(s) => s,
            None => {
                let r: Vec<String> = Vec::new();
                proof {
                    assert(views(r@) =~= Seq::<Seq<char>>::empty());
                    assert forall|m: Seq<char>| #[trigger] views(r@).contains(m) <==> m != changed@ && self.connected(changed@, m) by {
                        if self.connected(changed@, m) {
                            let (i, j) = choose|i: int, j: int|
                                0 <= i < self.names().len() && 0 <= j < self.names().len() && #[trigger] self.names()[i]
                                    == changed@ && #[trigger] self.names()[j] == m && reaches(self.edge_list(), i, j);
                            assert(self.names().contains(changed@));
                        }
                    }
                }
                return r;
            },
        };
        let mut seen: Vec<bool> = Vec::new();
        let mut c: usize = 0;
        while c < n
            invariant
                c <= n,
                n == self.names@.len(),
                seen@.len() == c,
                forall|k: int| 0 <= k < c ==> !seen@[k],
                count_true(seen@) == 0,
            decreases n - c,
        {
            let ghost prev = seen@;
            seen.push(false);
            proof {
                assert(seen@.drop_last() =~= prev);
            }
            c = c + 1;
        }
        proof {
            lemma_count_true_set(seen@, start as int);
        }
        seen.set(start, true);
        let mut seen_count: usize = 1;
        let mut stack: Vec<usize> = Vec::new();
        stack.push(start);
        let ghost esv = self.edge_list();
        proof {
            let w = seq![start as int];
            assert(is_walk(esv, w));
            assert(w.last() == start as int);
            assert(stack@[0] == start);
            assert forall|i: int| 0 <= i < n && #[trigger] seen@[i] implies reaches(esv, start as int, i) by {
                assert(i == start as int);
            }
        }
        while stack.len() > 0
            invariant
                self.wf(),
                esv == self.edge_list(),
                *es == self.edges,
                n == self.names@.len(),
                seen@.len() == n,
                start < n,
                seen@[start as int],
                seen_count == count_true(seen@),
                seen_count <= n,
                forall|k: int| 0 <= k < stack@.len() ==> (#[trigger] stack@[k]) < n && seen@[stack@[k] as int],
                forall|i: int| 0 <= i < n && #[trigger] seen@[i] ==> reaches(esv, start as int, i),
                forall|a: int, b: int|
                    #![trigger adjacent(esv, a, b)]
                    0 <= a < n && seen@[a] && !stack@.contains(a as usize) && adjacent(esv, a, b) ==> 0 <= b < n
                        && seen@[b],
            decreases n - seen_count, stack@.len(),
        {
            let ghost stack_before = stack@;
            let cur = stack.pop().unwrap();
            let ghost stack_rest = stack@;
            let ghost count0 = seen_count;
            proof {
                assert(stack_before == stack_rest.push(cur));
                assert forall|a: int, b: int|
                    #![trigger adjacent(esv, a, b)]
                    0 <= a < n && seen@[a] && a != cur && !stack@.contains(a as usize) && adjacent(esv, a, b)
                        implies 0 <= b < n && seen@[b] by {
                    if stack_before.contains(a as usize) {
                        let t = choose|t: int| 0 <= t < stack_before.len() && stack_before[t] == a as usize;
                        if t < stack_rest.len() {
                            assert(stack@[t] == a as usize);
                        }
                    }
                }
            }
            let mut k: usize = 0;
            while k < es.len()
                invariant
                    self.wf(),
                    esv == self.edge_list(),
                    *es == self.edges,
                    n == self.names@.len(),
                    seen@.len() == n,
                    cur < n,
                    seen@[cur as int],
                    start < n,
                    seen@[start as int],
                    seen_count == count_true(seen@),
                    seen_count <= n,
                    k <= esv.len(),
                    count0 <= seen_count,
                    stack@.len() == stack_rest.len() + (seen_count - count0),
                    forall|a: int, b: int|
                        #![trigger adjacent(esv, a, b)]
                        0 <= a < n && seen@[a] && a != cur && !stack@.contains(a as usize) && adjacent(esv, a, b)
                            ==> 0 <= b < n && seen@[b],
                    stack@.take(stack_rest.len() as int) == stack_rest,
                    forall|m: int| 0 <= m < stack@.len() ==> (#[trigger] stack@[m]) < n && seen@[stack@[m] as int],
                    forall|i: int| 0 <= i < n && #[trigger] seen@[i] ==> reaches(esv, start as int, i),
                    forall|m: int| 0 <= m < k ==> ((#[trigger] esv[m]).0 == cur ==> seen@[esv[m].1 as int]) && (esv[m].1 == cur ==> seen@[esv[m].0 as int]),
                decreases esv.len() - k,
            {
                let (x, y) = es[k];
                let nb: Option<usize> = if x == cur {
                    Some(y)
                } else if y == cur {
                    Some(x)
                } else {
                    None
                };
                match nb {
                    Some(b) => {
                        if !seen[b] {
                            proof {
                                lemma_count_true_set(seen@, b as int);
                                lemma_count_true_bound(seen@.update(b as int, true));
                                let p = choose|p: Seq<int>| is_walk(esv, p) && p[0] == start as int && #[trigger] p.last() == cur as int;
                                let q = p.push(b as int);
                                assert(adjacent(esv, cur as int, b as int)) by {
                                    assert(esv[k as int] == (x, y));
                                }
                                assert forall|t: int| 0 <= t < q.len() - 1 implies adjacent(esv, #[trigger] q[t], q[t + 1]) by {
                                    if t < p.len() - 1 {
                                        assert(q[t] == p[t] && q[t + 1] == p[t + 1]);
                                        assert(adjacent(esv, p[t], p[t + 1]));
                                    } else {
                                        assert(q[t] == cur as int && q[t + 1] == b as int);
                                    }
                                }
                                assert(q.last() == b as int);
                                assert(reaches(esv, start as int, b as int));
                            }
                            let ghost seen_prev = seen@;
                            let ghost stack_prev = stack@;
                            seen.set(b, true);
                            seen_count = seen_count + 1;
                            stack.push(b);
                            proof {
                                assert(stack@ == stack_prev.push(b));
                                assert(stack@.take(stack_rest.len() as int) =~= stack_prev.take(stack_rest.len() as int));
                                assert forall|a: int, c: int|
                                    #![trigger adjacent(esv, a, c)]
                                    0 <= a < n && seen@[a] && a != cur && !stack@.contains(a as usize) && adjacent(esv, a, c)
                                        implies 0 <= c < n && seen@[c] by {
                                    assert(stack@[stack_prev.len() as int] == b);
                                    assert(a != b as int);
                                    assert(!stack_prev.contains(a as usize)) by {
                                        if stack_prev.contains(a as usize) {
                                            let t = choose|t: int| 0 <= t < stack_prev.len() && stack_prev[t] == a as usize;
                                            assert(stack@[t] == a as usize);
                                        }
                                    }
                                    assert(seen_prev[a]);
                                    assert(seen_prev[c]);
                                }
                            }
                        }
                    },
                    None => {},
                }
                k = k + 1;
            }
            proof {
                assert forall|a: int, b: int|
                    #![trigger adjacent(esv, a, b)]
                    0 <= a < n && seen@[a] && !stack@.contains(a as usize) && adjacent(esv, a, b) implies 0 <= b < n
                        && seen@[b] by {
                    let m = choose|m: int| 0 <= m < esv.len() && ((#[trigger] esv[m]).0 == a && esv[m].1 == b || esv[m].0 == b && esv[m].1 == a);
                    assert(esv[m].0 < n && esv[m].1 < n);
                    if a == cur as int {
                    } else {
                        assert(!stack_rest.contains(a as usize)) by {
                            if stack_rest.contains(a as usize) {
                                let t = choose|t: int| 0 <= t < stack_rest.len() && stack_rest[t] == a as usize;
                                assert(stack@.take(stack_rest.len() as int)[t] == stack@[t]);
                            }
                        }
                    }
                }
            }
        }
        proof {
            assert forall|a: int, b: int| 0 <= a < seen@.len() && seen@[a] && adjacent(esv, a, b) implies 0 <= b < seen@.len() && seen@[b] by {
                assert(!stack@.contains(a as usize));
            }
        }
        let mut out: Vec<String> = Vec::new();
        let mut i: usize = 0;
        while i < n
            invariant
                i <= n,
                n == self.names@.len(),
                seen@.len() == n,
                self.wf(),
                views(out@).no_duplicates(),
                forall|m: Seq<char>| #[trigger] views(out@).contains(m) <==> exists|t: int|
                    0 <= t < i && t != start && seen@[t] && self.names()[t] == m,
            decreases n - i,
        {
            if seen[i] && i != start {
                let ghost before = views(out@);
                let copy = self.names[i].clone();
                out.push(copy);
                proof {
                    let now = views(out@);
                    assert(now =~= before.push(self.names()[i as int]));
                    assert(self.names()[i as int] == self.names@[i as int]@);
                    assert forall|m: int| 0 <= m < before.len() implies before[m] != self.names()[i as int] by {
                        assert(before.contains(before[m]));
                        let t = choose|t: int| 0 <= t < i && t != start && seen@[t] && self.names()[t] == before[m];
                        assert(t != i);
                    }
                    assert forall|m: Seq<char>| #[trigger] now.contains(m) <==> exists|t: int|
                        0 <= t < i + 1 && t != start && seen@[t] && self.names()[t] == m by {
                        if now.contains(m) {
                            let q = choose|q: int| 0 <= q < now.len() && now[q] == m;
                            if q < before.len() {
                                assert(before[q] == m);
                                assert(before.contains(m));
                            }
                        }
                        if exists|t: int| 0 <= t < i + 1 && t != start && seen@[t] && self.names()[t] == m {
                            let t = choose|t: int| 0 <= t < i + 1 && t != start && seen@[t] && self.names()[t] == m;
                            if t < i {
                                assert(before.contains(m));
                                let q = choose|q: int| 0 <= q < before.len() && before[q] == m;
                                assert(now[q] == m);
                            } else {
                                assert(now[before.len() as int] == m);
                            }
                        }
                    }
                }
            }
            i = i + 1;
        }
        proof {
            let esn = self.edge_list();
            assert forall|m: Seq<char>| #[trigger] views(out@).contains(m) <==> m != changed@ && self.connected(changed@, m) by {
                if views(out@).contains(m) {
                    let t = choose|t: int| 0 <= t < n && t != start && seen@[t] && self.names()[t] == m;
                    assert(reaches(esn, start as int, t));
                    assert(self.names()[start as int] == changed@);
                    assert(m != changed@) by {
                        assert(self.names()[t] != self.names()[start as int]);
                    }
                }
                if m != changed@ && self.connected(changed@, m) {
                    let (u, v) = choose|u: int, v: int|
                        0 <= u < self.names().len() && 0 <= v < self.names().len() && #[trigger] self.names()[u]
                            == changed@ && #[trigger] self.names()[v] == m && reaches(esn, u, v);
                    assert(u == start as int) by {
                        if u != start as int {
                            assert(self.names()[u] == self.names()[start as int]);
                        }
                    }
                    let p = choose|p: Seq<int>| is_walk(esn, p) && p[0] == u && #[trigger] p.last() == v;
                    lemma_closed_contains_reachable(esn, seen@, p);
                    assert(v != start as int);
                }
            }
        }
        sort_paths(out)
    }
}

proof fn lemma_walk_extends(es: Seq<(usize, usize)>, e: (usize, usize), p: Seq<int>)
    requires
        is_walk(es, p),
    ensures
        is_walk(es.push(e), p),
{
    assert forall|k: int| 0 <= k < p.len() - 1 implies adjacent(es.push(e), #[trigger] p[k], p[k + 1]) by {
        assert(adjacent(es, p[k], p[k + 1]));
        let m = choose|m: int| 0 <= m < es.len() && ((#[trigger] es[m]).0 == p[k] && es[m].1 == p[k + 1] || es[m].0 == p[k + 1] && es[m].1 == p[k]);
        assert(es.push(e)[m] == es[m]);
    }
}

// ── Building the graph ──────────────────────────────────────────────────────

/// One index as the resolver sees it: for each key, the files contributing
/// that key, and the index's source files.
#[derive(Debug, Clone)]
pub struct IndexSources {
    pub name: String,
    pub contributors: Vec<Vec<String>>,
    pub sources: Vec<String>,
}

/// One rule's cross-file reach: the files its context selects, the index
/// names its `key()` calls name, and whether one names its index by a
/// computed value.
#[derive(Debug, Clone)]
pub struct RuleReach {
    pub context_files: Vec<String>,
    pub referenced: Vec<String>,
    pub dynamic: bool,
}

/// A path pair as text.
pub open spec fn pair_views(v: Seq<(String, String)>) -> Seq<(Seq<char>, Seq<char>)> {
    v.map_values(|p: (String, String)| (p.0@, p.1@))
}

/// The graph node of a governing-document path: its confined form, so a
/// leading `./` names the same node as the file it points at; the raw text
/// when it does not confine.
pub open spec fn node_of(raw: Seq<char>) -> Seq<char> {
    match confinement(raw) {
        Ok(p) => p,
        Err(_) => raw,
    }
}

fn normalize_node(raw: &str) -> (n: String)
    ensures
        n@ == node_of(raw@),
{
    match confine_lexically(raw) {
        Ok(c) => owned(c.as_path()),
        Err(_) => owned(raw),
    }
}

/// Governance edges of one file: to the governing document of each route
/// whose glob claims it, in route order.
pub open spec fn file_governance(f: GovernedFile, routes: Seq<Route>) -> Seq<(Seq<char>, Seq<char>)>
    decreases routes.len(),
{
    if routes.len() == 0 {
        Seq::empty()
    } else {
        file_governance(f, routes.drop_last()) + if glob_matches(routes.last().files.source(), f.path@) {
            seq![(f.path@, node_of(routes.last().governed_by@))]
        } else {
            Seq::empty()
        }
    }
}

/// Governance edges of all files, in file order.
pub open spec fn governance_pairs(files: Seq<GovernedFile>, routes: Seq<Route>) -> Seq<(Seq<char>, Seq<char>)>
    decreases files.len(),
{
    if files.len() == 0 {
        Seq::empty()
    } else {
        governance_pairs(files.drop_last(), routes) + file_governance(files.last(), routes)
    }
}

/// Every pair of one contributor group, each once.
pub open spec fn group_pairs(g: Seq<Seq<char>>) -> Seq<(Seq<char>, Seq<char>)>
    decreases g.len(),
{
    if g.len() == 0 {
        Seq::empty()
    } else {
        group_pairs(g.drop_last()) + Seq::new((g.len() - 1) as nat, |p: int| (g[p], g.last()))
    }
}

/// Shared-key edges of one index's groups.
pub open spec fn groups_pairs(gs: Seq<Vec<String>>) -> Seq<(Seq<char>, Seq<char>)>
    decreases gs.len(),
{
    if gs.len() == 0 {
        Seq::empty()
    } else {
        groups_pairs(gs.drop_last()) + group_pairs(views(gs.last()@))
    }
}

/// Shared-key edges: files contributing the same key to one index.
pub open spec fn shared_pairs(indices: Seq<IndexSources>) -> Seq<(Seq<char>, Seq<char>)>
    decreases indices.len(),
{
    if indices.len() == 0 {
        Seq::empty()
    } else {
        shared_pairs(indices.drop_last()) + groups_pairs(indices.last().contributors@)
    }
}

/// The position of the first index named `n`.
pub open spec fn index_named(indices: Seq<IndexSources>, n: Seq<char>) -> Option<int>
    decreases indices.len(),
{
    if indices.len() == 0 {
        None
    } else {
        match index_named(indices.drop_last(), n) {
            Some(i) => Some(i),
            None => if indices.last().name@ == n {
                Some(indices.len() - 1)
            } else {
                None
            },
        }
    }
}

/// The indices a rule reaches: every index when it names one dynamically,
/// else each named index that exists, in the order named.
pub open spec fn named_targets(indices: Seq<IndexSources>, names: Seq<Seq<char>>) -> Seq<int>
    decreases names.len(),
{
    if names.len() == 0 {
        Seq::empty()
    } else {
        named_targets(indices, names.drop_last()) + match index_named(indices, names.last()) {
            Some(i) => seq![i],
            None => Seq::empty(),
        }
    }
}

pub open spec fn rule_targets(indices: Seq<IndexSources>, r: RuleReach) -> Seq<int> {
    if r.dynamic {
        Seq::new(indices.len(), |i: int| i)
    } else {
        named_targets(indices, views(r.referenced@))
    }
}

/// Each context file paired with one source.
pub open spec fn source_pairs(ctx: Seq<Seq<char>>, src: Seq<char>) -> Seq<(Seq<char>, Seq<char>)> {
    Seq::new(ctx.len(), |c: int| (ctx[c], src))
}

/// Each context file paired with each source of the targets in `ts`.
pub open spec fn target_pairs(indices: Seq<IndexSources>, ctx: Seq<Seq<char>>, ts: Seq<int>) -> Seq<(Seq<char>, Seq<char>)>
    decreases ts.len(),
{
    if ts.len() == 0 {
        Seq::empty()
    } else {
        target_pairs(indices, ctx, ts.drop_last()) + sources_pairs(ctx, views(indices[ts.last()].sources@))
    }
}

pub open spec fn sources_pairs(ctx: Seq<Seq<char>>, srcs: Seq<Seq<char>>) -> Seq<(Seq<char>, Seq<char>)>
    decreases srcs.len(),
{
    if srcs.len() == 0 {
        Seq::empty()
    } else {
        sources_pairs(ctx, srcs.drop_last()) + source_pairs(ctx, srcs.last())
    }
}

/// Rule-reference edges: a rule's context files to the sources of every
/// index its `key()` calls reach; a rule naming no index reaches none.
pub open spec fn reference_pairs(indices: Seq<IndexSources>, rules: Seq<RuleReach>) -> Seq<(Seq<char>, Seq<char>)>
    decreases rules.len(),
{
    if rules.len() == 0 {
        Seq::empty()
    } else {
        let r = rules.last();
        reference_pairs(indices, rules.drop_last()) + if r.referenced@.len() == 0 && !r.dynamic {
            Seq::empty()
        } else {
            target_pairs(indices, views(r.context_files@), rule_targets(indices, r))
        }
    }
}

/// All edges the resolver draws: governance, then shared-key, then
/// rule-reference.
pub open spec fn dependency_pairs(
    files: Seq<GovernedFile>,
    routes: Seq<Route>,
    indices: Seq<IndexSources>,
    rules: Seq<RuleReach>,
) -> Seq<(Seq<char>, Seq<char>)> {
    governance_pairs(files, routes) + shared_pairs(indices) + reference_pairs(indices, rules)
}

fn push_pair(out: &mut Vec<(String, String)>, a: &str, b: &str)
    ensures
        pair_views(final(out)@) == pair_views(old(out)@).push((a@, b@)),
{
    out.push((owned(a), owned(b)));
    proof {
        assert(pair_views(out@) =~= pair_views(old(out)@).push((a@, b@)));
    }
}

fn add_governance(out: &mut Vec<(String, String)>, files: &[GovernedFile], routes: &[Route])
    ensures
        pair_views(final(out)@) == pair_views(old(out)@) + governance_pairs(files@, routes@),
{
    let ghost base = pair_views(out@);
    let mut i: usize = 0;
    while i < files.len()
        invariant
            i <= files@.len(),
            pair_views(out@) == base + governance_pairs(files@.take(i as int), routes@),
        decreases files.len() - i,
    {
        let f = &files[i];
        proof {
            assert(files@.take(i + 1).drop_last() =~= files@.take(i as int));
            assert(files@.take(i + 1).last() == files@[i as int]);
        }
        let ghost mid = pair_views(out@);
        let mut j: usize = 0;
        while j < routes.len()
            invariant
                j <= routes@.len(),
                pair_views(out@) == mid + file_governance(*f, routes@.take(j as int)),
            decreases routes.len() - j,
        {
            proof {
                assert(routes@.take(j + 1).drop_last() =~= routes@.take(j as int));
                assert(routes@.take(j + 1).last() == routes@[j as int]);
            }
            if routes[j].files.matches_path(f.path.as_str()) {
                let node = normalize_node(routes[j].governed_by.as_str());
                push_pair(out, f.path.as_str(), node.as_str());
                proof {
                    assert(mid + file_governance(*f, routes@.take(j + 1)) =~= mid + file_governance(*f, routes@.take(j as int)).push((f.path@, node@)));
                }
            } else {
                proof {
                    assert(file_governance(*f, routes@.take(j + 1)) =~= file_governance(*f, routes@.take(j as int)));
                }
            }
            j = j + 1;
        }
        proof {
            assert(routes@.take(routes@.len() as int) =~= routes@);
            assert(base + governance_pairs(files@.take(i + 1), routes@) =~= base + governance_pairs(files@.take(i as int), routes@) + file_governance(*f, routes@));
        }
        i = i + 1;
    }
    proof {
        assert(files@.take(files@.len() as int) =~= files@);
    }
}

fn add_group(out: &mut Vec<(String, String)>, g: &Vec<String>)
    ensures
        pair_views(final(out)@) == pair_views(old(out)@) + group_pairs(views(g@)),
{
    let ghost base = pair_views(out@);
    let ghost gv = views(g@);
    let mut q: usize = 0;
    proof {
        assert(gv.take(0) =~= Seq::<Seq<char>>::empty());
        assert(base + group_pairs(Seq::<Seq<char>>::empty()) =~= base);
    }
    while q < g.len()
        invariant
            q <= g@.len(),
            gv == views(g@),
            pair_views(out@) == base + group_pairs(gv.take(q as int)),
        decreases g.len() - q,
    {
        let ghost mid = pair_views(out@);
        let mut p: usize = 0;
        while p < q
            invariant
                p <= q < g@.len(),
                gv == views(g@),
                pair_views(out@) == mid + Seq::new(p as nat, |k: int| (gv[k], gv[q as int])),
            decreases q - p,
        {
            push_pair(out, g[p].as_str(), g[q].as_str());
            proof {
                assert(mid + Seq::new((p + 1) as nat, |k: int| (gv[k], gv[q as int])) =~= mid + Seq::new(p as nat, |k: int| (gv[k], gv[q as int])).push((gv[p as int], gv[q as int])));
            }
            p = p + 1;
        }
        proof {
            let t = gv.take(q + 1);
            assert(t.drop_last() =~= gv.take(q as int));
            assert(t.last() == gv[q as int]);
            assert(Seq::new((t.len() - 1) as nat, |k: int| (t[k], t.last())) =~= Seq::new(q as nat, |k: int| (gv[k], gv[q as int])));
            assert(base + group_pairs(t) =~= base + group_pairs(gv.take(q as int)) + Seq::new(q as nat, |k: int| (gv[k], gv[q as int])));
        }
        q = q + 1;
    }
    proof {
        assert(gv.take(gv.len() as int) =~= gv);
    }
}

fn add_shared(out: &mut Vec<(String, String)>, indices: &[IndexSources])
    ensures
        pair_views(final(out)@) == pair_views(old(out)@) + shared_pairs(indices@),
{
    let ghost base = pair_views(out@);
    let mut i: usize = 0;
    while i < indices.len()
        invariant
            i <= indices@.len(),
            pair_views(out@) == base + shared_pairs(indices@.take(i as int)),
        decreases indices.len() - i,
    {
        let gs = &indices[i].contributors;
        proof {
            assert(indices@.take(i + 1).drop_last() =~= indices@.take(i as int));
            assert(indices@.take(i + 1).last() == indices@[i as int]);
        }
        let ghost mid = pair_views(out@);
        let mut k: usize = 0;
        while k < gs.len()
            invariant
                k <= gs@.len(),
                pair_views(out@) == mid + groups_pairs(gs@.take(k as int)),
            decreases gs.len() - k,
        {
            proof {
                assert(gs@.take(k + 1).drop_last() =~= gs@.take(k as int));
                assert(gs@.take(k + 1).last() == gs@[k as int]);
            }
            add_group(out, &gs[k]);
            proof {
                assert(mid + groups_pairs(gs@.take(k + 1)) =~= mid + groups_pairs(gs@.take(k as int)) + group_pairs(views(gs@[k as int]@)));
            }
            k = k + 1;
        }
        proof {
            assert(gs@.take(gs@.len() as int) =~= gs@);
            assert(base + shared_pairs(indices@.take(i + 1)) =~= base + shared_pairs(indices@.take(i as int)) + groups_pairs(gs@));
        }
        i = i + 1;
    }
    proof {
        assert(indices@.take(indices@.len() as int) =~= indices@);
    }
}

fn find_index(indices: &[IndexSources], n: &String) -> (r: Option<usize>)
    ensures
        match r {
            Some(i) => index_named(indices@, n@) == Some(i as int),
            None => index_named(indices@, n@) is None,
        },
{
    let mut i: usize = 0;
    while i < indices.len()
        invariant
            i <= indices@.len(),
            index_named(indices@.take(i as int), n@) is None,
        decreases indices.len() - i,
    {
        proof {
            assert(indices@.take(i + 1).drop_last() =~= indices@.take(i as int));
            assert(indices@.take(i + 1).last() == indices@[i as int]);
        }
        if indices[i].name == *n {
            proof {
                lemma_index_named_prefix(indices@, n@, i as int + 1);
            }
            return Some(i);
        }
        i = i + 1;
    }
    proof {
        assert(indices@.take(indices@.len() as int) =~= indices@);
    }
    None
}

proof fn lemma_index_named_prefix(indices: Seq<IndexSources>, n: Seq<char>, k: int)
    requires
        0 <= k <= indices.len(),
        index_named(indices.take(k), n) is Some,
    ensures
        index_named(indices, n) == index_named(indices.take(k), n),
    decreases indices.len() - k,
{
    if k < indices.len() {
        assert(indices.take(k + 1).drop_last() =~= indices.take(k));
        lemma_index_named_prefix(indices, n, k + 1);
    } else {
        assert(indices.take(k) =~= indices);
    }
}

proof fn lemma_index_named_bound(indices: Seq<IndexSources>, n: Seq<char>)
    ensures
        index_named(indices, n) matches Some(i) ==> 0 <= i < indices.len(),
    decreases indices.len(),
{
    if indices.len() > 0 {
        lemma_index_named_bound(indices.drop_last(), n);
    }
}

fn reach_targets(indices: &[IndexSources], r: &RuleReach) -> (ts: Vec<usize>)
    ensures
        ts@.len() == rule_targets(indices@, *r).len(),
        forall|k: int| 0 <= k < ts@.len() ==> ts@[k] as int == #[trigger] rule_targets(indices@, *r)[k],
        forall|k: int| 0 <= k < ts@.len() ==> (#[trigger] ts@[k]) < indices@.len(),
{
    let mut ts: Vec<usize> = Vec::new();
    if r.dynamic {
        let mut i: usize = 0;
        while i < indices.len()
            invariant
                i <= indices@.len(),
                ts@.len() == i,
                forall|k: int| 0 <= k < i ==> ts@[k] as int == k,
            decreases indices.len() - i,
        {
            ts.push(i);
            i = i + 1;
        }
        return ts;
    }
    let ghost names = views(r.referenced@);
    let mut m: usize = 0;
    while m < r.referenced.len()
        invariant
            m <= r.referenced@.len(),
            names == views(r.referenced@),
            !r.dynamic,
            ts@.len() == named_targets(indices@, names.take(m as int)).len(),
            forall|k: int| 0 <= k < ts@.len() ==> ts@[k] as int == #[trigger] named_targets(indices@, names.take(m as int))[k],
            forall|k: int| 0 <= k < ts@.len() ==> (#[trigger] ts@[k]) < indices@.len(),
        decreases r.referenced.len() - m,
    {
        proof {
            assert(names.take(m + 1).drop_last() =~= names.take(m as int));
            assert(names.take(m + 1).last() == r.referenced@[m as int]@);
            lemma_index_named_bound(indices@, names[m as int]);
        }
        match find_index(indices, &r.referenced[m]) {
            Some(t) => {
                ts.push(t);
            },
            None => {},
        }
        m = m + 1;
    }
    proof {
        assert(names.take(names.len() as int) =~= names);
    }
    ts
}

fn add_sources(out: &mut Vec<(String, String)>, ctx: &Vec<String>, srcs: &Vec<String>)
    ensures
        pair_views(final(out)@) == pair_views(old(out)@) + sources_pairs(views(ctx@), views(srcs@)),
{
    let ghost base = pair_views(out@);
    let ghost cv = views(ctx@);
    let ghost sv = views(srcs@);
    let mut s: usize = 0;
    while s < srcs.len()
        invariant
            s <= srcs@.len(),
            cv == views(ctx@),
            sv == views(srcs@),
            pair_views(out@) == base + sources_pairs(cv, sv.take(s as int)),
        decreases srcs.len() - s,
    {
        let ghost mid = pair_views(out@);
        let mut c: usize = 0;
        while c < ctx.len()
            invariant
                c <= ctx@.len(),
                s < srcs@.len(),
                cv == views(ctx@),
                sv == views(srcs@),
                pair_views(out@) == mid + Seq::new(c as nat, |k: int| (cv[k], sv[s as int])),
            decreases ctx.len() - c,
        {
            push_pair(out, ctx[c].as_str(), srcs[s].as_str());
            proof {
                assert(mid + Seq::new((c + 1) as nat, |k: int| (cv[k], sv[s as int])) =~= mid + Seq::new(c as nat, |k: int| (cv[k], sv[s as int])).push((cv[c as int], sv[s as int])));
            }
            c = c + 1;
        }
        proof {
            assert(sv.take(s + 1).drop_last() =~= sv.take(s as int));
            assert(sv.take(s + 1).last() == sv[s as int]);
            assert(source_pairs(cv, sv[s as int]) =~= Seq::new(cv.len(), |k: int| (cv[k], sv[s as int])));
            assert(base + sources_pairs(cv, sv.take(s + 1)) =~= base + sources_pairs(cv, sv.take(s as int)) + source_pairs(cv, sv[s as int]));
        }
        s = s + 1;
    }
    proof {
        assert(sv.take(sv.len() as int) =~= sv);
    }
}

fn add_references(out: &mut Vec<(String, String)>, indices: &[IndexSources], rules: &[RuleReach])
    ensures
        pair_views(final(out)@) == pair_views(old(out)@) + reference_pairs(indices@, rules@),
{
    let ghost base = pair_views(out@);
    let mut i: usize = 0;
    while i < rules.len()
        invariant
            i <= rules@.len(),
            pair_views(out@) == base + reference_pairs(indices@, rules@.take(i as int)),
        decreases rules.len() - i,
    {
        let r = &rules[i];
        proof {
            assert(rules@.take(i + 1).drop_last() =~= rules@.take(i as int));
            assert(rules@.take(i + 1).last() == rules@[i as int]);
        }
        if r.referenced.len() == 0 && !r.dynamic {
            proof {
                assert(base + reference_pairs(indices@, rules@.take(i + 1)) =~= base + reference_pairs(indices@, rules@.take(i as int)));
            }
        } else {
            let ts = reach_targets(indices, r);
            let ghost tsv = rule_targets(indices@, *r);
            let ghost mid = pair_views(out@);
            let ghost cv = views(r.context_files@);
            let mut t: usize = 0;
            while t < ts.len()
                invariant
                    t <= ts@.len(),
                    ts@.len() == tsv.len(),
                    forall|k: int| 0 <= k < ts@.len() ==> ts@[k] as int == #[trigger] tsv[k],
                    forall|k: int| 0 <= k < ts@.len() ==> (#[trigger] ts@[k]) < indices@.len(),
                    cv == views(r.context_files@),
                    pair_views(out@) == mid + target_pairs(indices@, cv, tsv.take(t as int)),
                decreases ts.len() - t,
            {
                let ti = ts[t];
                proof {
                    assert(tsv.take(t + 1).drop_last() =~= tsv.take(t as int));
                    assert(tsv.take(t + 1).last() == tsv[t as int]);
                    assert(ts@[t as int] as int == tsv[t as int]);
                }
                add_sources(out, &r.context_files, &indices[ti].sources);
                proof {
                    assert(mid + target_pairs(indices@, cv, tsv.take(t + 1)) =~= mid + target_pairs(indices@, cv, tsv.take(t as int)) + sources_pairs(cv, views(indices@[ti as int].sources@)));
                }
                t = t + 1;
            }
            proof {
                assert(tsv.take(tsv.len() as int) =~= tsv);
                assert(base + reference_pairs(indices@, rules@.take(i + 1)) =~= base + reference_pairs(indices@, rules@.take(i as int)) + target_pairs(indices@, cv, tsv));
            }
        }
        i = i + 1;
    }
    proof {
        assert(rules@.take(rules@.len() as int) =~= rules@);
    }
}

impl DepGraph {
    /// Whether every edge joins the two nodes of one of `ps`.
    pub open spec fn edges_from(&self, ps: Seq<(Seq<char>, Seq<char>)>) -> bool {
        forall|k: int|
            0 <= k < self.edge_list().len() ==> exists|m: int|
                0 <= m < ps.len() && #[trigger] ps[m] == (
                    self.names()[(#[trigger] self.edge_list()[k]).0 as int],
                    self.names()[self.edge_list()[k].1 as int],
                )
    }

    /// Build the graph from the walked governed files, the route table, the
    /// indices (with their provenance) and the rules' reach: an undirected
    /// edge for each governance, shared-key and rule-reference pair, and no
    /// other.
    pub fn build(
        files: &[GovernedFile],
        routes: &[Route],
        indices: &[IndexSources],
        rules: &[RuleReach],
    ) -> (g: Self)
        ensures
            g.wf(),
            forall|m: int|
                0 <= m < dependency_pairs(files@, routes@, indices@, rules@).len()
                    && (#[trigger] dependency_pairs(files@, routes@, indices@, rules@)[m]).0
                    != dependency_pairs(files@, routes@, indices@, rules@)[m].1 ==> g.connected(
                    dependency_pairs(files@, routes@, indices@, rules@)[m].0,
                    dependency_pairs(files@, routes@, indices@, rules@)[m].1,
                ),
            g.edges_from(dependency_pairs(files@, routes@, indices@, rules@)),
    {
        let mut pairs: Vec<(String, String)> = Vec::new();
        proof {
            assert(pair_views(pairs@) =~= Seq::<(Seq<char>, Seq<char>)>::empty());
        }
        add_governance(&mut pairs, files, routes);
        add_shared(&mut pairs, indices);
        add_references(&mut pairs, indices, rules);
        let ghost ps = pair_views(pairs@);
        proof {
            assert(ps =~= dependency_pairs(files@, routes@, indices@, rules@));
        }
        let mut g = DepGraph::new();
        let mut k: usize = 0;
        while k < pairs.len()
            invariant
                k <= pairs@.len(),
                ps == pair_views(pairs@),
                g.wf(),
                forall|m: int| 0 <= m < k && (#[trigger] ps[m]).0 != ps[m].1 ==> g.connected(ps[m].0, ps[m].1),
                g.edges_from(ps),
            decreases pairs.len() - k,
        {
            let ghost g0 = g;
            proof {
                assert(ps[k as int] == (pairs@[k as int].0@, pairs@[k as int].1@));
            }
            g.connect(pairs[k].0.as_str(), pairs[k].1.as_str());
            proof {
                assert forall|m: int| 0 <= m < k + 1 && (#[trigger] ps[m]).0 != ps[m].1 implies g.connected(ps[m].0, ps[m].1) by {
                    if m < k {
                        assert(g0.connected(ps[m].0, ps[m].1));
                    }
                }
                assert forall|e: int| 0 <= e < g.edge_list().len() implies exists|m: int|
                    0 <= m < ps.len() && #[trigger] ps[m] == (
                        g.names()[(#[trigger] g.edge_list()[e]).0 as int],
                        g.names()[g.edge_list()[e].1 as int],
                    ) by {
                    if e < g0.edge_list().len() {
                        assert(g.edge_list()[e] == g.edge_list().take(g0.edge_list().len() as int)[e]);
                        assert(g.edge_list()[e] == g0.edge_list()[e]);
                        let m = choose|m: int|
                            0 <= m < ps.len() && #[trigger] ps[m] == (
                                g0.names()[(g0.edge_list()[e]).0 as int],
                                g0.names()[g0.edge_list()[e].1 as int],
                            );
                        assert(g0.wf());
                        assert(ps[m] == (g.names()[g.edge_list()[e].0 as int], g.names()[g.edge_list()[e].1 as int]));
                    } else {
                        assert(ps[k as int] == (g.names()[g.edge_list()[e].0 as int], g.names()[g.edge_list()[e].1 as int]));
                    }
                }
            }
            k = k + 1;
        }
        g
    }
}


// ── The indices a rule's `key()` calls name ────────────────────────────────

/// The index names the `key()` calls of `e` name by a string literal, in
/// pre-order, and whether one names its index by a computed value. A
/// non-string literal first argument is a broken rule and names nothing.
pub open spec fn key_refs(e: SExpr) -> (Seq<Seq<char>>, bool)
    decreases e, 0int,
{
    match e {
        SExpr::Call(n, args) => {
            let head: (Seq<Seq<char>>, bool) = if n == "key"@ && args.len() > 0 {
                match args[0] {
                    SExpr::Lit(SValue::Str(s)) => (seq![s], false),
                    SExpr::Lit(_) => (Seq::empty(), false),
                    _ => (Seq::empty(), true),
                }
            } else {
                (Seq::empty(), false)
            };
            let rest = key_refs_args(args, args.len() as int);
            (head.0 + rest.0, head.1 || rest.1)
        },
        SExpr::Field(inner, _) => key_refs(*inner),
        SExpr::Not(inner) => key_refs(*inner),
        SExpr::Eq(a, b) => {
            let x = key_refs(*a);
            let y = key_refs(*b);
            (x.0 + y.0, x.1 || y.1)
        },
        SExpr::Ne(a, b) => {
            let x = key_refs(*a);
            let y = key_refs(*b);
            (x.0 + y.0, x.1 || y.1)
        },
        SExpr::And(a, b) => {
            let x = key_refs(*a);
            let y = key_refs(*b);
            (x.0 + y.0, x.1 || y.1)
        },
        SExpr::Or(a, b) => {
            let x = key_refs(*a);
            let y = key_refs(*b);
            (x.0 + y.0, x.1 || y.1)
        },
        SExpr::In(a, b) => {
            let x = key_refs(*a);
            let y = key_refs(*b);
            (x.0 + y.0, x.1 || y.1)
        },
        SExpr::NotIn(a, b) => {
            let x = key_refs(*a);
            let y = key_refs(*b);
            (x.0 + y.0, x.1 || y.1)
        },
        SExpr::Every(_, a, b) => {
            let x = key_refs(*a);
            let y = key_refs(*b);
            (x.0 + y.0, x.1 || y.1)
        },
        SExpr::Some_(_, a, b) => {
            let x = key_refs(*a);
            let y = key_refs(*b);
            (x.0 + y.0, x.1 || y.1)
        },
        SExpr::Filter(_, a, b) => {
            let x = key_refs(*a);
            let y = key_refs(*b);
            (x.0 + y.0, x.1 || y.1)
        },
        _ => (Seq::empty(), false),
    }
}

/// The key references of the first `k` arguments, in order.
pub open spec fn key_refs_args(args: Seq<SExpr>, k: int) -> (Seq<Seq<char>>, bool)
    decreases args, k,
{
    if k <= 0 || k > args.len() {
        (Seq::empty(), false)
    } else {
        let before = key_refs_args(args, k - 1);
        let last = key_refs(args[k - 1]);
        (before.0 + last.0, before.1 || last.1)
    }
}


fn is_key_name(name: &String) -> (b: bool)
    ensures
        b == (name@ == "key"@),
{
    let v = chars_of(name.as_str());
    proof {
        reveal_strlit("key");
    }
    let b = v.len() == 3 && v[0] == 'k' && v[1] == 'e' && v[2] == 'y';
    proof {
        if b {
            assert(v@ =~= "key"@);
        }
    }
    b
}

/// Collect the index names the `key()` calls of `expr` name (a string
/// literal first argument), and note whether one names its index by a
/// computed value.
fn walk_expr(expr: &Expr, out: &mut Vec<String>, dynamic: &mut bool)
    ensures
        views(final(out)@) == views(old(out)@) + key_refs(expr.view()).0,
        *final(dynamic) == (*old(dynamic) || key_refs(expr.view()).1),
    decreases expr,
{
    let ghost out0 = views(out@);
    let ghost dyn0 = *dynamic;
    match expr {
        Expr::Call(name, args) => {
            let ghost sargs = Seq::new(args@.len() as nat, |i: int| args@[i].view());
            proof {
                let v = expr.view();
                let a = match v {
                    SExpr::Call(_, a) => a,
                    _ => Seq::empty(),
                };
                assert(a =~= sargs);
                assert(v == SExpr::Call(name@, sargs));
            }
            if is_key_name(name) && args.len() > 0 {
                match &args[0] {
                    Expr::Lit(DslValue::Str(s)) => {
                        let ghost before = views(out@);
                        out.push(s.clone());
                        proof {
                            assert(views(out@) =~= before.push(s@));
                        }
                    },
                    Expr::Lit(_) => {},
                    _ => {
                        *dynamic = true;
                    },
                }
            }
            let ghost mid = views(out@);
            let ghost dmid = *dynamic;
            proof {
                assert(mid == out0 + (if name@ == "key"@ && sargs.len() > 0 {
                    match sargs[0] {
                        SExpr::Lit(SValue::Str(t)) => seq![t],
                        _ => Seq::<Seq<char>>::empty(),
                    }
                } else {
                    Seq::<Seq<char>>::empty()
                })) by {
                    if name@ == "key"@ && sargs.len() > 0 {
                        assert(sargs[0] == args@[0].view());
                    } else {
                        assert(mid =~= out0 + Seq::<Seq<char>>::empty());
                    }
                }
            }
            let mut i: usize = 0;
            while i < args.len()
                invariant
                    i <= args@.len(),
                    *expr == Expr::Call(*name, *args),
                    expr.view() == SExpr::Call(name@, sargs),
                    sargs == Seq::new(args@.len() as nat, |j: int| args@[j].view()),
                    views(out@) == mid + key_refs_args(sargs, i as int).0,
                    *dynamic == (dmid || key_refs_args(sargs, i as int).1),
                decreases args.len() - i,
            {
                proof {
                    assert(sargs[i as int] == args@[i as int].view());
                    assert(decreases_to!(*expr => expr->Call_1));
                    vstd::std_specs::vec::axiom_vec_index_decreases(*args, i as int);
                }
                walk_expr(&args[i], out, dynamic);
                proof {
                    assert(mid + key_refs_args(sargs, i + 1).0 =~= mid + key_refs_args(sargs, i as int).0 + key_refs(sargs[i as int]).0);
                }
                i = i + 1;
            }
            proof {
                let head: (Seq<Seq<char>>, bool) = if name@ == "key"@ && sargs.len() > 0 {
                    match sargs[0] {
                        SExpr::Lit(SValue::Str(t)) => (seq![t], false),
                        SExpr::Lit(_) => (Seq::empty(), false),
                        _ => (Seq::empty(), true),
                    }
                } else {
                    (Seq::empty(), false)
                };
                assert(views(out@) =~= out0 + (head.0 + key_refs_args(sargs, sargs.len() as int).0));
            }
        },
        Expr::Field(inner, _) => walk_expr(inner, out, dynamic),
        Expr::Not(inner) => walk_expr(inner, out, dynamic),
        Expr::Eq(a, b) => {
            walk_expr(a, out, dynamic);
            walk_expr(b, out, dynamic);
        },
        Expr::Ne(a, b) => {
            walk_expr(a, out, dynamic);
            walk_expr(b, out, dynamic);
        },
        Expr::And(a, b) => {
            walk_expr(a, out, dynamic);
            walk_expr(b, out, dynamic);
        },
        Expr::Or(a, b) => {
            walk_expr(a, out, dynamic);
            walk_expr(b, out, dynamic);
        },
        Expr::In(a, b) => {
            walk_expr(a, out, dynamic);
            walk_expr(b, out, dynamic);
        },
        Expr::NotIn(a, b) => {
            walk_expr(a, out, dynamic);
            walk_expr(b, out, dynamic);
        },
        Expr::Every(_, a, b) => {
            walk_expr(a, out, dynamic);
            walk_expr(b, out, dynamic);
        },
        Expr::Some_(_, a, b) => {
            walk_expr(a, out, dynamic);
            walk_expr(b, out, dynamic);
        },
        Expr::Filter(_, a, b) => {
            walk_expr(a, out, dynamic);
            walk_expr(b, out, dynamic);
        },
        Expr::Lit(_) => {
            proof {
                assert(views(out@) =~= out0 + Seq::<Seq<char>>::empty());
            }
        },
        Expr::Var(_) => {
            proof {
                assert(views(out@) =~= out0 + Seq::<Seq<char>>::empty());
            }
        },
    }
}


/// The key references of an expression text: those of its parse, none when
/// it does not parse (the rule reports its own parse failure elsewhere).
#[verifier::opaque]
pub open spec fn text_refs(t: Seq<char>) -> (Seq<Seq<char>>, bool) {
    match spec_parse_expression(t) {
        Ok((e, _)) => key_refs(e),
        Err(_) => (Seq::empty(), false),
    }
}

/// The key references of several expression texts, in order.
pub open spec fn texts_refs(ts: Seq<Seq<char>>) -> (Seq<Seq<char>>, bool)
    decreases ts.len(),
{
    if ts.len() == 0 {
        (Seq::empty(), false)
    } else {
        let a = texts_refs(ts.drop_last());
        let b = text_refs(ts.last());
        (a.0 + b.0, a.1 || b.1)
    }
}

/// The trimmed `{{...}}` interpolation slots of a message template from
/// character `i` on: a `{{` without a later `}}` is literal text.
pub open spec fn message_slots(s: Seq<char>, i: int) -> Seq<Seq<char>>
    decreases s.len() - i,
{
    if i < 0 || i + 1 >= s.len() {
        Seq::empty()
    } else if s[i] == '{' && s[i + 1] == '{' {
        match first_occurrence(s, i + 2, seq!['}', '}']) {
            Some(j) => if i < j + 2 && j + 2 <= s.len() {
                seq![trim(s.subrange(i + 2, j))] + message_slots(s, j + 2)
            } else {
                Seq::empty()
            },
            None => message_slots(s, i + 1),
        }
    } else {
        message_slots(s, i + 1)
    }
}

/// Every expression text of a rule, in the order they are scanned: the
/// assertion, the `let` bindings in declaration order, then the message's
/// interpolation slots.
pub open spec fn rule_texts(rule: Rule) -> Seq<Seq<char>> {
    seq![rule.assert@] + rule.let_bindings@.map_values(|b: (String, String)| b.1@) + message_slots(rule.message@, 0)
}

proof fn lemma_first_occurrence_after(v: Seq<char>, from: int, p: Seq<char>)
    ensures
        first_occurrence(v, from, p) matches Some(i) ==> from <= i && i + p.len() <= v.len(),
    decreases v.len() + 1 - from,
{
    if !(from < 0 || from + p.len() > v.len()) && !crate::text::occurs_at(v, from, p) {
        lemma_first_occurrence_after(v, from + 1, p);
    }
}

fn collect_key_refs(src: &str, out: &mut Vec<String>, dynamic: &mut bool)
    requires
        parses_cleanly(src@),
    ensures
        views(final(out)@) == views(old(out)@) + text_refs(src@).0,
        *final(dynamic) == (*old(dynamic) || text_refs(src@).1),
{
    proof {
        reveal(text_refs);
        reveal(parses_cleanly);
    }
    match parse_expression(src) {
        Ok(expr) => walk_expr(&expr, out, dynamic),
        Err(_) => {
            proof {
                assert(views(out@) =~= views(out@) + Seq::<Seq<char>>::empty());
            }
        },
    }
}

/// Whether an expression text parses without aborting.
#[verifier::opaque]
pub open spec fn parses_cleanly(t: Seq<char>) -> bool {
    !parse_aborts(t)
}

proof fn lemma_texts_refs_step(tv: Seq<Seq<char>>, i: int)
    requires
        0 <= i < tv.len(),
    ensures
        texts_refs(tv.take(i + 1)).0 == texts_refs(tv.take(i)).0 + text_refs(tv[i]).0,
        texts_refs(tv.take(i + 1)).1 == (texts_refs(tv.take(i)).1 || text_refs(tv[i]).1),
{
    assert(tv.take(i + 1).drop_last() =~= tv.take(i));
    assert(tv.take(i + 1).last() == tv[i]);
}

fn collect_texts(texts: &Vec<String>, out: &mut Vec<String>, dynamic: &mut bool)
    requires
        forall|k: int| 0 <= k < texts@.len() ==> parses_cleanly(#[trigger] texts@[k]@),
    ensures
        views(final(out)@) == views(old(out)@) + texts_refs(views(texts@)).0,
        *final(dynamic) == (*old(dynamic) || texts_refs(views(texts@)).1),
{
    let ghost base = views(out@);
    let ghost d0 = *dynamic;
    let ghost tv = views(texts@);
    let mut i: usize = 0;
    proof {
        assert(tv.take(0) =~= Seq::<Seq<char>>::empty());
        assert(views(out@) =~= base + Seq::<Seq<char>>::empty());
        assert forall|k: int| 0 <= k < tv.len() implies parses_cleanly(#[trigger] tv[k]) by {
            assert(parses_cleanly(texts@[k]@));
        }
    }
    while i < texts.len()
        invariant
            i <= texts@.len(),
            tv == views(texts@),
            forall|k: int| 0 <= k < tv.len() ==> parses_cleanly(#[trigger] tv[k]),
            views(out@) == base + texts_refs(tv.take(i as int)).0,
            *dynamic == (d0 || texts_refs(tv.take(i as int)).1),
        decreases texts.len() - i,
    {
        proof {
            lemma_texts_refs_step(tv, i as int);
            assert(tv[i as int] == texts@[i as int]@);
        }
        collect_key_refs(texts[i].as_str(), out, dynamic);
        proof {
            assert(views(out@) =~= base + texts_refs(tv.take(i + 1)).0);
        }
        i = i + 1;
    }
    proof {
        assert(tv.take(tv.len() as int) =~= tv);
    }
}

fn slot_texts(message: &str) -> (r: Vec<String>)
    ensures
        views(r@) == message_slots(message@, 0),
{
    let v = chars_of(message);
    let close: Vec<char> = vec!['}', '}'];
    proof {
        assert(close@ =~= seq!['}', '}']);
    }
    let mut out: Vec<String> = Vec::new();
    let mut i: usize = 0;
    proof {
        assert(views(out@) + message_slots(v@, 0) =~= message_slots(v@, 0));
    }
    while i < v.len() && i + 1 < v.len()
        invariant
            i <= v@.len(),
            v@ == message@,
            close@ == seq!['}', '}'],
            views(out@) + message_slots(v@, i as int) == message_slots(v@, 0),
        decreases v.len() - i,
    {
        if v[i] == '{' && v[i + 1] == '{' {
            match crate::text::find_from(&v, i + 2, &close) {
                Some(j) => {
                    proof {
                        lemma_first_occurrence_after(v@, i + 2, close@);
                    }
                    let (a, b) = crate::text::trim_bounds(&v, i + 2, j);
                    let slot = string_from(&v, a, b);
                    let ghost before = views(out@);
                    out.push(slot);
                    proof {
                        assert(views(out@) =~= before.push(trim(v@.subrange(i + 2, j as int))));
                        assert(views(out@) + message_slots(v@, j + 2) =~= before + (seq![trim(v@.subrange(i + 2, j as int))] + message_slots(v@, j + 2)));
                    }
                    i = j + 2;
                },
                None => {
                    i = i + 1;
                },
            }
        } else {
            i = i + 1;
        }
    }
    proof {
        assert(message_slots(v@, i as int) =~= Seq::<Seq<char>>::empty());
        assert(views(out@) + Seq::<Seq<char>>::empty() =~= views(out@));
    }
    out
}

/// Whether every expression text of a rule can be parsed without aborting.
pub open spec fn rule_parses(rule: Rule) -> bool {
    forall|k: int| 0 <= k < rule_texts(rule).len() ==> !parse_aborts(#[trigger] rule_texts(rule)[k])
}

/// The index names a rule's `key()` calls name (assertion, `let`
/// bindings, then message slots), and whether one names its index by a
/// computed value.
pub fn rule_key_refs(rule: &Rule) -> (r: (Vec<String>, bool))
    requires
        rule_parses(*rule),
    ensures
        views(r.0@) == texts_refs(rule_texts(*rule)).0,
        r.1 == texts_refs(rule_texts(*rule)).1,
{
    let mut texts: Vec<String> = Vec::new();
    texts.push(rule.assert.clone());
    let mut k: usize = 0;
    while k < rule.let_bindings.len()
        invariant
            k <= rule.let_bindings@.len(),
            views(texts@) == seq![rule.assert@] + rule.let_bindings@.take(k as int).map_values(|b: (String, String)| b.1@),
        decreases rule.let_bindings.len() - k,
    {
        let ghost before = views(texts@);
        texts.push(rule.let_bindings[k].1.clone());
        proof {
            assert(views(texts@) =~= before.push(rule.let_bindings@[k as int].1@));
            assert(rule.let_bindings@.take(k + 1).map_values(|b: (String, String)| b.1@) =~= rule.let_bindings@.take(k as int).map_values(|b: (String, String)| b.1@).push(rule.let_bindings@[k as int].1@));
        }
        k = k + 1;
    }
    let slots = slot_texts(rule.message.as_str());
    let mut m: usize = 0;
    let ghost head = views(texts@);
    while m < slots.len()
        invariant
            m <= slots@.len(),
            views(texts@) == head + views(slots@).take(m as int),
        decreases slots.len() - m,
    {
        let ghost before = views(texts@);
        texts.push(slots[m].clone());
        proof {
            assert(views(texts@) =~= before.push(slots@[m as int]@));
            assert(views(slots@).take(m + 1) =~= views(slots@).take(m as int).push(slots@[m as int]@));
        }
        m = m + 1;
    }
    proof {
        assert(rule.let_bindings@.take(rule.let_bindings@.len() as int) =~= rule.let_bindings@);
        assert(views(slots@).take(slots@.len() as int) =~= views(slots@));
        assert(views(texts@) =~= rule_texts(*rule));
        assert forall|k: int| 0 <= k < texts@.len() implies parses_cleanly(#[trigger] texts@[k]@) by {
            assert(views(texts@)[k] == texts@[k]@);
            reveal(parses_cleanly);
        }
    }
    let mut out: Vec<String> = Vec::new();
    let mut dynamic = false;
    proof {
        assert(views(out@) =~= Seq::<Seq<char>>::empty());
    }
    collect_texts(&texts, &mut out, &mut dynamic);
    proof {
        assert(views(out@) =~= texts_refs(views(texts@)).0);
    }
    (out, dynamic)
}


// ── Laws ────────────────────────────────────────────────────────────────────

proof fn lemma_reaches_symmetric(es: Seq<(usize, usize)>, i: int, j: int)
    requires
        reaches(es, i, j),
    ensures
        reaches(es, j, i),
{
    let p = choose|p: Seq<int>| is_walk(es, p) && p[0] == i && #[trigger] p.last() == j;
    let q = p.reverse();
    assert forall|k: int| 0 <= k < q.len() - 1 implies adjacent(es, #[trigger] q[k], q[k + 1]) by {
        let a = p.len() - 1 - k;
        assert(q[k] == p[a] && q[k + 1] == p[a - 1]);
        assert(adjacent(es, p[a - 1], p[a]));
        let m = choose|m: int| 0 <= m < es.len() && ((#[trigger] es[m]).0 == p[a - 1] && es[m].1 == p[a] || es[m].0 == p[a] && es[m].1 == p[a - 1]);
        assert(es[m].0 == q[k] && es[m].1 == q[k + 1] || es[m].0 == q[k + 1] && es[m].1 == q[k]);
    }
    assert(q[0] == j);
    assert(q.last() == i);
    assert(is_walk(es, q));
}

/// Dependency is mutual: when a change to `a` reaches `b`, a change to `b`
/// reaches `a` (the edges are undirected).
pub proof fn lemma_connected_symmetric(g: DepGraph, a: Seq<char>, b: Seq<char>)
    requires
        g.connected(a, b),
    ensures
        g.connected(b, a),
{
    let (i, j) = choose|i: int, j: int|
        0 <= i < g.names().len() && 0 <= j < g.names().len() && #[trigger] g.names()[i] == a
            && #[trigger] g.names()[j] == b && reaches(g.edge_list(), i, j);
    lemma_reaches_symmetric(g.edge_list(), i, j);
    assert(g.names()[j] == b && g.names()[i] == a);
}

/// Reachability composes: what `b` reaches, `a` reaches when it reaches `b`.
pub proof fn lemma_connected_transitive(g: DepGraph, a: Seq<char>, b: Seq<char>, c: Seq<char>)
    requires
        g.wf(),
        g.connected(a, b),
        g.connected(b, c),
    ensures
        g.connected(a, c),
{
    let (i, j) = choose|i: int, j: int|
        0 <= i < g.names().len() && 0 <= j < g.names().len() && #[trigger] g.names()[i] == a
            && #[trigger] g.names()[j] == b && reaches(g.edge_list(), i, j);
    let (j2, k) = choose|i: int, j: int|
        0 <= i < g.names().len() && 0 <= j < g.names().len() && #[trigger] g.names()[i] == b
            && #[trigger] g.names()[j] == c && reaches(g.edge_list(), i, j);
    assert(j == j2) by {
        if j != j2 {
            assert(g.names()[j] == g.names()[j2]);
        }
    }
    let es = g.edge_list();
    let p = choose|p: Seq<int>| is_walk(es, p) && p[0] == i && #[trigger] p.last() == j;
    let q = choose|q: Seq<int>| is_walk(es, q) && q[0] == j && #[trigger] q.last() == k;
    let r = p + q.drop_first();
    assert forall|t: int| 0 <= t < r.len() - 1 implies adjacent(es, #[trigger] r[t], r[t + 1]) by {
        if t < p.len() - 1 {
            assert(r[t] == p[t] && r[t + 1] == p[t + 1]);
            assert(adjacent(es, p[t], p[t + 1]));
        } else {
            let u = t - (p.len() - 1);
            assert(r[t] == q[u]) by {
                if u == 0 {
                    assert(r[t] == p.last());
                } else {
                    assert(r[t] == q.drop_first()[u - 1]);
                }
            }
            assert(r[t + 1] == q[u + 1]) by {
                assert(r[t + 1] == q.drop_first()[u]);
            }
            assert(adjacent(es, q[u], q[u + 1]));
        }
    }
    if q.len() == 1 {
        assert(r.last() == p.last());
        assert(k == j);
    } else {
        assert(r.last() == q.last());
    }
    assert(is_walk(es, r) && r[0] == i);
}

} // verus!
