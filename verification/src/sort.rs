//! Kahn's algorithm with cycle detection, dependencies first.
//!
//! The ready set holds the nodes whose dependencies have all been emitted,
//! so every node appears after everything it depends on. Ties are broken
//! deterministically: ready nodes are taken in the order their counters
//! reach zero, scanning node indices upward, so the output is a function of
//! the graph alone. When the ready set dries up before every node is
//! emitted, the remaining nodes all wait on one another: a cycle.

use crate::graph::build_dependency_graph;
use crate::graph::record_dep_seq;
use crate::graph::record_deps;
use crate::graph::DepGraph;
use crate::record::FileRecord;
use vstd::prelude::*;
use vstd::set_lib::lemma_int_range;
use vstd::set_lib::lemma_len_subset;
use vstd::set_lib::set_int_range;

verus! {

/// The failure a cyclic graph produces: no total order exists.
#[derive(Clone, Copy, PartialEq, Eq, Structural, Debug)]
pub struct CycleDetected;

/// An edge from dependent `a` to dependency `b`.
pub open spec fn is_edge(deps: Seq<Seq<usize>>, a: int, b: int) -> bool {
    &&& 0 <= a < deps.len()
    &&& exists|k: int| 0 <= k < deps[a].len() && deps[a][k] as int == b
}

/// A closed walk along dependency edges: at least one edge, ending where it
/// began.
pub open spec fn is_cycle(deps: Seq<Seq<usize>>, c: Seq<usize>) -> bool {
    &&& c.len() >= 2
    &&& c[0] == c[c.len() - 1]
    &&& forall|k: int| 0 <= k < c.len() - 1 ==> is_edge(deps, #[trigger] c[k] as int, c[k + 1] as int)
}

/// Whether the graph holds any cycle.
pub open spec fn has_cycle(deps: Seq<Seq<usize>>) -> bool {
    exists|c: Seq<usize>| is_cycle(deps, c)
}

/// Every dependency entry is a node index.
pub open spec fn deps_wf(deps: Seq<Seq<usize>>) -> bool {
    forall|i: int, k: int|
        0 <= i < deps.len() && 0 <= k < deps[i].len() ==> (deps[i][k] as int) < deps.len()
}

/// A total order over all nodes in which every node stands after each of
/// its dependencies (repeats of an edge ask no more than one occurrence).
pub open spec fn valid_order(deps: Seq<Seq<usize>>, order: Seq<usize>) -> bool {
    &&& order.len() == deps.len()
    &&& order.no_duplicates()
    &&& forall|m: int| 0 <= m < order.len() ==> (order[m] as int) < deps.len()
    &&& forall|m: int, k: int|
        0 <= m < order.len() && 0 <= k < deps[order[m] as int].len() ==> exists|m2: int|
            0 <= m2 < m && order[m2] == #[trigger] deps[order[m] as int][k]
}

/// How often `x` occurs in `s`.
pub open spec fn count_of(s: Seq<usize>, x: usize) -> nat
    decreases s.len(),
{
    if s.len() == 0 {
        0
    } else {
        count_of(s.drop_first(), x) + (if s[0] == x {
            1nat
        } else {
            0nat
        })
    }
}

/// How many entries of `s` (with multiplicity) do not occur in `em`.
pub open spec fn missing_count(s: Seq<usize>, em: Seq<usize>) -> nat
    decreases s.len(),
{
    if s.len() == 0 {
        0
    } else {
        missing_count(s.drop_first(), em) + (if em.contains(s[0]) {
            0nat
        } else {
            1nat
        })
    }
}

proof fn lemma_push_contains(em: Seq<usize>, v: usize, x: usize)
    ensures
        em.push(v).contains(x) <==> em.contains(x) || x == v,
{
    if em.contains(x) {
        let i = choose|i: int| 0 <= i < em.len() && em[i] == x;
        assert(em.push(v)[i] == x);
    }
    if x == v {
        assert(em.push(v)[em.len() as int] == x);
    }
    if em.push(v).contains(x) {
        let i = choose|i: int| 0 <= i < em.push(v).len() && em.push(v)[i] == x;
        if i < em.len() {
            assert(em[i] == x);
        }
    }
}

proof fn lemma_missing_empty(s: Seq<usize>)
    ensures
        missing_count(s, Seq::empty()) == s.len(),
    decreases s.len(),
{
    if s.len() > 0 {
        lemma_missing_empty(s.drop_first());
    }
}

proof fn lemma_missing_zero(s: Seq<usize>, em: Seq<usize>)
    ensures
        (missing_count(s, em) == 0) <==> (forall|k: int| 0 <= k < s.len() ==> em.contains(s[k])),
    decreases s.len(),
{
    if s.len() > 0 {
        lemma_missing_zero(s.drop_first(), em);
        assert(forall|k: int|
            0 <= k < s.drop_first().len() ==> s.drop_first()[k] == s[k + 1]);
        if missing_count(s, em) == 0 {
            assert forall|k: int| 0 <= k < s.len() implies em.contains(s[k]) by {
                if k > 0 {
                    assert(s.drop_first()[k - 1] == s[k]);
                }
            }
        }
    }
}

proof fn lemma_missing_pos(s: Seq<usize>, em: Seq<usize>)
    requires
        missing_count(s, em) > 0,
    ensures
        exists|k: int| 0 <= k < s.len() && !em.contains(s[k]),
    decreases s.len(),
{
    if s.len() > 0 {
        if em.contains(s[0]) {
            lemma_missing_pos(s.drop_first(), em);
            let k = choose|k: int|
                0 <= k < s.drop_first().len() && !em.contains(s.drop_first()[k]);
            assert(s[k + 1] == s.drop_first()[k]);
        } else {
            assert(!em.contains(s[0]));
        }
    }
}

proof fn lemma_missing_ge_count(s: Seq<usize>, em: Seq<usize>, v: usize)
    requires
        !em.contains(v),
    ensures
        missing_count(s, em) >= count_of(s, v),
    decreases s.len(),
{
    if s.len() > 0 {
        lemma_missing_ge_count(s.drop_first(), em, v);
    }
}

proof fn lemma_missing_push(s: Seq<usize>, em: Seq<usize>, v: usize)
    requires
        !em.contains(v),
    ensures
        missing_count(s, em.push(v)) + count_of(s, v) == missing_count(s, em),
    decreases s.len(),
{
    if s.len() > 0 {
        lemma_missing_push(s.drop_first(), em, v);
        lemma_push_contains(em, v, s[0]);
    }
}

proof fn lemma_count_pos(s: Seq<usize>, v: usize)
    requires
        count_of(s, v) > 0,
    ensures
        exists|k: int| 0 <= k < s.len() && s[k] == v,
    decreases s.len(),
{
    if s.len() > 0 && s[0] != v {
        lemma_count_pos(s.drop_first(), v);
        let k = choose|k: int| 0 <= k < s.drop_first().len() && s.drop_first()[k] == v;
        assert(s[k + 1] == v);
    }
}

proof fn lemma_count_zero(s: Seq<usize>, v: usize)
    requires
        forall|k: int| 0 <= k < s.len() ==> s[k] != v,
    ensures
        count_of(s, v) == 0,
    decreases s.len(),
{
    if s.len() > 0 {
        assert(forall|k: int|
            0 <= k < s.drop_first().len() ==> s.drop_first()[k] == s[k + 1]);
        lemma_count_zero(s.drop_first(), v);
    }
}

/// A sequence of distinct values below `n` has at most `n` entries.
proof fn lemma_bounded_distinct_len(s: Seq<usize>, n: int)
    requires
        s.no_duplicates(),
        forall|m: int| 0 <= m < s.len() ==> (s[m] as int) < n,
        n >= 0,
    ensures
        s.len() <= n,
{
    let t = s.map_values(|x: usize| x as int);
    assert(t.no_duplicates()) by {
        assert forall|i: int, j: int|
            0 <= i < t.len() && 0 <= j < t.len() && i != j implies t[i] != t[j] by {
            assert(t[i] == s[i] as int && t[j] == s[j] as int);
        }
    }
    t.unique_seq_to_set();
    assert(t.to_set().subset_of(set_int_range(0, n))) by {
        assert forall|x: int| t.to_set().contains(x) implies set_int_range(0, n).contains(x) by {
            let m = choose|m: int| 0 <= m < t.len() && t[m] == x;
            assert(t[m] == s[m] as int);
        }
    }
    lemma_int_range(0, n);
    lemma_len_subset(t.to_set(), set_int_range(0, n));
}

/// A sequence of distinct values below `n` with `n` entries holds every
/// value below `n`.
proof fn lemma_bounded_distinct_complete(s: Seq<usize>, n: int, x: usize)
    requires
        s.no_duplicates(),
        forall|m: int| 0 <= m < s.len() ==> (s[m] as int) < n,
        s.len() == n,
        0 <= (x as int) < n,
    ensures
        s.contains(x),
{
    if !s.contains(x) {
        let t = s.push(x);
        assert(t.no_duplicates()) by {
            assert forall|i: int, j: int|
                0 <= i < t.len() && 0 <= j < t.len() && i != j implies t[i] != t[j] by {
                if i < s.len() && j < s.len() {
                    assert(t[i] == s[i] && t[j] == s[j]);
                } else if i < s.len() {
                    assert(t[j] == x && t[i] == s[i]);
                    if s[i] == x {
                        assert(s.contains(x));
                    }
                } else {
                    assert(t[i] == x && t[j] == s[j]);
                    if s[j] == x {
                        assert(s.contains(x));
                    }
                }
            }
        }
        lemma_bounded_distinct_len(t, n);
    }
}

/// How often `v` occurs among the dependencies listed in `row`.
fn count_in(row: &Vec<usize>, v: usize) -> (r: usize)
    ensures
        r == count_of(row@, v),
{
    let ghost s = row@;
    let mut r: usize = 0;
    let mut i: usize = 0;
    proof {
        assert(s.skip(0) =~~= s);
    }
    while i < row.len()
        invariant
            0 <= i <= s.len(),
            s == row@,
            r <= i,
            count_of(s, v) == r + count_of(s.skip(i as int), v),
        decreases s.len() - i,
    {
        proof {
            assert(s.skip(i as int)[0] == s[i as int]);
            assert(s.skip(i as int).drop_first() =~~= s.skip(i + 1 as int));
        }
        if row[i] == v {
            r = r + 1;
        }
        i = i + 1;
    }
    proof {
        assert(s.skip(s.len() as int) =~~= Seq::<usize>::empty());
    }
    r
}

proof fn lemma_push_distinct(s: Seq<usize>, v: usize)
    requires
        s.no_duplicates(),
        !s.contains(v),
    ensures
        s.push(v).no_duplicates(),
{
    let t = s.push(v);
    assert forall|i: int, j: int|
        0 <= i < t.len() && 0 <= j < t.len() && i != j implies t[i] != t[j] by {
        if i < s.len() && j < s.len() {
        } else if i < s.len() {
            if s[i] == v {
                assert(s.contains(v));
            }
        } else if j < s.len() {
            if s[j] == v {
                assert(s.contains(v));
            }
        }
    }
}

/// The position of `x` in `order` (meaningful when `order` holds `x` once).
pub open spec fn pos_in(order: Seq<usize>, x: usize) -> int {
    choose|m: int| 0 <= m < order.len() && order[m] == x
}

proof fn lemma_edge_pos(deps: Seq<Seq<usize>>, order: Seq<usize>, a: usize, b: usize)
    requires
        valid_order(deps, order),
        deps_wf(deps),
        is_edge(deps, a as int, b as int),
    ensures
        0 <= pos_in(order, b) < pos_in(order, a) < order.len(),
        order[pos_in(order, a)] == a,
        order[pos_in(order, b)] == b,
{
    let k = choose|k: int| 0 <= k < deps[a as int].len() && deps[a as int][k] as int == b as int;
    lemma_bounded_distinct_complete(order, deps.len() as int, a);
    let pa = pos_in(order, a);
    assert(0 <= pa < order.len() && order[pa] == a);
    lemma_bounded_distinct_complete(order, deps.len() as int, b);
    let pb = pos_in(order, b);
    assert(0 <= pb < order.len() && order[pb] == b);
    assert(deps[order[pa] as int][k] == b);
    let m2 = choose|m2: int| 0 <= m2 < pa && order[m2] == deps[order[pa] as int][k];
    assert(order[m2] == b);
    assert(m2 == pb);
}

proof fn lemma_cycle_chain(deps: Seq<Seq<usize>>, order: Seq<usize>, c: Seq<usize>, k: int)
    requires
        valid_order(deps, order),
        deps_wf(deps),
        is_cycle(deps, c),
        0 <= k < c.len(),
    ensures
        pos_in(order, c[k]) <= pos_in(order, c[0]) - k,
    decreases k,
{
    if k > 0 {
        lemma_cycle_chain(deps, order, c, k - 1);
        lemma_edge_pos(deps, order, c[k - 1], c[k]);
    }
}

/// A graph that admits a valid total order holds no cycle.
pub proof fn lemma_order_no_cycle(deps: Seq<Seq<usize>>, order: Seq<usize>)
    requires
        valid_order(deps, order),
        deps_wf(deps),
    ensures
        !has_cycle(deps),
{
    if has_cycle(deps) {
        let c = choose|c: Seq<usize>| is_cycle(deps, c);
        lemma_cycle_chain(deps, order, c, c.len() - 1);
        assert(c[c.len() - 1] == c[0]);
        assert(pos_in(order, c[0]) <= pos_in(order, c[0]) - (c.len() - 1));
    }
}

#[verifier::rlimit(50)]
proof fn build_walk(deps: Seq<Seq<usize>>, em: Seq<usize>, start: usize, len: nat) -> (w: Seq<
    usize,
>)
    requires
        deps_wf(deps),
        (start as int) < deps.len(),
        !em.contains(start),
        forall|x: usize|
            (x as int) < deps.len() && !em.contains(x) ==> exists|k: int|
                0 <= k < deps[x as int].len() && !em.contains(#[trigger] deps[x as int][k]),
    ensures
        w.len() == len + 1,
        w[0] == start,
        forall|m: int| 0 <= m < w.len() ==> (#[trigger] w[m] as int) < deps.len() && !em.contains(
            w[m],
        ),
        forall|m: int| 0 <= m < w.len() - 1 ==> is_edge(deps, #[trigger] w[m] as int, w[m + 1] as int),
    decreases len,
{
    if len == 0 {
        seq![start]
    } else {
        let w0 = build_walk(deps, em, start, (len - 1) as nat);
        let last = w0[w0.len() - 1];
        let k = choose|k: int|
            0 <= k < deps[last as int].len() && !em.contains(#[trigger] deps[last as int][k]);
        let d = deps[last as int][k];
        let w = w0.push(d);
        assert(is_edge(deps, last as int, d as int));
        assert forall|m: int| 0 <= m < w.len() - 1 implies is_edge(
            deps,
            #[trigger] w[m] as int,
            w[m + 1] as int,
        ) by {
            if m < w0.len() - 1 {
                assert(w[m] == w0[m] && w[m + 1] == w0[m + 1]);
            } else {
                assert(w[m] == last && w[m + 1] == d);
            }
        }
        w
    }
}

proof fn lemma_missing_value(s: Seq<usize>, n: int) -> (x: usize)
    requires
        s.no_duplicates(),
        forall|m: int| 0 <= m < s.len() ==> (#[trigger] s[m] as int) < n,
        s.len() < n <= usize::MAX,
    ensures
        (x as int) < n,
        !s.contains(x),
{
    if forall|y: usize| (y as int) < n ==> s.contains(y) {
        let t = s.map_values(|y: usize| y as int);
        assert(t.no_duplicates()) by {
            assert forall|i: int, j: int|
                0 <= i < t.len() && 0 <= j < t.len() && i != j implies t[i] != t[j] by {
                assert(t[i] == s[i] as int && t[j] == s[j] as int);
            }
        }
        t.unique_seq_to_set();
        assert(set_int_range(0, n).subset_of(t.to_set())) by {
            assert forall|y: int| set_int_range(0, n).contains(y) implies t.to_set().contains(
                y,
            ) by {
                assert(s.contains(y as usize));
                let m = choose|m: int| 0 <= m < s.len() && s[m] == y as usize;
                assert(t[m] == y);
                assert(t.to_set().contains(t[m]));
            }
        }
        lemma_int_range(0, n);
        lemma_len_subset(set_int_range(0, n), t.to_set());
        assert(false);
        arbitrary()
    } else {
        choose|y: usize| (y as int) < n && !s.contains(y)
    }
}

/// When the ready set of Kahn's algorithm dries up early, the nodes left
/// over wait on one another: the graph holds a cycle.
#[verifier::rlimit(100)]
proof fn lemma_incomplete_has_cycle(deps: Seq<Seq<usize>>, em: Seq<usize>)
    requires
        deps_wf(deps),
        em.no_duplicates(),
        forall|m: int| 0 <= m < em.len() ==> (#[trigger] em[m] as int) < deps.len(),
        em.len() < deps.len() <= usize::MAX,
        forall|x: usize|
            (x as int) < deps.len() && !em.contains(x) ==> exists|k: int|
                0 <= k < deps[x as int].len() && !em.contains(#[trigger] deps[x as int][k]),
    ensures
        has_cycle(deps),
{
    let n = deps.len() as int;
    let start = lemma_missing_value(em, n);
    let w = build_walk(deps, em, start, deps.len());
    assert(w.len() == n + 1);
    if w.no_duplicates() {
        lemma_bounded_distinct_len(w, n);
        assert(false);
    }
    let (i, j) = choose|i: int, j: int|
        0 <= i < w.len() && 0 <= j < w.len() && i != j && w[i] == w[j];
    let a = if i < j {
        i
    } else {
        j
    };
    let b = if i < j {
        j
    } else {
        i
    };
    let c = w.subrange(a, b + 1);
    assert(c.len() == b - a + 1 >= 2);
    assert(c[0] == w[a] && c[c.len() - 1] == w[b]);
    assert forall|k: int| 0 <= k < c.len() - 1 implies is_edge(
        deps,
        #[trigger] c[k] as int,
        c[k + 1] as int,
    ) by {
        assert(c[k] == w[a + k] && c[k + 1] == w[a + k + 1]);
    }
    assert(is_cycle(deps, c));
}

/// Kahn's algorithm over the dependency graph: either a total order of the
/// node indices with every node after all of its dependencies, or the report
/// of a cycle — the one exactly when the graph has no cycle, the other
/// exactly when it has one. The order is a function of the graph alone:
/// ready nodes enter it as node indices are scanned upward, so repeated runs
/// give the same output.
pub fn topological_sort(g: &DepGraph) -> (r: Result<Vec<usize>, CycleDetected>)
    requires
        g.wf(),
    ensures
        match r {
            Ok(o) => valid_order(g.dep_seq(), o@) && !has_cycle(g.dep_seq()),
            Err(_) => has_cycle(g.dep_seq()),
        },
{
    let ghost deps = g.dep_seq();
    let n = g.deps.len();
    proof {
        assert(deps.len() == n);
        assert(deps_wf(deps));
    }
    let mut pending: Vec<usize> = Vec::new();
    let mut i: usize = 0;
    while i < n
        invariant
            0 <= i <= n,
            n == g.deps@.len(),
            deps == g.dep_seq(),
            pending@.len() == i,
            forall|j: int|
                0 <= j < i ==> #[trigger] pending@[j] == missing_count(
                    deps[j],
                    Seq::<usize>::empty(),
                ),
        decreases n - i,
    {
        let c = g.deps[i].len();
        proof {
            assert(deps[i as int] == g.deps@[i as int]@);
            lemma_missing_empty(deps[i as int]);
        }
        pending.push(c);
        i = i + 1;
    }
    let mut order: Vec<usize> = Vec::new();
    let mut i: usize = 0;
    while i < n
        invariant
            0 <= i <= n,
            n == g.deps@.len(),
            deps == g.dep_seq(),
            pending@.len() == n,
            forall|j: int|
                0 <= j < n ==> #[trigger] pending@[j] == missing_count(
                    deps[j],
                    Seq::<usize>::empty(),
                ),
            order@.no_duplicates(),
            forall|m: int| 0 <= m < order@.len() ==> (#[trigger] order@[m] as int) < i,
            forall|m: int| 0 <= m < order@.len() ==> pending@[(#[trigger] order@[m]) as int] == 0,
            forall|j: int| 0 <= j < i && #[trigger] pending@[j] == 0 ==> order@.contains(j as usize),
        decreases n - i,
    {
        if pending[i] == 0 {
            let ghost o0 = order@;
            proof {
                assert(!o0.contains(i)) by {
                    if o0.contains(i) {
                        let m = choose|m: int| 0 <= m < o0.len() && o0[m] == i;
                    }
                }
            }
            order.push(i);
            proof {
                lemma_push_distinct(o0, i);
                assert forall|x: usize| o0.contains(x) implies order@.contains(x) by {
                    lemma_push_contains(o0, i, x);
                }
                assert(order@.contains(i)) by {
                    lemma_push_contains(o0, i, i);
                }
            }
        }
        i = i + 1;
    }
    let mut qh: usize = 0;
    proof {
        assert(order@.take(0) =~~= Seq::<usize>::empty());
        lemma_bounded_distinct_len(order@, n as int);
    }
    while qh < order.len()
        invariant
            qh <= order@.len() <= n,
            n == g.deps@.len(),
            deps == g.dep_seq(),
            deps.len() == n,
            deps_wf(deps),
            pending@.len() == n,
            order@.no_duplicates(),
            forall|m: int| 0 <= m < order@.len() ==> (#[trigger] order@[m] as int) < n,
            forall|j: int|
                0 <= j < n ==> #[trigger] pending@[j] == missing_count(
                    deps[j],
                    order@.take(qh as int),
                ),
            forall|m: int| 0 <= m < order@.len() ==> pending@[(#[trigger] order@[m]) as int] == 0,
            forall|j: int| 0 <= j < n && #[trigger] pending@[j] == 0 ==> order@.contains(j as usize),
            forall|m: int, k: int|
                0 <= m < qh && 0 <= k < deps[order@[m] as int].len() ==> exists|m2: int|
                    0 <= m2 < m && order@[m2] == #[trigger] deps[order@[m] as int][k],
        decreases n - qh,
    {
        let v = order[qh];
        let ghost em_old = order@.take(qh as int);
        proof {
            assert(!em_old.contains(v)) by {
                if em_old.contains(v) {
                    let m = choose|m: int| 0 <= m < em_old.len() && em_old[m] == v;
                    assert(order@[m] == order@[qh as int]);
                }
            }
            assert(pending@[v as int] == 0);
            lemma_missing_zero(deps[v as int], em_old);
        }
        qh = qh + 1;
        let ghost em = em_old.push(v);
        proof {
            assert(order@.take(qh as int) =~~= em);
            assert forall|k: int| 0 <= k < deps[v as int].len() implies exists|m2: int|
                0 <= m2 < qh - 1 && order@[m2] == #[trigger] deps[v as int][k] by {
                assert(em_old.contains(deps[v as int][k]));
                let m2 = choose|m2: int| 0 <= m2 < em_old.len() && em_old[m2] == deps[v as int][k];
                assert(order@[m2] == deps[v as int][k]);
            }
        }
        let mut i: usize = 0;
        while i < n
            invariant
                0 <= i <= n,
                1 <= qh <= order@.len() <= n,
                n == g.deps@.len(),
                deps == g.dep_seq(),
                deps.len() == n,
                deps_wf(deps),
                pending@.len() == n,
                v == order@[qh - 1],
                em_old == order@.take(qh - 1),
                em == em_old.push(v),
                em == order@.take(qh as int),
                !em_old.contains(v),
                order@.no_duplicates(),
                forall|m: int| 0 <= m < order@.len() ==> (#[trigger] order@[m] as int) < n,
                forall|j: int|
                    0 <= j < i ==> #[trigger] pending@[j] == missing_count(deps[j], em),
                forall|j: int|
                    i <= j < n ==> #[trigger] pending@[j] == missing_count(deps[j], em_old),
                forall|m: int| 0 <= m < order@.len() ==> pending@[(#[trigger] order@[m]) as int]
                    == 0,
                forall|j: int|
                    0 <= j < n && #[trigger] pending@[j] == 0 ==> order@.contains(j as usize),
                forall|m: int, k: int|
                    0 <= m < qh && 0 <= k < deps[order@[m] as int].len() ==> exists|m2: int|
                        0 <= m2 < m && order@[m2] == #[trigger] deps[order@[m] as int][k],
            decreases n - i,
        {
            proof {
                assert(deps[i as int] == g.deps@[i as int]@);
            }
            let c = count_in(&g.deps[i], v);
            proof {
                lemma_missing_ge_count(deps[i as int], em_old, v);
                lemma_missing_push(deps[i as int], em_old, v);
            }
            if c > 0 {
                proof {
                    assert(!order@.contains(i)) by {
                        if order@.contains(i) {
                            let m = choose|m: int| 0 <= m < order@.len() && order@[m] == i;
                        }
                    }
                }
                let p = pending[i];
                pending[i] = p - c;
                if p - c == 0 {
                    let ghost o0 = order@;
                    order.push(i);
                    proof {
                        lemma_push_distinct(o0, i);
                        assert forall|x: usize| o0.contains(x) implies order@.contains(x) by {
                            lemma_push_contains(o0, i, x);
                        }
                        assert(order@.contains(i)) by {
                            lemma_push_contains(o0, i, i);
                        }
                        assert(order@.take(qh as int) =~~= em);
                        assert(order@.take(qh - 1) =~~= em_old);
                        assert(v == order@[qh - 1]);
                        lemma_bounded_distinct_len(order@, n as int);
                        assert forall|m: int, k: int|
                            0 <= m < qh && 0 <= k < deps[order@[m] as int].len() implies exists|
                            m2: int,
                        |
                            0 <= m2 < m && order@[m2] == #[trigger] deps[order@[m] as int][k] by {
                            assert(order@[m] == o0[m]);
                            let m2 = choose|m2: int|
                                0 <= m2 < m && o0[m2] == deps[o0[m] as int][k];
                            assert(order@[m2] == o0[m2]);
                        }
                    }
                }
            }
            i = i + 1;
        }
        proof {
            assert(forall|j: int|
                0 <= j < n ==> #[trigger] pending@[j] == missing_count(
                    deps[j],
                    order@.take(qh as int),
                ));
        }
    }
    proof {
        assert(order@.take(order@.len() as int) =~~= order@);
    }
    if order.len() == n {
        proof {
            assert(valid_order(deps, order@));
            lemma_order_no_cycle(deps, order@);
        }
        Ok(order)
    } else {
        proof {
            assert(order@.len() < n);
            assert forall|x: usize|
                (x as int) < deps.len() && !order@.contains(x) implies exists|k: int|
                    0 <= k < deps[x as int].len() && !order@.contains(
                        #[trigger] deps[x as int][k],
                    ) by {
                assert(pending@[x as int] == missing_count(deps[x as int], order@));
                lemma_missing_pos(deps[x as int], order@);
                let k = choose|k: int|
                    0 <= k < deps[x as int].len() && !order@.contains(deps[x as int][k]);
                assert(!order@.contains(deps[x as int][k]));
            }
            lemma_incomplete_has_cycle(deps, order@);
        }
        Err(CycleDetected)
    }
}

proof fn lemma_valid_order_entry(ds: Seq<Seq<usize>>, o: Seq<usize>, m: int, k: int)
    requires
        valid_order(ds, o),
        0 <= m < o.len(),
        0 <= k < ds[o[m] as int].len(),
    ensures
        exists|m2: int| 0 <= m2 < m && o[m2] == ds[o[m] as int][k],
{
    let t = ds[o[m] as int][k];
    assert(0 <= k < ds[o[m] as int].len());
    assert(exists|m2: int| 0 <= m2 < m && o[m2] == ds[o[m] as int][k]);
}

/// Whether, in the path sequence `ps`, the path of edge `k`'s dependency
/// stands somewhere before the path of its dependent `a`.
pub open spec fn edge_before(files: FileRecord, ps: Seq<Seq<u8>>, a: int, k: int) -> bool {
    exists|ja: int, jd: int|
        0 <= jd < ja < ps.len() && ps[ja] == files.paths()[a] && ps[jd] == files.paths()[
            record_deps(files, a)[k] as int]
}

/// Whether, in the path sequence `ps`, the dependency's path stands before
/// the dependent's for every kept edge of the record's graph.
pub open spec fn paths_respect_deps(files: FileRecord, ps: Seq<Seq<u8>>) -> bool {
    forall|a: int, k: int|
        0 <= a < files.paths().len() && 0 <= k < record_deps(files, a).len() ==> #[trigger]
        edge_before(files, ps, a, k)
}

/// The whole pipeline over a record of collected files: build the graph,
/// sort it, and hand back the paths in dependency-respecting order, or the
/// report of a cycle. On success the output holds exactly the record's
/// paths, each once, and for every kept edge the dependency's path stands
/// before the dependent's.
pub fn dependency_order(files: &FileRecord) -> (r: Result<Vec<Vec<u8>>, CycleDetected>)
    requires
        files.wf(),
    ensures
        match r {
            Ok(out) => {
                let ps = out@.map_values(|v: Vec<u8>| v@);
                &&& ps.len() == files.paths().len()
                &&& (forall|a: int, b: int| 0 <= a < b < ps.len() ==> ps[a] != ps[b])
                &&& (forall|j: int| 0 <= j < ps.len() ==> files.paths().contains(#[trigger] ps[j]))
                &&& (forall|i: int|
                    0 <= i < files.paths().len() ==> ps.contains(#[trigger] files.paths()[i]))
                &&& paths_respect_deps(*files, ps)
                &&& !has_cycle(record_dep_seq(*files))
            },
            Err(_) => has_cycle(record_dep_seq(*files)),
        },
{
    let g = build_dependency_graph(files);
    let ghost ds = record_dep_seq(*files);
    proof {
        assert(g.dep_seq() == ds);
        assert(g.node_seq() == files.paths());
    }
    match topological_sort(&g) {
        Err(c) => Err(c),
        Ok(order) => {
            let ghost o = order@;
            let ghost keys = files.paths();
            let n = order.len();
            let mut out: Vec<Vec<u8>> = Vec::new();
            let mut j: usize = 0;
            while j < n
                invariant
                    0 <= j <= n,
                    n == o.len(),
                    o == order@,
                    valid_order(ds, o),
                    ds.len() == keys.len(),
                    keys == files.paths(),
                    g.node_seq() == keys,
                    g.dep_seq() == ds,
                    out@.len() == j,
                    forall|m: int| 0 <= m < j ==> #[trigger] out@[m]@ == keys[o[m] as int],
                decreases n - j,
            {
                let idx = order[j];
                let p = g.node_at(idx);
                let copy = crate::paths::copy_range(p, 0, p.len());
                proof {
                    assert(copy@ =~~= keys[o[j as int] as int]);
                }
                out.push(copy);
                j = j + 1;
            }
            let ghost ps = out@.map_values(|v: Vec<u8>| v@);
            proof {
                assert(ps.len() == keys.len());
                assert(forall|m: int| 0 <= m < ps.len() ==> #[trigger] ps[m] == keys[o[m] as int]);
                assert forall|a: int, b: int| 0 <= a < b < ps.len() implies ps[a] != ps[b] by {
                    assert(o[a] != o[b]);
                    assert(files.wf());
                }
                assert forall|m: int|
                    0 <= m < ps.len() implies keys.contains(#[trigger] ps[m]) by {
                    assert(keys[o[m] as int] == ps[m]);
                }
                assert forall|i: int|
                    0 <= i < keys.len() implies ps.contains(#[trigger] keys[i]) by {
                    lemma_bounded_distinct_complete(o, ds.len() as int, i as usize);
                    let m = choose|m: int| 0 <= m < o.len() && o[m] == i as usize;
                    assert(ps[m] == keys[i]);
                }
                assert forall|a: int, k: int|
                    0 <= a < files.paths().len() && 0 <= k < record_deps(*files, a).len() implies
                    #[trigger] edge_before(*files, ps, a, k) by {
                    assert(ds[a] == record_deps(*files, a));
                    lemma_bounded_distinct_complete(o, ds.len() as int, a as usize);
                    let ja = choose|m: int| 0 <= m < o.len() && o[m] == a as usize;
                    assert(0 <= ja < o.len() && o[ja] == a as usize);
                    assert((o[ja] as int) == a);
                    assert(ds[o[ja] as int].len() == record_deps(*files, a).len());
                    lemma_valid_order_entry(ds, o, ja, k);
                    let jd = choose|m2: int| 0 <= m2 < ja && o[m2] == ds[o[ja] as int][k];
                    assert(ps[ja] == keys[a]);
                    assert(o[jd] as int == record_deps(*files, a)[k] as int);
                    assert(ps[jd] == files.paths()[record_deps(*files, a)[k] as int]);
                    assert(ps[ja] == files.paths()[a]);
                    assert(0 <= jd < ja < ps.len());
                    assert(edge_before(*files, ps, a, k));
                }
                assert(paths_respect_deps(*files, ps));
            }
            Ok(out)
        },
    }
}

} // verus!
