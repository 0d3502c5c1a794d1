//! The order in which a task and everything it depends on are run.
//!
//! The order lists the dependency closure of the requested task so that
//! every task comes after its dependencies. Where several tasks could come
//! next, the one at the lowest position (the least name) is taken, so a
//! graph has exactly one order.

use vstd::prelude::*;
use vstd::set_lib::{lemma_int_range, lemma_len_subset, set_int_range};
use crate::graph::{
    adj_graph, count_of, edge, graph_wf, is_cycle, is_path, lemma_count_overwrite, lemma_path_push,
    on_cycle, reachable, step,
};

verus! {

/// Positions held in a vector, as mathematical integers.
pub open spec fn positions(o: Seq<usize>) -> Seq<int> {
    Seq::new(o.len(), |i: int| o[i] as int)
}

/// Every dependency of `v` is among `done`.
pub open spec fn ready(g: Seq<Seq<int>>, done: Seq<int>, v: int) -> bool {
    forall|k: int| 0 <= k < g[v].len() ==> done.contains(#[trigger] g[v][k])
}

/// `v` belongs to the closure of `t`, is not listed yet and could come next.
pub open spec fn candidate(g: Seq<Seq<int>>, t: int, done: Seq<int>, v: int) -> bool {
    reachable(g, t, v) && !done.contains(v) && ready(g, done, v)
}

/// The entry at `p` is the least task that could follow the entries before it.
pub open spec fn chosen_at(g: Seq<Seq<int>>, t: int, order: Seq<int>, p: int) -> bool {
    &&& candidate(g, t, order.take(p), order[p])
    &&& forall|v: int| #[trigger] candidate(g, t, order.take(p), v) ==> order[p] <= v
}

/// `order` is the execution order of `t`: every entry is the least task
/// that could come at its place, and nothing reachable from `t` is missing.
pub open spec fn is_exec_order(g: Seq<Seq<int>>, t: int, order: Seq<int>) -> bool {
    &&& forall|p: int| 0 <= p < order.len() ==> #[trigger] chosen_at(g, t, order, p)
    &&& forall|v: int| reachable(g, t, v) ==> order.contains(v)
}

/// A cycle can be reached from `t`.
pub open spec fn cycle_reachable(g: Seq<Seq<int>>, t: int) -> bool {
    exists|v: int| reachable(g, t, v) && on_cycle(g, v)
}

/// Every dependency of `v` is marked.
pub open spec fn closed_at(g: Seq<Seq<int>>, marks: Seq<bool>, v: int) -> bool {
    forall|k: int| 0 <= k < g[v].len() ==> marks[#[trigger] g[v][k]]
}

/// Reachability follows an edge.
pub proof fn lemma_reach_step(g: Seq<Seq<int>>, t: int, u: int, v: int)
    requires
        graph_wf(g),
        reachable(g, t, u),
        edge(g, u, v),
    ensures
        reachable(g, t, v),
{
    let p = choose|p: Seq<int>| is_path(g, p) && p[0] == t && p.last() == u;
    let k = g[u].index_of(v);
    assert(g[u][k] == v);
    lemma_path_push(g, p, v);
    let q = p.push(v);
    assert(is_path(g, q) && q[0] == t && q.last() == v);
}

/// Every node of the graph reaches itself.
pub proof fn lemma_reach_self(g: Seq<Seq<int>>, t: int)
    requires
        0 <= t < g.len(),
    ensures
        reachable(g, t, t),
{
    let p = seq![t];
    assert(is_path(g, p) && p[0] == t && p.last() == t);
}

/// What is reachable lies in the graph.
pub proof fn lemma_reach_in_graph(g: Seq<Seq<int>>, t: int, v: int)
    requires
        reachable(g, t, v),
    ensures
        0 <= v < g.len(),
        0 <= t < g.len(),
{
    let p = choose|p: Seq<int>| is_path(g, p) && p[0] == t && p.last() == v;
    assert(0 <= p[0] < g.len());
    assert(0 <= p[p.len() - 1] < g.len());
}

proof fn lemma_closed_marks(g: Seq<Seq<int>>, marks: Seq<bool>, p: Seq<int>, i: int)
    requires
        marks.len() == g.len(),
        is_path(g, p),
        marks[p[0]],
        forall|v: int| 0 <= v < g.len() && marks[v] ==> closed_at(g, marks, v),
        0 <= i < p.len(),
    ensures
        marks[p[i]],
    decreases i,
{
    if i > 0 {
        lemma_closed_marks(g, marks, p, i - 1);
        assert(step(g, p, i - 1));
        let u = p[i - 1];
        assert(0 <= u < g.len());
        assert(closed_at(g, marks, u));
        let k = g[u].index_of(p[i]);
        assert(g[u][k] == p[i]);
    }
}

/// Marks what can be reached from `t`.
pub fn reach_marks(adj: &Vec<Vec<usize>>, t: usize) -> (marks: Vec<bool>)
    requires
        graph_wf(adj_graph(adj@)),
        t < adj@.len(),
    ensures
        marks@.len() == adj@.len(),
        forall|v: int|
            0 <= v < adj@.len() ==> (marks@[v] <==> reachable(adj_graph(adj@), t as int, v)),
{
    let ghost g = adj_graph(adj@);
    let n = adj.len();
    let mut marks: Vec<bool> = Vec::new();
    let mut i: usize = 0;
    while i < n
        invariant
            i <= n,
            marks@.len() == i,
            forall|j: int| 0 <= j < i ==> !marks@[j],
        decreases n - i,
    {
        marks.push(false);
        i = i + 1;
    }
    marks.set(t, true);
    let mut work: Vec<usize> = Vec::new();
    work.push(t);
    proof {
        lemma_reach_self(g, t as int);
        assert(positions(work@)[0] == t);
    }
    while work.len() > 0
        invariant
            g == adj_graph(adj@),
            graph_wf(g),
            n == adj@.len(),
            t < n,
            marks@.len() == n,
            marks@[t as int],
            forall|i: int|
                0 <= i < work@.len() ==> #[trigger] work@[i] < n && marks@[work@[i] as int],
            forall|v: int| 0 <= v < n && marks@[v] ==> reachable(g, t as int, v),
            forall|v: int|
                0 <= v < n && #[trigger] marks@[v] ==> positions(work@).contains(v) || closed_at(
                    g,
                    marks@,
                    v,
                ),
        decreases count_of(marks@, false), work@.len(),
    {
        let ghost m0 = marks@;
        let ghost w0 = work@;
        let u = work.pop().unwrap();
        proof {
            assert(w0[w0.len() - 1] == u);
            assert forall|v: int| 0 <= v < n && v != u && #[trigger] marks@[v] implies positions(
                work@,
            ).contains(v) || closed_at(g, marks@, v) by {
                if positions(w0).contains(v) {
                    let i = positions(w0).index_of(v);
                    assert(positions(work@)[i] == v);
                }
            }
        }
        let deg = adj[u].len();
        let mut k: usize = 0;
        while k < deg
            invariant
                g == adj_graph(adj@),
                graph_wf(g),
                n == adj@.len(),
                t < n,
                u < n,
                deg == adj@[u as int]@.len(),
                k <= deg,
                marks@.len() == n,
                marks@[t as int],
                marks@[u as int],
                w0.len() >= 1,
                forall|i: int|
                    0 <= i < work@.len() ==> #[trigger] work@[i] < n && marks@[work@[i] as int],
                forall|v: int| 0 <= v < n && marks@[v] ==> reachable(g, t as int, v),
                forall|j: int| 0 <= j < k ==> marks@[#[trigger] g[u as int][j]],
                forall|v: int|
                    0 <= v < n && v != u && #[trigger] marks@[v] ==> positions(work@).contains(v)
                        || closed_at(g, marks@, v),
                count_of(marks@, false) + work@.len() + 1 == count_of(m0, false) + w0.len(),
                count_of(marks@, false) <= count_of(m0, false),
            decreases deg - k,
        {
            let d = adj[u][k];
            assert(g[u as int][k as int] == d as int);
            assert(edge(g, u as int, d as int)) by {
                assert(g[u as int].contains(d as int));
            }
            if !marks[d] {
                let ghost m1 = marks@;
                let ghost w1 = work@;
                marks.set(d, true);
                work.push(d);
                proof {
                    lemma_count_overwrite(m1, d as int, false, true);
                    lemma_reach_step(g, t as int, u as int, d as int);
                    assert(positions(work@)[w1.len() as int] == d);
                    assert forall|v: int| 0 <= v < n && v != u && #[trigger] marks@[v] implies positions(
                        work@,
                    ).contains(v) || closed_at(g, marks@, v) by {
                        if v != d {
                            assert(m1[v]);
                            if positions(w1).contains(v) {
                                let i = positions(w1).index_of(v);
                                assert(positions(work@)[i] == v);
                            } else {
                                assert(closed_at(g, m1, v));
                            }
                        }
                    }
                }
            }
            k = k + 1;
        }
        proof {
            assert(closed_at(g, marks@, u as int));
        }
    }
    proof {
        assert forall|v: int| 0 <= v < n && reachable(g, t as int, v) implies marks@[v] by {
            let p = choose|p: Seq<int>| is_path(g, p) && p[0] == t as int && p.last() == v;
            assert forall|x: int| 0 <= x < g.len() && marks@[x] implies closed_at(g, marks@, x) by {
                if positions(work@).contains(x) {
                    let i = positions(work@).index_of(x);
                }
            }
            lemma_closed_marks(g, marks@, p, p.len() - 1);
        }
    }
    marks
}

/// An execution order lists nothing twice, lists exactly what can be
/// reached from the requested task, and lists every task after each of
/// its dependencies.
pub proof fn lemma_exec_order_basics(g: Seq<Seq<int>>, t: int, o: Seq<int>)
    requires
        is_exec_order(g, t, o),
    ensures
        o.no_duplicates(),
        forall|v: int| o.contains(v) <==> reachable(g, t, v),
        forall|p: int, k: int|
            0 <= p < o.len() && 0 <= k < g[o[p]].len() ==> o.take(p).contains(
                #[trigger] g[o[p]][k],
            ),
{
    assert forall|i: int, j: int| 0 <= i < o.len() && 0 <= j < o.len() && i != j implies o[i]
        != o[j] by {
        if i < j {
            assert(chosen_at(g, t, o, j));
            assert(o.take(j)[i] == o[i]);
        } else {
            assert(chosen_at(g, t, o, i));
            assert(o.take(i)[j] == o[j]);
        }
    }
    assert forall|v: int| o.contains(v) implies reachable(g, t, v) by {
        let p = o.index_of(v);
        assert(chosen_at(g, t, o, p));
    }
    assert forall|p: int, k: int| 0 <= p < o.len() && 0 <= k < g[o[p]].len() implies o.take(
        p,
    ).contains(#[trigger] g[o[p]][k]) by {
        assert(chosen_at(g, t, o, p));
    }
}

/// In an execution order, whatever a listed task reaches along one or
/// more edges stands before it.
pub proof fn lemma_ancestors_first(g: Seq<Seq<int>>, t: int, o: Seq<int>, p: int, path: Seq<int>)
    requires
        is_exec_order(g, t, o),
        0 <= p < o.len(),
        is_path(g, path),
        path.len() >= 2,
        path[0] == o[p],
    ensures
        o.take(p).contains(path.last()),
    decreases path.len(),
{
    lemma_exec_order_basics(g, t, o);
    assert(step(g, path, 0));
    let k = g[o[p]].index_of(path[1]);
    assert(g[o[p]][k] == path[1]);
    assert(o.take(p).contains(path[1]));
    let q = o.take(p).index_of(path[1]);
    assert(o[q] == path[1]);
    if path.len() > 2 {
        let rest = path.subrange(1, path.len() as int);
        assert forall|i: int| 0 <= i < rest.len() - 1 implies #[trigger] step(g, rest, i) by {
            assert(step(g, path, i + 1));
        }
        lemma_ancestors_first(g, t, o, q, rest);
        let r = o.take(q).index_of(rest.last());
        assert(o.take(p)[r] == rest.last());
    }
}

/// Where an execution order exists, no cycle can be reached from the
/// requested task.
pub proof fn lemma_exec_order_acyclic(g: Seq<Seq<int>>, t: int, o: Seq<int>)
    requires
        is_exec_order(g, t, o),
    ensures
        !cycle_reachable(g, t),
{
    if cycle_reachable(g, t) {
        let v = choose|v: int| reachable(g, t, v) && on_cycle(g, v);
        let c = choose|c: Seq<int>| is_cycle(g, c) && c[0] == v;
        lemma_exec_order_basics(g, t, o);
        assert(o.contains(v));
        let p = o.index_of(v);
        lemma_ancestors_first(g, t, o, p, c);
        let q = o.take(p).index_of(v);
        assert(o[q] == v);
    }
}

/// The requested task closes its execution order.
pub proof fn lemma_target_last(g: Seq<Seq<int>>, t: int, o: Seq<int>)
    requires
        is_exec_order(g, t, o),
        0 <= t < g.len(),
    ensures
        o.len() >= 1,
        o.last() == t,
{
    lemma_exec_order_basics(g, t, o);
    lemma_reach_self(g, t);
    assert(o.contains(t));
    let p = o.index_of(t);
    let last = o.len() - 1;
    if p < last {
        let v = o[last];
        assert(o.contains(v));
        assert(reachable(g, t, v));
        let path = choose|path: Seq<int>| is_path(g, path) && path[0] == t && path.last() == v;
        assert(path.len() >= 2);
        lemma_ancestors_first(g, t, o, p, path);
        let q = o.take(p).index_of(v);
        assert(o[q] == v);
    }
}

proof fn lemma_same_prefix(g: Seq<Seq<int>>, t: int, a: Seq<int>, b: Seq<int>, p: int)
    requires
        is_exec_order(g, t, a),
        is_exec_order(g, t, b),
        0 <= p <= a.len(),
        p <= b.len(),
    ensures
        a.take(p) == b.take(p),
    decreases p,
{
    if p > 0 {
        lemma_same_prefix(g, t, a, b, p - 1);
        assert(chosen_at(g, t, a, p - 1));
        assert(chosen_at(g, t, b, p - 1));
        assert(a[p - 1] == b[p - 1]);
        assert(a.take(p) =~= a.take(p - 1).push(a[p - 1]));
        assert(b.take(p) =~= b.take(p - 1).push(b[p - 1]));
    } else {
        assert(a.take(0) =~= b.take(0));
    }
}

/// A task has at most one execution order.
pub proof fn lemma_exec_order_unique(g: Seq<Seq<int>>, t: int, a: Seq<int>, b: Seq<int>)
    requires
        is_exec_order(g, t, a),
        is_exec_order(g, t, b),
    ensures
        a == b,
{
    let m = if a.len() <= b.len() { a.len() as int } else { b.len() as int };
    lemma_same_prefix(g, t, a, b, m);
    if a.len() < b.len() {
        assert(chosen_at(g, t, b, m));
        assert(a.take(m) =~= a);
        assert(a.contains(b[m]));
    } else if b.len() < a.len() {
        assert(chosen_at(g, t, a, m));
        assert(b.take(m) =~= b);
        assert(b.contains(a[m]));
    }
    assert(a.take(m) =~= a);
    assert(b.take(m) =~= b);
}

/// More entries than values they may take: one value occurs twice.
pub proof fn lemma_pigeonhole(s: Seq<int>, n: int)
    requires
        0 <= n < s.len(),
        forall|i: int| 0 <= i < s.len() ==> 0 <= #[trigger] s[i] < n,
    ensures
        exists|i: int, j: int| 0 <= i < j < s.len() && s[i] == s[j],
{
    if s.no_duplicates() {
        s.unique_seq_to_set();
        lemma_int_range(0, n);
        assert(s.to_set().subset_of(set_int_range(0, n)));
        lemma_len_subset(s.to_set(), set_int_range(0, n));
    } else {
        let (i, j) = choose|i: int, j: int|
            0 <= i < s.len() && 0 <= j < s.len() && i != j && s[i] == s[j];
        if i < j {
            assert(0 <= i < j < s.len() && s[i] == s[j]);
        } else {
            assert(0 <= j < i < s.len() && s[j] == s[i]);
        }
    }
}

/// `v` belongs to the closure of `t` and is not listed.
pub open spec fn waiting(g: Seq<Seq<int>>, t: int, done: Seq<int>, v: int) -> bool {
    reachable(g, t, v) && !done.contains(v)
}

/// The first entry from `k` on of the dependencies of `v` that is not
/// listed; the number of entries where all of them are.
pub open spec fn unlisted_from(g: Seq<Seq<int>>, done: Seq<int>, v: int, k: int) -> int
    decreases g[v].len() - k,
{
    if 0 <= k < g[v].len() && done.contains(g[v][k]) {
        unlisted_from(g, done, v, k + 1)
    } else {
        k
    }
}

/// The first dependency of `v` that is not listed.
pub open spec fn blocker(g: Seq<Seq<int>>, done: Seq<int>, v: int) -> int {
    g[v][unlisted_from(g, done, v, 0)]
}

/// Where the walk from `r` stands after `i` steps, each from a task to
/// its first dependency that is not listed.
pub open spec fn blocked_walk(g: Seq<Seq<int>>, done: Seq<int>, r: int, i: nat) -> int
    decreases i,
{
    if i == 0 {
        r
    } else {
        blocker(g, done, blocked_walk(g, done, r, (i - 1) as nat))
    }
}

proof fn lemma_unlisted(g: Seq<Seq<int>>, done: Seq<int>, v: int, k: int)
    requires
        0 <= k <= g[v].len(),
    ensures
        k <= unlisted_from(g, done, v, k) <= g[v].len(),
        forall|j: int| k <= j < unlisted_from(g, done, v, k) ==> done.contains(#[trigger] g[v][j]),
        unlisted_from(g, done, v, k) < g[v].len() ==> !done.contains(
            g[v][unlisted_from(g, done, v, k)],
        ),
    decreases g[v].len() - k,
{
    if k < g[v].len() && done.contains(g[v][k]) {
        lemma_unlisted(g, done, v, k + 1);
    }
}

/// A waiting task that cannot come next has a dependency that waits too:
/// its first one that is not listed.
pub proof fn lemma_blocker(g: Seq<Seq<int>>, t: int, done: Seq<int>, v: int)
    requires
        graph_wf(g),
        waiting(g, t, done, v),
        !ready(g, done, v),
    ensures
        edge(g, v, blocker(g, done, v)),
        waiting(g, t, done, blocker(g, done, v)),
{
    lemma_unlisted(g, done, v, 0);
    lemma_reach_in_graph(g, t, v);
    let u = unlisted_from(g, done, v, 0);
    assert(g[v].contains(g[v][u]));
    lemma_reach_step(g, t, v, g[v][u]);
}

proof fn lemma_blocked_walk(g: Seq<Seq<int>>, t: int, done: Seq<int>, r: int, i: nat)
    requires
        graph_wf(g),
        forall|v: int| !candidate(g, t, done, v),
        waiting(g, t, done, r),
    ensures
        waiting(g, t, done, blocked_walk(g, done, r, i)),
        i > 0 ==> edge(g, blocked_walk(g, done, r, (i - 1) as nat), blocked_walk(g, done, r, i)),
    decreases i,
{
    if i > 0 {
        lemma_blocked_walk(g, t, done, r, (i - 1) as nat);
        let v = blocked_walk(g, done, r, (i - 1) as nat);
        assert(!candidate(g, t, done, v));
        lemma_blocker(g, t, done, v);
    }
}

proof fn lemma_walk_shift(g: Seq<Seq<int>>, done: Seq<int>, r: int, i: nat, m: nat)
    ensures
        blocked_walk(g, done, r, i + m) == blocked_walk(g, done, blocked_walk(g, done, r, i), m),
    decreases m,
{
    if m > 0 {
        lemma_walk_shift(g, done, r, i, (m - 1) as nat);
        assert((i + m - 1) as nat == i + (m - 1) as nat);
    }
}

/// Where tasks are waiting and none of them can come next, the walk
/// from a waiting task along first unlisted dependencies stands on a
/// cycle after as many steps as the graph has tasks, and the requested
/// task reaches that place.
pub proof fn lemma_walk_ends_on_cycle(g: Seq<Seq<int>>, t: int, done: Seq<int>, r: int)
    requires
        graph_wf(g),
        forall|v: int| !candidate(g, t, done, v),
        waiting(g, t, done, r),
    ensures
        reachable(g, t, blocked_walk(g, done, r, g.len())),
        on_cycle(g, blocked_walk(g, done, r, g.len())),
{
    let n = g.len();
    let s = Seq::new((n + 1) as nat, |i: int| blocked_walk(g, done, r, i as nat));
    assert forall|i: int| 0 <= i < s.len() implies 0 <= #[trigger] s[i] < n by {
        lemma_blocked_walk(g, t, done, r, i as nat);
        lemma_reach_in_graph(g, t, s[i]);
    }
    lemma_pigeonhole(s, n as int);
    let (i, j) = choose|i: int, j: int| 0 <= i < j < s.len() && s[i] == s[j];
    let d = (j - i) as nat;
    let rest = (n - i) as nat;
    lemma_walk_shift(g, done, r, i as nat, rest);
    lemma_walk_shift(g, done, r, j as nat, rest);
    assert(i as nat + rest == n);
    assert(j as nat + rest == n + d);
    let end = blocked_walk(g, done, r, n);
    assert(blocked_walk(g, done, r, n + d) == end);
    let c = Seq::new(d + 1, |x: int| blocked_walk(g, done, r, (n + x) as nat));
    assert forall|x: int| 0 <= x < c.len() implies 0 <= #[trigger] c[x] < g.len() by {
        lemma_blocked_walk(g, t, done, r, (n + x) as nat);
        lemma_reach_in_graph(g, t, c[x]);
    }
    assert forall|x: int| 0 <= x < c.len() - 1 implies #[trigger] step(g, c, x) by {
        lemma_blocked_walk(g, t, done, r, (n + x + 1) as nat);
        assert((n + x + 1 - 1) as nat == (n + x) as nat);
    }
    assert(is_cycle(g, c) && c[0] == end);
    lemma_blocked_walk(g, t, done, r, n);
}

fn find_blocker(adj: &Vec<Vec<usize>>, v: usize, listed: &Vec<bool>, Ghost(done): Ghost<Seq<int>>) -> (r:
    usize)
    requires
        graph_wf(adj_graph(adj@)),
        v < adj@.len(),
        listed@.len() == adj@.len(),
        forall|x: int| 0 <= x < adj@.len() ==> (listed@[x] <==> done.contains(x)),
        !ready(adj_graph(adj@), done, v as int),
    ensures
        r == blocker(adj_graph(adj@), done, v as int),
{
    let ghost g = adj_graph(adj@);
    let deg = adj[v].len();
    let mut k: usize = 0;
    while k < deg
        invariant
            g == adj_graph(adj@),
            graph_wf(g),
            v < adj@.len(),
            deg == adj@[v as int]@.len(),
            k <= deg,
            listed@.len() == adj@.len(),
            forall|x: int| 0 <= x < adj@.len() ==> (listed@[x] <==> done.contains(x)),
            unlisted_from(g, done, v as int, k as int) == unlisted_from(g, done, v as int, 0),
            forall|j: int| 0 <= j < k ==> done.contains(#[trigger] g[v as int][j]),
        decreases deg - k,
    {
        let d = adj[v][k];
        assert(g[v as int][k as int] == d as int);
        if !listed[d] {
            return d;
        }
        k = k + 1;
    }
    // Never reached: a task that cannot come next has an unlisted dependency.
    v
}

fn deps_listed(adj: &Vec<Vec<usize>>, v: usize, listed: &Vec<bool>, Ghost(done): Ghost<Seq<int>>) -> (r:
    bool)
    requires
        graph_wf(adj_graph(adj@)),
        v < adj@.len(),
        listed@.len() == adj@.len(),
        forall|x: int| 0 <= x < adj@.len() ==> (listed@[x] <==> done.contains(x)),
    ensures
        r == ready(adj_graph(adj@), done, v as int),
{
    let ghost g = adj_graph(adj@);
    let deg = adj[v].len();
    let mut k: usize = 0;
    while k < deg
        invariant
            g == adj_graph(adj@),
            graph_wf(g),
            v < adj@.len(),
            deg == adj@[v as int]@.len(),
            k <= deg,
            listed@.len() == adj@.len(),
            forall|x: int| 0 <= x < adj@.len() ==> (listed@[x] <==> done.contains(x)),
            forall|j: int| 0 <= j < k ==> done.contains(#[trigger] g[v as int][j]),
        decreases deg - k,
    {
        let d = adj[v][k];
        assert(g[v as int][k as int] == d as int);
        if !listed[d] {
            return false;
        }
        k = k + 1;
    }
    true
}

fn least_candidate(
    adj: &Vec<Vec<usize>>,
    t: usize,
    marks: &Vec<bool>,
    listed: &Vec<bool>,
    Ghost(done): Ghost<Seq<int>>,
) -> (r: Option<usize>)
    requires
        graph_wf(adj_graph(adj@)),
        t < adj@.len(),
        marks@.len() == adj@.len(),
        listed@.len() == adj@.len(),
        forall|v: int|
            0 <= v < adj@.len() ==> (marks@[v] <==> reachable(adj_graph(adj@), t as int, v)),
        forall|x: int| 0 <= x < adj@.len() ==> (listed@[x] <==> done.contains(x)),
    ensures
        match r {
            Some(v) => v < adj@.len() && candidate(adj_graph(adj@), t as int, done, v as int)
                && forall|w: int|
                #[trigger] candidate(adj_graph(adj@), t as int, done, w) ==> v <= w,
            None => forall|w: int| !candidate(adj_graph(adj@), t as int, done, w),
        },
{
    let ghost g = adj_graph(adj@);
    let n = adj.len();
    let mut v: usize = 0;
    while v < n
        invariant
            g == adj_graph(adj@),
            graph_wf(g),
            n == adj@.len(),
            v <= n,
            marks@.len() == n,
            listed@.len() == n,
            forall|x: int| 0 <= x < n ==> (marks@[x] <==> reachable(g, t as int, x)),
            forall|x: int| 0 <= x < n ==> (listed@[x] <==> done.contains(x)),
            forall|w: int| 0 <= w < v ==> !candidate(g, t as int, done, w),
        decreases n - v,
    {
        if marks[v] && !listed[v] && deps_listed(adj, v, listed, Ghost(done)) {
            proof {
                assert forall|w: int| #[trigger] candidate(g, t as int, done, w) implies v <= w by {
                    lemma_reach_in_graph(g, t as int, w);
                }
            }
            return Some(v);
        }
        v = v + 1;
    }
    proof {
        assert forall|w: int| !candidate(g, t as int, done, w) by {
            if candidate(g, t as int, done, w) {
                lemma_reach_in_graph(g, t as int, w);
            }
        }
    }
    None
}

fn first_waiting(
    adj: &Vec<Vec<usize>>,
    t: usize,
    marks: &Vec<bool>,
    listed: &Vec<bool>,
    Ghost(done): Ghost<Seq<int>>,
) -> (r: Option<usize>)
    requires
        marks@.len() == adj@.len(),
        listed@.len() == adj@.len(),
        forall|v: int|
            0 <= v < adj@.len() ==> (marks@[v] <==> reachable(adj_graph(adj@), t as int, v)),
        forall|x: int| 0 <= x < adj@.len() ==> (listed@[x] <==> done.contains(x)),
    ensures
        match r {
            Some(v) => waiting(adj_graph(adj@), t as int, done, v as int),
            None => forall|w: int| reachable(adj_graph(adj@), t as int, w) ==> done.contains(w),
        },
{
    let ghost g = adj_graph(adj@);
    let n = adj.len();
    let mut v: usize = 0;
    while v < n
        invariant
            g == adj_graph(adj@),
            n == adj@.len(),
            v <= n,
            marks@.len() == n,
            listed@.len() == n,
            forall|x: int| 0 <= x < n ==> (marks@[x] <==> reachable(g, t as int, x)),
            forall|x: int| 0 <= x < n ==> (listed@[x] <==> done.contains(x)),
            forall|w: int| 0 <= w < v && reachable(g, t as int, w) ==> done.contains(w),
        decreases n - v,
    {
        if marks[v] && !listed[v] {
            return Some(v);
        }
        v = v + 1;
    }
    proof {
        assert forall|w: int| reachable(g, t as int, w) implies done.contains(w) by {
            lemma_reach_in_graph(g, t as int, w);
        }
    }
    None
}

/// Computes the execution order of `t`, or names a task on a cycle that
/// `t` reaches.
pub fn exec_order(adj: &Vec<Vec<usize>>, t: usize) -> (r: Result<Vec<usize>, usize>)
    requires
        graph_wf(adj_graph(adj@)),
        t < adj@.len(),
    ensures
        match r {
            Ok(o) => is_exec_order(adj_graph(adj@), t as int, positions(o@)) && !cycle_reachable(
                adj_graph(adj@),
                t as int,
            ) && forall|i: int| 0 <= i < o@.len() ==> #[trigger] o@[i] < adj@.len(),
            Err(v) => v < adj@.len() && reachable(adj_graph(adj@), t as int, v as int) && on_cycle(
                adj_graph(adj@),
                v as int,
            ),
        },
{
    let ghost g = adj_graph(adj@);
    let n = adj.len();
    let marks = reach_marks(adj, t);
    let mut listed: Vec<bool> = Vec::new();
    let mut i: usize = 0;
    while i < n
        invariant
            i <= n,
            listed@.len() == i,
            forall|j: int| 0 <= j < i ==> !listed@[j],
        decreases n - i,
    {
        listed.push(false);
        i = i + 1;
    }
    let mut order: Vec<usize> = Vec::new();
    let mut stop = false;
    while !stop
        invariant
            g == adj_graph(adj@),
            graph_wf(g),
            n == adj@.len(),
            t < n,
            marks@.len() == n,
            listed@.len() == n,
            forall|x: int| 0 <= x < n ==> (marks@[x] <==> reachable(g, t as int, x)),
            forall|x: int| 0 <= x < n ==> (listed@[x] <==> positions(order@).contains(x)),
            forall|i: int| 0 <= i < order@.len() ==> #[trigger] order@[i] < n,
            forall|p: int|
                0 <= p < order@.len() ==> #[trigger] chosen_at(g, t as int, positions(order@), p),
            stop ==> forall|w: int| !candidate(g, t as int, positions(order@), w),
        decreases count_of(listed@, false) + if stop { 0nat } else { 1nat },
    {
        let ghost done = positions(order@);
        match least_candidate(adj, t, &marks, &listed, Ghost(done)) {
            None => {
                stop = true;
            },
            Some(v) => {
                let ghost l0 = listed@;
                order.push(v);
                listed.set(v, true);
                proof {
                    lemma_count_overwrite(l0, v as int, false, true);
                    let now = positions(order@);
                    assert(now =~= done.push(v as int));
                    assert(now.take(done.len() as int) =~= done);
                    assert forall|p: int| 0 <= p < now.len() implies #[trigger] chosen_at(
                        g,
                        t as int,
                        now,
                        p,
                    ) by {
                        if p < done.len() {
                            assert(chosen_at(g, t as int, done, p));
                            assert(now.take(p) =~= done.take(p));
                        }
                    }
                    assert forall|x: int| 0 <= x < n implies (listed@[x] <==> now.contains(x)) by {
                        if x == v {
                            assert(now[done.len() as int] == x);
                        } else if done.contains(x) {
                            let q = done.index_of(x);
                            assert(now[q] == x);
                        }
                    }
                }
            },
        }
    }
    let ghost done = positions(order@);
    match first_waiting(adj, t, &marks, &listed, Ghost(done)) {
        Some(w) => {
            let mut v = w;
            let mut i: usize = 0;
            while i < n
                invariant
                    g == adj_graph(adj@),
                    graph_wf(g),
                    n == adj@.len(),
                    listed@.len() == n,
                    forall|x: int| 0 <= x < n ==> (listed@[x] <==> done.contains(x)),
                    forall|x: int| !candidate(g, t as int, done, x),
                    waiting(g, t as int, done, w as int),
                    i <= n,
                    v == blocked_walk(g, done, w as int, i as nat),
                    waiting(g, t as int, done, v as int),
                decreases n - i,
            {
                proof {
                    lemma_reach_in_graph(g, t as int, v as int);
                    assert(!candidate(g, t as int, done, v as int));
                    lemma_blocked_walk(g, t as int, done, w as int, (i + 1) as nat);
                }
                v = find_blocker(adj, v, &listed, Ghost(done));
                i = i + 1;
            }
            proof {
                lemma_walk_ends_on_cycle(g, t as int, done, w as int);
                lemma_reach_in_graph(g, t as int, v as int);
            }
            Err(v)
        },
        None => {
            proof {
                lemma_exec_order_acyclic(g, t as int, done);
            }
            Ok(order)
        },
    }
}

} // verus!
