//! Dependency graphs over task positions.
//!
//! A graph is a sequence of adjacency lists: node `u` has an edge to each
//! entry of `g[u]`, the tasks it depends on.

use vstd::prelude::*;

verus! {

/// Every adjacency entry names a node of the graph.
pub open spec fn graph_wf(g: Seq<Seq<int>>) -> bool {
    forall|u: int, k: int|
        0 <= u < g.len() && 0 <= k < g[u].len() ==> 0 <= #[trigger] g[u][k] < g.len()
}

/// `u` depends directly on `v`.
pub open spec fn edge(g: Seq<Seq<int>>, u: int, v: int) -> bool {
    0 <= u < g.len() && g[u].contains(v)
}

/// The `i`-th hop of `p` follows an edge.
pub open spec fn step(g: Seq<Seq<int>>, p: Seq<int>, i: int) -> bool {
    edge(g, p[i], p[i + 1])
}

/// `p` walks along edges through nodes of the graph.
pub open spec fn is_path(g: Seq<Seq<int>>, p: Seq<int>) -> bool {
    &&& p.len() >= 1
    &&& forall|i: int| 0 <= i < p.len() ==> 0 <= #[trigger] p[i] < g.len()
    &&& forall|i: int| 0 <= i < p.len() - 1 ==> #[trigger] step(g, p, i)
}

/// `p` is a walk of at least one edge that returns to its start.
pub open spec fn is_cycle(g: Seq<Seq<int>>, p: Seq<int>) -> bool {
    &&& is_path(g, p)
    &&& p.len() >= 2
    &&& p[0] == p.last()
}

/// Some cycle starts and ends at `v`.
pub open spec fn on_cycle(g: Seq<Seq<int>>, v: int) -> bool {
    exists|p: Seq<int>| is_cycle(g, p) && p[0] == v
}

/// The graph holds a cycle.
pub open spec fn has_cycle(g: Seq<Seq<int>>) -> bool {
    exists|p: Seq<int>| is_cycle(g, p)
}

/// `v` can be reached from `u` along edges (`u` reaches itself).
pub open spec fn reachable(g: Seq<Seq<int>>, u: int, v: int) -> bool {
    exists|p: Seq<int>| is_path(g, p) && p[0] == u && p.last() == v
}

/// The graph that adjacency lists of positions stand for.
pub open spec fn adj_graph(adj: Seq<Vec<usize>>) -> Seq<Seq<int>> {
    Seq::new(adj.len(), |u: int| Seq::new(adj[u]@.len(), |k: int| adj[u]@[k] as int))
}

/// The second node of a cycle lies on a cycle too.
pub proof fn lemma_cycle_rotate(g: Seq<Seq<int>>, p: Seq<int>)
    requires
        is_cycle(g, p),
    ensures
        on_cycle(g, p[1]),
{
    let n = p.len() as int;
    let q = p.subrange(1, n).push(p[1]);
    assert forall|i: int| 0 <= i < q.len() - 1 implies #[trigger] step(g, q, i) by {
        if i < n - 2 {
            assert(step(g, p, i + 1));
        } else {
            assert(step(g, p, 0));
        }
    }
    assert(is_cycle(g, q) && q[0] == p[1]);
}

/// A node whose successors all lie off every cycle lies on none itself.
pub proof fn lemma_successors_acyclic(g: Seq<Seq<int>>, u: int)
    requires
        forall|v: int| edge(g, u, v) ==> !on_cycle(g, v),
    ensures
        !on_cycle(g, u),
{
    if on_cycle(g, u) {
        let p = choose|p: Seq<int>| is_cycle(g, p) && p[0] == u;
        assert(step(g, p, 0));
        lemma_cycle_rotate(g, p);
    }
}

/// Extending a path by one edge gives a path.
pub proof fn lemma_path_push(g: Seq<Seq<int>>, p: Seq<int>, v: int)
    requires
        is_path(g, p),
        edge(g, p.last(), v),
        0 <= v < g.len(),
    ensures
        is_path(g, p.push(v)),
{
    let q = p.push(v);
    assert forall|i: int| 0 <= i < q.len() - 1 implies #[trigger] step(g, q, i) by {
        if i < p.len() - 1 {
            assert(step(g, p, i));
        }
    }
}

/// A path that starts with an edge from `u` to the start of a path is a path.
pub proof fn lemma_reach_prepend(g: Seq<Seq<int>>, u: int, d: int, v: int)
    requires
        edge(g, u, d),
        reachable(g, d, v),
    ensures
        reachable(g, u, v),
{
    let p = choose|p: Seq<int>| is_path(g, p) && p[0] == d && p.last() == v;
    let q = seq![u] + p;
    assert forall|i: int| 0 <= i < q.len() - 1 implies #[trigger] step(g, q, i) by {
        if i > 0 {
            assert(step(g, p, i - 1));
        }
    }
    assert(is_path(g, q) && q[0] == u && q.last() == v);
}

/// What is reached from `u` and is not `u` is reached through a direct
/// successor of `u`.
pub proof fn lemma_reach_first_step(g: Seq<Seq<int>>, u: int, v: int) -> (d: int)
    requires
        reachable(g, u, v),
        u != v,
    ensures
        edge(g, u, d),
        reachable(g, d, v),
{
    let p = choose|p: Seq<int>| is_path(g, p) && p[0] == u && p.last() == v;
    assert(step(g, p, 0));
    let q = p.subrange(1, p.len() as int);
    assert forall|i: int| 0 <= i < q.len() - 1 implies #[trigger] step(g, q, i) by {
        assert(step(g, p, i + 1));
    }
    assert(is_path(g, q) && q[0] == p[1] && q.last() == v);
    p[1]
}

/// Reachability is transitive.
pub proof fn lemma_reach_trans(g: Seq<Seq<int>>, a: int, b: int, c: int)
    requires
        reachable(g, a, b),
        reachable(g, b, c),
    ensures
        reachable(g, a, c),
{
    let p = choose|p: Seq<int>| is_path(g, p) && p[0] == a && p.last() == b;
    let q = choose|q: Seq<int>| is_path(g, q) && q[0] == b && q.last() == c;
    let r = p + q.subrange(1, q.len() as int);
    assert forall|i: int| 0 <= i < r.len() - 1 implies #[trigger] step(g, r, i) by {
        if i < p.len() - 1 {
            assert(step(g, p, i));
        } else {
            assert(step(g, q, i - (p.len() - 1)));
        }
    }
    assert(is_path(g, r) && r[0] == a && r.last() == c);
}

/// The mark of a node that the walk has not reached.
pub const WHITE: u8 = 0;

/// The mark of a node on the path that the walk is following.
pub const GRAY: u8 = 1;

/// The mark of a node that the walk has finished.
pub const BLACK: u8 = 2;

/// How many entries of `s` equal `x`.
pub open spec fn count_of<A>(s: Seq<A>, x: A) -> nat
    decreases s.len(),
{
    if s.len() == 0 {
        0
    } else {
        count_of(s.drop_last(), x) + if s.last() == x {
            1nat
        } else {
            0nat
        }
    }
}

/// Overwriting one occurrence of `x` leaves one occurrence fewer.
pub proof fn lemma_count_overwrite<A>(s: Seq<A>, i: int, x: A, y: A)
    requires
        0 <= i < s.len(),
        s[i] == x,
        y != x,
    ensures
        count_of(s.update(i, y), x) + 1 == count_of(s, x),
    decreases s.len(),
{
    let d = s.update(i, y);
    if i == s.len() - 1 {
        assert(d.drop_last() =~= s.drop_last());
    } else {
        assert(d.drop_last() =~= s.drop_last().update(i, y));
        lemma_count_overwrite(s.drop_last(), i, x, y);
    }
}

/// Where `d` holds `x` only at places at which `c` holds it, `d` holds it no more often.
pub proof fn lemma_count_shrinks<A>(c: Seq<A>, d: Seq<A>, x: A)
    requires
        c.len() == d.len(),
        forall|i: int| 0 <= i < c.len() && d[i] == x ==> c[i] == x,
    ensures
        count_of(d, x) <= count_of(c, x),
    decreases c.len(),
{
    if c.len() > 0 {
        lemma_count_shrinks(c.drop_last(), d.drop_last(), x);
    }
}

/// The state of a depth-first walk: the nodes in progress form the current
/// path, and no finished node lies on a cycle.
pub open spec fn walk_inv(g: Seq<Seq<int>>, color: Seq<u8>, stack: Seq<int>) -> bool {
    &&& color.len() == g.len()
    &&& forall|v: int| 0 <= v < g.len() ==> #[trigger] color[v] <= BLACK
    &&& forall|i: int|
        0 <= i < stack.len() ==> 0 <= #[trigger] stack[i] < g.len() && color[stack[i]] == GRAY
    &&& forall|v: int| 0 <= v < g.len() && #[trigger] color[v] == GRAY ==> stack.contains(v)
    &&& forall|i: int| 0 <= i < stack.len() - 1 ==> #[trigger] step(g, stack, i)
    &&& forall|v: int| 0 <= v < g.len() && #[trigger] color[v] == BLACK ==> !on_cycle(g, v)
}

proof fn lemma_back_edge(g: Seq<Seq<int>>, stack: Seq<int>, v: int)
    requires
        stack.len() >= 1,
        forall|i: int| 0 <= i < stack.len() ==> 0 <= #[trigger] stack[i] < g.len(),
        forall|i: int| 0 <= i < stack.len() - 1 ==> #[trigger] step(g, stack, i),
        stack.contains(v),
        edge(g, stack.last(), v),
    ensures
        on_cycle(g, v),
{
    let i = stack.index_of(v);
    let n = stack.len() as int;
    let p = stack.subrange(i, n).push(v);
    assert forall|j: int| 0 <= j < p.len() - 1 implies #[trigger] step(g, p, j) by {
        if j < n - i - 1 {
            assert(step(g, stack, i + j));
        }
    }
    assert(is_cycle(g, p) && p[0] == v);
}

/// Walks depth-first from the unvisited node `u`. Returns the target of
/// the first edge that leads back into the path in progress, or `None`
/// once everything reachable from `u` is finished.
fn visit(adj: &Vec<Vec<usize>>, u: usize, color: &mut Vec<u8>, Ghost(stack): Ghost<Seq<int>>) -> (r:
    Option<usize>)
    requires
        graph_wf(adj_graph(adj@)),
        u < adj@.len(),
        old(color)@[u as int] == WHITE,
        walk_inv(adj_graph(adj@), old(color)@, stack),
        stack.len() == 0 || edge(adj_graph(adj@), stack.last(), u as int),
    ensures
        match r {
            Some(v) => v < adj@.len() && on_cycle(adj_graph(adj@), v as int),
            None => {
                &&& walk_inv(adj_graph(adj@), final(color)@, stack)
                &&& final(color)@[u as int] == BLACK
                &&& forall|i: int|
                    0 <= i < adj@.len() && old(color)@[i] != WHITE ==> final(color)@[i] == old(
                        color,
                    )@[i]
                &&& forall|i: int|
                    0 <= i < adj@.len() && final(color)@[i] == GRAY ==> old(color)@[i] == GRAY
            },
        },
    decreases count_of(old(color)@, WHITE),
{
    let ghost g = adj_graph(adj@);
    let ghost before = color@;
    color.set(u, GRAY);
    let ghost path = stack.push(u as int);
    proof {
        lemma_count_overwrite(before, u as int, WHITE, GRAY);
        assert forall|i: int| 0 <= i < path.len() - 1 implies #[trigger] step(g, path, i) by {
            if i < stack.len() - 1 {
                assert(step(g, stack, i));
            }
        }
        assert forall|v: int| 0 <= v < g.len() && #[trigger] color@[v] == GRAY implies path.contains(
            v,
        ) by {
            if v == u {
                assert(path[stack.len() as int] == v);
            } else {
                assert(before[v] == GRAY);
                let i = stack.index_of(v);
                assert(path[i] == v);
            }
        }
        assert(walk_inv(g, color@, path));
    }
    let deg = adj[u].len();
    let mut k: usize = 0;
    while k < deg
        invariant
            g == adj_graph(adj@),
            graph_wf(g),
            u < adj@.len(),
            deg == adj@[u as int]@.len(),
            k <= deg,
            path == stack.push(u as int),
            before == old(color)@,
            before.len() == g.len(),
            before[u as int] == WHITE,
            walk_inv(g, color@, path),
            color@[u as int] == GRAY,
            count_of(color@, WHITE) < count_of(before, WHITE),
            forall|j: int| 0 <= j < k ==> color@[#[trigger] g[u as int][j]] == BLACK,
            forall|i: int|
                0 <= i < adj@.len() && i != u && before[i] != WHITE ==> color@[i] == before[i],
            forall|i: int|
                0 <= i < adj@.len() && i != u && color@[i] == GRAY ==> before[i] == GRAY,
        decreases deg - k,
    {
        let v = adj[u][k];
        assert(g[u as int][k as int] == v as int);
        assert(edge(g, u as int, v as int)) by {
            assert(g[u as int].contains(v as int));
        }
        let c = color[v];
        if c == GRAY {
            proof {
                lemma_back_edge(g, path, v as int);
            }
            return Some(v);
        }
        if c == WHITE {
            let ghost mid = color@;
            let r = visit(adj, v, color, Ghost(path));
            if r.is_some() {
                return r;
            }
            proof {
                lemma_count_shrinks(mid, color@, WHITE);
            }
        }
        k = k + 1;
    }
    let ghost mid = color@;
    color.set(u, BLACK);
    proof {
        assert forall|v: int| edge(g, u as int, v) implies !on_cycle(g, v) by {
            let j = g[u as int].index_of(v);
            assert(g[u as int][j] == v);
            assert(mid[g[u as int][j]] == BLACK);
        }
        lemma_successors_acyclic(g, u as int);
        assert forall|v: int| 0 <= v < g.len() && #[trigger] color@[v] == GRAY implies stack.contains(
            v,
        ) by {
            assert(mid[v] == GRAY);
            let i = path.index_of(v);
            assert(path[i] == v);
            assert(i < stack.len());
            assert(stack[i] == v);
        }
        assert forall|i: int| 0 <= i < stack.len() implies 0 <= #[trigger] stack[i] < g.len()
            && color@[stack[i]] == GRAY by {
            assert(path[i] == stack[i]);
        }
        assert forall|i: int| 0 <= i < stack.len() - 1 implies #[trigger] step(g, stack, i) by {
            assert(step(g, path, i));
        }
    }
    None
}

/// Searches the whole graph for a cycle, depth-first from each node in
/// turn. Returns a node on a cycle, or `None` when there is none.
pub fn find_cycle(adj: &Vec<Vec<usize>>) -> (r: Option<usize>)
    requires
        graph_wf(adj_graph(adj@)),
    ensures
        match r {
            Some(v) => v < adj@.len() && on_cycle(adj_graph(adj@), v as int),
            None => !has_cycle(adj_graph(adj@)),
        },
{
    let ghost g = adj_graph(adj@);
    let n = adj.len();
    let mut color: Vec<u8> = Vec::new();
    let mut i: usize = 0;
    while i < n
        invariant
            i <= n,
            color@.len() == i,
            forall|j: int| 0 <= j < i ==> color@[j] == WHITE,
        decreases n - i,
    {
        color.push(WHITE);
        i = i + 1;
    }
    let ghost empty = Seq::<int>::empty();
    let mut s: usize = 0;
    while s < n
        invariant
            g == adj_graph(adj@),
            graph_wf(g),
            n == adj@.len(),
            s <= n,
            empty.len() == 0,
            walk_inv(g, color@, empty),
            forall|j: int| 0 <= j < s ==> color@[j] == BLACK,
        decreases n - s,
    {
        if color[s] == WHITE {
            let r = visit(adj, s, &mut color, Ghost(empty));
            if r.is_some() {
                return r;
            }
        } else {
            assert(color@[s as int] != GRAY) by {
                if color@[s as int] == GRAY {
                    assert(empty.contains(s as int));
                }
            }
            assert(color@[s as int] == BLACK);
        }
        s = s + 1;
    }
    proof {
        if has_cycle(g) {
            let p = choose|p: Seq<int>| is_cycle(g, p);
            assert(0 <= p[0] < g.len());
            assert(color@[p[0]] == BLACK);
            assert(on_cycle(g, p[0]));
        }
    }
    None
}

} // verus!
