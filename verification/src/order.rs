//! Depth-first ordering of a directed graph on the vertices `0..n`, given by
//! the list of successors of each vertex. The order puts a vertex before each
//! of its successors wherever no cycle stands in the way, and is total in any
//! case: a cycle is neither detected nor refused.
use vstd::prelude::*;

verus! {

/// The graph that `succ` denotes: vertex `u` has the successors `succ[u]`.
pub open spec fn graph_of(succ: &Vec<Vec<usize>>) -> Seq<Seq<usize>> {
    Seq::new(succ@.len(), |u: int| succ@[u]@)
}

/// Every successor names a vertex of the graph.
pub open spec fn closed_graph(g: Seq<Seq<usize>>) -> bool {
    forall|u: int, k: int|
        0 <= u < g.len() && 0 <= k < g[u].len() ==> (#[trigger] g[u][k]) < g.len()
}

/// `v` is listed among the successors of `u`.
pub open spec fn has_edge(g: Seq<Seq<usize>>, u: usize, v: usize) -> bool {
    u < g.len() && g[u as int].contains(v)
}

/// `p` starts at a vertex and follows an edge at every step.
pub open spec fn is_path(g: Seq<Seq<usize>>, p: Seq<usize>) -> bool {
    &&& p.len() > 0
    &&& p[0] < g.len()
    &&& forall|i: int| 0 <= i < p.len() - 1 ==> has_edge(g, #[trigger] p[i], p[i + 1])
}

/// Some path leads from `a` to `b`; the path of one vertex counts.
pub open spec fn reaches(g: Seq<Seq<usize>>, a: usize, b: usize) -> bool {
    exists|p: Seq<usize>| is_path(g, p) && p[0] == a && p.last() == b
}

/// No edge between two different vertices lies on a cycle.
pub open spec fn acyclic(g: Seq<Seq<usize>>) -> bool {
    forall|u: usize, v: usize| has_edge(g, u, v) && u != v ==> !reaches(g, v, u)
}

/// Every list of successors, and the list of these lists, has a length
/// that a machine word holds.
pub open spec fn bounded_graph(g: Seq<Seq<usize>>) -> bool {
    &&& g.len() <= usize::MAX
    &&& forall|u: int| 0 <= u < g.len() ==> (#[trigger] g[u]).len() <= usize::MAX
}

/// A traversal under way.
#[verifier::ext_equal]
pub struct Traversal {
    /// The vertex from which the traversal starts next.
    pub root: int,
    /// For each vertex, whether the traversal has come to it.
    pub seen: Seq<bool>,
    /// The vertices under way, each with the number of its successors that
    /// were looked at; each but the first was come to from the one below it.
    pub stack: Seq<(usize, usize)>,
    /// The vertices that are finished, in the order in which they finished.
    pub done: Seq<usize>,
}

/// The traversal before its first step.
pub open spec fn start(g: Seq<Seq<usize>>) -> Traversal {
    Traversal {
        root: 0,
        seen: Seq::new(g.len(), |u: int| false),
        stack: Seq::empty(),
        done: Seq::empty(),
    }
}

/// One step of the traversal. With a vertex on top of the stack: if all its
/// successors were looked at, it is finished and leaves the stack; else its
/// next successor is looked at, and goes on top of the stack unless it was
/// seen before. With an empty stack: the next root goes on the stack unless
/// it was seen before. After the last root nothing changes.
pub open spec fn step(g: Seq<Seq<usize>>, t: Traversal) -> Traversal {
    if t.stack.len() > 0 {
        let u = t.stack.last().0;
        let k = t.stack.last().1;
        if k >= g[u as int].len() {
            Traversal {
                root: t.root,
                seen: t.seen,
                stack: t.stack.drop_last(),
                done: t.done.push(u),
            }
        } else {
            let v = g[u as int][k as int];
            let waiting = t.stack.drop_last().push((u, (k + 1) as usize));
            if t.seen[v as int] {
                Traversal { root: t.root, seen: t.seen, stack: waiting, done: t.done }
            } else {
                Traversal {
                    root: t.root,
                    seen: t.seen.update(v as int, true),
                    stack: waiting.push((v, 0usize)),
                    done: t.done,
                }
            }
        }
    } else if 0 <= t.root < g.len() {
        if t.seen[t.root] {
            Traversal { root: t.root + 1, seen: t.seen, stack: t.stack, done: t.done }
        } else {
            Traversal {
                root: t.root,
                seen: t.seen.update(t.root, true),
                stack: seq![(t.root as usize, 0usize)],
                done: t.done,
            }
        }
    } else {
        t
    }
}

/// The traversal after `steps` steps.
pub open spec fn after(g: Seq<Seq<usize>>, steps: nat) -> Traversal
    decreases steps,
{
    if steps == 0 {
        start(g)
    } else {
        step(g, after(g, (steps - 1) as nat))
    }
}

/// Nothing is under way and no root is left.
pub open spec fn finished(g: Seq<Seq<usize>>, t: Traversal) -> bool {
    t.stack.len() == 0 && t.root >= g.len()
}

/// `order` is what [`depth_first_order`] returns: the vertices in the
/// reverse of the order in which the traversal finished them.
pub open spec fn is_depth_first_order(g: Seq<Seq<usize>>, order: Seq<usize>) -> bool {
    exists|steps: nat| finished(g, after(g, steps)) && order == after(g, steps).done.reverse()
}

/// `order` lists every vertex of `g` exactly once.
pub open spec fn lists_every_vertex(g: Seq<Seq<usize>>, order: Seq<usize>) -> bool {
    &&& order.len() == g.len()
    &&& order.no_duplicates()
    &&& forall|i: int| 0 <= i < order.len() ==> (#[trigger] order[i]) < g.len()
    &&& forall|v: usize| v < g.len() ==> order.contains(v)
}

/// Every edge between two different vertices either points forward in
/// `order`, or its target leads back to its source.
pub open spec fn forward_but_for_cycles(g: Seq<Seq<usize>>, order: Seq<usize>) -> bool {
    forall|i: int, j: int|
        0 <= i < order.len() && 0 <= j < order.len() && i != j && has_edge(
            g,
            #[trigger] order[i],
            #[trigger] order[j],
        ) ==> i < j || reaches(g, order[j], order[i])
}

/// `order` is an order of the vertices of `g` that is topological as far as
/// cycles allow.
pub open spec fn is_sorted_but_for_cycles(g: Seq<Seq<usize>>, order: Seq<usize>) -> bool {
    lists_every_vertex(g, order) && forward_but_for_cycles(g, order)
}

/// In a graph without cycles such an order puts the source of every edge
/// before its target.
pub proof fn lemma_acyclic_order_is_topological(g: Seq<Seq<usize>>, order: Seq<usize>)
    requires
        is_sorted_but_for_cycles(g, order),
        acyclic(g),
    ensures
        forall|i: int, j: int|
            0 <= i < order.len() && 0 <= j < order.len() && i != j && has_edge(
                g,
                #[trigger] order[i],
                #[trigger] order[j],
            ) ==> i < j,
{
    assert forall|i: int, j: int|
        0 <= i < order.len() && 0 <= j < order.len() && i != j && has_edge(
            g,
            #[trigger] order[i],
            #[trigger] order[j],
        ) implies i < j by {
        assert(order[i] != order[j]);
    }
}

/// Different numbers below `n` are at most `n`.
pub proof fn lemma_distinct_below(s: Seq<usize>, n: usize)
    requires
        s.no_duplicates(),
        forall|i: int| 0 <= i < s.len() ==> (#[trigger] s[i]) < n,
    ensures
        s.len() <= n,
    decreases n,
{
    if s.len() == 0 {
    } else if n == 0 {
        assert(s[0] < n);
    } else {
        let top = (n - 1) as usize;
        if s.contains(top) {
            let i = s.index_of(top);
            let t = s.remove(i);
            assert forall|a: int| 0 <= a < t.len() implies (#[trigger] t[a]) < n - 1 by {
                if a < i {
                    assert(t[a] == s[a]);
                } else {
                    assert(t[a] == s[a + 1]);
                }
            }
            assert(t.no_duplicates()) by {
                assert forall|a: int, b: int| 0 <= a < t.len() && 0 <= b < t.len() && a != b
                    implies t[a] != t[b] by {
                    let a1 = if a < i { a } else { a + 1 };
                    let b1 = if b < i { b } else { b + 1 };
                    assert(t[a] == s[a1] && t[b] == s[b1]);
                }
            }
            lemma_distinct_below(t, top);
        } else {
            assert forall|a: int| 0 <= a < s.len() implies (#[trigger] s[a]) < n - 1 by {
                assert(s.contains(s[a]));
            }
            lemma_distinct_below(s, top);
        }
    }
}

/// A sequence that holds every number below `n` has at least `n` entries.
pub proof fn lemma_all_below(s: Seq<usize>, n: usize)
    requires
        forall|v: usize| v < n ==> s.contains(v),
    ensures
        s.len() >= n,
    decreases n,
{
    if n > 0 {
        let top = (n - 1) as usize;
        assert(s.contains(top));
        let i = s.index_of(top);
        let t = s.remove(i);
        assert forall|v: usize| v < n - 1 implies t.contains(v) by {
            assert(s.contains(v));
            let j = s.index_of(v);
            assert(s[j] == v && s[i] == top);
            if j < i {
                assert(t[j] == v);
            } else {
                assert(t[j - 1] == v);
            }
        }
        lemma_all_below(t, top);
    }
}

/// `x` is the vertex of some entry of the work stack.
spec fn on_stack(stack: Seq<(usize, usize)>, x: usize) -> bool {
    exists|i: int| 0 <= i < stack.len() && (#[trigger] stack[i]).0 == x
}

/// The edge from `u` to `v` is accounted for: it is a loop at `u`, or `v` was
/// finished earlier, or `v` leads back to `u`.
spec fn edge_ok(g: Seq<Seq<usize>>, done: Seq<usize>, u: usize, v: usize) -> bool {
    v == u || done.contains(v) || reaches(g, v, u)
}

/// How many successors of the vertex of entry `i` are accounted for: all that
/// were looked at, but for the one whose own entry lies above.
spec fn settled(stack: Seq<(usize, usize)>, i: int) -> int {
    if i + 1 < stack.len() {
        stack[i].1 - 1
    } else {
        stack[i].1 as int
    }
}

/// Entry `i` of the stack is in order: it names a vertex and a number of
/// its successors, the entry above it is for the successor looked at last,
/// and the successors looked at before are accounted for.
spec fn frame_ok(g: Seq<Seq<usize>>, stack: Seq<(usize, usize)>, out: Seq<usize>, i: int) -> bool {
    let u = stack[i].0;
    let k = stack[i].1;
    &&& u < g.len()
    &&& k <= g[u as int].len()
    &&& (i + 1 < stack.len() ==> k >= 1 && g[u as int][k - 1] == stack[i + 1].0)
    &&& forall|j: int| 0 <= j < settled(stack, i) ==> edge_ok(g, out, u, #[trigger] g[u as int][j])
}

/// Every edge from the vertex that finished as number `i` is accounted for
/// by the vertices that finished before it.
spec fn finished_ok(g: Seq<Seq<usize>>, out: Seq<usize>, i: int) -> bool {
    let u = out[i];
    &&& u < g.len()
    &&& forall|j: int|
        0 <= j < g[u as int].len() ==> edge_ok(g, out.take(i), u, #[trigger] g[u as int][j])
}

/// What holds between two steps of the traversal: `stack` is a path of
/// vertices under way, `out` the finished ones in the order they finished.
spec fn dfs_inv(
    g: Seq<Seq<usize>>,
    visited: Seq<bool>,
    stack: Seq<(usize, usize)>,
    out: Seq<usize>,
) -> bool {
    &&& closed_graph(g)
    &&& g.len() <= usize::MAX
    &&& visited.len() == g.len()
    &&& forall|i: int| 0 <= i < stack.len() ==> (#[trigger] stack[i]).0 < g.len()
    &&& forall|i: int| 0 <= i < out.len() ==> (#[trigger] out[i]) < g.len()
    &&& forall|i: int| 0 <= i < stack.len() ==> #[trigger] frame_ok(g, stack, out, i)
    &&& forall|i: int| 0 <= i < stack.len() ==> visited[(#[trigger] stack[i]).0 as int]
    &&& forall|i: int, j: int|
        0 <= i < j < stack.len() ==> (#[trigger] stack[i]).0 != (#[trigger] stack[j]).0
    &&& forall|i: int| 0 <= i < out.len() ==> #[trigger] finished_ok(g, out, i)
    &&& forall|i: int| 0 <= i < out.len() ==> visited[(#[trigger] out[i]) as int]
    &&& out.no_duplicates()
    &&& forall|i: int, j: int|
        0 <= i < stack.len() && 0 <= j < out.len() ==> (#[trigger] stack[i]).0 != #[trigger] out[j]
    &&& forall|x: int|
        0 <= x < visited.len() && #[trigger] visited[x] ==> on_stack(stack, x as usize)
            || out.contains(x as usize)
}

/// What is left to look at on top of the stack.
spec fn remaining(g: Seq<Seq<usize>>, stack: Seq<(usize, usize)>) -> int {
    if stack.len() > 0 && stack.last().0 < g.len() {
        g[stack.last().0 as int].len() - stack.last().1
    } else {
        0
    }
}

/// Neither the stack nor the finished vertices outnumber the vertices.
proof fn lemma_sizes(
    g: Seq<Seq<usize>>,
    visited: Seq<bool>,
    stack: Seq<(usize, usize)>,
    out: Seq<usize>,
)
    requires
        dfs_inv(g, visited, stack, out),
        g.len() <= usize::MAX,
    ensures
        stack.len() <= g.len(),
        out.len() <= g.len(),
        remaining(g, stack) >= 0,
{
    let nodes = Seq::new(stack.len(), |i: int| stack[i].0);
    assert forall|i: int| 0 <= i < nodes.len() implies (#[trigger] nodes[i]) < g.len() by {
        assert(frame_ok(g, stack, out, i));
    }
    assert forall|i: int| 0 <= i < out.len() implies (#[trigger] out[i]) < g.len() by {
        assert(finished_ok(g, out, i));
    }
    lemma_distinct_below(nodes, g.len() as usize);
    lemma_distinct_below(out, g.len() as usize);
    if stack.len() > 0 {
        assert(frame_ok(g, stack, out, stack.len() - 1));
    }
}

/// An edge that is accounted for stays so when another vertex finishes.
proof fn lemma_edge_ok_grows(g: Seq<Seq<usize>>, done: Seq<usize>, x: usize, u: usize, v: usize)
    requires
        edge_ok(g, done, u, v),
    ensures
        edge_ok(g, done.push(x), u, v),
{
    if done.contains(v) {
        let i = done.index_of(v);
        assert(done.push(x)[i] == v);
    }
}

/// Starting from a root that was not seen keeps what holds between steps.
proof fn lemma_start(g: Seq<Seq<usize>>, visited: Seq<bool>, out: Seq<usize>, root: usize)
    requires
        dfs_inv(g, visited, Seq::empty(), out),
        root < g.len(),
        !visited[root as int],
    ensures
        dfs_inv(g, visited.update(root as int, true), seq![(root, 0usize)], out),
{
    let v2 = visited.update(root as int, true);
    let s2 = seq![(root, 0usize)];
    assert(frame_ok(g, s2, out, 0));
    assert forall|j: int| 0 <= j < out.len() implies s2[0].0 != #[trigger] out[j] by {
        assert(visited[out[j] as int]);
    }
    assert forall|x: int| 0 <= x < v2.len() && #[trigger] v2[x] implies on_stack(s2, x as usize)
        || out.contains(x as usize) by {
        if x == root {
            assert(s2[0].0 == x as usize);
        } else {
            assert(visited[x]);
            assert(!on_stack(Seq::<(usize, usize)>::empty(), x as usize));
        }
    }
}

/// Finishing the vertex on top of the stack keeps what holds between steps.
proof fn lemma_finish(
    g: Seq<Seq<usize>>,
    visited: Seq<bool>,
    stack: Seq<(usize, usize)>,
    out: Seq<usize>,
)
    requires
        dfs_inv(g, visited, stack, out),
        stack.len() > 0,
        stack.last().1 == g[stack.last().0 as int].len(),
    ensures
        dfs_inv(g, visited, stack.drop_last(), out.push(stack.last().0)),
{
    let last = stack.len() - 1;
    let u = stack.last().0;
    let s2 = stack.drop_last();
    let o2 = out.push(u);
    assert(o2[out.len() as int] == u);
    assert forall|i: int| 0 <= i < s2.len() implies #[trigger] frame_ok(g, s2, o2, i) by {
        assert(frame_ok(g, stack, out, i));
        let w = stack[i].0;
        assert forall|j: int| 0 <= j < settled(s2, i) implies edge_ok(
            g,
            o2,
            w,
            #[trigger] g[w as int][j],
        ) by {
            if j < settled(stack, i) {
                lemma_edge_ok_grows(g, out, u, w, g[w as int][j]);
            } else {
                assert(g[w as int][j] == u);
            }
        }
    }
    assert forall|i: int| 0 <= i < o2.len() implies #[trigger] finished_ok(g, o2, i) by {
        if i < out.len() {
            assert(finished_ok(g, out, i));
            assert(o2.take(i) =~= out.take(i));
        } else {
            assert(o2.take(i) =~= out);
            assert(frame_ok(g, stack, out, last));
        }
    }
    assert(o2.no_duplicates()) by {
        assert forall|a: int, b: int| 0 <= a < o2.len() && 0 <= b < o2.len() && a != b implies o2[a]
            != o2[b] by {
            assert(stack[last].0 == u);
        }
    }
    assert forall|x: int| 0 <= x < visited.len() && #[trigger] visited[x] implies on_stack(
        s2,
        x as usize,
    ) || o2.contains(x as usize) by {
        if out.contains(x as usize) {
            let i = out.index_of(x as usize);
            assert(o2[i] == x as usize);
        } else {
            assert(on_stack(stack, x as usize));
            let i = choose|i: int| 0 <= i < stack.len() && (#[trigger] stack[i]).0 == x as usize;
            if i < last {
                assert(s2[i].0 == x as usize);
            }
        }
    }
    assert forall|i: int, j: int| 0 <= i < s2.len() && 0 <= j < o2.len()
        implies (#[trigger] s2[i]).0
        != #[trigger] o2[j] by {
        assert(s2[i] == stack[i]);
        assert(stack[last].0 == u);
    }
}

/// The stack from any entry upward is a path to the vertex on top.
proof fn lemma_stack_is_path(
    g: Seq<Seq<usize>>,
    visited: Seq<bool>,
    stack: Seq<(usize, usize)>,
    out: Seq<usize>,
    from: int,
)
    requires
        dfs_inv(g, visited, stack, out),
        0 <= from < stack.len(),
    ensures
        reaches(g, stack[from].0, stack.last().0),
{
    let p = Seq::new((stack.len() - from) as nat, |t: int| stack[from + t].0);
    assert(frame_ok(g, stack, out, from));
    assert forall|t: int| 0 <= t < p.len() - 1 implies has_edge(g, #[trigger] p[t], p[t + 1]) by {
        assert(frame_ok(g, stack, out, from + t));
        let w = stack[from + t].0;
        let k = stack[from + t].1;
        assert(g[w as int][k - 1] == stack[from + t + 1].0);
    }
    assert(is_path(g, p));
    assert(p[0] == stack[from].0 && p.last() == stack.last().0);
}

/// Passing over a successor that was seen keeps what holds between steps.
proof fn lemma_skip(
    g: Seq<Seq<usize>>,
    visited: Seq<bool>,
    stack: Seq<(usize, usize)>,
    out: Seq<usize>,
)
    requires
        dfs_inv(g, visited, stack, out),
        stack.len() > 0,
        stack.last().1 < g[stack.last().0 as int].len(),
        stack.last().1 < usize::MAX,
        visited[g[stack.last().0 as int][stack.last().1 as int] as int],
    ensures
        dfs_inv(
            g,
            visited,
            stack.drop_last().push((stack.last().0, (stack.last().1 + 1) as usize)),
            out,
        ),
{
    let last = stack.len() - 1;
    let u = stack.last().0;
    let k = stack.last().1;
    let v = g[u as int][k as int];
    let s2 = stack.drop_last().push((u, (k + 1) as usize));
    assert(frame_ok(g, stack, out, last));
    assert forall|i: int| 0 <= i < s2.len() implies (#[trigger] s2[i]).0 == stack[i].0 by {}
    assert forall|i: int| 0 <= i < s2.len() implies #[trigger] frame_ok(g, s2, out, i) by {
        assert(frame_ok(g, stack, out, i));
        if i < last {
            assert(s2[i] == stack[i]);
            assert(s2[i + 1].0 == stack[i + 1].0);
        } else {
            assert forall|j: int| 0 <= j < settled(s2, i) implies edge_ok(
                g,
                out,
                u,
                #[trigger] g[u as int][j],
            ) by {
                if j == k {
                    if !out.contains(v) {
                        assert(on_stack(stack, v));
                        let a = choose|a: int| 0 <= a < stack.len() && (#[trigger] stack[a]).0 == v;
                        lemma_stack_is_path(g, visited, stack, out, a);
                    }
                }
            }
        }
    }
    assert forall|x: int| 0 <= x < visited.len() && #[trigger] visited[x] implies on_stack(
        s2,
        x as usize,
    ) || out.contains(x as usize) by {
        if !out.contains(x as usize) {
            assert(on_stack(stack, x as usize));
            let i = choose|i: int| 0 <= i < stack.len() && (#[trigger] stack[i]).0 == x as usize;
            assert(s2[i].0 == x as usize);
        }
    }
}

/// Going on to a successor that was not seen keeps what holds between
/// steps.
proof fn lemma_descend(
    g: Seq<Seq<usize>>,
    visited: Seq<bool>,
    stack: Seq<(usize, usize)>,
    out: Seq<usize>,
)
    requires
        dfs_inv(g, visited, stack, out),
        stack.len() > 0,
        stack.last().1 < g[stack.last().0 as int].len(),
        stack.last().1 < usize::MAX,
        !visited[g[stack.last().0 as int][stack.last().1 as int] as int],
    ensures
        dfs_inv(
            g,
            visited.update(g[stack.last().0 as int][stack.last().1 as int] as int, true),
            stack.drop_last().push((stack.last().0, (stack.last().1 + 1) as usize)).push(
                (g[stack.last().0 as int][stack.last().1 as int], 0usize),
            ),
            out,
        ),
{
    let last = stack.len() - 1;
    let u = stack.last().0;
    let k = stack.last().1;
    let v = g[u as int][k as int];
    let v2 = visited.update(v as int, true);
    let s2 = stack.drop_last().push((u, (k + 1) as usize)).push((v, 0usize));
    assert(frame_ok(g, stack, out, last));
    assert(v < g.len());
    assert forall|i: int| 0 <= i < stack.len() implies (#[trigger] s2[i]).0 == stack[i].0 by {}
    assert(s2[last + 1] == (v, 0usize));
    assert forall|i: int| 0 <= i < s2.len() implies #[trigger] frame_ok(g, s2, out, i) by {
        if i < last {
            assert(frame_ok(g, stack, out, i));
            assert(s2[i] == stack[i]);
            assert(s2[i + 1].0 == stack[i + 1].0);
        } else if i == last {
            assert(s2[i] == (u, (k + 1) as usize));
        } else {
        }
    }
    assert forall|i: int, j: int| 0 <= i < j < s2.len() implies (#[trigger] s2[i]).0 != (
    #[trigger] s2[j]).0 by {
        if j == last + 1 {
            assert(visited[stack[i].0 as int]);
        } else {
            assert(stack[i].0 != stack[j].0);
        }
    }
    assert forall|i: int, j: int| 0 <= i < s2.len() && 0 <= j < out.len()
        implies (#[trigger] s2[i]).0
        != #[trigger] out[j] by {
        if i == last + 1 {
            assert(visited[out[j] as int]);
        } else {
            assert(stack[i].0 != out[j]);
        }
    }
    assert forall|i: int| 0 <= i < s2.len() implies v2[(#[trigger] s2[i]).0 as int] by {
        if i <= last {
            assert(visited[stack[i].0 as int]);
        }
    }
    assert forall|x: int| 0 <= x < v2.len() && #[trigger] v2[x] implies on_stack(s2, x as usize)
        || out.contains(x as usize) by {
        if x == v {
            assert(s2[last + 1].0 == x as usize);
        } else if !out.contains(x as usize) {
            assert(visited[x]);
            assert(on_stack(stack, x as usize));
            let i = choose|i: int| 0 <= i < stack.len() && (#[trigger] stack[i]).0 == x as usize;
            assert(s2[i].0 == x as usize);
        }
    }
}

/// What holds of a traversal between two steps.
spec fn traversal_inv(g: Seq<Seq<usize>>, t: Traversal) -> bool {
    &&& bounded_graph(g)
    &&& dfs_inv(g, t.seen, t.stack, t.done)
    &&& 0 <= t.root <= g.len()
    &&& forall|x: int| 0 <= x < t.root ==> t.seen[x]
    &&& t.stack.len() > 0 ==> t.root < g.len() && t.seen[t.root]
}

/// A step keeps what holds of a traversal.
proof fn lemma_step(g: Seq<Seq<usize>>, t: Traversal)
    requires
        traversal_inv(g, t),
    ensures
        traversal_inv(g, step(g, t)),
{
    if t.stack.len() > 0 {
        let last = t.stack.len() - 1;
        assert(frame_ok(g, t.stack, t.done, last));
        let u = t.stack.last().0;
        let k = t.stack.last().1;
        if k >= g[u as int].len() {
            lemma_finish(g, t.seen, t.stack, t.done);
        } else {
            let v = g[u as int][k as int];
            if t.seen[v as int] {
                lemma_skip(g, t.seen, t.stack, t.done);
            } else {
                lemma_descend(g, t.seen, t.stack, t.done);
            }
        }
    } else if t.root < g.len() {
        if !t.seen[t.root] {
            assert(t.stack =~= Seq::empty());
            lemma_start(g, t.seen, t.done, t.root as usize);
        }
    }
}

/// What holds of a traversal holds after any number of steps.
proof fn lemma_after(g: Seq<Seq<usize>>, steps: nat)
    requires
        closed_graph(g),
        bounded_graph(g),
    ensures
        traversal_inv(g, after(g, steps)),
    decreases steps,
{
    if steps == 0 {
        let t = start(g);
        assert(!on_stack(t.stack, 0usize));
        assert(dfs_inv(g, t.seen, t.stack, t.done));
    } else {
        lemma_after(g, (steps - 1) as nat);
        lemma_step(g, after(g, (steps - 1) as nat));
    }
}

/// A finished traversal stays as it is.
proof fn lemma_finished_stays(g: Seq<Seq<usize>>, steps: nat, more: nat)
    requires
        finished(g, after(g, steps)),
    ensures
        after(g, steps + more) == after(g, steps),
    decreases more,
{
    if more > 0 {
        lemma_finished_stays(g, steps, (more - 1) as nat);
    }
}

/// A graph has one depth-first order.
pub proof fn lemma_depth_first_order_is_unique(g: Seq<Seq<usize>>, a: Seq<usize>, b: Seq<usize>)
    requires
        is_depth_first_order(g, a),
        is_depth_first_order(g, b),
    ensures
        a == b,
{
    let m = choose|steps: nat| finished(g, after(g, steps)) && a == after(g, steps).done.reverse();
    let n = choose|steps: nat| finished(g, after(g, steps)) && b == after(g, steps).done.reverse();
    if m <= n {
        lemma_finished_stays(g, m, (n - m) as nat);
    } else {
        lemma_finished_stays(g, n, (m - n) as nat);
    }
}

/// The depth-first order lists every vertex once, and has every edge
/// between two different vertices point forward unless its target leads back
/// to its source.
pub proof fn lemma_depth_first_order_is_sorted(g: Seq<Seq<usize>>, order: Seq<usize>)
    requires
        closed_graph(g),
        bounded_graph(g),
        is_depth_first_order(g, order),
    ensures
        is_sorted_but_for_cycles(g, order),
{
    let steps = choose|steps: nat|
        finished(g, after(g, steps)) && order == after(g, steps).done.reverse();
    let t = after(g, steps);
    lemma_after(g, steps);
    let out = t.done;
    let n = g.len();
    assert(t.stack =~= Seq::empty());
    assert forall|v: usize| v < n implies out.contains(v) by {
        assert(t.seen[v as int]);
        assert(!on_stack(Seq::<(usize, usize)>::empty(), v));
    }
    lemma_distinct_below(out, n as usize);
    lemma_all_below(out, n as usize);
    assert(out.len() == n);
    assert forall|i: int| 0 <= i < order.len() implies order[i] == out[n - 1 - i] by {}
    assert forall|v: usize| v < n implies order.contains(v) by {
        assert(out.contains(v));
        let a = out.index_of(v);
        assert(order[n - 1 - a] == out[a]);
    }
    assert forall|i: int, j: int|
        0 <= i < order.len() && 0 <= j < order.len() && i != j && has_edge(
            g,
            #[trigger] order[i],
            #[trigger] order[j],
        ) implies i < j || reaches(g, order[j], order[i]) by {
        let a = n - 1 - i;
        let b = n - 1 - j;
        let u = order[i];
        let v = order[j];
        assert(finished_ok(g, out, a));
        let k = g[u as int].index_of(v);
        assert(edge_ok(g, out.take(a), u, g[u as int][k]));
        if out.take(a).contains(v) {
            let c = out.take(a).index_of(v);
            assert(out[c] == v && out[b] == v);
        }
    }
}

/// Orders the vertices of the graph depth first: the traversal starts at
/// each vertex not yet seen, lowest first, follows the successors in the
/// order listed, and finishes a vertex when all of them were dealt with; the
/// order is the reverse of that in which the vertices finished. Such an order
/// puts a vertex before each of its successors wherever no cycle stands in
/// the way. The traversal keeps its own stack, so a long path costs memory
/// but no depth of calls.
pub fn depth_first_order(succ: &Vec<Vec<usize>>) -> (order: Vec<usize>)
    requires
        closed_graph(graph_of(succ)),
    ensures
        is_depth_first_order(graph_of(succ), order@),
        is_sorted_but_for_cycles(graph_of(succ), order@),
{
    let n: usize = succ.len();
    let ghost g = graph_of(succ);
    assert(bounded_graph(g)) by {
        assert forall|u: int| 0 <= u < g.len() implies (#[trigger] g[u]).len() <= usize::MAX by {
            assert(g[u].len() == succ@[u].len());
        }
    }
    let mut visited: Vec<bool> = Vec::new();
    while visited.len() < n
        invariant
            visited.len() <= n,
            forall|x: int| 0 <= x < visited.len() ==> !visited@[x],
        decreases n - visited.len(),
    {
        visited.push(false);
    }
    let mut out: Vec<usize> = Vec::new();
    let mut stack: Vec<(usize, usize)> = Vec::new();
    let mut root: usize = 0;
    let ghost mut steps: nat = 0;
    assert(visited@ =~= start(g).seen);
    while root < n
        invariant
            g == graph_of(succ),
            closed_graph(g),
            bounded_graph(g),
            n == succ.len(),
            root <= n,
            stack@.len() == 0,
            after(g, steps) == (Traversal {
                root: root as int,
                seen: visited@,
                stack: stack@,
                done: out@,
            }),
        decreases n - root,
    {
        proof {
            lemma_after(g, steps);
        }
        if !visited[root] {
            visited.set(root, true);
            stack.push((root, 0));
            proof {
                assert(stack@ =~= seq![(root, 0usize)]);
                steps = steps + 1;
                lemma_after(g, steps);
            }
            while stack.len() > 0
                invariant
                    g == graph_of(succ),
                    closed_graph(g),
                    bounded_graph(g),
                    n == succ.len(),
                    root < n,
                    visited@.len() == n,
                    visited@[root as int],
                    traversal_inv(g, after(g, steps)),
                    after(g, steps) == (Traversal {
                        root: root as int,
                        seen: visited@,
                        stack: stack@,
                        done: out@,
                    }),
                decreases n - out@.len(), n - stack@.len(), remaining(g, stack@),
            {
                proof {
                    lemma_sizes(g, visited@, stack@, out@);
                    assert(frame_ok(g, stack@, out@, stack@.len() - 1));
                }
                let ghost before = after(g, steps);
                let top = stack.pop().unwrap();
                let u: usize = top.0;
                let k: usize = top.1;
                if k == succ[u].len() {
                    out.push(u);
                } else {
                    let v: usize = succ[u][k];
                    stack.push((u, k + 1));
                    if !visited[v] {
                        visited.set(v, true);
                        stack.push((v, 0));
                    }
                }
                proof {
                    steps = steps + 1;
                    lemma_after(g, steps);
                    assert(after(g, steps) == step(g, before));
                    assert(step(g, before) =~= (Traversal {
                        root: root as int,
                        seen: visited@,
                        stack: stack@,
                        done: out@,
                    }));
                    lemma_sizes(g, visited@, stack@, out@);
                }
            }
        }
        root += 1;
        proof {
            steps = steps + 1;
        }
    }
    let mut order: Vec<usize> = Vec::new();
    let mut left: usize = out.len();
    while left > 0
        invariant
            left <= out.len(),
            order@.len() == out@.len() - left,
            forall|i: int| 0 <= i < order@.len() ==> order@[i] == out@[out@.len() - 1 - i],
        decreases left,
    {
        left -= 1;
        order.push(out[left]);
    }
    proof {
        assert(stack@ =~= Seq::empty());
        assert(finished(g, after(g, steps)));
        assert(order@ =~= out@.reverse());
        lemma_depth_first_order_is_sorted(g, order@);
    }
    order
}

} // verus!
