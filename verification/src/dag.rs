//! The dependency graph between systems, derived from the component types they read and write.
use crate::names::{lemma_name_order, name_before, name_less};
use crate::scheduler::{mentions, Accesses, SystemParametersVec};
use vstd::prelude::*;

verus! {

/// One step in building a dependency graph: adding a node, or an edge between two nodes.
pub enum DagOp {
    Node(usize),
    Edge(usize, usize),
}

/// The nodes and the edges of a graph.
pub type Graph = (Seq<usize>, Seq<(usize, usize)>);

/// `nodes` with `node` added at the end, unless it is there already.
pub open spec fn add_node_to(nodes: Seq<usize>, node: usize) -> Seq<usize> {
    if nodes.contains(node) {
        nodes
    } else {
        nodes.push(node)
    }
}

/// `edges` with `edge` added at the end, unless it is there already.
pub open spec fn add_edge_to(edges: Seq<(usize, usize)>, edge: (usize, usize)) -> Seq<
    (usize, usize),
> {
    if edges.contains(edge) {
        edges
    } else {
        edges.push(edge)
    }
}

/// The graph after one step.
pub open spec fn apply_op(g: Graph, op: DagOp) -> Graph {
    match op {
        DagOp::Node(n) => (add_node_to(g.0, n), g.1),
        DagOp::Edge(a, b) => (g.0, add_edge_to(g.1, (a, b))),
    }
}

/// The graph after the steps `ops`, in order.
pub open spec fn apply_ops(g: Graph, ops: Seq<DagOp>) -> Graph
    decreases ops.len(),
{
    if ops.len() == 0 {
        g
    } else {
        apply_op(apply_ops(g, ops.drop_last()), ops.last())
    }
}

/// `rest`, preceded by `op` when `cond` holds.
pub open spec fn prepend_if(cond: bool, op: DagOp, rest: Seq<DagOp>) -> Seq<DagOp> {
    if cond {
        seq![op] + rest
    } else {
        rest
    }
}

/// Each occurrence of `name` in `names`, recorded as `e`.
pub open spec fn occurrences(names: Seq<String>, name: Seq<char>, e: (usize, bool)) -> Seq<
    (usize, bool),
>
    decreases names.len(),
{
    if names.len() == 0 {
        seq![]
    } else {
        occurrences(names.drop_last(), name, e) + if names.last()@ == name {
            seq![e]
        } else {
            seq![]
        }
    }
}

/// The accesses of the first `n` systems to the component type `name`, each as the index of
/// the system and whether it writes: system by system, its reads and then its writes.
pub open spec fn accesses_of(params: Seq<Accesses>, name: Seq<char>, n: int) -> Seq<
    (usize, bool),
>
    decreases n,
{
    if n <= 0 {
        seq![]
    } else {
        accesses_of(params, name, n - 1) + occurrences(
            params[n - 1].0@,
            name,
            ((n - 1) as usize, false),
        ) + occurrences(params[n - 1].1@, name, ((n - 1) as usize, true))
    }
}

/// The systems of the writing accesses among `accesses`, in order.
pub open spec fn writers(accesses: Seq<(usize, bool)>) -> Seq<usize>
    decreases accesses.len(),
{
    if accesses.len() == 0 {
        seq![]
    } else {
        writers(accesses.drop_last()) + if accesses.last().1 {
            seq![accesses.last().0]
        } else {
            seq![]
        }
    }
}

/// The writers are the systems of the writing accesses, in the order of the accesses.
pub proof fn lemma_writers_are_writes(accesses: Seq<(usize, bool)>)
    ensures
        writers(accesses) == accesses.filter(|x: (usize, bool)| x.1).map_values(
            |x: (usize, bool)| x.0,
        ),
    decreases accesses.len(),
{
    reveal(Seq::filter);
    let p = |x: (usize, bool)| x.1;
    if accesses.len() == 0 {
        assert(accesses.filter(p).map_values(|x: (usize, bool)| x.0) =~= Seq::<usize>::empty());
    } else {
        lemma_writers_are_writes(accesses.drop_last());
        let f = accesses.drop_last().filter(p);
        if accesses.last().1 {
            assert(accesses.filter(p) == f.push(accesses.last()));
            assert(f.push(accesses.last()).map_values(|x: (usize, bool)| x.0) =~= f.map_values(
                |x: (usize, bool)| x.0,
            ).push(accesses.last().0));
        } else {
            assert(accesses.filter(p) == f);
        }
    }
}

/// The steps taken for the accesses to one component type, from access `k` on, when the
/// writer at position `t` of `w` is the next one to come. Each system gets a node; a system
/// between two writers depends on the one before it and is depended on by the one after it;
/// a writer directly followed by the next writer is depended on by it; after the last writer,
/// every system depends on it.
pub open spec fn walk(e: Seq<(usize, bool)>, w: Seq<usize>, k: int, t: int) -> Seq<DagOp>
    decreases e.len() - k,
{
    if k < 0 || k >= e.len() || t < 0 {
        seq![]
    } else {
        let s = e[k].0;
        if t < w.len() {
            if s == w[t] {
                seq![DagOp::Node(s)] + prepend_if(
                    t + 1 < w.len() && k + 1 < e.len() && e[k + 1].0 == w[t + 1],
                    DagOp::Edge(s, w[t + 1]),
                    walk(e, w, k + 1, t + 1),
                )
            } else {
                seq![DagOp::Node(s)] + prepend_if(
                    t > 0,
                    DagOp::Edge(w[t - 1], s),
                    seq![DagOp::Edge(s, w[t])] + walk(e, w, k + 1, t),
                )
            }
        } else {
            seq![DagOp::Node(s)] + prepend_if(
                t > 0,
                DagOp::Edge(w[t - 1], s),
                walk(e, w, k + 1, t),
            )
        }
    }
}

/// The steps taken for one component type with the accesses `accesses`.
pub open spec fn walk_of(accesses: Seq<(usize, bool)>) -> Seq<DagOp> {
    walk(accesses, writers(accesses), 0, 0)
}

/// The steps taken for the component types `names`, in order.
pub open spec fn ops_for_names(params: Seq<Accesses>, names: Seq<Seq<char>>) -> Seq<DagOp>
    decreases names.len(),
{
    if names.len() == 0 {
        seq![]
    } else {
        ops_for_names(params, names.drop_last()) + walk_of(
            accesses_of(params, names.last(), params.len() as int),
        )
    }
}

/// Names in strictly increasing order.
pub open spec fn names_sorted(names: Seq<Seq<char>>) -> bool {
    forall|i: int, j: int| 0 <= i < j < names.len() ==> name_less(names[i], names[j])
}

/// `names` holds, in order, every component type that one of the systems accesses.
pub open spec fn is_component_name_list(names: Seq<Seq<char>>, params: Seq<Accesses>) -> bool {
    &&& names_sorted(names)
    &&& forall|n: Seq<char>|
        names.contains(n) <==> #[trigger] accesses_of(params, n, params.len() as int).len() > 0
}

/// The component types that the systems access, in the order of their names.
pub open spec fn component_names(params: Seq<Accesses>) -> Seq<Seq<char>> {
    choose|names: Seq<Seq<char>>| is_component_name_list(names, params)
}

/// Applying two runs of steps one after the other is applying their concatenation.
pub proof fn lemma_apply_concat(g: Graph, a: Seq<DagOp>, b: Seq<DagOp>)
    ensures
        apply_ops(g, a + b) == apply_ops(apply_ops(g, a), b),
    decreases b.len(),
{
    if b.len() == 0 {
        assert(a + b == a);
    } else {
        lemma_apply_concat(g, a, b.drop_last());
        assert((a + b).drop_last() == a + b.drop_last());
        assert((a + b).last() == b.last());
    }
}

/// Applying a run of steps that starts with `op` applies `op` first.
pub proof fn lemma_apply_first(g: Graph, op: DagOp, rest: Seq<DagOp>)
    ensures
        apply_ops(g, seq![op] + rest) == apply_ops(apply_op(g, op), rest),
{
    lemma_apply_concat(g, seq![op], rest);
    assert(seq![op].drop_last() =~= Seq::<DagOp>::empty());
    assert(apply_ops(g, Seq::<DagOp>::empty()) == g);
    assert(seq![op].last() == op);
    assert(apply_ops(g, seq![op]) == apply_op(apply_ops(g, seq![op].drop_last()), op));
}

/// Two strictly sorted lists of names with the same elements are equal.
proof fn lemma_sorted_names_unique(a: Seq<Seq<char>>, b: Seq<Seq<char>>)
    requires
        names_sorted(a),
        names_sorted(b),
        forall|n: Seq<char>| a.contains(n) <==> b.contains(n),
    ensures
        a == b,
    decreases a.len(),
{
    if a.len() == 0 {
        if b.len() > 0 {
            assert(b.contains(b[0]));
        }
    } else if b.len() == 0 {
        assert(a.contains(a[0]));
    } else {
        assert(a.contains(a[0]));
        assert(b.contains(b[0]));
        let j = choose|j: int| 0 <= j < b.len() && b[j] == a[0];
        let i = choose|i: int| 0 <= i < a.len() && a[i] == b[0];
        lemma_name_order(a[0], b[0], a[0]);
        if a[0] != b[0] {
            assert(j > 0 && i > 0);
            assert(name_less(b[0], a[0]));
            assert(name_less(a[0], b[0]));
        }
        let ra = a.drop_first();
        let rb = b.drop_first();
        assert forall|n: Seq<char>| ra.contains(n) <==> rb.contains(n) by {
            if ra.contains(n) {
                let x = choose|x: int| 0 <= x < ra.len() && ra[x] == n;
                lemma_name_order(a[0], n, a[0]);
                assert(name_less(a[0], a[x + 1]));
                assert(b.contains(n));
                let y = choose|y: int| 0 <= y < b.len() && b[y] == n;
                assert(y != 0);
                assert(rb[y - 1] == n);
            }
            if rb.contains(n) {
                let x = choose|x: int| 0 <= x < rb.len() && rb[x] == n;
                lemma_name_order(b[0], n, b[0]);
                assert(name_less(b[0], b[x + 1]));
                assert(a.contains(n));
                let y = choose|y: int| 0 <= y < a.len() && a[y] == n;
                assert(y != 0);
                assert(ra[y - 1] == n);
            }
        }
        lemma_sorted_names_unique(ra, rb);
        assert(a == seq![a[0]] + ra);
        assert(b == seq![b[0]] + rb);
    }
}

/// Each step adds a system below `n`, or an edge from a system to one added no earlier.
pub open spec fn op_points_forward(op: DagOp, n: int) -> bool {
    match op {
        DagOp::Node(s) => s < n,
        DagOp::Edge(a, b) => a <= b && b < n,
    }
}

/// Every node is a system below `n`, and every edge goes from a system to one added no
/// earlier.
pub open spec fn graph_points_forward(g: Graph, n: int) -> bool {
    &&& forall|i: int| 0 <= i < g.0.len() ==> #[trigger] g.0[i] < n
    &&& forall|i: int| 0 <= i < g.1.len() ==> (#[trigger] g.1[i]).0 <= g.1[i].1 && g.1[i].1 < n
}

/// The accesses of systems below `n`, in the order of the systems.
pub open spec fn accesses_in_order(e: Seq<(usize, bool)>, n: int) -> bool {
    &&& forall|i: int, j: int| 0 <= i <= j < e.len() ==> e[i].0 <= e[j].0
    &&& forall|i: int| 0 <= i < e.len() ==> (#[trigger] e[i]).0 < n
}

/// Every occurrence is recorded as the same access.
proof fn lemma_occurrences_are(names: Seq<String>, name: Seq<char>, e: (usize, bool))
    ensures
        forall|i: int|
            0 <= i < occurrences(names, name, e).len() ==> #[trigger] occurrences(names, name, e)[i]
                == e,
    decreases names.len(),
{
    let o = occurrences(names, name, e);
    if names.len() > 0 {
        let f = occurrences(names.drop_last(), name, e);
        lemma_occurrences_are(names.drop_last(), name, e);
        assert forall|i: int| 0 <= i < o.len() implies #[trigger] o[i] == e by {
            if i < f.len() {
                assert(o[i] == f[i]);
            }
        }
    } else {
        assert(o.len() == 0);
    }
}

/// The accesses of the first `n` systems to a component type come in the order of the
/// systems.
proof fn lemma_accesses_in_order(params: Seq<Accesses>, name: Seq<char>, n: int)
    requires
        0 <= n <= params.len(),
        params.len() <= usize::MAX,
    ensures
        accesses_in_order(accesses_of(params, name, n), n),
    decreases n,
{
    if n > 0 {
        lemma_accesses_in_order(params, name, n - 1);
        let front = accesses_of(params, name, n - 1);
        let reads = occurrences(params[n - 1].0@, name, ((n - 1) as usize, false));
        let writes = occurrences(params[n - 1].1@, name, ((n - 1) as usize, true));
        lemma_occurrences_are(params[n - 1].0@, name, ((n - 1) as usize, false));
        lemma_occurrences_are(params[n - 1].1@, name, ((n - 1) as usize, true));
        let all = accesses_of(params, name, n);
        assert(all == front + reads + writes);
        assert forall|i: int| 0 <= i < all.len() implies (#[trigger] all[i]).0 < n && (i
            >= front.len() ==> all[i].0 == n - 1) by {
            if i < front.len() {
                assert(all[i] == front[i]);
            } else if i < front.len() + reads.len() {
                assert(all[i] == reads[i - front.len()]);
            } else {
                assert(all[i] == writes[i - front.len() - reads.len()]);
            }
        }
        assert forall|i: int, j: int| 0 <= i <= j < all.len() implies all[i].0 <= all[j].0 by {
            if j < front.len() {
                assert(all[i] == front[i]);
                assert(all[j] == front[j]);
            } else if i < front.len() {
                assert(all[i] == front[i]);
            }
        }
    }
}

/// The writers of the accesses before position `k` are the first writers of all of them.
proof fn lemma_writers_prefix(e: Seq<(usize, bool)>, k: int)
    requires
        0 <= k <= e.len(),
    ensures
        writers(e.take(k)).len() <= writers(e).len(),
        writers(e.take(k)) == writers(e).take(writers(e.take(k)).len() as int),
        forall|i: int|
            0 <= i < writers(e).len() - writers(e.take(k)).len() ==> exists|p: int|
                k <= p < e.len() && e[p].0 == #[trigger] writers(e)[writers(e.take(k)).len() + i],
    decreases e.len() - k,
{
    if k == e.len() {
        assert(e.take(k) == e);
    } else {
        lemma_writers_prefix(e, k + 1);
        let front = writers(e.take(k));
        let next = writers(e.take(k + 1));
        assert(e.take(k + 1).drop_last() == e.take(k));
        assert(e.take(k + 1).last() == e[k]);
        assert(next == front + if e[k].1 {
            seq![e[k].0]
        } else {
            seq![]
        });
        let w = writers(e);
        assert(front == w.take(front.len() as int)) by {
            assert(next == w.take(next.len() as int));
            assert forall|i: int| 0 <= i < front.len() implies front[i] == w[i] by {
                assert(next[i] == front[i]);
            }
        }
        assert forall|i: int| 0 <= i < w.len() - front.len() implies exists|p: int|
            k <= p < e.len() && e[p].0 == #[trigger] w[front.len() + i] by {
            if e[k].1 && i == 0 {
                assert(next[front.len() as int] == e[k].0);
                assert(w[front.len() as int] == e[k].0);
            } else {
                let j = if e[k].1 {
                    i - 1
                } else {
                    i
                };
                assert(front.len() + i == next.len() + j);
                assert(exists|p: int| k + 1 <= p < e.len() && e[p].0 == #[trigger] w[next.len() + j]);
            }
        }
    }
}

/// Every step of the walk over accesses in order points forward.
proof fn lemma_walk_points_forward(e: Seq<(usize, bool)>, w: Seq<usize>, k: int, t: int, n: int)
    requires
        accesses_in_order(e, n),
        w == writers(e),
        0 <= k <= e.len(),
        0 <= t <= w.len(),
        writers(e.take(k)).len() <= t,
        t > 0 ==> exists|m: int| 0 <= m < k && e[m].0 == w[t - 1],
    ensures
        forall|i: int|
            0 <= i < walk(e, w, k, t).len() ==> op_points_forward(#[trigger] walk(e, w, k, t)[i], n),
    decreases e.len() - k,
{
    if k < e.len() {
        let s = e[k].0;
        lemma_writers_prefix(e, k);
        lemma_writers_prefix(e, k + 1);
        assert(e.take(k + 1).drop_last() == e.take(k));
        assert(e.take(k + 1).last() == e[k]);
        let front = writers(e.take(k));
        if t > 0 {
            let m = choose|m: int| 0 <= m < k && e[m].0 == w[t - 1];
            assert(w[t - 1] <= s);
        }
        if t < w.len() {
            assert(exists|p: int| k <= p < e.len() && e[p].0 == #[trigger] w[front.len() + (t - front.len())]);
            let p = choose|p: int| k <= p < e.len() && e[p].0 == w[t];
            assert(s <= w[t] && w[t] < n);
            if s == w[t] {
                lemma_walk_points_forward(e, w, k + 1, t + 1, n);
                if t + 1 < w.len() && k + 1 < e.len() && e[k + 1].0 == w[t + 1] {
                    assert(s <= e[k + 1].0);
                }
            } else {
                if e[k].1 && front.len() == t {
                    let next = writers(e.take(k + 1));
                    assert(next == front.push(s));
                    assert(next[t] == s);
                    assert(next == w.take(next.len() as int));
                    assert(w.take(next.len() as int)[t] == w[t]);
                    assert(w[t] == s);
                }
                lemma_walk_points_forward(e, w, k + 1, t, n);
            }
        } else {
            lemma_walk_points_forward(e, w, k + 1, t, n);
        }
        let ops = walk(e, w, k, t);
        assert forall|i: int| 0 <= i < ops.len() implies op_points_forward(#[trigger] ops[i], n) by {
            if t < w.len() {
                if s == w[t] {
                    let rest = walk(e, w, k + 1, t + 1);
                    let tail = prepend_if(
                        t + 1 < w.len() && k + 1 < e.len() && e[k + 1].0 == w[t + 1],
                        DagOp::Edge(s, w[t + 1]),
                        rest,
                    );
                    assert(ops == seq![DagOp::Node(s)] + tail);
                    if i > 0 {
                        assert(ops[i] == tail[i - 1]);
                        if t + 1 < w.len() && k + 1 < e.len() && e[k + 1].0 == w[t + 1] {
                            if i > 1 {
                                assert(tail[i - 1] == rest[i - 2]);
                            }
                        } else {
                            assert(tail[i - 1] == rest[i - 1]);
                        }
                    }
                } else {
                    let rest = walk(e, w, k + 1, t);
                    let mid = seq![DagOp::Edge(s, w[t])] + rest;
                    let tail = prepend_if(t > 0, DagOp::Edge(w[t - 1], s), mid);
                    assert(ops == seq![DagOp::Node(s)] + tail);
                    if i > 0 {
                        assert(ops[i] == tail[i - 1]);
                        let j = if t > 0 {
                            i - 2
                        } else {
                            i - 1
                        };
                        if j >= 0 {
                            assert(tail[i - 1] == mid[j]);
                            if j > 0 {
                                assert(mid[j] == rest[j - 1]);
                            }
                        }
                    }
                }
            } else {
                let rest = walk(e, w, k + 1, t);
                let tail = prepend_if(t > 0, DagOp::Edge(w[t - 1], s), rest);
                assert(ops == seq![DagOp::Node(s)] + tail);
                if i > 0 {
                    assert(ops[i] == tail[i - 1]);
                    if t > 0 {
                        if i > 1 {
                            assert(tail[i - 1] == rest[i - 2]);
                        }
                    } else {
                        assert(tail[i - 1] == rest[i - 1]);
                    }
                }
            }
        }
    }
}

/// Applying steps that all point forward keeps a graph whose nodes and edges point forward.
proof fn lemma_apply_points_forward(g: Graph, ops: Seq<DagOp>, n: int)
    requires
        graph_points_forward(g, n),
        forall|i: int| 0 <= i < ops.len() ==> op_points_forward(#[trigger] ops[i], n),
    ensures
        graph_points_forward(apply_ops(g, ops), n),
    decreases ops.len(),
{
    if ops.len() > 0 {
        let rest = ops.drop_last();
        assert forall|i: int| 0 <= i < rest.len() implies op_points_forward(#[trigger] rest[i], n) by {
            assert(rest[i] == ops[i]);
        }
        lemma_apply_points_forward(g, rest, n);
        let h = apply_ops(g, rest);
        assert(op_points_forward(ops[ops.len() - 1], n));
        let r = apply_op(h, ops.last());
        assert(graph_points_forward(r, n)) by {
            match ops.last() {
                DagOp::Node(x) => {
                    assert forall|i: int| 0 <= i < r.0.len() implies #[trigger] r.0[i] < n by {
                        if i < h.0.len() {
                            assert(r.0[i] == h.0[i]);
                        }
                    }
                },
                DagOp::Edge(a, b) => {
                    assert forall|i: int| 0 <= i < r.1.len() implies (#[trigger] r.1[i]).0 <= r.1[i].1
                        && r.1[i].1 < n by {
                        if i < h.1.len() {
                            assert(r.1[i] == h.1[i]);
                        }
                    }
                },
            }
        }
    }
}

/// The dependency graph points forward: every node is one of the systems, and every edge goes
/// from a system to one added no earlier, so the graph has no cycle but for edges from a
/// system to itself. Generating it from a graph that points forward keeps it so.
pub proof fn lemma_dag_points_forward(params: Seq<Accesses>, g: Graph, names: Seq<Seq<char>>)
    requires
        params.len() <= usize::MAX,
        graph_points_forward(g, params.len() as int),
    ensures
        graph_points_forward(apply_ops(g, ops_for_names(params, names)), params.len() as int),
    decreases names.len(),
{
    let n = params.len() as int;
    if names.len() > 0 {
        lemma_dag_points_forward(params, g, names.drop_last());
        let e = accesses_of(params, names.last(), n);
        lemma_accesses_in_order(params, names.last(), n);
        assert(e.take(0) == Seq::<(usize, bool)>::empty());
        assert(writers(e.take(0)).len() == 0);
        lemma_walk_points_forward(e, writers(e), 0, 0, n);
        lemma_apply_concat(g, ops_for_names(params, names.drop_last()), walk_of(e));
        lemma_apply_points_forward(apply_ops(g, ops_for_names(params, names.drop_last())), walk_of(e), n);
    }
}

/// Applying steps never puts a node or an edge into a graph twice.
pub proof fn lemma_apply_keeps_distinct(g: Graph, ops: Seq<DagOp>)
    requires
        g.0.no_duplicates(),
        g.1.no_duplicates(),
    ensures
        apply_ops(g, ops).0.no_duplicates(),
        apply_ops(g, ops).1.no_duplicates(),
    decreases ops.len(),
{
    if ops.len() > 0 {
        lemma_apply_keeps_distinct(g, ops.drop_last());
        let h = apply_ops(g, ops.drop_last());
        let r = apply_op(h, ops.last());
        match ops.last() {
            DagOp::Node(x) => {
                if !h.0.contains(x) {
                    assert forall|i: int, j: int| 0 <= i < j < r.0.len() implies r.0[i] != r.0[j] by {
                        if j == h.0.len() {
                            assert(r.0[i] == h.0[i]);
                        }
                    }
                }
            },
            DagOp::Edge(a, b) => {
                if !h.1.contains((a, b)) {
                    assert forall|i: int, j: int| 0 <= i < j < r.1.len() implies r.1[i] != r.1[j] by {
                        if j == h.1.len() {
                            assert(r.1[i] == h.1[i]);
                        }
                    }
                }
            },
        }
    }
}

/// Systems `a` and `b` both read or write the component type `name`, and at least one of them
/// writes it.
pub open spec fn conflict_on(params: Seq<Accesses>, a: int, b: int, name: Seq<char>) -> bool {
    &&& mentions(params[a].0@, name) || mentions(params[a].1@, name)
    &&& mentions(params[b].0@, name) || mentions(params[b].1@, name)
    &&& mentions(params[a].1@, name) || mentions(params[b].1@, name)
}

/// The edge joins two systems that conflict on some component type.
pub open spec fn edge_is_conflict(params: Seq<Accesses>, edge: (usize, usize)) -> bool {
    exists|name: Seq<char>| #[trigger] conflict_on(params, edge.0 as int, edge.1 as int, name)
}

/// Every edge of `g` joins two systems that conflict on some component type.
pub open spec fn edges_are_conflicts(g: Graph, params: Seq<Accesses>) -> bool {
    forall|i: int| 0 <= i < g.1.len() ==> #[trigger] edge_is_conflict(params, g.1[i])
}

/// Some access in `e` is by system `a`.
spec fn has_access(e: Seq<(usize, bool)>, a: usize) -> bool {
    exists|i: int| 0 <= i < e.len() && (#[trigger] e[i]).0 == a
}

/// Some writing access in `e` is by system `a`.
spec fn has_write(e: Seq<(usize, bool)>, a: usize) -> bool {
    exists|i: int| 0 <= i < e.len() && (#[trigger] e[i]).0 == a && e[i].1
}

/// An edge step joins a system with an access in `e` and one with a writing access in `e`.
spec fn op_joins_access_and_write(op: DagOp, e: Seq<(usize, bool)>) -> bool {
    match op {
        DagOp::Node(_) => true,
        DagOp::Edge(a, b) => (has_access(e, a) && has_write(e, b)) || (has_write(e, a)
            && has_access(e, b)),
    }
}

/// Every system among the writers of `e` has a writing access in `e`.
proof fn lemma_writers_write(e: Seq<(usize, bool)>)
    ensures
        forall|t: int| 0 <= t < writers(e).len() ==> has_write(e, #[trigger] writers(e)[t]),
    decreases e.len(),
{
    if e.len() > 0 {
        let f = e.drop_last();
        lemma_writers_write(f);
        let w = writers(e);
        assert forall|t: int| 0 <= t < w.len() implies has_write(e, #[trigger] w[t]) by {
            if t < writers(f).len() {
                assert(w[t] == writers(f)[t]);
                let i = choose|i: int| 0 <= i < f.len() && (#[trigger] f[i]).0 == w[t] && f[i].1;
                assert(e[i] == f[i]);
            } else {
                assert(w[t] == e.last().0 && e.last().1);
                assert(e[e.len() - 1] == e.last());
            }
        }
    }
}

/// Every edge step of the walk joins a system with an access and one with a writing access.
proof fn lemma_walk_joins(e: Seq<(usize, bool)>, w: Seq<usize>, k: int, t: int)
    requires
        t <= w.len(),
        forall|j: int| 0 <= j < w.len() ==> has_write(e, #[trigger] w[j]),
    ensures
        forall|i: int|
            0 <= i < walk(e, w, k, t).len() ==> op_joins_access_and_write(
                #[trigger] walk(e, w, k, t)[i],
                e,
            ),
    decreases e.len() - k,
{
    if 0 <= k < e.len() && t >= 0 {
        let s = e[k].0;
        assert(has_access(e, s));
        if t > 0 && t - 1 < w.len() {
            assert(has_write(e, w[t - 1]));
        }
        if t < w.len() {
            assert(has_write(e, w[t]));
        }
        if t + 1 < w.len() {
            assert(has_write(e, w[t + 1]));
        }
        let ops = walk(e, w, k, t);
        if t < w.len() {
            if s == w[t] {
                lemma_walk_joins(e, w, k + 1, t + 1);
                let rest = walk(e, w, k + 1, t + 1);
                let tail = prepend_if(
                    t + 1 < w.len() && k + 1 < e.len() && e[k + 1].0 == w[t + 1],
                    DagOp::Edge(s, w[t + 1]),
                    rest,
                );
                assert(ops == seq![DagOp::Node(s)] + tail);
                assert forall|i: int| 0 <= i < ops.len() implies op_joins_access_and_write(
                    #[trigger] ops[i],
                    e,
                ) by {
                    if i > 0 {
                        assert(ops[i] == tail[i - 1]);
                        if t + 1 < w.len() && k + 1 < e.len() && e[k + 1].0 == w[t + 1] {
                            if i > 1 {
                                assert(tail[i - 1] == rest[i - 2]);
                            }
                        } else {
                            assert(tail[i - 1] == rest[i - 1]);
                        }
                    }
                }
            } else {
                lemma_walk_joins(e, w, k + 1, t);
                let rest = walk(e, w, k + 1, t);
                let mid = seq![DagOp::Edge(s, w[t])] + rest;
                let tail = prepend_if(t > 0, DagOp::Edge(w[t - 1], s), mid);
                assert(ops == seq![DagOp::Node(s)] + tail);
                assert forall|i: int| 0 <= i < ops.len() implies op_joins_access_and_write(
                    #[trigger] ops[i],
                    e,
                ) by {
                    if i > 0 {
                        assert(ops[i] == tail[i - 1]);
                        let j = if t > 0 {
                            i - 2
                        } else {
                            i - 1
                        };
                        if j >= 0 {
                            assert(tail[i - 1] == mid[j]);
                            if j > 0 {
                                assert(mid[j] == rest[j - 1]);
                            }
                        }
                    }
                }
            }
        } else {
            lemma_walk_joins(e, w, k + 1, t);
            let rest = walk(e, w, k + 1, t);
            let tail = prepend_if(t > 0, DagOp::Edge(w[t - 1], s), rest);
            assert(ops == seq![DagOp::Node(s)] + tail);
            assert forall|i: int| 0 <= i < ops.len() implies op_joins_access_and_write(
                #[trigger] ops[i],
                e,
            ) by {
                if i > 0 {
                    assert(ops[i] == tail[i - 1]);
                    if t > 0 {
                        if i > 1 {
                            assert(tail[i - 1] == rest[i - 2]);
                        }
                    } else {
                        assert(tail[i - 1] == rest[i - 1]);
                    }
                }
            }
        }
    }
}

/// Each occurrence of `name` in `names` is one.
proof fn lemma_occurrences_mention(names: Seq<String>, name: Seq<char>, e: (usize, bool))
    ensures
        occurrences(names, name, e).len() > 0 ==> mentions(names, name),
    decreases names.len(),
{
    if names.len() > 0 {
        lemma_occurrences_mention(names.drop_last(), name, e);
        if mentions(names.drop_last(), name) {
            let i = choose|i: int| 0 <= i < names.drop_last().len() && (#[trigger] names.drop_last()[i])@ == name;
            assert(names[i] == names.drop_last()[i]);
        }
        if names.last()@ == name {
            assert(names[names.len() - 1]@ == name);
        }
    }
}

/// An access recorded for the component type `name` is a read or a write of it by that system.
proof fn lemma_accesses_mean(params: Seq<Accesses>, name: Seq<char>, n: int)
    requires
        0 <= n <= params.len(),
        params.len() <= usize::MAX,
    ensures
        forall|i: int|
            0 <= i < accesses_of(params, name, n).len() ==> {
                let x = #[trigger] accesses_of(params, name, n)[i];
                &&& x.0 < n
                &&& x.1 ==> mentions(params[x.0 as int].1@, name)
                &&& !x.1 ==> mentions(params[x.0 as int].0@, name)
            },
    decreases n,
{
    if n > 0 {
        lemma_accesses_mean(params, name, n - 1);
        let front = accesses_of(params, name, n - 1);
        let reads = occurrences(params[n - 1].0@, name, ((n - 1) as usize, false));
        let writes = occurrences(params[n - 1].1@, name, ((n - 1) as usize, true));
        lemma_occurrences_are(params[n - 1].0@, name, ((n - 1) as usize, false));
        lemma_occurrences_are(params[n - 1].1@, name, ((n - 1) as usize, true));
        lemma_occurrences_mention(params[n - 1].0@, name, ((n - 1) as usize, false));
        lemma_occurrences_mention(params[n - 1].1@, name, ((n - 1) as usize, true));
        let all = accesses_of(params, name, n);
        assert(all == front + reads + writes);
        assert forall|i: int| 0 <= i < all.len() implies {
            let x = #[trigger] all[i];
            &&& x.0 < n
            &&& x.1 ==> mentions(params[x.0 as int].1@, name)
            &&& !x.1 ==> mentions(params[x.0 as int].0@, name)
        } by {
            if i < front.len() {
                assert(all[i] == front[i]);
            } else if i < front.len() + reads.len() {
                assert(all[i] == reads[i - front.len()]);
            } else {
                assert(all[i] == writes[i - front.len() - reads.len()]);
            }
        }
    }
}

/// The steps for the component types `names` join systems that conflict on one of them.
proof fn lemma_ops_join_conflicts(params: Seq<Accesses>, names: Seq<Seq<char>>)
    requires
        params.len() <= usize::MAX,
    ensures
        forall|i: int|
            0 <= i < ops_for_names(params, names).len() ==> (#[trigger] ops_for_names(
                params,
                names,
            )[i] matches DagOp::Edge(a, b) ==> exists|name: Seq<char>|
                #[trigger] conflict_on(params, a as int, b as int, name)),
    decreases names.len(),
{
    if names.len() > 0 {
        lemma_ops_join_conflicts(params, names.drop_last());
        let name = names.last();
        let e = accesses_of(params, name, params.len() as int);
        lemma_writers_write(e);
        lemma_walk_joins(e, writers(e), 0, 0);
        lemma_accesses_mean(params, name, params.len() as int);
        let front = ops_for_names(params, names.drop_last());
        let tail = walk_of(e);
        let all = ops_for_names(params, names);
        assert(all == front + tail);
        assert forall|i: int| 0 <= i < all.len() implies (#[trigger] all[i] matches DagOp::Edge(a, b)
            ==> exists|nm: Seq<char>| #[trigger] conflict_on(params, a as int, b as int, nm)) by {
            if i < front.len() {
                assert(all[i] == front[i]);
            } else {
                assert(all[i] == tail[i - front.len()]);
                assert(op_joins_access_and_write(tail[i - front.len()], e));
                if let DagOp::Edge(a, b) = all[i] {
                    if has_access(e, a) && has_write(e, b) {
                        let x = choose|x: int| 0 <= x < e.len() && (#[trigger] e[x]).0 == a;
                        let y = choose|y: int| 0 <= y < e.len() && (#[trigger] e[y]).0 == b && e[y].1;
                        assert(conflict_on(params, a as int, b as int, name));
                    } else {
                        let x = choose|x: int| 0 <= x < e.len() && (#[trigger] e[x]).0 == a && e[x].1;
                        let y = choose|y: int| 0 <= y < e.len() && (#[trigger] e[y]).0 == b;
                        assert(conflict_on(params, a as int, b as int, name));
                    }
                }
            }
        }
    }
}

/// Applying steps whose edges join conflicting systems keeps every edge of a graph a conflict.
proof fn lemma_apply_keeps_conflicts(g: Graph, ops: Seq<DagOp>, params: Seq<Accesses>)
    requires
        edges_are_conflicts(g, params),
        forall|i: int|
            0 <= i < ops.len() ==> (#[trigger] ops[i] matches DagOp::Edge(a, b) ==> exists|
                name: Seq<char>,
            | #[trigger] conflict_on(params, a as int, b as int, name)),
    ensures
        edges_are_conflicts(apply_ops(g, ops), params),
    decreases ops.len(),
{
    if ops.len() > 0 {
        let rest = ops.drop_last();
        assert forall|i: int| 0 <= i < rest.len() implies (#[trigger] rest[i] matches DagOp::Edge(a, b)
            ==> exists|name: Seq<char>| #[trigger] conflict_on(params, a as int, b as int, name)) by {
            assert(rest[i] == ops[i]);
        }
        lemma_apply_keeps_conflicts(g, rest, params);
        let h = apply_ops(g, rest);
        let r = apply_op(h, ops.last());
        assert(ops.last() == ops[ops.len() - 1]);
        match ops.last() {
            DagOp::Node(x) => {
                assert(r.1 == h.1);
                assert forall|i: int| 0 <= i < r.1.len() implies #[trigger] edge_is_conflict(params, r.1[i]) by {
                    assert(r.1[i] == h.1[i]);
                    assert(edge_is_conflict(params, h.1[i]));
                }
            },
            DagOp::Edge(a, b) => {
                assert(exists|name: Seq<char>| #[trigger] conflict_on(params, a as int, b as int, name));
                let nm = choose|nm: Seq<char>| #[trigger] conflict_on(params, a as int, b as int, nm);
                let edge: (usize, usize) = (a, b);
                assert(conflict_on(params, edge.0 as int, edge.1 as int, nm));
                assert(edge_is_conflict(params, edge));
                assert forall|i: int| 0 <= i < r.1.len() implies #[trigger] edge_is_conflict(params, r.1[i]) by {
                    if i < h.1.len() {
                        assert(r.1[i] == h.1[i]);
                        assert(edge_is_conflict(params, h.1[i]));
                    } else {
                        assert(!h.1.contains((a, b)));
                        assert(r.1 == h.1.push((a, b)));
                        assert(r.1[i] == (a, b));
                    }
                }
            },
        }
    }
}

/// Every edge of the dependency graph joins two systems that conflict on some component type:
/// both read or write it and at least one of them writes it. Generating it from a graph whose
/// edges are such conflicts keeps it so.
pub proof fn lemma_dag_edges_are_conflicts(params: Seq<Accesses>, g: Graph, names: Seq<Seq<char>>)
    requires
        params.len() <= usize::MAX,
        edges_are_conflicts(g, params),
    ensures
        edges_are_conflicts(apply_ops(g, ops_for_names(params, names)), params),
{
    lemma_ops_join_conflicts(params, names);
    lemma_apply_keeps_conflicts(g, ops_for_names(params, names), params);
}

/// Step `i` of `p` follows an edge of `edges`.
pub open spec fn path_step(edges: Seq<(usize, usize)>, p: Seq<usize>, i: int) -> bool {
    edges.contains((p[i], p[i + 1]))
}

/// `p` is a path along `edges`.
pub open spec fn is_path(edges: Seq<(usize, usize)>, p: Seq<usize>) -> bool {
    p.len() > 0 && forall|i: int| 0 <= i < p.len() - 1 ==> #[trigger] path_step(edges, p, i)
}

/// System `b` can be reached from system `a` along `edges` (every system reaches itself).
pub open spec fn reaches(edges: Seq<(usize, usize)>, a: usize, b: usize) -> bool {
    exists|p: Seq<usize>| #[trigger] is_path(edges, p) && p[0] == a && p.last() == b
}

/// Every system reaches itself.
proof fn lemma_reach_refl(edges: Seq<(usize, usize)>, a: usize)
    ensures
        reaches(edges, a, a),
{
    assert(is_path(edges, seq![a]));
}

/// An edge is a path.
proof fn lemma_reach_edge(edges: Seq<(usize, usize)>, a: usize, b: usize)
    requires
        edges.contains((a, b)),
    ensures
        reaches(edges, a, b),
{
    let p = seq![a, b];
    assert(path_step(edges, p, 0));
    assert(is_path(edges, p));
}

/// Reaching is transitive: two paths that meet join into one.
proof fn lemma_reach_trans(edges: Seq<(usize, usize)>, a: usize, b: usize, c: usize)
    requires
        reaches(edges, a, b),
        reaches(edges, b, c),
    ensures
        reaches(edges, a, c),
{
    let p = choose|p: Seq<usize>| #[trigger] is_path(edges, p) && p[0] == a && p.last() == b;
    let q = choose|q: Seq<usize>| #[trigger] is_path(edges, q) && q[0] == b && q.last() == c;
    let r = p + q.drop_first();
    assert forall|i: int| 0 <= i < r.len() - 1 implies #[trigger] path_step(edges, r, i) by {
        if i < p.len() - 1 {
            assert(path_step(edges, p, i));
            assert(r[i] == p[i] && r[i + 1] == p[i + 1]);
        } else {
            let j = i - (p.len() - 1);
            assert(path_step(edges, q, j));
            if j == 0 {
                assert(r[i] == p.last());
            } else {
                assert(r[i] == q[j]);
            }
            assert(r[i + 1] == q[j + 1]);
        }
    }
    if q.len() == 1 {
        assert(r.last() == p.last());
    } else {
        assert(r.last() == q.last());
    }
    assert(is_path(edges, r));
}

/// The position among the writers `w` that the walk is at when it reaches access `k`.
pub open spec fn walk_position(e: Seq<(usize, bool)>, w: Seq<usize>, k: int) -> int
    decreases k,
{
    if k <= 0 {
        0
    } else {
        let t = walk_position(e, w, k - 1);
        if t < w.len() && e[k - 1].0 == w[t] {
            t + 1
        } else {
            t
        }
    }
}

/// The edges the walk adds at access `k`, all of them in `edges`.
pub open spec fn emitted_at(e: Seq<(usize, bool)>, w: Seq<usize>, k: int, edges: Seq<(usize, usize)>) -> bool {
    let t = walk_position(e, w, k);
    let s = e[k].0;
    &&& (t < w.len() && s == w[t] && t + 1 < w.len() && k + 1 < e.len() && e[k + 1].0 == w[t + 1])
        ==> edges.contains((s, w[t + 1]))
    &&& (t < w.len() && s != w[t]) ==> edges.contains((s, w[t]))
    &&& (t < w.len() && s != w[t] && t > 0) ==> edges.contains((w[t - 1], s))
    &&& (t >= w.len() && t > 0) ==> edges.contains((w[t - 1], s))
}

/// The edges that the steps `ops` add, in order.
pub open spec fn op_edges(ops: Seq<DagOp>) -> Seq<(usize, usize)>
    decreases ops.len(),
{
    if ops.len() == 0 {
        seq![]
    } else {
        match ops[0] {
            DagOp::Edge(a, b) => seq![(a, b)] + op_edges(ops.drop_first()),
            DagOp::Node(_) => op_edges(ops.drop_first()),
        }
    }
}

/// The edges of two runs of steps are those of the first, then those of the second.
proof fn lemma_op_edges_concat(a: Seq<DagOp>, b: Seq<DagOp>)
    ensures
        op_edges(a + b) == op_edges(a) + op_edges(b),
    decreases a.len(),
{
    if a.len() == 0 {
        assert(a + b =~= b);
    } else {
        lemma_op_edges_concat(a.drop_first(), b);
        assert((a + b).drop_first() =~= a.drop_first() + b);
        assert((a + b)[0] == a[0]);
    }
}

/// A single step adds its edge, or none for a node.
proof fn lemma_op_edges_one(op: DagOp)
    ensures
        op_edges(seq![op]) == match op {
            DagOp::Edge(a, b) => seq![(a, b)],
            DagOp::Node(_) => Seq::<(usize, usize)>::empty(),
        },
{
    assert(seq![op].drop_first() =~= Seq::<DagOp>::empty());
    assert(op_edges(Seq::<DagOp>::empty()) == Seq::<(usize, usize)>::empty());
    assert(seq![op][0] == op);
    match op {
        DagOp::Edge(a, b) => {
            assert(seq![(a, b)] + Seq::<(usize, usize)>::empty() =~= seq![(a, b)]);
        },
        DagOp::Node(_) => {},
    }
}

/// The walk's position never passes the last writer.
proof fn lemma_walk_position_bounds(e: Seq<(usize, bool)>, w: Seq<usize>, k: int)
    ensures
        0 <= walk_position(e, w, k) <= w.len(),
    decreases k,
{
    if k > 0 {
        lemma_walk_position_bounds(e, w, k - 1);
    }
}

/// Edges that are held stay held in a larger set of edges.
proof fn lemma_emitted_mono(
    e: Seq<(usize, bool)>,
    w: Seq<usize>,
    k: int,
    e1: Seq<(usize, usize)>,
    e2: Seq<(usize, usize)>,
)
    requires
        emitted_at(e, w, k, e1),
        forall|x: (usize, usize)| e1.contains(x) ==> e2.contains(x),
    ensures
        emitted_at(e, w, k, e2),
{
}

/// The edges of the walk from access `k` on, when it is at its position for `k`, hold the
/// edges that access `k` and each later one add.
proof fn lemma_walk_emits(e: Seq<(usize, bool)>, w: Seq<usize>, k: int)
    requires
        0 <= k <= e.len(),
    ensures
        forall|j: int|
            k <= j < e.len() ==> #[trigger] emitted_at(
                e,
                w,
                j,
                op_edges(walk(e, w, k, walk_position(e, w, k))),
            ),
    decreases e.len() - k,
{
    if k < e.len() {
        lemma_walk_emits(e, w, k + 1);
        lemma_walk_position_bounds(e, w, k);
        let t = walk_position(e, w, k);
        let s = e[k].0;
        let ops = walk(e, w, k, t);
        let next = walk(e, w, k + 1, walk_position(e, w, k + 1));
        let all = op_edges(ops);
        let rest = op_edges(next);
        // The steps at `k` are the node, the edges of access `k`, then the rest of the walk.
        let front: Seq<DagOp> = if t < w.len() {
            if s == w[t] {
                seq![DagOp::Node(s)] + prepend_if(
                    t + 1 < w.len() && k + 1 < e.len() && e[k + 1].0 == w[t + 1],
                    DagOp::Edge(s, w[t + 1]),
                    seq![],
                )
            } else {
                seq![DagOp::Node(s)] + prepend_if(
                    t > 0,
                    DagOp::Edge(w[t - 1], s),
                    seq![DagOp::Edge(s, w[t])],
                )
            }
        } else {
            seq![DagOp::Node(s)] + prepend_if(t > 0, DagOp::Edge(w[t - 1], s), seq![])
        };
        assert(ops =~= front + next);
        lemma_op_edges_concat(front, next);
        assert(all == op_edges(front) + rest);
        assert forall|x: (usize, usize)| rest.contains(x) implies all.contains(x) by {
            let i = choose|i: int| 0 <= i < rest.len() && rest[i] == x;
            assert(all[op_edges(front).len() + i] == x);
        }
        assert forall|j: int| k <= j < e.len() implies #[trigger] emitted_at(e, w, j, all) by {
            if j > k {
                lemma_emitted_mono(e, w, j, rest, all);
            } else {
                let fe = op_edges(front);
                assert forall|x: (usize, usize)| fe.contains(x) implies all.contains(x) by {
                    let i = choose|i: int| 0 <= i < fe.len() && fe[i] == x;
                    assert(all[i] == x);
                }
                let n0 = seq![DagOp::Node(s)];
                lemma_op_edges_one(DagOp::Node(s));
                if t < w.len() {
                    if s == w[t] {
                        if t + 1 < w.len() && k + 1 < e.len() && e[k + 1].0 == w[t + 1] {
                            let x1 = seq![DagOp::Edge(s, w[t + 1])];
                            lemma_op_edges_one(DagOp::Edge(s, w[t + 1]));
                            assert(front == n0 + (x1 + Seq::<DagOp>::empty()));
                            assert(x1 + Seq::<DagOp>::empty() =~= x1);
                            lemma_op_edges_concat(n0, x1);
                            assert(fe[0] == (s, w[t + 1]));
                        }
                    } else {
                        let x2 = seq![DagOp::Edge(s, w[t])];
                        lemma_op_edges_one(DagOp::Edge(s, w[t]));
                        if t > 0 {
                            let x1 = seq![DagOp::Edge(w[t - 1], s)];
                            lemma_op_edges_one(DagOp::Edge(w[t - 1], s));
                            assert(front == n0 + (x1 + x2));
                            lemma_op_edges_concat(x1, x2);
                            lemma_op_edges_concat(n0, x1 + x2);
                            assert(fe[0] == (w[t - 1], s));
                            assert(fe[1] == (s, w[t]));
                        } else {
                            assert(front == n0 + x2);
                            lemma_op_edges_concat(n0, x2);
                            assert(fe[0] == (s, w[t]));
                        }
                    }
                } else if t > 0 {
                    let x1 = seq![DagOp::Edge(w[t - 1], s)];
                    lemma_op_edges_one(DagOp::Edge(w[t - 1], s));
                    assert(front == n0 + (x1 + Seq::<DagOp>::empty()));
                    assert(x1 + Seq::<DagOp>::empty() =~= x1);
                    lemma_op_edges_concat(n0, x1);
                    assert(fe[0] == (w[t - 1], s));
                }
            }
        }
    }
}

/// The number of writing accesses among the first `k` accesses.
spec fn writes_before(e: Seq<(usize, bool)>, k: int) -> int {
    writers(e.take(k)).len() as int
}

/// Passing one more access adds its system to the writers when it writes.
proof fn lemma_writers_step(e: Seq<(usize, bool)>, k: int)
    requires
        0 <= k < e.len(),
    ensures
        writers(e.take(k + 1)) == writers(e.take(k)) + if e[k].1 {
            seq![e[k].0]
        } else {
            Seq::<usize>::empty()
        },
{
    assert(e.take(k + 1).drop_last() == e.take(k));
    assert(e.take(k + 1).last() == e[k]);
}

/// The writers before an earlier position are no more than those before a later one.
proof fn lemma_writes_before_mono(e: Seq<(usize, bool)>, i: int, j: int)
    requires
        0 <= i <= j <= e.len(),
    ensures
        writes_before(e, i) <= writes_before(e, j),
{
    lemma_writers_prefix(e.take(j), i);
    assert(e.take(j).take(i) == e.take(i));
}

/// A writing access at `k` is the writer right after those before it.
proof fn lemma_write_is_writer(e: Seq<(usize, bool)>, k: int)
    requires
        0 <= k < e.len(),
        e[k].1,
    ensures
        writes_before(e, k) < writers(e).len(),
        writers(e)[writes_before(e, k)] == e[k].0,
        writes_before(e, k + 1) == writes_before(e, k) + 1,
{
    lemma_writers_step(e, k);
    lemma_writers_prefix(e, k + 1);
    let next = writers(e.take(k + 1));
    assert(next[writes_before(e, k)] == e[k].0);
    assert(writers(e).take(next.len() as int)[writes_before(e, k)] == writers(e)[writes_before(e, k)]);
}

/// The walk's position is never behind the writers already passed, and the writers it has run
/// ahead over are all the system of the access just passed.
proof fn lemma_walk_position_tracks(e: Seq<(usize, bool)>, n: int, k: int)
    requires
        accesses_in_order(e, n),
        0 <= k <= e.len(),
    ensures
        writes_before(e, k) <= walk_position(e, writers(e), k) <= writers(e).len(),
        forall|t: int|
            writes_before(e, k) <= t < walk_position(e, writers(e), k) ==> #[trigger] writers(e)[t]
                == e[k - 1].0,
    decreases k,
{
    let w = writers(e);
    if k == 0 {
        assert(e.take(0) == Seq::<(usize, bool)>::empty());
    } else {
        lemma_walk_position_tracks(e, n, k - 1);
        let c = writes_before(e, k - 1);
        let t = walk_position(e, w, k - 1);
        let s = e[k - 1].0;
        lemma_writers_prefix(e, k - 1);
        lemma_writers_prefix(e, k);
        lemma_writers_step(e, k - 1);
        // Every writer not yet passed is the system of an access from `k - 1` on.
        assert forall|u: int| c <= u < w.len() implies s <= #[trigger] w[u] by {
            assert(exists|p: int| k - 1 <= p < e.len() && e[p].0 == #[trigger] w[c + (u - c)]);
        }
        assert forall|u: int| c <= u < t implies #[trigger] w[u] == s by {
            assert(s <= w[u]);
            assert(w[u] == e[k - 2].0);
        }
        if e[k - 1].1 {
            lemma_write_is_writer(e, k - 1);
        }
    }
}

/// The walk ends past every writer.
proof fn lemma_walk_position_end(e: Seq<(usize, bool)>, n: int)
    requires
        accesses_in_order(e, n),
    ensures
        walk_position(e, writers(e), e.len() as int) == writers(e).len(),
{
    lemma_walk_position_tracks(e, n, e.len() as int);
    assert(e.take(e.len() as int) == e);
}

/// The walk's position never goes back.
proof fn lemma_walk_position_mono(e: Seq<(usize, bool)>, w: Seq<usize>, i: int, j: int)
    requires
        0 <= i <= j,
    ensures
        walk_position(e, w, i) <= walk_position(e, w, j),
    decreases j,
{
    if i < j {
        lemma_walk_position_mono(e, w, i, j - 1);
    }
}

/// Every position below the one reached at `k` was left at some access before `k`.
proof fn lemma_walk_position_steps(e: Seq<(usize, bool)>, w: Seq<usize>, k: int, t: int)
    requires
        0 <= k,
        0 <= t < walk_position(e, w, k),
    ensures
        exists|m: int|
            0 <= m < k && #[trigger] walk_position(e, w, m) == t && t < w.len() && e[m].0 == w[t],
    decreases k,
{
    if k > 0 {
        if t < walk_position(e, w, k - 1) {
            lemma_walk_position_steps(e, w, k - 1, t);
        } else {
            assert(walk_position(e, w, k - 1) == t);
        }
    }
}

/// The accesses of one component type, in order, with `edges` holding every edge the walk over
/// them adds.
spec fn walk_covered(e: Seq<(usize, bool)>, n: int, edges: Seq<(usize, usize)>) -> bool {
    &&& accesses_in_order(e, n)
    &&& forall|k: int| 0 <= k < e.len() ==> #[trigger] emitted_at(e, writers(e), k, edges)
}

/// Each writer reaches the next one.
proof fn lemma_writer_chain_step(e: Seq<(usize, bool)>, n: int, edges: Seq<(usize, usize)>, t: int)
    requires
        walk_covered(e, n, edges),
        0 <= t,
        t + 1 < writers(e).len(),
    ensures
        reaches(edges, writers(e)[t], writers(e)[t + 1]),
{
    let w = writers(e);
    let len = e.len() as int;
    lemma_walk_position_end(e, n);
    lemma_walk_position_steps(e, w, len, t);
    lemma_walk_position_steps(e, w, len, t + 1);
    let m = choose|m: int| 0 <= m < len && #[trigger] walk_position(e, w, m) == t && t < w.len() && e[m].0 == w[t];
    let m2 = choose|m2: int| 0 <= m2 < len && #[trigger] walk_position(e, w, m2) == t + 1 && t + 1 < w.len() && e[m2].0 == w[t + 1];
    if m2 <= m {
        lemma_walk_position_mono(e, w, m2, m);
    }
    assert(m + 1 <= m2);
    assert(emitted_at(e, w, m, edges));
    assert(walk_position(e, w, m + 1) == t + 1);
    if e[m + 1].0 == w[t + 1] {
        lemma_reach_edge(edges, w[t], w[t + 1]);
    } else {
        assert(emitted_at(e, w, m + 1, edges));
        let s = e[m + 1].0;
        lemma_reach_edge(edges, w[t], s);
        lemma_reach_edge(edges, s, w[t + 1]);
        lemma_reach_trans(edges, w[t], s, w[t + 1]);
    }
}

/// Each writer reaches every later one.
proof fn lemma_writer_chain(e: Seq<(usize, bool)>, n: int, edges: Seq<(usize, usize)>, t1: int, t2: int)
    requires
        walk_covered(e, n, edges),
        0 <= t1 <= t2 < writers(e).len(),
    ensures
        reaches(edges, writers(e)[t1], writers(e)[t2]),
    decreases t2 - t1,
{
    if t1 == t2 {
        lemma_reach_refl(edges, writers(e)[t1]);
    } else {
        lemma_writer_chain(e, n, edges, t1, t2 - 1);
        lemma_writer_chain_step(e, n, edges, t2 - 1);
        lemma_reach_trans(edges, writers(e)[t1], writers(e)[t2 - 1], writers(e)[t2]);
    }
}

/// The writer before the walk's position at an access reaches that access's system.
proof fn lemma_reach_from_before(e: Seq<(usize, bool)>, n: int, edges: Seq<(usize, usize)>, k: int)
    requires
        walk_covered(e, n, edges),
        0 <= k < e.len(),
        walk_position(e, writers(e), k) > 0,
    ensures
        reaches(edges, writers(e)[walk_position(e, writers(e), k) - 1], e[k].0),
{
    let w = writers(e);
    let t = walk_position(e, w, k);
    lemma_walk_position_bounds(e, w, k);
    assert(emitted_at(e, w, k, edges));
    if t < w.len() && e[k].0 == w[t] {
        lemma_writer_chain_step(e, n, edges, t - 1);
    } else {
        lemma_reach_edge(edges, w[t - 1], e[k].0);
    }
}

/// An access's system reaches the writer at the walk's position there.
proof fn lemma_reach_to_next(e: Seq<(usize, bool)>, n: int, edges: Seq<(usize, usize)>, k: int)
    requires
        walk_covered(e, n, edges),
        0 <= k < e.len(),
        walk_position(e, writers(e), k) < writers(e).len(),
    ensures
        reaches(edges, e[k].0, writers(e)[walk_position(e, writers(e), k)]),
{
    let w = writers(e);
    let t = walk_position(e, w, k);
    lemma_walk_position_bounds(e, w, k);
    assert(emitted_at(e, w, k, edges));
    if e[k].0 == w[t] {
        lemma_reach_refl(edges, e[k].0);
    } else {
        lemma_reach_edge(edges, e[k].0, w[t]);
    }
}

/// Of two accesses to one component type by different systems, one of them writing, the
/// earlier system reaches the later one.
proof fn lemma_walk_orders_conflict(e: Seq<(usize, bool)>, n: int, edges: Seq<(usize, usize)>, i: int, j: int)
    requires
        walk_covered(e, n, edges),
        0 <= i < e.len(),
        0 <= j < e.len(),
        e[i].0 < e[j].0,
        e[i].1 || e[j].1,
    ensures
        reaches(edges, e[i].0, e[j].0),
{
    let w = writers(e);
    assert(i < j) by {
        if j <= i {
            assert(e[j].0 <= e[i].0);
        }
    }
    lemma_walk_position_tracks(e, n, i);
    lemma_walk_position_tracks(e, n, j);
    if e[j].1 {
        let q = writes_before(e, j);
        lemma_write_is_writer(e, j);
        lemma_writes_before_mono(e, i, j);
        let ti = walk_position(e, w, i);
        if ti > q {
            assert(w[q] == e[i - 1].0);
            assert(e[i - 1].0 <= e[i].0);
        }
        lemma_reach_to_next(e, n, edges, i);
        lemma_writer_chain(e, n, edges, ti, q);
        lemma_reach_trans(edges, e[i].0, w[ti], e[j].0);
    } else {
        let p = writes_before(e, i);
        lemma_write_is_writer(e, i);
        lemma_writes_before_mono(e, i + 1, j);
        let tj = walk_position(e, w, j);
        lemma_reach_from_before(e, n, edges, j);
        lemma_writer_chain(e, n, edges, p, tj - 1);
        lemma_reach_trans(edges, e[i].0, w[tj - 1], e[j].0);
    }
}

/// A name that occurs in `names` is recorded.
proof fn lemma_occurrences_contain(names: Seq<String>, name: Seq<char>, e: (usize, bool))
    requires
        mentions(names, name),
    ensures
        occurrences(names, name, e).contains(e),
    decreases names.len(),
{
    let i = choose|i: int| 0 <= i < names.len() && (#[trigger] names[i])@ == name;
    let front = occurrences(names.drop_last(), name, e);
    let o = occurrences(names, name, e);
    if i < names.len() - 1 {
        assert(names.drop_last()[i] == names[i]);
        lemma_occurrences_contain(names.drop_last(), name, e);
        let p = choose|p: int| 0 <= p < front.len() && front[p] == e;
        assert(o[p] == front[p]);
    } else {
        assert(names.last()@ == name);
        assert(o[front.len() as int] == e);
    }
}

/// Every read and every write of the component type `name` by one of the first `n` systems is
/// recorded among its accesses.
proof fn lemma_accesses_cover(params: Seq<Accesses>, name: Seq<char>, n: int)
    requires
        0 <= n <= params.len(),
        params.len() <= usize::MAX,
    ensures
        forall|a: int|
            0 <= a < n ==> (mentions(#[trigger] params[a].0@, name) ==> accesses_of(
                params,
                name,
                n,
            ).contains((a as usize, false))) && (mentions(params[a].1@, name) ==> accesses_of(
                params,
                name,
                n,
            ).contains((a as usize, true))),
    decreases n,
{
    if n > 0 {
        lemma_accesses_cover(params, name, n - 1);
        let front = accesses_of(params, name, n - 1);
        let reads = occurrences(params[n - 1].0@, name, ((n - 1) as usize, false));
        let writes = occurrences(params[n - 1].1@, name, ((n - 1) as usize, true));
        let all = accesses_of(params, name, n);
        assert(all == front + reads + writes);
        assert forall|a: int| 0 <= a < n implies (mentions(#[trigger] params[a].0@, name)
            ==> all.contains((a as usize, false))) && (mentions(params[a].1@, name)
            ==> all.contains((a as usize, true))) by {
            if a < n - 1 {
                if mentions(params[a].0@, name) {
                    let p = choose|p: int| 0 <= p < front.len() && front[p] == (a as usize, false);
                    assert(all[p] == front[p]);
                }
                if mentions(params[a].1@, name) {
                    let p = choose|p: int| 0 <= p < front.len() && front[p] == (a as usize, true);
                    assert(all[p] == front[p]);
                }
            } else {
                if mentions(params[a].0@, name) {
                    lemma_occurrences_contain(params[a].0@, name, ((n - 1) as usize, false));
                    let p = choose|p: int| 0 <= p < reads.len() && reads[p] == (a as usize, false);
                    assert(all[front.len() + p] == reads[p]);
                }
                if mentions(params[a].1@, name) {
                    lemma_occurrences_contain(params[a].1@, name, ((n - 1) as usize, true));
                    let p = choose|p: int| 0 <= p < writes.len() && writes[p] == (a as usize, true);
                    assert(all[front.len() + reads.len() + p] == writes[p]);
                }
            }
        }
    }
}

/// Applying steps keeps every edge of the graph and adds every edge of the steps.
proof fn lemma_apply_has_edges(g: Graph, ops: Seq<DagOp>)
    ensures
        forall|x: (usize, usize)| g.1.contains(x) ==> apply_ops(g, ops).1.contains(x),
        forall|x: (usize, usize)| op_edges(ops).contains(x) ==> apply_ops(g, ops).1.contains(x),
    decreases ops.len(),
{
    if ops.len() > 0 {
        let first = seq![ops[0]];
        let rest = ops.drop_first();
        assert(ops == first + rest);
        lemma_apply_concat(g, first, rest);
        assert(first.drop_last() == Seq::<DagOp>::empty());
        let h = apply_ops(g, first);
        assert(first.last() == ops[0]);
        assert(apply_ops(g, Seq::<DagOp>::empty()) == g);
        assert(h == apply_op(g, ops[0]));
        lemma_apply_has_edges(h, rest);
        lemma_op_edges_concat(first, rest);
        lemma_op_edges_one(ops[0]);
        assert forall|x: (usize, usize)| g.1.contains(x) implies h.1.contains(x) by {
            let i = choose|i: int| 0 <= i < g.1.len() && g.1[i] == x;
            match ops[0] {
                DagOp::Edge(a, b) => {
                    if !g.1.contains((a, b)) {
                        assert(h.1[i] == g.1[i]);
                    }
                },
                DagOp::Node(_) => {},
            }
        }
        assert forall|x: (usize, usize)| op_edges(ops).contains(x) implies apply_ops(g, ops).1.contains(x) by {
            let i = choose|i: int| 0 <= i < op_edges(ops).len() && op_edges(ops)[i] == x;
            if i < op_edges(first).len() {
                if let DagOp::Edge(a, b) = ops[0] {
                    assert(x == (a, b));
                    if !g.1.contains((a, b)) {
                        assert(h.1[g.1.len() as int] == (a, b));
                    }
                    assert(h.1.contains(x));
                }
            } else {
                assert(op_edges(rest)[i - op_edges(first).len()] == x);
                assert(op_edges(rest).contains(x));
            }
        }
    }
}

/// The edges of the steps for the component types `names` hold the edges of the walk for each
/// of them.
proof fn lemma_names_ops_cover(params: Seq<Accesses>, names: Seq<Seq<char>>, i: int)
    requires
        0 <= i < names.len(),
    ensures
        forall|x: (usize, usize)|
            op_edges(walk_of(accesses_of(params, names[i], params.len() as int))).contains(x)
                ==> op_edges(ops_for_names(params, names)).contains(x),
    decreases names.len(),
{
    let front = ops_for_names(params, names.drop_last());
    let tail = walk_of(accesses_of(params, names.last(), params.len() as int));
    assert(ops_for_names(params, names) == front + tail);
    lemma_op_edges_concat(front, tail);
    let all = op_edges(ops_for_names(params, names));
    if i < names.len() - 1 {
        assert(names.drop_last()[i] == names[i]);
        lemma_names_ops_cover(params, names.drop_last(), i);
        assert forall|x: (usize, usize)| op_edges(front).contains(x) implies all.contains(x) by {
            let p = choose|p: int| 0 <= p < op_edges(front).len() && op_edges(front)[p] == x;
            assert(all[p] == x);
        }
    } else {
        assert forall|x: (usize, usize)| op_edges(tail).contains(x) implies all.contains(x) by {
            let p = choose|p: int| 0 <= p < op_edges(tail).len() && op_edges(tail)[p] == x;
            assert(all[op_edges(front).len() + p] == x);
        }
    }
}

/// Whenever an earlier system and a later one conflict on a component type, the later one can
/// be reached from the earlier one along the edges of `g`.
pub open spec fn conflicts_reachable(g: Graph, params: Seq<Accesses>) -> bool {
    forall|a: int, b: int, name: Seq<char>|
        0 <= a < b < params.len() && #[trigger] conflict_on(params, a, b, name) ==> reaches(
            g.1,
            a as usize,
            b as usize,
        )
}

/// Of two systems that conflict on a component type (both read or write it and at least one of
/// them writes it), the later one can be reached from the earlier one in the dependency
/// graph: running the systems in an order that follows the edges keeps every such pair in the
/// order the systems were given in.
pub proof fn lemma_dag_orders_conflicts(params: Seq<Accesses>, g: Graph, names: Seq<Seq<char>>)
    requires
        params.len() <= usize::MAX,
        is_component_name_list(names, params),
    ensures
        conflicts_reachable(apply_ops(g, ops_for_names(params, names)), params),
{
    let n = params.len() as int;
    let ops = ops_for_names(params, names);
    let edges = apply_ops(g, ops).1;
    lemma_apply_has_edges(g, ops);
    assert forall|a: int, b: int, name: Seq<char>|
        0 <= a < b < params.len() && #[trigger] conflict_on(params, a, b, name) implies reaches(
        edges,
        a as usize,
        b as usize,
    ) by {
        let e = accesses_of(params, name, n);
        lemma_accesses_cover(params, name, n);
        lemma_accesses_in_order(params, name, n);
        assert(mentions(params[a].0@, name) || mentions(params[a].1@, name));
        assert(mentions(params[b].0@, name) || mentions(params[b].1@, name));
        let xa: (usize, bool) = if mentions(params[a].1@, name) {
            (a as usize, true)
        } else {
            (a as usize, false)
        };
        let xb: (usize, bool) = if mentions(params[b].1@, name) {
            (b as usize, true)
        } else {
            (b as usize, false)
        };
        assert(e.contains(xa)) by {
            if mentions(params[a].1@, name) {
                assert(mentions(params[a].0@, name) ==> e.contains((a as usize, false)));
            }
        }
        assert(e.contains(xb)) by {
            if mentions(params[b].1@, name) {
                assert(mentions(params[b].0@, name) ==> e.contains((b as usize, false)));
            }
        }
        let i = choose|i: int| 0 <= i < e.len() && e[i] == xa;
        let j = choose|j: int| 0 <= j < e.len() && e[j] == xb;
        assert(names.contains(name));
        let idx = choose|idx: int| 0 <= idx < names.len() && names[idx] == name;
        lemma_names_ops_cover(params, names, idx);
        assert forall|x: (usize, usize)| op_edges(walk_of(e)).contains(x) implies edges.contains(x) by {
            assert(op_edges(ops).contains(x));
        }
        let w = writers(e);
        lemma_walk_emits(e, w, 0);
        assert(walk_position(e, w, 0) == 0);
        assert forall|k: int| 0 <= k < e.len() implies #[trigger] emitted_at(e, w, k, edges) by {
            assert(emitted_at(e, w, k, op_edges(walk_of(e))));
            lemma_emitted_mono(e, w, k, op_edges(walk_of(e)), edges);
        }
        lemma_walk_orders_conflict(e, n, edges, i, j);
    }
}

/// The accesses recorded so far for each component name, sorted by name.
type Dependencies = Vec<(String, Vec<(usize, bool)>)>;

/// `deps` records accesses for the component type `n`.
spec fn has_key(deps: Seq<(String, Vec<(usize, bool)>)>, n: Seq<char>) -> bool {
    exists|i: int| 0 <= i < deps.len() && (#[trigger] deps[i]).0@ == n
}

/// `deps` is sorted by name, and records for each name exactly the non-empty accesses `f`
/// gives it.
spec fn deps_match(
    deps: Seq<(String, Vec<(usize, bool)>)>,
    f: spec_fn(Seq<char>) -> Seq<(usize, bool)>,
) -> bool {
    &&& forall|i: int, j: int| 0 <= i < j < deps.len() ==> name_less(deps[i].0@, deps[j].0@)
    &&& forall|i: int|
        0 <= i < deps.len() ==> (#[trigger] deps[i]).1@ == f(deps[i].0@) && deps[i].1@.len() > 0
    &&& forall|n: Seq<char>|
        #![trigger f(n)]
        #![trigger has_key(deps, n)]
        f(n).len() > 0 ==> has_key(deps, n)
}

/// `f` with `e` recorded once more for `name`.
spec fn pushed(f: spec_fn(Seq<char>) -> Seq<(usize, bool)>, name: Seq<char>, e: (usize, bool)) -> spec_fn(
    Seq<char>,
) -> Seq<(usize, bool)> {
    |n: Seq<char>|
        if n == name {
            f(n).push(e)
        } else {
            f(n)
        }
}

/// Records the access `e` for the component type `name`.
fn record(
    deps: &mut Dependencies,
    name: &String,
    e: (usize, bool),
    Ghost(f): Ghost<spec_fn(Seq<char>) -> Seq<(usize, bool)>>,
)
    requires
        deps_match(old(deps)@, f),
    ensures
        deps_match(final(deps)@, pushed(f, name@, e)),
{
    let ghost g = pushed(f, name@, e);
    let mut p: usize = 0;
    while p < deps.len() && name_before(&deps[p].0, name)
        invariant
            p <= deps.len(),
            forall|i: int| 0 <= i < p ==> name_less(#[trigger] deps@[i].0@, name@),
        decreases deps.len() - p,
    {
        p = p + 1;
    }
    let ghost old_deps = deps@;
    if p < deps.len() && deps[p].0 == *name {
        deps[p].1.push(e);
        proof {
            assert forall|i: int| 0 <= i < deps@.len() && i != p implies #[trigger] deps@[i]
                == old_deps[i] && deps@[i].0@ != name@ by {
                lemma_name_order(old_deps[i].0@, name@, old_deps[i].0@);
            }
            assert forall|i: int| 0 <= i < deps@.len() implies (#[trigger] deps@[i]).1@ == g(
                deps@[i].0@,
            ) && deps@[i].1@.len() > 0 by {
                if i != p {
                    assert(deps@[i] == old_deps[i]);
                }
            }
            assert forall|n: Seq<char>| #[trigger] g(n).len() > 0 implies has_key(deps@, n) by {
                if n == name@ {
                    assert(deps@[p as int].0@ == n);
                } else {
                    assert(f(n).len() > 0);
                    assert(has_key(old_deps, n));
                    let i = choose|i: int| 0 <= i < old_deps.len() && (#[trigger] old_deps[i]).0@ == n;
                    assert(deps@[i].0@ == n);
                }
            }
        }
    } else {
        let mut accesses: Vec<(usize, bool)> = Vec::new();
        accesses.push(e);
        deps.insert(p, (name.clone(), accesses));
        proof {
            assert forall|i: int| 0 <= i < old_deps.len() implies old_deps[i].0@ != name@ && (i < p
                ==> name_less(#[trigger] old_deps[i].0@, name@)) && (i >= p ==> name_less(
                name@,
                old_deps[i].0@,
            )) by {
                lemma_name_order(old_deps[i].0@, name@, old_deps[i].0@);
                if i >= p {
                    lemma_name_order(old_deps[p as int].0@, name@, old_deps[p as int].0@);
                    lemma_name_order(name@, old_deps[p as int].0@, old_deps[i].0@);
                }
            }
            assert(f(name@).len() == 0) by {
                if f(name@).len() > 0 {
                    assert(has_key(old_deps, name@));
                    let i = choose|i: int| 0 <= i < old_deps.len() && (#[trigger] old_deps[i]).0@ == name@;
                }
            }
            assert forall|i: int| 0 <= i < deps@.len() implies (#[trigger] deps@[i]).1@ == g(
                deps@[i].0@,
            ) && deps@[i].1@.len() > 0 by {
                if i < p {
                    assert(deps@[i] == old_deps[i]);
                } else if i > p {
                    assert(deps@[i] == old_deps[i - 1]);
                }
            }
            assert forall|i: int, j: int| 0 <= i < j < deps@.len() implies name_less(
                deps@[i].0@,
                deps@[j].0@,
            ) by {
                if j < p {
                } else if i < p && j == p {
                } else if i < p && j > p {
                    assert(deps@[j] == old_deps[j - 1]);
                    assert(name_less(old_deps[i].0@, name@));
                    lemma_name_order(old_deps[i].0@, name@, old_deps[j - 1].0@);
                } else if i == p {
                    assert(deps@[j] == old_deps[j - 1]);
                } else {
                    assert(deps@[i] == old_deps[i - 1]);
                    assert(deps@[j] == old_deps[j - 1]);
                }
            }
            assert forall|n: Seq<char>| #[trigger] g(n).len() > 0 implies has_key(deps@, n) by {
                if n == name@ {
                    assert(deps@[p as int].0@ == n);
                } else {
                    assert(f(n).len() > 0);
                    assert(has_key(old_deps, n));
                    let i = choose|i: int| 0 <= i < old_deps.len() && (#[trigger] old_deps[i]).0@ == n;
                    if i < p {
                        assert(deps@[i].0@ == n);
                    } else {
                        assert(deps@[i + 1].0@ == n);
                    }
                }
            }
        }
    }
}

/// A dependency graph between systems, by their indices.
#[derive(Debug, Default)]
pub struct DAG {
    pub nodes: Vec<usize>,
    pub edges: Vec<(usize, usize)>,
}

impl DAG {
    /// The graph as a pair of sequences.
    pub open spec fn graph(&self) -> Graph {
        (self.nodes@, self.edges@)
    }

    /// An empty graph.
    pub fn new() -> (r: Self)
        ensures
            r.nodes@ == Seq::<usize>::empty(),
            r.edges@ == Seq::<(usize, usize)>::empty(),
    {
        DAG { nodes: Vec::new(), edges: Vec::new() }
    }

    /// Adds `node`, unless the graph has it already.
    pub fn add_node(&mut self, node: usize)
        ensures
            final(self).nodes@ == add_node_to(old(self).nodes@, node),
            final(self).edges@ == old(self).edges@,
    {
        let mut i: usize = 0;
        while i < self.nodes.len()
            invariant
                i <= self.nodes.len(),
                forall|j: int| 0 <= j < i ==> self.nodes@[j] != node,
            decreases self.nodes.len() - i,
        {
            if self.nodes[i] == node {
                assert(self.nodes@[i as int] == node);
                return;
            }
            i = i + 1;
        }
        self.nodes.push(node);
    }

    /// Adds the edge from `from` to `to`, unless the graph has it already.
    pub fn add_edge(&mut self, from: usize, to: usize)
        ensures
            final(self).edges@ == add_edge_to(old(self).edges@, (from, to)),
            final(self).nodes@ == old(self).nodes@,
    {
        let mut i: usize = 0;
        while i < self.edges.len()
            invariant
                i <= self.edges.len(),
                forall|j: int| 0 <= j < i ==> self.edges@[j] != (from, to),
            decreases self.edges.len() - i,
        {
            if self.edges[i].0 == from && self.edges[i].1 == to {
                assert(self.edges@[i as int] == (from, to));
                return;
            }
            i = i + 1;
        }
        self.edges.push((from, to));
    }

    /// Takes the steps for one component type whose accesses are `accesses`.
    fn add_component_dependencies(&mut self, accesses: &Vec<(usize, bool)>)
        ensures
            final(self).graph() == apply_ops(old(self).graph(), walk_of(accesses@)),
    {
        let mut writes: Vec<usize> = Vec::new();
        let mut j: usize = 0;
        while j < accesses.len()
            invariant
                j <= accesses.len(),
                writes@ == writers(accesses@.take(j as int)),
            decreases accesses.len() - j,
        {
            assert(accesses@.take(j + 1).drop_last() == accesses@.take(j as int));
            if accesses[j].1 {
                writes.push(accesses[j].0);
            }
            j = j + 1;
        }
        assert(accesses@.take(accesses.len() as int) == accesses@);
        let ghost e = accesses@;
        let ghost w = writes@;
        let ghost start = self.graph();
        let mut k: usize = 0;
        let mut t: usize = 0;
        while k < accesses.len()
            invariant
                e == accesses@,
                w == writes@,
                w == writers(e),
                k <= accesses.len(),
                t <= writes.len(),
                apply_ops(start, walk(e, w, 0, 0)) == apply_ops(self.graph(), walk(e, w, k as int, t as int)),
            decreases accesses.len() - k,
        {
            let s = accesses[k].0;
            let ghost before = self.graph();
            let ghost tail = walk(e, w, k as int, t as int).drop_first();
            self.add_node(s);
            proof {
                assert(walk(e, w, k as int, t as int) =~= seq![DagOp::Node(s)] + tail);
                lemma_apply_first(before, DagOp::Node(s), tail);
            }
            if t < writes.len() {
                if s == writes[t] {
                    let ghost g1 = self.graph();
                    let ghost rest = walk(e, w, k + 1, t + 1);
                    proof {
                        assert(tail =~= prepend_if(
                            t + 1 < w.len() && k + 1 < e.len() && e[k + 1].0 == w[t + 1],
                            DagOp::Edge(s, w[t + 1]),
                            rest,
                        ));
                    }
                    if t + 1 < writes.len() && k + 1 < accesses.len() && accesses[k + 1].0 == writes[t + 1] {
                        self.add_edge(s, writes[t + 1]);
                        proof {
                            lemma_apply_first(g1, DagOp::Edge(s, w[t + 1]), rest);
                        }
                    }
                    t = t + 1;
                } else {
                    let ghost g1 = self.graph();
                    let ghost rest = walk(e, w, k + 1, t as int);
                    let ghost mid = seq![DagOp::Edge(s, w[t as int])] + rest;
                    proof {
                        assert(tail =~= prepend_if(t > 0, DagOp::Edge(w[t - 1], s), mid));
                    }
                    if t > 0 {
                        self.add_edge(writes[t - 1], s);
                        proof {
                            lemma_apply_first(g1, DagOp::Edge(w[t - 1], s), mid);
                        }
                    }
                    let ghost g2 = self.graph();
                    self.add_edge(s, writes[t]);
                    proof {
                        lemma_apply_first(g2, DagOp::Edge(s, w[t as int]), rest);
                    }
                }
            } else {
                let ghost g1 = self.graph();
                let ghost rest = walk(e, w, k + 1, t as int);
                proof {
                    assert(tail =~= prepend_if(t > 0, DagOp::Edge(w[t - 1], s), rest));
                }
                if t > 0 {
                    self.add_edge(writes[t - 1], s);
                    proof {
                        lemma_apply_first(g1, DagOp::Edge(w[t - 1], s), rest);
                    }
                }
            }
            k = k + 1;
        }
    }

    /// Builds the dependency graph of the systems from the component types they read and
    /// write: the accesses to each component type, in the order of the types' names, each in
    /// the order in which the systems were added, are walked as `walk` describes.
    pub fn generate_dag(&mut self, parameters: SystemParametersVec)
        ensures
            is_component_name_list(component_names(parameters@), parameters@),
            final(self).graph() == apply_ops(
                old(self).graph(),
                ops_for_names(parameters@, component_names(parameters@)),
            ),
            graph_points_forward(old(self).graph(), parameters@.len() as int)
                ==> graph_points_forward(final(self).graph(), parameters@.len() as int),
            edges_are_conflicts(old(self).graph(), parameters@) ==> edges_are_conflicts(
                final(self).graph(),
                parameters@,
            ),
            conflicts_reachable(final(self).graph(), parameters@),
    {
        let mut deps: Dependencies = Vec::new();
        let ghost params = parameters@;
        let mut i: usize = 0;
        while i < parameters.len()
            invariant
                params == parameters@,
                i <= parameters.len(),
                deps_match(deps@, |n: Seq<char>| accesses_of(params, n, i as int)),
            decreases parameters.len() - i,
        {
            let reads = &parameters[i].0;
            let writes = &parameters[i].1;
            proof {
                let start_reads = |n: Seq<char>|
                    accesses_of(params, n, i as int) + occurrences(reads@.take(0), n, (i, false));
                assert forall|n: Seq<char>| #[trigger] start_reads(n) == accesses_of(params, n, i as int) by {
                    assert(reads@.take(0).len() == 0);
                    assert(accesses_of(params, n, i as int) + Seq::<(usize, bool)>::empty() =~= accesses_of(params, n, i as int));
                }
                assert(start_reads =~= (|n: Seq<char>| accesses_of(params, n, i as int)));
            }
            let mut j: usize = 0;
            while j < reads.len()
                invariant
                    params == parameters@,
                    i < parameters.len(),
                    reads == parameters@[i as int].0,
                    j <= reads.len(),
                    deps_match(
                        deps@,
                        |n: Seq<char>|
                            accesses_of(params, n, i as int) + occurrences(
                                reads@.take(j as int),
                                n,
                                (i, false),
                            ),
                    ),
                decreases reads.len() - j,
            {
                let ghost f = |n: Seq<char>|
                    accesses_of(params, n, i as int) + occurrences(
                        reads@.take(j as int),
                        n,
                        (i, false),
                    );
                record(&mut deps, &reads[j], (i, false), Ghost(f));
                proof {
                    let next = |n: Seq<char>|
                        accesses_of(params, n, i as int) + occurrences(
                            reads@.take(j + 1),
                            n,
                            (i, false),
                        );
                    assert(reads@.take(j + 1).drop_last() == reads@.take(j as int));
                    assert forall|n: Seq<char>| #[trigger] next(n) == pushed(f, reads@[j as int]@, (i, false))(n) by {
                        assert(reads@.take(j + 1).last() == reads@[j as int]);
                    }
                    assert(next =~= pushed(f, reads@[j as int]@, (i, false)));
                }
                j = j + 1;
            }
            proof {
                assert(reads@.take(reads.len() as int) == reads@);
                let start_writes = |n: Seq<char>|
                    accesses_of(params, n, i as int) + occurrences(reads@, n, (i, false))
                        + occurrences(writes@.take(0), n, (i, true));
                let end_reads = |n: Seq<char>|
                    accesses_of(params, n, i as int) + occurrences(
                        reads@.take(reads.len() as int),
                        n,
                        (i, false),
                    );
                assert forall|n: Seq<char>| #[trigger] start_writes(n) == end_reads(n) by {
                    assert(writes@.take(0).len() == 0);
                    let x = accesses_of(params, n, i as int) + occurrences(reads@, n, (i, false));
                    assert(x + Seq::<(usize, bool)>::empty() =~= x);
                }
                assert(start_writes =~= end_reads);
            }
            let mut j: usize = 0;
            while j < writes.len()
                invariant
                    params == parameters@,
                    i < parameters.len(),
                    reads == parameters@[i as int].0,
                    writes == parameters@[i as int].1,
                    j <= writes.len(),
                    deps_match(
                        deps@,
                        |n: Seq<char>|
                            accesses_of(params, n, i as int) + occurrences(reads@, n, (i, false))
                                + occurrences(writes@.take(j as int), n, (i, true)),
                    ),
                decreases writes.len() - j,
            {
                let ghost f = |n: Seq<char>|
                    accesses_of(params, n, i as int) + occurrences(reads@, n, (i, false))
                        + occurrences(writes@.take(j as int), n, (i, true));
                record(&mut deps, &writes[j], (i, true), Ghost(f));
                proof {
                    let next = |n: Seq<char>|
                        accesses_of(params, n, i as int) + occurrences(reads@, n, (i, false))
                            + occurrences(writes@.take(j + 1), n, (i, true));
                    assert(writes@.take(j + 1).drop_last() == writes@.take(j as int));
                    assert forall|n: Seq<char>| #[trigger] next(n) == pushed(f, writes@[j as int]@, (i, true))(n) by {
                        assert(writes@.take(j + 1).last() == writes@[j as int]);
                    }
                    assert(next =~= pushed(f, writes@[j as int]@, (i, true)));
                }
                j = j + 1;
            }
            proof {
                assert(writes@.take(writes.len() as int) == writes@);
                let next = |n: Seq<char>| accesses_of(params, n, i + 1);
                let end_writes = |n: Seq<char>|
                    accesses_of(params, n, i as int) + occurrences(reads@, n, (i, false))
                        + occurrences(writes@.take(writes.len() as int), n, (i, true));
                assert forall|n: Seq<char>| #[trigger] next(n) == end_writes(n) by {
                    assert(((i + 1 - 1) as usize) == i);
                    assert(params[i as int].0 == reads);
                    assert(params[i as int].1 == writes);
                }
                assert(next =~= end_writes);
            }
            i = i + 1;
        }
        let ghost names = deps@.map_values(|d: (String, Vec<(usize, bool)>)| d.0@);
        let ghost start = self.graph();
        let mut idx: usize = 0;
        while idx < deps.len()
            invariant
                params == parameters@,
                deps_match(deps@, |n: Seq<char>| accesses_of(params, n, params.len() as int)),
                names == deps@.map_values(|d: (String, Vec<(usize, bool)>)| d.0@),
                idx <= deps.len(),
                self.graph() == apply_ops(start, ops_for_names(params, names.take(idx as int))),
            decreases deps.len() - idx,
        {
            let ghost before = self.graph();
            self.add_component_dependencies(&deps[idx].1);
            proof {
                assert(names.take(idx + 1).drop_last() == names.take(idx as int));
                assert(names.take(idx + 1).last() == deps@[idx as int].0@);
                lemma_apply_concat(
                    start,
                    ops_for_names(params, names.take(idx as int)),
                    walk_of(deps@[idx as int].1@),
                );
            }
            idx = idx + 1;
        }
        proof {
            assert(names.take(deps.len() as int) == names);
            assert(is_component_name_list(names, params)) by {
                assert forall|n: Seq<char>| names.contains(n) <==> #[trigger] accesses_of(params, n, params.len() as int).len() > 0 by {
                    if names.contains(n) {
                        let x = choose|x: int| 0 <= x < names.len() && names[x] == n;
                        assert(deps@[x].0@ == n);
                    }
                    if accesses_of(params, n, params.len() as int).len() > 0 {
                        assert(has_key(deps@, n));
                        let x = choose|x: int| 0 <= x < deps@.len() && (#[trigger] deps@[x]).0@ == n;
                        assert(names[x] == n);
                    }
                }
            }
            let chosen = component_names(params);
            assert(is_component_name_list(chosen, params));
            assert forall|n: Seq<char>| chosen.contains(n) <==> names.contains(n) by {
                assert(chosen.contains(n) <==> accesses_of(params, n, params.len() as int).len() > 0);
                assert(names.contains(n) <==> accesses_of(params, n, params.len() as int).len() > 0);
            }
            lemma_sorted_names_unique(chosen, names);
            if graph_points_forward(start, params.len() as int) {
                lemma_dag_points_forward(params, start, chosen);
            }
            if edges_are_conflicts(start, params) {
                lemma_dag_edges_are_conflicts(params, start, chosen);
            }
            lemma_dag_orders_conflicts(params, start, chosen);
        }
    }
}

} // verus!
