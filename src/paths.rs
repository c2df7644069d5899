//! Graph theory over adjacency lists: `g[u]` lists the inputs of node `u`,
//! so edges point from a consumer to the nodes it reads.
use vstd::prelude::*;

verus! {

/// Every input named by the adjacency lists is a node of the graph.
pub open spec fn adj_wf(g: Seq<Seq<usize>>) -> bool {
    forall|u: int, k: int| 0 <= u < g.len() && 0 <= k < g[u].len() ==> g[u][k] < g.len()
}

/// `v` is one of the declared inputs of `u`.
pub open spec fn edge(g: Seq<Seq<usize>>, u: usize, v: usize) -> bool {
    u < g.len() && g[u as int].contains(v)
}

/// `p` walks from consumer to input along declared edges.
pub open spec fn is_path(g: Seq<Seq<usize>>, p: Seq<usize>) -> bool {
    p.len() >= 1 && forall|i: int| 0 <= i < p.len() - 1 ==> edge(g, #[trigger] p[i], p[i + 1])
}

/// `b` is needed, directly or not, to compute `a` (every node reaches itself).
pub open spec fn reaches(g: Seq<Seq<usize>>, a: usize, b: usize) -> bool {
    exists|p: Seq<usize>| is_path(g, p) && p[0] == a && p.last() == b
}

/// Some non-empty walk leads from `v` back to `v`.
pub open spec fn on_cycle(g: Seq<Seq<usize>>, v: usize) -> bool {
    exists|p: Seq<usize>| is_path(g, p) && p.len() >= 2 && p[0] == v && p.last() == v
}

/// A node on a cycle is needed to compute `root`.
pub open spec fn has_reachable_cycle(g: Seq<Seq<usize>>, root: usize) -> bool {
    exists|v: usize| reaches(g, root, v) && on_cycle(g, v)
}

/// Every declared input of a node in `s` is also in `s`.
pub open spec fn input_closed(g: Seq<Seq<usize>>, s: Seq<usize>) -> bool {
    forall|i: int, k: int|
        0 <= i < s.len() && 0 <= k < g[s[i] as int].len() ==> s.contains(#[trigger] g[s[i] as int][k])
}

/// Each node of `order` comes after all of its declared inputs, and none repeats.
pub open spec fn is_topo_order(g: Seq<Seq<usize>>, order: Seq<usize>) -> bool {
    &&& order.no_duplicates()
    &&& forall|i: int| 0 <= i < order.len() ==> order[i] < g.len()
    &&& forall|i: int, k: int|
        0 <= i < order.len() && 0 <= k < g[order[i] as int].len() ==> order.subrange(0, i).contains(
            #[trigger] g[order[i] as int][k],
        )
}

/// `order` lists exactly the nodes needed for `root`, each after its inputs.
pub open spec fn is_evaluation_order(g: Seq<Seq<usize>>, root: usize, order: Seq<usize>) -> bool {
    &&& is_topo_order(g, order)
    &&& forall|v: usize| #[trigger] order.contains(v) <==> reaches(g, root, v)
}

/// Extending a walk by one declared input keeps it a walk.
pub proof fn lemma_path_extend(g: Seq<Seq<usize>>, p: Seq<usize>, x: usize)
    requires
        is_path(g, p),
        edge(g, p.last(), x),
    ensures
        is_path(g, p.push(x)),
        p.push(x)[0] == p[0],
        p.push(x).last() == x,
{
    let q = p.push(x);
    assert forall|i: int| 0 <= i < q.len() - 1 implies edge(g, #[trigger] q[i], q[i + 1]) by {
        if i < p.len() - 1 {
            assert(q[i] == p[i] && q[i + 1] == p[i + 1]);
        }
    }
}

/// A contiguous piece of a walk is a walk.
pub proof fn lemma_path_sub(g: Seq<Seq<usize>>, p: Seq<usize>, a: int, b: int)
    requires
        is_path(g, p),
        0 <= a < b <= p.len(),
    ensures
        is_path(g, p.subrange(a, b)),
{
    let q = p.subrange(a, b);
    assert forall|i: int| 0 <= i < q.len() - 1 implies edge(g, #[trigger] q[i], q[i + 1]) by {
        assert(q[i] == p[a + i] && q[i + 1] == p[a + i + 1]);
    }
}

/// A walk that starts inside a set closed under inputs stays inside it.
proof fn lemma_closed_path(g: Seq<Seq<usize>>, s: Seq<usize>, p: Seq<usize>)
    requires
        input_closed(g, s),
        is_path(g, p),
        s.contains(p[0]),
    ensures
        s.contains(p.last()),
    decreases p.len(),
{
    if p.len() > 1 {
        let n = p.len() as int;
        let q = p.subrange(0, n - 1);
        lemma_path_sub(g, p, 0, n - 1);
        lemma_closed_path(g, s, q);
        assert(edge(g, p[n - 2], p[n - 1]));
        let i = choose|i: int| 0 <= i < s.len() && s[i] == p[n - 2];
        let k = choose|k: int| 0 <= k < g[p[n - 2] as int].len() && #[trigger] g[p[n - 2] as int][k] == p[n - 1];
        assert(s.contains(g[s[i] as int][k]));
    }
}

/// A set that holds `root` and is closed under inputs holds every node that `root` reaches.
pub proof fn lemma_closed_covers(g: Seq<Seq<usize>>, s: Seq<usize>, root: usize, v: usize)
    requires
        input_closed(g, s),
        s.contains(root),
        reaches(g, root, v),
    ensures
        s.contains(v),
{
    let p = choose|p: Seq<usize>| is_path(g, p) && p[0] == root && p.last() == v;
    lemma_closed_path(g, s, p);
}

/// Along a walk inside a topological order, positions in the order strictly decrease.
proof fn lemma_topo_path_descends(g: Seq<Seq<usize>>, order: Seq<usize>, p: Seq<usize>, j0: int, jl: int)
    requires
        is_topo_order(g, order),
        is_path(g, p),
        p.len() >= 2,
        forall|i: int| 0 <= i < p.len() ==> order.contains(#[trigger] p[i]),
        0 <= j0 < order.len(),
        0 <= jl < order.len(),
        order[j0] == p[0],
        order[jl] == p.last(),
    ensures
        jl < j0,
    decreases p.len(),
{
    let n = p.len() as int;
    assert(order.contains(p[n - 2]));
    let jm = choose|j: int| 0 <= j < order.len() && order[j] == p[n - 2];
    assert(edge(g, p[n - 2], p[n - 1]));
    let k = choose|k: int| 0 <= k < g[p[n - 2] as int].len() && #[trigger] g[p[n - 2] as int][k] == p[n - 1];
    assert(order.subrange(0, jm).contains(g[order[jm] as int][k]));
    let j = choose|j: int| 0 <= j < jm && order.subrange(0, jm)[j] == p[n - 1];
    assert(order[j] == order[jl]);
    if n > 2 {
        let q = p.subrange(0, n - 1);
        lemma_path_sub(g, p, 0, n - 1);
        assert forall|i: int| 0 <= i < q.len() implies order.contains(#[trigger] q[i]) by {
            assert(q[i] == p[i]);
        }
        lemma_topo_path_descends(g, order, q, j0, jm);
    } else {
        assert(order[jm] == order[j0]);
    }
}

/// No cycle passes only through nodes of a topological order.
pub proof fn lemma_topo_no_cycle(g: Seq<Seq<usize>>, order: Seq<usize>, p: Seq<usize>)
    requires
        is_topo_order(g, order),
        is_path(g, p),
        p.len() >= 2,
        p[0] == p.last(),
    ensures
        !(forall|i: int| 0 <= i < p.len() ==> order.contains(#[trigger] p[i])),
{
    if forall|i: int| 0 <= i < p.len() ==> order.contains(#[trigger] p[i]) {
        assert(order.contains(p[0]));
        let j0 = choose|j: int| 0 <= j < order.len() && order[j] == p[0];
        lemma_topo_path_descends(g, order, p, j0, j0);
    }
}

/// A topological order closed under inputs and holding `root` leaves no cycle reachable from it.
pub proof fn lemma_order_excludes_cycle(g: Seq<Seq<usize>>, root: usize, order: Seq<usize>)
    requires
        is_evaluation_order(g, root, order),
    ensures
        !has_reachable_cycle(g, root),
{
    if has_reachable_cycle(g, root) {
        let v = choose|v: usize| reaches(g, root, v) && on_cycle(g, v);
        let p = choose|p: Seq<usize>| is_path(g, p) && p.len() >= 2 && p[0] == v && p.last() == v;
        let q = choose|q: Seq<usize>| is_path(g, q) && q[0] == root && q.last() == v;
        assert forall|i: int| 0 <= i < p.len() implies order.contains(#[trigger] p[i]) by {
            let r = q + p.subrange(1, i + 1);
            assert(is_path(g, r)) by {
                assert forall|m: int| 0 <= m < r.len() - 1 implies edge(g, #[trigger] r[m], r[m + 1]) by {
                    if m < q.len() - 1 {
                        assert(r[m] == q[m] && r[m + 1] == q[m + 1]);
                    } else if m == q.len() - 1 {
                        assert(r[m] == p[0] && r[m + 1] == p[1]);
                    } else {
                        let d = m - q.len() + 1;
                        assert(r[m] == p[d] && r[m + 1] == p[d + 1]);
                    }
                }
            }
            if i == 0 {
                assert(reaches(g, root, p[0]));
            } else {
                assert(r.last() == p[i]);
                assert(reaches(g, root, p[i]));
            }
        }
        lemma_topo_no_cycle(g, order, p);
    }
}

/// Appending a node whose inputs are all listed keeps an order topological.
pub proof fn lemma_topo_push(g: Seq<Seq<usize>>, order: Seq<usize>, node: usize)
    requires
        is_topo_order(g, order),
        !order.contains(node),
        node < g.len(),
        forall|k: int| 0 <= k < g[node as int].len() ==> order.contains(#[trigger] g[node as int][k]),
    ensures
        is_topo_order(g, order.push(node)),
{
    let o2 = order.push(node);
    assert forall|a: int, b: int| 0 <= a < b < o2.len() implies o2[a] != o2[b] by {
        if b == order.len() {
            assert(o2[a] == order[a]);
        }
    }
    assert forall|i: int, k: int|
        0 <= i < o2.len() && 0 <= k < g[o2[i] as int].len() implies o2.subrange(0, i).contains(
        #[trigger] g[o2[i] as int][k]) by {
        if i < order.len() {
            assert(o2.subrange(0, i) =~= order.subrange(0, i));
        } else {
            assert(o2.subrange(0, i) =~= order);
        }
    }
}

/// A repetition-free sequence of nodes below `n` has at most `n` entries.
pub proof fn lemma_distinct_bounded(s: Seq<usize>, n: nat)
    requires
        s.no_duplicates(),
        forall|i: int| 0 <= i < s.len() ==> (#[trigger] s[i]) < n,
    ensures
        s.len() <= n,
    decreases n,
{
    if n > 0 && s.contains((n - 1) as usize) {
        let i = choose|i: int| 0 <= i < s.len() && s[i] == (n - 1) as usize;
        let r = s.remove(i);
        assert forall|a: int, b: int| 0 <= a < b < r.len() implies r[a] != r[b] by {
            let a2 = if a < i { a } else { a + 1 };
            let b2 = if b < i { b } else { b + 1 };
            assert(r[a] == s[a2] && r[b] == s[b2]);
        }
        assert forall|j: int| 0 <= j < r.len() implies (#[trigger] r[j]) < (n - 1) as nat by {
            let j2 = if j < i { j } else { j + 1 };
            assert(r[j] == s[j2]);
        }
        lemma_distinct_bounded(r, (n - 1) as nat);
    } else if n > 0 {
        assert forall|j: int| 0 <= j < s.len() implies (#[trigger] s[j]) < (n - 1) as nat by {
            assert(s[j] != (n - 1) as usize);
        }
        lemma_distinct_bounded(s, (n - 1) as nat);
    } else {
        if s.len() > 0 {
            assert(s[0] < 0);
        }
    }
}

} // verus!
