//! Analyse dependencies of packages.
//!
//! Both queries are instances of one traversal: reachability from a seed set
//! over a directed, optionally filtered edge set.  Orphan marking seeds every
//! explicitly installed package at once and walks the [`ReversedView`];
//! the dependents query seeds one package and walks forwards.

use vstd::prelude::*;

use crate::graph::{
    lemma_resolves_unique, DependencyEdge, Graph, GraphLike, PackageNode, RequiredOnly,
    ReversedView, resolves_to, unresolved,
};

verus! {

broadcast use vstd::seq_lib::lemma_seq_contains_after_push;

/// `p` is a walk through `g`: consecutive entries are joined by an edge.
pub open spec fn is_path<G: GraphLike>(g: &G, p: Seq<u32>) -> bool {
    &&& p.len() >= 1
    &&& forall|i: int| 0 <= i < p.len() - 1 ==> (#[trigger] g.edge_between(p[i], p[i + 1])) is Some
}

/// Some walk through `g` leads from `a` to `b`.
pub open spec fn reaches<G: GraphLike>(g: &G, a: u32, b: u32) -> bool {
    exists|p: Seq<u32>| #[trigger] is_path(g, p) && p.first() == a && p.last() == b
}

/// `n` transitively supports some explicitly installed package: some walk
/// leads from `n` to an explicit node.
pub open spec fn supports_explicit<G: GraphLike>(g: &G, n: u32) -> bool {
    exists|e: u32| (e as nat) < g.size() && #[trigger] g.explicit_node(e) && reaches(g, n, e)
}

/// An orphan: a package that supports no explicitly installed package.
pub open spec fn is_orphan<G: GraphLike>(g: &G, n: u32) -> bool {
    (n as nat) < g.size() && !supports_explicit(g, n)
}

/// Every node reaches itself.
pub proof fn lemma_reaches_self<G: GraphLike>(g: &G, n: u32)
    ensures
        reaches(g, n, n),
{
    let p = seq![n];
    assert(is_path(g, p));
}

/// A reachable node's successor is reachable.
pub proof fn lemma_reaches_step<G: GraphLike>(g: &G, a: u32, b: u32, c: u32)
    requires
        reaches(g, a, b),
        g.edge_between(b, c) is Some,
    ensures
        reaches(g, a, c),
{
    let p = choose|p: Seq<u32>| #[trigger] is_path(g, p) && p.first() == a && p.last() == b;
    let q = p.push(c);
    assert forall|i: int| 0 <= i < q.len() - 1 implies (#[trigger] g.edge_between(
        q[i],
        q[i + 1],
    )) is Some by {
        if i < p.len() - 1 {
            assert(q[i] == p[i] && q[i + 1] == p[i + 1]);
        } else {
            assert(q[i] == p.last() && q[i + 1] == c);
        }
    }
    assert(is_path(g, q));
    assert(q.first() == a && q.last() == c);
}

/// Walks through the reversed view are the graph's own walks, read backwards.
pub proof fn lemma_reverse_reaches<'a, G: GraphLike>(rv: &ReversedView<'a, G>, a: u32, b: u32)
    ensures
        reaches(rv, a, b) <==> reaches(rv.base, b, a),
{
    if reaches(rv, a, b) {
        let p = choose|p: Seq<u32>| #[trigger] is_path(rv, p) && p.first() == a && p.last() == b;
        let q = p.reverse();
        assert(q.len() == p.len());
        assert forall|t: int| 0 <= t < q.len() - 1 implies (#[trigger] rv.base.edge_between(
            q[t],
            q[t + 1],
        )) is Some by {
            let ii: int = p.len() - 2 - t;
            assert(rv.edge_between(p[ii], p[ii + 1]) is Some);
            assert(q[t] == p[ii + 1]);
            assert(q[t + 1] == p[ii]);
        }
        assert(is_path(rv.base, q));
        assert(q.first() == b && q.last() == a);
        assert(reaches(rv.base, b, a));
    }
    if reaches(rv.base, b, a) {
        let p = choose|p: Seq<u32>| #[trigger] is_path(rv.base, p) && p.first() == b && p.last()
            == a;
        let q = p.reverse();
        assert(q.len() == p.len());
        assert forall|t: int| 0 <= t < q.len() - 1 implies (#[trigger] rv.edge_between(
            q[t],
            q[t + 1],
        )) is Some by {
            let ii: int = p.len() - 2 - t;
            assert(rv.base.edge_between(p[ii], p[ii + 1]) is Some);
            assert(q[t] == p[ii + 1]);
            assert(q[t + 1] == p[ii]);
        }
        assert(is_path(rv, q));
        assert(q.first() == a && q.last() == b);
        assert(reaches(rv, a, b));
    }
}

/// A mark set that holds some walk's start and is closed under the graph's
/// edges holds the walk's end.
proof fn lemma_marked_closed<G: GraphLike>(g: &G, marks: Seq<bool>, p: Seq<u32>)
    requires
        g.wf(),
        marks.len() == g.size(),
        forall|x: u32, y: u32|
            (x as nat) < g.size() && marks[x as int] && (#[trigger] g.edge_between(x, y)) is Some
                ==> (y as nat) < g.size() && marks[y as int],
        is_path(g, p),
        (p.first() as nat) < g.size(),
        marks[p.first() as int],
    ensures
        (p.last() as nat) < g.size(),
        marks[p.last() as int],
    decreases p.len(),
{
    if p.len() > 1 {
        let zero: int = 0;
        assert(g.edge_between(p[zero], p[zero + 1]) is Some);
        let q = p.drop_first();
        assert forall|t: int| 0 <= t < q.len() - 1 implies (#[trigger] g.edge_between(
            q[t],
            q[t + 1],
        )) is Some by {
            let ii: int = t + 1;
            assert(g.edge_between(p[ii], p[ii + 1]) is Some);
            assert(q[t] == p[ii] && q[t + 1] == p[ii + 1]);
        }
        assert(is_path(g, q));
        assert(q.first() == p[1] && q.last() == p.last());
        lemma_marked_closed(g, marks, q);
    }
}

/// Pushing a fresh element keeps a sequence free of duplicates.
proof fn lemma_push_no_dup(s: Seq<u32>, v: u32)
    requires
        s.no_duplicates(),
        !s.contains(v),
    ensures
        s.push(v).no_duplicates(),
{
    let q = s.push(v);
    assert forall|i1: int, i2: int|
        0 <= i1 < q.len() && 0 <= i2 < q.len() && i1 != i2 implies q[i1] != q[i2] by {
        if i1 == s.len() as int {
            if q[i2] == v {
                assert(s.contains(s[i2]));
            }
        } else if i2 == s.len() as int {
            if q[i1] == v {
                assert(s.contains(s[i1]));
            }
        }
    }
}

/// A duplicate-free sequence of handles below `n` has at most `n` entries.
proof fn lemma_nodup_bounded_len(s: Seq<u32>, n: nat)
    requires
        s.no_duplicates(),
        forall|t: int| 0 <= t < s.len() ==> ((#[trigger] s[t]) as nat) < n,
    ensures
        s.len() <= n,
{
    let si = Seq::new(s.len(), |i: int| s[i] as int);
    assert forall|i: int, j: int|
        0 <= i < si.len() && 0 <= j < si.len() && i != j implies si[i] != si[j] by {
        assert(s[i] != s[j]);
    }
    assert(si.no_duplicates());
    si.unique_seq_to_set();
    assert(si.to_set().subset_of(vstd::set_lib::set_int_range(0, n as int))) by {
        assert forall|x: int| si.to_set().contains(x) implies 0 <= x < n as int by {
            let i = choose|i: int| 0 <= i < si.len() && si[i] == x;
            assert((s[i] as nat) < n);
        }
    }
    vstd::set_lib::lemma_int_range(0, n as int);
    vstd::set_lib::lemma_len_subset(si.to_set(), vstd::set_lib::set_int_range(0, n as int));
}

/// What one finished traversal shows: a duplicate-free worklist of marked
/// in-range nodes, each expanded, makes the marks closed under edges and so
/// a cover of everything the seeds reach.
proof fn lemma_bfs_post<G: GraphLike>(g: &G, seeds: Seq<u32>, queue: Seq<u32>, marks: Seq<bool>)
    requires
        g.wf(),
        marks.len() == g.size(),
        queue.no_duplicates(),
        forall|t: int|
            0 <= t < queue.len() ==> (((#[trigger] queue[t]) as nat) < g.size()
                && marks[queue[t] as int]),
        forall|m: u32| (m as nat) < g.size() && (#[trigger] marks[m as int]) ==> queue.contains(m),
        forall|t: int|
            0 <= t < seeds.len() ==> ((#[trigger] seeds[t]) as nat) < g.size()
                && marks[seeds[t] as int],
        forall|t: int, y: u32|
            0 <= t < queue.len() && (#[trigger] g.edge_between(queue[t], y)) is Some ==> (y as nat)
                < g.size() && marks[y as int],
    ensures
        queue.len() <= g.size(),
        forall|m: u32| #[trigger] queue.contains(m) <==> ((m as nat) < g.size() && marks[m as int]),
        forall|m: u32|
            ((m as nat) < g.size() && (exists|t: int|
                0 <= t < seeds.len() && reaches(g, #[trigger] seeds[t], m))) ==> marks[m as int],
{
    lemma_nodup_bounded_len(queue, g.size());
    assert forall|m: u32| #[trigger] queue.contains(m) implies ((m as nat) < g.size()
        && marks[m as int]) by {
        let tc = choose|tc: int| 0 <= tc < queue.len() && queue[tc] == m;
        assert(queue[tc] == m);
    }
    assert forall|x: u32, y: u32|
        ((x as nat) < g.size() && marks[x as int] && (#[trigger] g.edge_between(
            x,
            y,
        )) is Some) implies ((y as nat) < g.size() && marks[y as int]) by {
        assert(queue.contains(x));
        let tx = choose|tx: int| 0 <= tx < queue.len() && queue[tx] == x;
        assert(g.edge_between(queue[tx], y) is Some);
    }
    assert forall|m: u32|
        ((m as nat) < g.size() && (exists|t: int|
            0 <= t < seeds.len() && reaches(g, #[trigger] seeds[t], m))) implies marks[m as int] by {
        let t = choose|t: int| 0 <= t < seeds.len() && reaches(g, #[trigger] seeds[t], m);
        let p = choose|p: Seq<u32>| #[trigger] is_path(g, p) && p.first() == seeds[t] && p.last()
            == m;
        lemma_marked_closed(g, marks, p);
    }
}

/// The shared traversal core: mark everything some seed reaches.
///
/// One discovery set serves every seed, so a node reached from several seeds
/// is expanded only once.  Returns the marked nodes in discovery order and
/// the mark array itself.
#[verifier::rlimit(80)]
#[verifier::spinoff_prover]
fn bfs_mark<G: GraphLike>(g: &G, seeds: &Vec<u32>) -> (r: (Vec<u32>, Vec<bool>))
    requires
        g.wf(),
        forall|t: int| 0 <= t < seeds@.len() ==> ((#[trigger] seeds@[t]) as nat) < g.size(),
    ensures
        r.1@.len() == g.size(),
        r.0@.no_duplicates(),
        r.0@.len() <= g.size(),
        forall|m: u32| #[trigger] r.0@.contains(m) <==> ((m as nat) < g.size() && r.1@[m as int]),
        forall|m: u32|
            (m as nat) < g.size() ==> ((#[trigger] r.1@[m as int]) <==> exists|t: int|
                0 <= t < seeds@.len() && reaches(g, #[trigger] seeds@[t], m)),
{
    let n = g.node_count();
    let mut marks: Vec<bool> = Vec::new();
    let mut z: usize = 0;
    while z < n
        invariant
            z <= n,
            marks@.len() == z,
            forall|t: int| 0 <= t < z ==> !(#[trigger] marks@[t]),
        decreases n - z,
    {
        marks.push(false);
        z += 1;
    }
    let mut queue: Vec<u32> = Vec::new();
    let mut s: usize = 0;
    while s < seeds.len()
        invariant
            g.wf(),
            n as nat == g.size(),
            forall|t: int| 0 <= t < seeds@.len() ==> ((#[trigger] seeds@[t]) as nat) < g.size(),
            s <= seeds@.len(),
            marks@.len() == n,
            queue@.no_duplicates(),
            forall|t: int|
                0 <= t < queue@.len() ==> (((#[trigger] queue@[t]) as nat) < g.size()
                    && marks@[queue@[t] as int]),
            forall|m: u32|
                (m as nat) < g.size() && (#[trigger] marks@[m as int]) ==> queue@.contains(m),
            forall|m: u32|
                (m as nat) < g.size() && (#[trigger] marks@[m as int]) ==> exists|t: int|
                    0 <= t < seeds@.len() && reaches(g, #[trigger] seeds@[t], m),
            forall|t: int| 0 <= t < s ==> marks@[(#[trigger] seeds@[t]) as int],
        decreases seeds@.len() - s,
    {
        let v = seeds[s];
        if !marks[v as usize] {
            proof {
                assert(seeds@[s as int] == v);
                if queue@.contains(v) {
                    let t = choose|t: int| 0 <= t < queue@.len() && queue@[t] == v;
                    assert(marks@[queue@[t] as int]);
                }
                lemma_push_no_dup(queue@, v);
                lemma_reaches_self(g, v);
            }
            marks.set(v as usize, true);
            queue.push(v);
        }
        s += 1;
    }
    proof {
        lemma_nodup_bounded_len(queue@, g.size());
    }
    let ghost marks0 = marks@;
    let mut head: usize = 0;
    while head < queue.len()
        invariant
            g.wf(),
            n as nat == g.size(),
            marks@.len() == n,
            head <= queue@.len(),
            queue@.len() <= n,
            queue@.no_duplicates(),
            forall|t: int|
                0 <= t < queue@.len() ==> (((#[trigger] queue@[t]) as nat) < g.size()
                    && marks@[queue@[t] as int]),
            forall|m: u32|
                (m as nat) < g.size() && (#[trigger] marks@[m as int]) ==> queue@.contains(m),
            marks0.len() == n,
            forall|i: int| 0 <= i < n && (#[trigger] marks0[i]) ==> marks@[i],
            forall|m: u32|
                (m as nat) < g.size() && (#[trigger] marks@[m as int]) ==> exists|t: int|
                    0 <= t < seeds@.len() && reaches(g, #[trigger] seeds@[t], m),
            forall|t: int, y: u32|
                0 <= t < head && (#[trigger] g.edge_between(queue@[t], y)) is Some ==> (y as nat)
                    < g.size() && marks@[y as int],
        decreases n - head,
    {
        let u = queue[head];
        let nbrs = g.out_neighbors(u);
        let mut j: usize = 0;
        while j < nbrs.len()
            invariant
                g.wf(),
                n as nat == g.size(),
                marks@.len() == n,
                head < queue@.len(),
                u == queue@[head as int],
                (u as nat) < g.size(),
                marks@[u as int],
                queue@.no_duplicates(),
                forall|t: int|
                    0 <= t < queue@.len() ==> (((#[trigger] queue@[t]) as nat) < g.size()
                        && marks@[queue@[t] as int]),
                forall|m: u32|
                    (m as nat) < g.size() && (#[trigger] marks@[m as int]) ==> queue@.contains(m),
                marks0.len() == n,
                forall|i: int| 0 <= i < n && (#[trigger] marks0[i]) ==> marks@[i],
                forall|m: u32|
                    (m as nat) < g.size() && (#[trigger] marks@[m as int]) ==> exists|t: int|
                        0 <= t < seeds@.len() && reaches(g, #[trigger] seeds@[t], m),
                forall|t: int, y: u32|
                    0 <= t < head && (#[trigger] g.edge_between(queue@[t], y)) is Some ==> (
                    y as nat) < g.size() && marks@[y as int],
                forall|m: u32| #[trigger] nbrs@.contains(m) <==> g.edge_between(u, m) is Some,
                j <= nbrs@.len(),
                forall|t: int|
                    0 <= t < j ==> (((#[trigger] nbrs@[t]) as nat) < g.size()
                        && marks@[nbrs@[t] as int]),
            decreases nbrs@.len() - j,
        {
            let v = nbrs[j];
            proof {
                assert(nbrs@.contains(nbrs@[j as int]));
                g.lemma_edge_endpoints(u, v);
            }
            if !marks[v as usize] {
                proof {
                    if queue@.contains(v) {
                        let t = choose|t: int| 0 <= t < queue@.len() && queue@[t] == v;
                        assert(marks@[queue@[t] as int]);
                    }
                    lemma_push_no_dup(queue@, v);
                    let t = choose|t: int|
                        0 <= t < seeds@.len() && reaches(g, #[trigger] seeds@[t], u);
                    lemma_reaches_step(g, seeds@[t], u, v);
                }
                marks.set(v as usize, true);
                queue.push(v);
            }
            j += 1;
        }
        head += 1;
        proof {
            assert forall|y: u32| (#[trigger] g.edge_between(u, y)) is Some implies ((y as nat)
                < g.size() && marks@[y as int]) by {
                assert(nbrs@.contains(y));
                let t = choose|t: int| 0 <= t < nbrs@.len() && nbrs@[t] == y;
                assert(nbrs@[t] == y);
            }
            lemma_nodup_bounded_len(queue@, g.size());
        }
    }
    proof {
        assert forall|t: int| 0 <= t < seeds@.len() implies (((#[trigger] seeds@[t]) as nat)
            < g.size() && marks@[seeds@[t] as int]) by {
            assert(marks0[seeds@[t] as int]);
        }
        lemma_bfs_post(g, seeds@, queue@, marks@);
    }
    (queue, marks)
}

/// The nodes some seed reaches, in discovery order.
///
/// The traversal behind both queries.  The result is free of duplicates and
/// no longer than the node count: each node is discovered at most once, even
/// when several seeds lead to it, so the work of one call is bounded by one
/// full visit of the graph.
pub fn reach_from<G: GraphLike>(graph: &G, seeds: &Vec<PackageNode>) -> (r: Vec<PackageNode>)
    requires
        graph.wf(),
        forall|t: int|
            0 <= t < seeds@.len() ==> (((#[trigger] seeds@[t]).0 as nat) < graph.size()),
    ensures
        r@.no_duplicates(),
        r@.len() <= graph.size(),
        forall|node: PackageNode|
            #[trigger] r@.contains(node) <==> ((node.0 as nat) < graph.size() && exists|t: int|
                0 <= t < seeds@.len() && reaches(graph, (#[trigger] seeds@[t]).0, node.0)),
{
    let mut raw_seeds: Vec<u32> = Vec::new();
    let mut s: usize = 0;
    while s < seeds.len()
        invariant
            s <= seeds@.len(),
            raw_seeds@.len() == s,
            forall|t: int|
                0 <= t < seeds@.len() ==> (((#[trigger] seeds@[t]).0 as nat) < graph.size()),
            forall|t: int| 0 <= t < s ==> (#[trigger] raw_seeds@[t]) == seeds@[t].0,
        decreases seeds@.len() - s,
    {
        raw_seeds.push(seeds[s].0);
        s += 1;
    }
    proof {
        assert forall|t: int| 0 <= t < raw_seeds@.len() implies ((#[trigger] raw_seeds@[t]) as nat)
            < graph.size() by {
            assert(raw_seeds@[t] == seeds@[t].0);
        }
    }
    let pair = bfs_mark(graph, &raw_seeds);
    let order = pair.0;
    let mut r: Vec<PackageNode> = Vec::new();
    let mut i: usize = 0;
    while i < order.len()
        invariant
            i <= order@.len(),
            r@.len() == i,
            forall|t: int| 0 <= t < i ==> (#[trigger] r@[t]) == PackageNode(order@[t]),
        decreases order@.len() - i,
    {
        r.push(PackageNode(order[i]));
        i += 1;
    }
    proof {
        assert forall|t1: int, t2: int|
            0 <= t1 < r@.len() && 0 <= t2 < r@.len() && t1 != t2 implies r@[t1] != r@[t2] by {
            assert(order@[t1] != order@[t2]);
        }
        assert(r@.no_duplicates());
        assert forall|node: PackageNode|
            #[trigger] r@.contains(node) <==> ((node.0 as nat) < graph.size() && exists|t: int|
                0 <= t < seeds@.len() && reaches(graph, (#[trigger] seeds@[t]).0, node.0)) by {
            if r@.contains(node) {
                let t = choose|t: int| 0 <= t < r@.len() && r@[t] == node;
                assert(order@.contains(order@[t]));
                let tt = choose|tt: int|
                    0 <= tt < raw_seeds@.len() && reaches(graph, #[trigger] raw_seeds@[tt], node.0);
                assert(raw_seeds@[tt] == seeds@[tt].0);
                assert(reaches(graph, seeds@[tt].0, node.0));
            }
            if (node.0 as nat) < graph.size() && exists|t: int|
                0 <= t < seeds@.len() && reaches(graph, (#[trigger] seeds@[t]).0, node.0) {
                let t = choose|t: int|
                    0 <= t < seeds@.len() && reaches(graph, (#[trigger] seeds@[t]).0, node.0);
                assert(raw_seeds@[t] == seeds@[t].0);
                assert(reaches(graph, raw_seeds@[t], node.0));
                assert(pair.1@[node.0 as int]);
                assert(order@.contains(node.0));
                let tt = choose|tt: int| 0 <= tt < order@.len() && order@[tt] == node.0;
                assert(r@[tt] == node);
                assert(r@.contains(r@[tt]));
            }
        }
    }
    r
}

/// An induced subgraph: a chosen node set together with every edge of the
/// underlying graph that joins two chosen nodes, weight preserved.
#[derive(Debug, PartialEq, Eq)]
pub struct Subgraph {
    /// The chosen nodes, in discovery order.
    pub nodes: Vec<PackageNode>,
    /// Every edge of the underlying graph between two chosen nodes.
    pub edges: Vec<(PackageNode, PackageNode, DependencyEdge)>,
}

/// The error of a query that starts from a package name.
#[derive(Debug, Copy, Clone, PartialEq, Eq, Structural)]
pub enum LookupError {
    /// The name matches no installed package.
    NotFound,
}

/// The edges of `graph` that run between two of the chosen nodes.
fn induced_edges<G: GraphLike>(graph: &G, nodes: &Vec<PackageNode>) -> (r: Vec<
    (PackageNode, PackageNode, DependencyEdge),
>)
    requires
        graph.wf(),
    ensures
        forall|e: (PackageNode, PackageNode, DependencyEdge)|
            #[trigger] r@.contains(e) <==> (nodes@.contains(e.0) && nodes@.contains(e.1)
                && graph.edge_between(e.0.0, e.1.0) == Some(e.2)),
{
    let mut r: Vec<(PackageNode, PackageNode, DependencyEdge)> = Vec::new();
    let mut i: usize = 0;
    while i < nodes.len()
        invariant
            graph.wf(),
            i <= nodes@.len(),
            forall|e: (PackageNode, PackageNode, DependencyEdge)|
                #[trigger] r@.contains(e) <==> (exists|ia: int, jb: int|
                    0 <= ia < i && 0 <= jb < nodes@.len() && (#[trigger] nodes@[ia]) == e.0 && (
                    #[trigger] nodes@[jb]) == e.1 && graph.edge_between(e.0.0, e.1.0) == Some(
                        e.2,
                    )),
        decreases nodes@.len() - i,
    {
        let a = nodes[i];
        let mut j: usize = 0;
        while j < nodes.len()
            invariant
                graph.wf(),
                i < nodes@.len(),
                a == nodes@[i as int],
                j <= nodes@.len(),
                forall|e: (PackageNode, PackageNode, DependencyEdge)|
                    #[trigger] r@.contains(e) <==> (exists|ia: int, jb: int|
                        0 <= ia <= i && 0 <= jb < nodes@.len() && (ia < i || jb < j) && (
                        #[trigger] nodes@[ia]) == e.0 && (#[trigger] nodes@[jb]) == e.1
                            && graph.edge_between(e.0.0, e.1.0) == Some(e.2)),
            decreases nodes@.len() - j,
        {
            let b = nodes[j];
            match graph.edge_query(a.0, b.0) {
                Some(w) => {
                    proof {
                        assert(nodes@[i as int] == a && nodes@[j as int] == b);
                    }
                    r.push((a, b, w));
                },
                None => {},
            }
            j += 1;
        }
        i += 1;
    }
    proof {
        assert forall|e: (PackageNode, PackageNode, DependencyEdge)|
            #[trigger] r@.contains(e) <==> (nodes@.contains(e.0) && nodes@.contains(e.1)
                && graph.edge_between(e.0.0, e.1.0) == Some(e.2)) by {
            if r@.contains(e) {
                let (ia, jb) = choose|ia: int, jb: int|
                    0 <= ia < nodes@.len() && 0 <= jb < nodes@.len() && (#[trigger] nodes@[ia])
                        == e.0 && (#[trigger] nodes@[jb]) == e.1 && graph.edge_between(
                        e.0.0,
                        e.1.0,
                    ) == Some(e.2);
                assert(nodes@.contains(nodes@[ia]));
                assert(nodes@.contains(nodes@[jb]));
            }
            if nodes@.contains(e.0) && nodes@.contains(e.1) && graph.edge_between(e.0.0, e.1.0)
                == Some(e.2) {
                let ia = choose|ia: int| 0 <= ia < nodes@.len() && nodes@[ia] == e.0;
                let jb = choose|jb: int| 0 <= jb < nodes@.len() && nodes@[jb] == e.1;
                assert(0 <= ia < nodes@.len() && 0 <= jb < nodes@.len() && nodes@[ia] == e.0
                    && nodes@[jb] == e.1 && graph.edge_between(e.0.0, e.1.0) == Some(e.2));
            }
        }
    }
    r
}

/// Get the orphans in a dependency graph.
///
/// An orphan package is a package that no explicitly installed package is
/// transitively supported by: no walk leads from it to an explicit node.
/// One traversal over the reversed view marks, from all explicit roots at
/// once, everything that supports one of them; the unmarked nodes are the
/// orphans, returned in handle order.
pub fn orphans<G: GraphLike>(graph: &G) -> (r: Vec<PackageNode>)
    requires
        graph.wf(),
    ensures
        r@.no_duplicates(),
        forall|node: PackageNode| #[trigger] r@.contains(node) <==> is_orphan(graph, node.0),
{
    let n = graph.node_count();
    proof {
        graph.lemma_size_bounded();
    }
    let mut seeds: Vec<u32> = Vec::new();
    let mut i: usize = 0;
    while i < n
        invariant
            graph.wf(),
            n as nat == graph.size(),
            graph.size() <= u32::MAX,
            i <= n,
            forall|t: int|
                0 <= t < seeds@.len() ==> (((#[trigger] seeds@[t]) as nat) < graph.size()
                    && graph.explicit_node(seeds@[t])),
            forall|e: u32|
                (e as nat) < i ==> ((#[trigger] graph.explicit_node(e)) <==> seeds@.contains(e)),
        decreases n - i,
    {
        if graph.is_explicit(i as u32) {
            seeds.push(i as u32);
        }
        i += 1;
    }
    let rv = ReversedView { base: graph };
    let pair = bfs_mark(&rv, &seeds);
    let marks = pair.1;
    let mut r: Vec<PackageNode> = Vec::new();
    let mut m: usize = 0;
    while m < n
        invariant
            n as nat == graph.size(),
            graph.size() <= u32::MAX,
            marks@.len() == n,
            m <= n,
            r@.no_duplicates(),
            forall|node: PackageNode|
                #[trigger] r@.contains(node) <==> ((node.0 as nat) < m && !marks@[node.0 as int]),
        decreases n - m,
    {
        if !marks[m] {
            proof {
                if r@.contains(PackageNode(m as u32)) {
                    assert((m as u32 as nat) < m);
                }
                lemma_push_no_dup_nodes(r@, PackageNode(m as u32));
            }
            r.push(PackageNode(m as u32));
        }
        m += 1;
    }
    proof {
        assert forall|mm: u32|
            (mm as nat) < graph.size() implies ((#[trigger] marks@[mm as int])
            <==> supports_explicit(graph, mm)) by {
            if marks@[mm as int] {
                let t = choose|t: int|
                    0 <= t < seeds@.len() && reaches(&rv, #[trigger] seeds@[t], mm);
                lemma_reverse_reaches(&rv, seeds@[t], mm);
                assert((seeds@[t] as nat) < graph.size() && graph.explicit_node(seeds@[t])
                    && reaches(graph, mm, seeds@[t]));
            }
            if supports_explicit(graph, mm) {
                let e = choose|e: u32|
                    (e as nat) < graph.size() && #[trigger] graph.explicit_node(e) && reaches(
                        graph,
                        mm,
                        e,
                    );
                assert(seeds@.contains(e));
                let t = choose|t: int| 0 <= t < seeds@.len() && seeds@[t] == e;
                lemma_reverse_reaches(&rv, e, mm);
                assert(0 <= t < seeds@.len() && reaches(&rv, seeds@[t], mm));
            }
        }
        assert forall|node: PackageNode|
            #[trigger] r@.contains(node) <==> is_orphan(graph, node.0) by {
            if (node.0 as nat) < graph.size() {
                assert(marks@[node.0 as int] <==> supports_explicit(graph, node.0));
            }
        }
    }
    r
}

/// Get the orphans as an induced subgraph: the orphan nodes and every edge
/// of the graph that runs between two of them.
pub fn orphans_subgraph<G: GraphLike>(graph: &G) -> (r: Subgraph)
    requires
        graph.wf(),
    ensures
        r.nodes@.no_duplicates(),
        forall|node: PackageNode| #[trigger] r.nodes@.contains(node) <==> is_orphan(graph, node.0),
        forall|e: (PackageNode, PackageNode, DependencyEdge)|
            #[trigger] r.edges@.contains(e) <==> (r.nodes@.contains(e.0) && r.nodes@.contains(e.1)
                && graph.edge_between(e.0.0, e.1.0) == Some(e.2)),
{
    let nodes = orphans(graph);
    let edges = induced_edges(graph, &nodes);
    Subgraph { nodes, edges }
}

/// Get the dependents of `start`: the induced subgraph over every package
/// that some walk from `start` leads to, `start` among them.
///
/// These are the packages that would be affected if `start` were removed.
pub fn dependents<G: GraphLike>(graph: &G, start: PackageNode) -> (r: Subgraph)
    requires
        graph.wf(),
        (start.0 as nat) < graph.size(),
    ensures
        r.nodes@.no_duplicates(),
        r.nodes@.len() <= graph.size(),
        r.nodes@.contains(start),
        forall|node: PackageNode|
            #[trigger] r.nodes@.contains(node) <==> ((node.0 as nat) < graph.size() && reaches(
                graph,
                start.0,
                node.0,
            )),
        forall|e: (PackageNode, PackageNode, DependencyEdge)|
            #[trigger] r.edges@.contains(e) <==> (r.nodes@.contains(e.0) && r.nodes@.contains(e.1)
                && graph.edge_between(e.0.0, e.1.0) == Some(e.2)),
{
    let mut seeds: Vec<PackageNode> = Vec::new();
    seeds.push(start);
    let nodes = reach_from(graph, &seeds);
    proof {
        assert(seeds@[0] == start);
        lemma_reaches_self(graph, start.0);
        assert forall|node: PackageNode|
            #[trigger] nodes@.contains(node) <==> ((node.0 as nat) < graph.size() && reaches(
                graph,
                start.0,
                node.0,
            )) by {
            if (node.0 as nat) < graph.size() && reaches(graph, start.0, node.0) {
                assert(0 <= 0 < seeds@.len() && reaches(graph, (seeds@[0]).0, node.0));
            }
            if nodes@.contains(node) {
                let t = choose|t: int|
                    0 <= t < seeds@.len() && reaches(graph, (#[trigger] seeds@[t]).0, node.0);
                assert(t == 0);
            }
        }
        assert(nodes@.contains(start));
    }
    let edges = induced_edges(graph, &nodes);
    Subgraph { nodes, edges }
}

/// Get the dependents of the package that a name resolves to.
///
/// An unknown name fails with a lookup error, and no traversal runs.
pub fn dependents_by_name(graph: &Graph, name: &String) -> (r: Result<Subgraph, LookupError>)
    requires
        graph.wf(),
    ensures
        match r {
            Result::Err(e) => e == LookupError::NotFound && unresolved(graph.records(), name@),
            Result::Ok(sub) => {
                &&& sub.nodes@.no_duplicates()
                &&& forall|node: PackageNode|
                    #[trigger] sub.nodes@.contains(node) <==> (exists|j: u32|
                        #[trigger] resolves_to(graph.records(), name@, j as int) && (node.0 as nat)
                            < graph.size() && reaches(graph, j, node.0))
                &&& forall|e: (PackageNode, PackageNode, DependencyEdge)|
                    #[trigger] sub.edges@.contains(e) <==> (sub.nodes@.contains(e.0)
                        && sub.nodes@.contains(e.1) && graph.edge_between(e.0.0, e.1.0) == Some(
                        e.2,
                    ))
            },
        },
{
    match graph.lookup(name) {
        None => Err(LookupError::NotFound),
        Some(node) => {
            let sub = dependents(graph, node);
            proof {
                assert forall|pn: PackageNode|
                    #[trigger] sub.nodes@.contains(pn) <==> (exists|j: u32|
                        #[trigger] resolves_to(graph.records(), name@, j as int) && (pn.0 as nat)
                            < graph.size() && reaches(graph, j, pn.0)) by {
                    if sub.nodes@.contains(pn) {
                        assert(resolves_to(graph.records(), name@, node.0 as int) && (pn.0 as nat)
                            < graph.size() && reaches(graph, node.0, pn.0));
                    }
                    if exists|j: u32|
                        #[trigger] resolves_to(graph.records(), name@, j as int) && (pn.0 as nat)
                            < graph.size() && reaches(graph, j, pn.0) {
                        let j = choose|j: u32|
                            #[trigger] resolves_to(graph.records(), name@, j as int) && (
                            pn.0 as nat) < graph.size() && reaches(graph, j, pn.0);
                        lemma_resolves_unique(graph.records(), name@, j as int, node.0 as int);
                    }
                }
            }
            Ok(sub)
        },
    }
}

/// Pushing a fresh node keeps a node list free of duplicates.
proof fn lemma_push_no_dup_nodes(s: Seq<PackageNode>, v: PackageNode)
    requires
        s.no_duplicates(),
        !s.contains(v),
    ensures
        s.push(v).no_duplicates(),
{
    let q = s.push(v);
    assert forall|i1: int, i2: int|
        0 <= i1 < q.len() && 0 <= i2 < q.len() && i1 != i2 implies q[i1] != q[i2] by {
        if i1 == s.len() as int {
            if q[i2] == v {
                assert(s.contains(s[i2]));
            }
        } else if i2 == s.len() as int {
            if q[i1] == v {
                assert(s.contains(s[i1]));
            }
        }
    }
}

/// Orphans and the explicit roots are disjoint: an explicitly installed
/// package supports itself, so it is never an orphan.
pub proof fn lemma_orphans_explicit_disjoint<G: GraphLike>(g: &G, e: u32)
    requires
        g.wf(),
        (e as nat) < g.size(),
        g.explicit_node(e),
    ensures
        !is_orphan(g, e),
{
    lemma_reaches_self(g, e);
    assert((e as nat) < g.size() && g.explicit_node(e) && reaches(g, e, e));
}

/// With no explicitly installed package at all, every package is an orphan.
pub proof fn lemma_no_roots_all_orphans<G: GraphLike>(g: &G, n: u32)
    requires
        g.wf(),
        (n as nat) < g.size(),
        forall|e: u32| (e as nat) < g.size() ==> !(#[trigger] g.explicit_node(e)),
    ensures
        is_orphan(g, n),
{
    if supports_explicit(g, n) {
        let e = choose|e: u32|
            (e as nat) < g.size() && #[trigger] g.explicit_node(e) && reaches(g, n, e);
    }
}

/// Hiding the optional edges never un-orphans a package: every orphan of
/// the underlying graph is an orphan of its required-only view.
pub proof fn lemma_required_only_orphans_superset<'a, G: GraphLike>(f: &RequiredOnly<'a, G>, n: u32)
    requires
        f.wf(),
        is_orphan(f.base, n),
    ensures
        is_orphan(f, n),
{
    if supports_explicit(f, n) {
        let e = choose|e: u32|
            (e as nat) < f.size() && #[trigger] f.explicit_node(e) && reaches(f, n, e);
        let p = choose|p: Seq<u32>| #[trigger] is_path(f, p) && p.first() == n && p.last() == e;
        assert forall|i: int| 0 <= i < p.len() - 1 implies (#[trigger] f.base.edge_between(
            p[i],
            p[i + 1],
        )) is Some by {
            assert(f.edge_between(p[i], p[i + 1]) is Some);
        }
        assert(is_path(f.base, p));
        assert(reaches(f.base, n, e));
        assert((e as nat) < f.base.size() && f.base.explicit_node(e) && reaches(f.base, n, e));
    }
}

/// One graph, one orphan set: any two results that both answer orphan
/// membership for the same unmodified graph agree on every node.
pub proof fn lemma_orphans_stable<G: GraphLike>(g: &G, r1: Seq<PackageNode>, r2: Seq<PackageNode>)
    requires
        forall|node: PackageNode| #[trigger] r1.contains(node) <==> is_orphan(g, node.0),
        forall|node: PackageNode| #[trigger] r2.contains(node) <==> is_orphan(g, node.0),
    ensures
        forall|node: PackageNode| #[trigger] r1.contains(node) <==> r2.contains(node),
{
}

} // verus!
