//! Graphs of installed packages.

use vstd::prelude::*;

use crate::storage::{
    store_add_edge, store_add_node, store_all_edges, store_clear, store_edge_weight, store_edges,
    store_in_neighbors, store_new, store_nodes, store_out_neighbors,
};
use petgraph::prelude::DiGraphMap;

verus! {

broadcast use {
    vstd::seq_lib::lemma_seq_contains_after_push,
    vstd::seq_lib::lemma_seq_take_contains,
    vstd::seq_lib::lemma_seq_take_index,
    vstd::seq_lib::lemma_seq_take_len,
};

/// The weight of a dependency edge.
#[derive(Debug, Copy, Clone, PartialEq, Eq, Structural)]
pub enum DependencyEdge {
    /// A required dependency.
    Required,
    /// An optional dependency.
    Optional,
}

/// Why a package is installed.
#[derive(Debug, Copy, Clone, PartialEq, Eq, Structural)]
pub enum InstallReason {
    /// The user asked for the package directly.
    Explicit,
    /// The package was pulled in as a dependency of another one.
    Dependency,
}

/// One installed package, as the package record provider reports it.
#[derive(Debug, Clone)]
pub struct PackageRecord {
    /// The package's name.
    pub name: String,
    /// The package's version.
    pub version: String,
    /// Whether the package was asked for directly or pulled in as a dependency.
    pub reason: InstallReason,
    /// Names of the packages that require this one.
    pub required_by: Vec<String>,
    /// Names of the packages for which this one is an optional dependency.
    pub optional_for: Vec<String>,
}

/// A package node in a graph.
///
/// An opaque handle issued by [`Graph`] at construction time.  Two records
/// with the same name still get distinct handles: identity follows the
/// record, never the name.
#[derive(Debug, Copy, Clone, PartialEq, Eq, Structural)]
pub struct PackageNode(pub u32);

/// `name` resolves to the record at index `j`: the first record carrying
/// that exact name.
pub open spec fn resolves_to(records: Seq<PackageRecord>, name: Seq<char>, j: int) -> bool {
    &&& 0 <= j < records.len()
    &&& records[j].name@ == name
    &&& forall|k: int| 0 <= k < j ==> (#[trigger] records[k].name@) != name
}

/// `name` resolves to no record at all.
pub open spec fn unresolved(records: Seq<PackageRecord>, name: Seq<char>) -> bool {
    forall|k: int| 0 <= k < records.len() ==> (#[trigger] records[k].name@) != name
}

/// A name resolves to at most one record.
pub proof fn lemma_resolves_unique(records: Seq<PackageRecord>, name: Seq<char>, j1: int, j2: int)
    requires
        resolves_to(records, name, j1),
        resolves_to(records, name, j2),
    ensures
        j1 == j2,
{
    if j1 < j2 {
        assert(records[j1].name@ != name);
    }
    if j2 < j1 {
        assert(records[j2].name@ != name);
    }
}

/// Whether some name in package `a`'s required-by list resolves to package `b`.
pub open spec fn record_requires(records: Seq<PackageRecord>, a: u32, b: u32) -> bool {
    exists|k: int|
        0 <= k < records[a as int].required_by@.len() && resolves_to(
            records,
            (#[trigger] records[a as int].required_by@[k])@,
            b as int,
        )
}

/// Whether some name in package `a`'s optional-for list resolves to package `b`.
pub open spec fn record_optional(records: Seq<PackageRecord>, a: u32, b: u32) -> bool {
    exists|k: int|
        0 <= k < records[a as int].optional_for@.len() && resolves_to(
            records,
            (#[trigger] records[a as int].optional_for@[k])@,
            b as int,
        )
}

/// The edge the finished graph carries from `a` to `b`.
///
/// Edges point from prerequisite to dependent.  Both lists of a record are
/// walked in order, the required-by list first, and a later write to the same
/// ordered pair wins, so an optional relation beside a required one for the
/// same pair leaves the optional weight.
pub open spec fn record_edge(records: Seq<PackageRecord>, a: u32, b: u32) -> Option<
    DependencyEdge,
> {
    if (a as nat) < records.len() {
        if record_optional(records, a, b) {
            Some(DependencyEdge::Optional)
        } else if record_requires(records, a, b) {
            Some(DependencyEdge::Required)
        } else {
            None
        }
    } else {
        None
    }
}

/// The capability surface both traversal algorithms run against: a plain
/// graph and every filtered view expose the same queries.
pub trait GraphLike: Sized {
    /// How many nodes the graph has; its handles are `0 .. size`.
    spec fn size(&self) -> nat;

    /// The weight of the edge from `a` to `b`, or `None` when there is none.
    spec fn edge_between(&self, a: u32, b: u32) -> Option<DependencyEdge>;

    /// Whether node `n` was installed explicitly.
    spec fn explicit_node(&self, n: u32) -> bool;

    /// The graph's internal invariant.
    spec fn wf(&self) -> bool;

    /// Handles fit in a `u32`: the graph never has more nodes than that.
    proof fn lemma_size_bounded(&self)
        requires
            self.wf(),
        ensures
            self.size() <= u32::MAX,
    ;

    /// Every edge runs between issued handles.
    proof fn lemma_edge_endpoints(&self, a: u32, b: u32)
        requires
            self.wf(),
            self.edge_between(a, b) is Some,
        ensures
            (a as nat) < self.size(),
            (b as nat) < self.size(),
    ;

    /// The number of nodes.
    fn node_count(&self) -> (r: usize)
        requires
            self.wf(),
        ensures
            r as nat == self.size(),
    ;

    /// The targets of the edges leaving `n`, once each.
    fn out_neighbors(&self, n: u32) -> (r: Vec<u32>)
        requires
            self.wf(),
            (n as nat) < self.size(),
        ensures
            r@.no_duplicates(),
            forall|m: u32| #[trigger] r@.contains(m) <==> self.edge_between(n, m) is Some,
    ;

    /// The sources of the edges entering `n`, once each.
    fn in_neighbors(&self, n: u32) -> (r: Vec<u32>)
        requires
            self.wf(),
            (n as nat) < self.size(),
        ensures
            r@.no_duplicates(),
            forall|m: u32| #[trigger] r@.contains(m) <==> self.edge_between(m, n) is Some,
    ;

    /// Whether node `n` was installed explicitly.
    fn is_explicit(&self, n: u32) -> (r: bool)
        requires
            self.wf(),
            (n as nat) < self.size(),
        ensures
            r == self.explicit_node(n),
    ;

    /// The weight of the edge from `a` to `b`, if any.
    fn edge_query(&self, a: u32, b: u32) -> (r: Option<DependencyEdge>)
        requires
            self.wf(),
        ensures
            r == self.edge_between(a, b),
    ;
}

/// The edge the storage map holds from `a` to `b`, as an option.
spec fn stored_edge(store: DiGraphMap<u32, DependencyEdge>, a: u32, b: u32) -> Option<
    DependencyEdge,
> {
    if store_edges(store).dom().contains((a, b)) {
        Some(store_edges(store)[(a, b)])
    } else {
        None
    }
}

/// A dependency graph over installed packages.
///
/// Nodes are handles into the record arena; edges point from prerequisite to
/// dependent and carry a [`DependencyEdge`] weight.  Built once per query by
/// [`build_graph`], never mutated afterwards.
pub struct Graph {
    store: DiGraphMap<u32, DependencyEdge>,
    packages: Vec<PackageRecord>,
}

impl Graph {
    /// The package records the graph was built from, in handle order.
    pub closed spec fn records(self) -> Seq<PackageRecord> {
        self.packages@
    }

    /// Resolve a name to its node, if any record carries it.
    pub fn lookup(&self, name: &String) -> (r: Option<PackageNode>)
        requires
            self.wf(),
        ensures
            match r {
                Some(node) => resolves_to(self.records(), name@, node.0 as int),
                None => unresolved(self.records(), name@),
            },
    {
        match resolve_in(&self.packages, name) {
            Some(j) => Some(PackageNode(j)),
            None => None,
        }
    }

    /// Every node of the graph, in handle order.
    pub fn nodes(&self) -> (r: Vec<PackageNode>)
        requires
            self.wf(),
        ensures
            r@.len() == self.size(),
            forall|i: int| 0 <= i < r@.len() ==> (#[trigger] r@[i]) == PackageNode(i as u32),
    {
        let n = self.packages.len();
        let mut r: Vec<PackageNode> = Vec::new();
        let mut i: usize = 0;
        while i < n
            invariant
                n == self.size(),
                n <= u32::MAX,
                i <= n,
                r@.len() == i,
                forall|t: int| 0 <= t < i ==> (#[trigger] r@[t]) == PackageNode(t as u32),
            decreases n - i,
        {
            r.push(PackageNode(i as u32));
            i += 1;
        }
        r
    }

    /// Every edge of the graph with its weight, each ordered pair once.
    pub fn edges(&self) -> (r: Vec<(PackageNode, PackageNode, DependencyEdge)>)
        requires
            self.wf(),
        ensures
            forall|e: (PackageNode, PackageNode, DependencyEdge)|
                #[trigger] r@.contains(e) <==> self.edge_between(e.0.0, e.1.0) == Some(e.2),
    {
        let raw = store_all_edges(&self.store);
        let mut r: Vec<(PackageNode, PackageNode, DependencyEdge)> = Vec::new();
        let mut i: usize = 0;
        while i < raw.len()
            invariant
                i <= raw@.len(),
                r@.len() == i,
                forall|t: int|
                    0 <= t < i ==> (#[trigger] r@[t]) == (
                        PackageNode(raw@[t].0),
                        PackageNode(raw@[t].1),
                        raw@[t].2,
                    ),
            decreases raw@.len() - i,
        {
            let (a, b, w) = raw[i];
            r.push((PackageNode(a), PackageNode(b), w));
            i += 1;
        }
        proof {
            assert forall|e: (PackageNode, PackageNode, DependencyEdge)|
                #[trigger] r@.contains(e) <==> self.edge_between(e.0.0, e.1.0) == Some(e.2) by {
                if r@.contains(e) {
                    let t = choose|t: int| 0 <= t < r@.len() && r@[t] == e;
                    assert(raw@.contains(raw@[t]));
                }
                if self.edge_between(e.0.0, e.1.0) == Some(e.2) {
                    assert(raw@.contains((e.0.0, e.1.0, e.2)));
                    let t = choose|t: int| 0 <= t < raw@.len() && raw@[t] == (e.0.0, e.1.0, e.2);
                    assert(r@[t] == e);
                    assert(r@.contains(r@[t]));
                }
            }
        }
        r
    }
}

impl GraphLike for Graph {
    open spec fn size(&self) -> nat {
        self.records().len()
    }

    closed spec fn edge_between(&self, a: u32, b: u32) -> Option<DependencyEdge> {
        stored_edge(self.store, a, b)
    }

    open spec fn explicit_node(&self, n: u32) -> bool {
        self.records()[n as int].reason == InstallReason::Explicit
    }

    closed spec fn wf(&self) -> bool {
        &&& self.packages@.len() <= u32::MAX
        &&& forall|m: u32|
            store_nodes(self.store).contains(m) <==> (m as nat) < self.packages@.len()
        &&& forall|a: u32, b: u32|
            #[trigger] store_edges(self.store).dom().contains((a, b)) ==> (a as nat)
                < self.packages@.len() && (b as nat) < self.packages@.len()
    }

    proof fn lemma_size_bounded(&self) {
    }

    proof fn lemma_edge_endpoints(&self, a: u32, b: u32) {
    }

    fn node_count(&self) -> (r: usize) {
        self.packages.len()
    }

    fn out_neighbors(&self, n: u32) -> (r: Vec<u32>) {
        store_out_neighbors(&self.store, n)
    }

    fn in_neighbors(&self, n: u32) -> (r: Vec<u32>) {
        store_in_neighbors(&self.store, n)
    }

    fn is_explicit(&self, n: u32) -> (r: bool) {
        match self.packages[n as usize].reason {
            InstallReason::Explicit => true,
            InstallReason::Dependency => false,
        }
    }

    fn edge_query(&self, a: u32, b: u32) -> (r: Option<DependencyEdge>) {
        store_edge_weight(&self.store, a, b)
    }
}

impl PackageNode {
    /// Get the package record of this node.
    pub fn package<'a>(self, graph: &'a Graph) -> (r: &'a PackageRecord)
        requires
            graph.wf(),
            (self.0 as nat) < graph.size(),
        ensures
            *r == graph.records()[self.0 as int],
    {
        &graph.packages[self.0 as usize]
    }
}

/// A view of a graph that hides every optional edge.
///
/// Owns no data; every query is forwarded to the underlying graph and edges
/// are filtered by weight on the way out.
pub struct RequiredOnly<'a, G> {
    /// The graph under the view.
    pub base: &'a G,
}

/// Restrict a graph to its required edges.
///
/// Constant-time; the view re-evaluates the filter on every query instead of
/// precomputing a subgraph.
pub fn filter_required_only<'a, G: GraphLike>(graph: &'a G) -> (r: RequiredOnly<'a, G>)
    ensures
        r.base == graph,
{
    RequiredOnly { base: graph }
}

/// The neighbors of `n` joined to it by a required edge, once each.
fn required_neighbors<G: GraphLike>(base: &G, n: u32, outgoing: bool) -> (r: Vec<u32>)
    requires
        base.wf(),
        (n as nat) < base.size(),
    ensures
        r@.no_duplicates(),
        forall|m: u32|
            #[trigger] r@.contains(m) <==> (if outgoing {
                base.edge_between(n, m)
            } else {
                base.edge_between(m, n)
            }) == Some(DependencyEdge::Required),
{
    let nbrs = if outgoing {
        base.out_neighbors(n)
    } else {
        base.in_neighbors(n)
    };
    let mut r: Vec<u32> = Vec::new();
    let mut j: usize = 0;
    while j < nbrs.len()
        invariant
            base.wf(),
            (n as nat) < base.size(),
            j <= nbrs@.len(),
            nbrs@.no_duplicates(),
            forall|m: u32|
                #[trigger] nbrs@.contains(m) <==> (if outgoing {
                    base.edge_between(n, m)
                } else {
                    base.edge_between(m, n)
                }) is Some,
            forall|m: u32|
                #[trigger] r@.contains(m) <==> (nbrs@.take(j as int).contains(m) && (if outgoing {
                    base.edge_between(n, m)
                } else {
                    base.edge_between(m, n)
                }) == Some(DependencyEdge::Required)),
            r@.no_duplicates(),
        decreases nbrs@.len() - j,
    {
        let m = nbrs[j];
        proof {
            assert(nbrs@.contains(nbrs@[j as int]));
        }
        let w = if outgoing {
            base.edge_query(n, m)
        } else {
            base.edge_query(m, n)
        };
        match w {
            Some(DependencyEdge::Required) => {
                proof {
                    if r@.contains(m) {
                        let t = choose|t: int| 0 <= t < j && nbrs@.take(j as int)[t] == m;
                        assert(nbrs@[t] == nbrs@[j as int]);
                    }
                }
                r.push(m);
            }
            _ => {},
        }
        j += 1;
        proof {
            assert(nbrs@.take(j as int) =~= nbrs@.take(j as int - 1).push(nbrs@[j as int - 1]));
        }
    }
    proof {
        assert(nbrs@.take(nbrs@.len() as int) =~= nbrs@);
    }
    r
}

impl<'a, G: GraphLike> GraphLike for RequiredOnly<'a, G> {
    open spec fn size(&self) -> nat {
        self.base.size()
    }

    open spec fn edge_between(&self, a: u32, b: u32) -> Option<DependencyEdge> {
        match self.base.edge_between(a, b) {
            Some(DependencyEdge::Required) => Some(DependencyEdge::Required),
            _ => None,
        }
    }

    open spec fn explicit_node(&self, n: u32) -> bool {
        self.base.explicit_node(n)
    }

    open spec fn wf(&self) -> bool {
        self.base.wf()
    }

    proof fn lemma_size_bounded(&self) {
        self.base.lemma_size_bounded();
    }

    proof fn lemma_edge_endpoints(&self, a: u32, b: u32) {
        self.base.lemma_edge_endpoints(a, b);
    }

    fn node_count(&self) -> (r: usize) {
        self.base.node_count()
    }

    fn out_neighbors(&self, n: u32) -> (r: Vec<u32>) {
        required_neighbors(self.base, n, true)
    }

    fn in_neighbors(&self, n: u32) -> (r: Vec<u32>) {
        required_neighbors(self.base, n, false)
    }

    fn is_explicit(&self, n: u32) -> (r: bool) {
        self.base.is_explicit(n)
    }

    fn edge_query(&self, a: u32, b: u32) -> (r: Option<DependencyEdge>) {
        match self.base.edge_query(a, b) {
            Some(DependencyEdge::Required) => Some(DependencyEdge::Required),
            _ => None,
        }
    }
}

/// A view of a graph with every edge turned around.
///
/// Multi-source orphan marking walks dependencies backwards through this
/// view with the same traversal that walks dependents forwards.
pub struct ReversedView<'a, G> {
    /// The graph under the view.
    pub base: &'a G,
}

impl<'a, G: GraphLike> GraphLike for ReversedView<'a, G> {
    open spec fn size(&self) -> nat {
        self.base.size()
    }

    open spec fn edge_between(&self, a: u32, b: u32) -> Option<DependencyEdge> {
        self.base.edge_between(b, a)
    }

    open spec fn explicit_node(&self, n: u32) -> bool {
        self.base.explicit_node(n)
    }

    open spec fn wf(&self) -> bool {
        self.base.wf()
    }

    proof fn lemma_size_bounded(&self) {
        self.base.lemma_size_bounded();
    }

    proof fn lemma_edge_endpoints(&self, a: u32, b: u32) {
        self.base.lemma_edge_endpoints(b, a);
    }

    fn node_count(&self) -> (r: usize) {
        self.base.node_count()
    }

    fn out_neighbors(&self, n: u32) -> (r: Vec<u32>) {
        self.base.in_neighbors(n)
    }

    fn in_neighbors(&self, n: u32) -> (r: Vec<u32>) {
        self.base.out_neighbors(n)
    }

    fn is_explicit(&self, n: u32) -> (r: bool) {
        self.base.is_explicit(n)
    }

    fn edge_query(&self, a: u32, b: u32) -> (r: Option<DependencyEdge>) {
        self.base.edge_query(b, a)
    }
}

/// Find the first record carrying exactly `name`.
fn resolve_in(records: &Vec<PackageRecord>, name: &String) -> (r: Option<u32>)
    requires
        records@.len() <= u32::MAX,
    ensures
        match r {
            Some(j) => resolves_to(records@, name@, j as int),
            None => unresolved(records@, name@),
        },
{
    let n = records.len();
    let mut i: usize = 0;
    while i < n
        invariant
            n == records@.len(),
            n <= u32::MAX,
            i <= n,
            forall|k: int| 0 <= k < i ==> (#[trigger] records@[k].name@) != name@,
        decreases n - i,
    {
        if records[i].name == *name {
            return Some(i as u32);
        }
        i += 1;
    }
    None
}

/// A non-fatal diagnostic from graph construction: a name in a record's
/// relation list resolved to no record, so that edge was dropped.
#[derive(Debug, Clone, PartialEq, Eq)]
pub struct BuildWarning {
    /// The name of the package whose relation list held the unresolved name.
    pub package: String,
    /// The name that resolved to no record.
    pub missing: String,
    /// The weight the dropped edge would have carried.
    pub edge: DependencyEdge,
}

/// `w` reports the unresolved name at position `k` of the relation list of
/// the record at `p` that its weight picks.
pub open spec fn warning_matches(
    records: Seq<PackageRecord>,
    w: BuildWarning,
    p: int,
    k: int,
) -> bool {
    &&& 0 <= p < records.len()
    &&& match w.edge {
        DependencyEdge::Required => {
            &&& 0 <= k < records[p].required_by@.len()
            &&& w.package == records[p].name
            &&& w.missing == records[p].required_by@[k]
            &&& unresolved(records, records[p].required_by@[k]@)
        },
        DependencyEdge::Optional => {
            &&& 0 <= k < records[p].optional_for@.len()
            &&& w.package == records[p].name
            &&& w.missing == records[p].optional_for@[k]
            &&& unresolved(records, records[p].optional_for@[k]@)
        },
    }
}

/// `w` reports a real unresolved cross-reference of `records`.
pub open spec fn warning_ok(records: Seq<PackageRecord>, w: BuildWarning) -> bool {
    exists|p: int, k: int| warning_matches(records, w, p, k)
}

/// Some name among the first `k` of `a`'s required-by list resolves to `b`.
spec fn req_prefix_hits(records: Seq<PackageRecord>, a: u32, b: u32, k: int) -> bool {
    exists|t: int|
        0 <= t < k && t < records[a as int].required_by@.len() && resolves_to(
            records,
            (#[trigger] records[a as int].required_by@[t])@,
            b as int,
        )
}

/// Some name among the first `k` of `a`'s optional-for list resolves to `b`.
spec fn opt_prefix_hits(records: Seq<PackageRecord>, a: u32, b: u32, k: int) -> bool {
    exists|t: int|
        0 <= t < k && t < records[a as int].optional_for@.len() && resolves_to(
            records,
            (#[trigger] records[a as int].optional_for@[t])@,
            b as int,
        )
}

/// Build a dependency graph from the installed package records.
///
/// Walks every record once, adds its node, and adds one edge from the record
/// to each package that a name in its required-by or optional-for list
/// resolves to, weighted accordingly.  A name that resolves to no record
/// drops only that edge and leaves a warning; construction never fails.
pub fn build_graph(records: Vec<PackageRecord>) -> (r: (Graph, Vec<BuildWarning>))
    requires
        records@.len() <= u32::MAX,
    ensures
        (r.0).wf(),
        (r.0).records() == records@,
        (r.0).size() == records@.len(),
        forall|a: u32, b: u32| (#[trigger] (r.0).edge_between(a, b)) == record_edge(records@, a, b),
        forall|t: int| 0 <= t < r.1@.len() ==> warning_ok(records@, #[trigger] r.1@[t]),
        forall|p: int, k: int|
            0 <= p < records@.len() && 0 <= k < records@[p].required_by@.len() && unresolved(
                records@,
                (#[trigger] records@[p].required_by@[k])@,
            ) ==> r.1@.contains(
                (BuildWarning {
                    package: records@[p].name,
                    missing: records@[p].required_by@[k],
                    edge: DependencyEdge::Required,
                }),
            ),
        forall|p: int, k: int|
            0 <= p < records@.len() && 0 <= k < records@[p].optional_for@.len() && unresolved(
                records@,
                (#[trigger] records@[p].optional_for@[k])@,
            ) ==> r.1@.contains(
                (BuildWarning {
                    package: records@[p].name,
                    missing: records@[p].optional_for@[k],
                    edge: DependencyEdge::Optional,
                }),
            ),
{
    let n = records.len();
    let mut store = store_new();
    store_clear(&mut store);
    let mut warnings: Vec<BuildWarning> = Vec::new();
    let mut i: usize = 0;
    while i < n
        invariant
            n == records@.len(),
            n <= u32::MAX,
            i <= n,
            forall|m: u32| store_nodes(store).contains(m) ==> (m as nat) < n,
            forall|m: u32| (m as nat) < i ==> store_nodes(store).contains(m),
            forall|aa: u32, b: u32|
                #[trigger] store_edges(store).dom().contains((aa, b)) ==> (aa as nat) < i && (
                b as nat) < n,
            forall|aa: u32, b: u32|
                (aa as nat) < i ==> (#[trigger] stored_edge(store, aa, b)) == record_edge(
                    records@,
                    aa,
                    b,
                ),
            forall|t: int| 0 <= t < warnings@.len() ==> warning_ok(records@, #[trigger] warnings@[t]),
            forall|p: int, k: int|
                0 <= p < i && 0 <= k < records@[p].required_by@.len() && unresolved(
                    records@,
                    (#[trigger] records@[p].required_by@[k])@,
                ) ==> warnings@.contains(
                    (BuildWarning {
                        package: records@[p].name,
                        missing: records@[p].required_by@[k],
                        edge: DependencyEdge::Required,
                    }),
                ),
            forall|p: int, k: int|
                0 <= p < i && 0 <= k < records@[p].optional_for@.len() && unresolved(
                    records@,
                    (#[trigger] records@[p].optional_for@[k])@,
                ) ==> warnings@.contains(
                    (BuildWarning {
                        package: records@[p].name,
                        missing: records@[p].optional_for@[k],
                        edge: DependencyEdge::Optional,
                    }),
                ),
        decreases n - i,
    {
        let a = i as u32;
        let ghost store_n = store;
        store_add_node(&mut store, a);
        proof {
            assert forall|aa: u32, b: u32| (aa as nat) < i implies (#[trigger] stored_edge(
                store,
                aa,
                b,
            )) == record_edge(records@, aa, b) by {
                assert(stored_edge(store_n, aa, b) == record_edge(records@, aa, b));
            }
        }
        let reqs = records[i].required_by.len();
        let mut k: usize = 0;
        while k < reqs
            invariant
                n == records@.len(),
                n <= u32::MAX,
                i < n,
                a == i as u32,
                reqs == records@[i as int].required_by@.len(),
                k <= reqs,
                forall|m: u32| store_nodes(store).contains(m) ==> (m as nat) < n,
                forall|m: u32| (m as nat) < i + 1 ==> store_nodes(store).contains(m),
                forall|aa: u32, b: u32|
                    #[trigger] store_edges(store).dom().contains((aa, b)) ==> (aa as nat) <= i && (
                    b as nat) < n,
                forall|aa: u32, b: u32|
                    (aa as nat) < i ==> (#[trigger] stored_edge(store, aa, b)) == record_edge(
                        records@,
                        aa,
                        b,
                    ),
                forall|b: u32|
                    (#[trigger] stored_edge(store, a, b)) == if req_prefix_hits(
                        records@,
                        a,
                        b,
                        k as int,
                    ) {
                        Some(DependencyEdge::Required)
                    } else {
                        None::<DependencyEdge>
                    },
                forall|t: int|
                    0 <= t < warnings@.len() ==> warning_ok(records@, #[trigger] warnings@[t]),
                forall|p: int, kk: int|
                    0 <= p < i && 0 <= kk < records@[p].required_by@.len() && unresolved(
                        records@,
                        (#[trigger] records@[p].required_by@[kk])@,
                    ) ==> warnings@.contains(
                        (BuildWarning {
                            package: records@[p].name,
                            missing: records@[p].required_by@[kk],
                            edge: DependencyEdge::Required,
                        }),
                    ),
                forall|p: int, kk: int|
                    0 <= p < i && 0 <= kk < records@[p].optional_for@.len() && unresolved(
                        records@,
                        (#[trigger] records@[p].optional_for@[kk])@,
                    ) ==> warnings@.contains(
                        (BuildWarning {
                            package: records@[p].name,
                            missing: records@[p].optional_for@[kk],
                            edge: DependencyEdge::Optional,
                        }),
                    ),
                forall|kk: int|
                    0 <= kk < k && unresolved(
                        records@,
                        (#[trigger] records@[i as int].required_by@[kk])@,
                    ) ==> warnings@.contains(
                        (BuildWarning {
                            package: records@[i as int].name,
                            missing: records@[i as int].required_by@[kk],
                            edge: DependencyEdge::Required,
                        }),
                    ),
            decreases reqs - k,
        {
            let name = &records[i].required_by[k];
            match resolve_in(&records, name) {
                Some(j) => {
                    let ghost store_k = store;
                    store_add_edge(&mut store, a, j, DependencyEdge::Required);
                    proof {
                        assert forall|aa: u32, b: u32| (aa as nat) < i implies (
                        #[trigger] stored_edge(store, aa, b)) == record_edge(records@, aa, b) by {
                            assert(stored_edge(store_k, aa, b) == record_edge(records@, aa, b));
                        }
                        assert forall|b: u32|
                            (#[trigger] stored_edge(store, a, b)) == (if req_prefix_hits(
                                records@,
                                a,
                                b,
                                k + 1,
                            ) {
                                Some(DependencyEdge::Required)
                            } else {
                                None::<DependencyEdge>
                            }) by {
                            assert(stored_edge(store_k, a, b) == (if req_prefix_hits(
                                records@,
                                a,
                                b,
                                k as int,
                            ) {
                                Some(DependencyEdge::Required)
                            } else {
                                None::<DependencyEdge>
                            }));
                            if b == j {
                                assert(resolves_to(
                                    records@,
                                    (records@[i as int].required_by@[k as int])@,
                                    b as int,
                                ));
                                assert(req_prefix_hits(records@, a, b, k + 1));
                            } else {
                                if req_prefix_hits(records@, a, b, k + 1) && !req_prefix_hits(
                                    records@,
                                    a,
                                    b,
                                    k as int,
                                ) {
                                    let t = choose|t: int|
                                        0 <= t < k + 1 && t
                                            < records@[a as int].required_by@.len()
                                            && resolves_to(
                                            records@,
                                            (#[trigger] records@[a as int].required_by@[t])@,
                                            b as int,
                                        );
                                    assert(t == k);
                                    lemma_resolves_unique(records@, name@, b as int, j as int);
                                }
                            }
                        }
                    }
                },
                None => {
                    let w = BuildWarning {
                        package: records[i].name.clone(),
                        missing: name.clone(),
                        edge: DependencyEdge::Required,
                    };
                    proof {
                        assert(warning_matches(records@, w, i as int, k as int));
                    }
                    warnings.push(w);
                    proof {
                        assert forall|b: u32|
                            req_prefix_hits(records@, a, b, k + 1) implies req_prefix_hits(
                            records@,
                            a,
                            b,
                            k as int,
                        ) by {
                            let t = choose|t: int|
                                0 <= t < k + 1 && t < records@[a as int].required_by@.len()
                                    && resolves_to(
                                    records@,
                                    (#[trigger] records@[a as int].required_by@[t])@,
                                    b as int,
                                );
                            if t == k {
                                assert(records@[b as int].name@ != name@);
                            }
                        }
                    }
                },
            }
            k += 1;
        }
        proof {
            assert forall|b: u32|
                req_prefix_hits(records@, a, b, reqs as int) == record_requires(
                    records@,
                    a,
                    b,
                ) by {
                if req_prefix_hits(records@, a, b, reqs as int) {
                    assert(record_requires(records@, a, b));
                }
                if record_requires(records@, a, b) {
                    let t = choose|t: int|
                        0 <= t < records@[a as int].required_by@.len() && resolves_to(
                            records@,
                            (#[trigger] records@[a as int].required_by@[t])@,
                            b as int,
                        );
                    assert(req_prefix_hits(records@, a, b, reqs as int));
                }
            }
        }
        let opts = records[i].optional_for.len();
        let mut k: usize = 0;
        while k < opts
            invariant
                n == records@.len(),
                n <= u32::MAX,
                i < n,
                a == i as u32,
                opts == records@[i as int].optional_for@.len(),
                k <= opts,
                forall|m: u32| store_nodes(store).contains(m) ==> (m as nat) < n,
                forall|m: u32| (m as nat) < i + 1 ==> store_nodes(store).contains(m),
                forall|aa: u32, b: u32|
                    #[trigger] store_edges(store).dom().contains((aa, b)) ==> (aa as nat) <= i && (
                    b as nat) < n,
                forall|aa: u32, b: u32|
                    (aa as nat) < i ==> (#[trigger] stored_edge(store, aa, b)) == record_edge(
                        records@,
                        aa,
                        b,
                    ),
                forall|b: u32|
                    (#[trigger] stored_edge(store, a, b)) == if opt_prefix_hits(
                        records@,
                        a,
                        b,
                        k as int,
                    ) {
                        Some(DependencyEdge::Optional)
                    } else if record_requires(records@, a, b) {
                        Some(DependencyEdge::Required)
                    } else {
                        None::<DependencyEdge>
                    },
                forall|t: int|
                    0 <= t < warnings@.len() ==> warning_ok(records@, #[trigger] warnings@[t]),
                forall|p: int, kk: int|
                    0 <= p < i && 0 <= kk < records@[p].required_by@.len() && unresolved(
                        records@,
                        (#[trigger] records@[p].required_by@[kk])@,
                    ) ==> warnings@.contains(
                        (BuildWarning {
                            package: records@[p].name,
                            missing: records@[p].required_by@[kk],
                            edge: DependencyEdge::Required,
                        }),
                    ),
                forall|p: int, kk: int|
                    0 <= p < i && 0 <= kk < records@[p].optional_for@.len() && unresolved(
                        records@,
                        (#[trigger] records@[p].optional_for@[kk])@,
                    ) ==> warnings@.contains(
                        (BuildWarning {
                            package: records@[p].name,
                            missing: records@[p].optional_for@[kk],
                            edge: DependencyEdge::Optional,
                        }),
                    ),
                forall|kk: int|
                    0 <= kk < records@[i as int].required_by@.len() && unresolved(
                        records@,
                        (#[trigger] records@[i as int].required_by@[kk])@,
                    ) ==> warnings@.contains(
                        (BuildWarning {
                            package: records@[i as int].name,
                            missing: records@[i as int].required_by@[kk],
                            edge: DependencyEdge::Required,
                        }),
                    ),
                forall|kk: int|
                    0 <= kk < k && unresolved(
                        records@,
                        (#[trigger] records@[i as int].optional_for@[kk])@,
                    ) ==> warnings@.contains(
                        (BuildWarning {
                            package: records@[i as int].name,
                            missing: records@[i as int].optional_for@[kk],
                            edge: DependencyEdge::Optional,
                        }),
                    ),
            decreases opts - k,
        {
            let name = &records[i].optional_for[k];
            match resolve_in(&records, name) {
                Some(j) => {
                    let ghost store_k = store;
                    store_add_edge(&mut store, a, j, DependencyEdge::Optional);
                    proof {
                        assert forall|aa: u32, b: u32| (aa as nat) < i implies (
                        #[trigger] stored_edge(store, aa, b)) == record_edge(records@, aa, b) by {
                            assert(stored_edge(store_k, aa, b) == record_edge(records@, aa, b));
                        }
                        assert forall|b: u32|
                            (#[trigger] stored_edge(store, a, b)) == (if opt_prefix_hits(
                                records@,
                                a,
                                b,
                                k + 1,
                            ) {
                                Some(DependencyEdge::Optional)
                            } else if record_requires(records@, a, b) {
                                Some(DependencyEdge::Required)
                            } else {
                                None::<DependencyEdge>
                            }) by {
                            assert(stored_edge(store_k, a, b) == (if opt_prefix_hits(
                                records@,
                                a,
                                b,
                                k as int,
                            ) {
                                Some(DependencyEdge::Optional)
                            } else if record_requires(records@, a, b) {
                                Some(DependencyEdge::Required)
                            } else {
                                None::<DependencyEdge>
                            }));
                            if b == j {
                                assert(resolves_to(
                                    records@,
                                    (records@[i as int].optional_for@[k as int])@,
                                    b as int,
                                ));
                                assert(opt_prefix_hits(records@, a, b, k + 1));
                            } else {
                                if opt_prefix_hits(records@, a, b, k + 1) && !opt_prefix_hits(
                                    records@,
                                    a,
                                    b,
                                    k as int,
                                ) {
                                    let t = choose|t: int|
                                        0 <= t < k + 1 && t
                                            < records@[a as int].optional_for@.len()
                                            && resolves_to(
                                            records@,
                                            (#[trigger] records@[a as int].optional_for@[t])@,
                                            b as int,
                                        );
                                    assert(t == k);
                                    lemma_resolves_unique(records@, name@, b as int, j as int);
                                }
                            }
                        }
                    }
                },
                None => {
                    let w = BuildWarning {
                        package: records[i].name.clone(),
                        missing: name.clone(),
                        edge: DependencyEdge::Optional,
                    };
                    proof {
                        assert(warning_matches(records@, w, i as int, k as int));
                    }
                    warnings.push(w);
                    proof {
                        assert forall|b: u32|
                            opt_prefix_hits(records@, a, b, k + 1) implies opt_prefix_hits(
                            records@,
                            a,
                            b,
                            k as int,
                        ) by {
                            let t = choose|t: int|
                                0 <= t < k + 1 && t < records@[a as int].optional_for@.len()
                                    && resolves_to(
                                    records@,
                                    (#[trigger] records@[a as int].optional_for@[t])@,
                                    b as int,
                                );
                            if t == k {
                                assert(records@[b as int].name@ != name@);
                            }
                        }
                    }
                },
            }
            k += 1;
        }
        proof {
            assert forall|b: u32|
                opt_prefix_hits(records@, a, b, opts as int) == record_optional(
                    records@,
                    a,
                    b,
                ) by {
                if opt_prefix_hits(records@, a, b, opts as int) {
                    assert(record_optional(records@, a, b));
                }
                if record_optional(records@, a, b) {
                    let t = choose|t: int|
                        0 <= t < records@[a as int].optional_for@.len() && resolves_to(
                            records@,
                            (#[trigger] records@[a as int].optional_for@[t])@,
                            b as int,
                        );
                    assert(opt_prefix_hits(records@, a, b, opts as int));
                }
            }
            assert forall|b: u32|
                (#[trigger] stored_edge(store, a, b)) == record_edge(records@, a, b) by {}
        }
        i += 1;
    }
    let g = Graph { store, packages: records };
    proof {
        assert forall|a: u32, b: u32|
            (#[trigger] g.edge_between(a, b)) == record_edge(records@, a, b) by {
            if (a as nat) >= n {
                assert(!store_edges(g.store).dom().contains((a, b)));
            }
        }
    }
    (g, warnings)
}

} // verus!
