use pacgraph::args::{Dependents, Orphans};
use pacgraph::dependencies::{dependents, dependents_by_name, orphans, orphans_subgraph,
    reach_from, LookupError};
use pacgraph::graph::{build_graph, filter_required_only, DependencyEdge, Graph, GraphLike,
    InstallReason, PackageNode, PackageRecord, ReversedView};
use pacgraph::print::PrintOneLine;

fn rec(name: &str, explicit: bool, required_by: &[&str], optional_for: &[&str]) -> PackageRecord {
    PackageRecord {
        name: name.to_string(),
        version: format!("1.0-{name}"),
        reason: if explicit { InstallReason::Explicit } else { InstallReason::Dependency },
        required_by: required_by.iter().map(|s| s.to_string()).collect(),
        optional_for: optional_for.iter().map(|s| s.to_string()).collect(),
    }
}

fn names(g: &Graph, nodes: &[PackageNode]) -> Vec<String> {
    let mut out: Vec<String> = nodes.iter().map(|n| n.package(g).name.clone()).collect();
    out.sort();
    out
}

/// The literal direction-pinning fixture: A explicit, A requires B
/// (edge B -> A), C is optionally related to B (edge C -> B), D isolated.
fn fixture() -> Graph {
    let records = vec![
        rec("a", true, &[], &[]),
        rec("b", false, &["a"], &[]),
        rec("c", false, &[], &["b"]),
        rec("d", false, &[], &[]),
    ];
    let (g, warnings) = build_graph(records);
    assert!(warnings.is_empty());
    g
}

#[test]
fn fixture_orphans_with_optional_edges() {
    let g = fixture();
    let orphan_nodes = orphans(&g);
    assert_eq!(names(&g, &orphan_nodes), vec!["d".to_string()]);
}

#[test]
fn fixture_orphans_required_only() {
    let g = fixture();
    let view = filter_required_only(&g);
    let orphan_nodes = orphans(&view);
    assert_eq!(names(&g, &orphan_nodes), vec!["c".to_string(), "d".to_string()]);
}

#[test]
fn explicit_package_is_never_an_orphan() {
    let g = fixture();
    let a = g.lookup(&"a".to_string()).unwrap();
    assert!(!orphans(&g).contains(&a));
    let view = filter_required_only(&g);
    assert!(!orphans(&view).contains(&a));
}

#[test]
fn no_explicit_roots_means_every_package_is_an_orphan() {
    let records = vec![
        rec("x", false, &[], &[]),
        rec("y", false, &["x"], &[]),
    ];
    let (g, _) = build_graph(records);
    let orphan_nodes = orphans(&g);
    assert_eq!(names(&g, &orphan_nodes), vec!["x".to_string(), "y".to_string()]);
}

#[test]
fn dependents_contains_the_start_node() {
    let g = fixture();
    let d = g.lookup(&"d".to_string()).unwrap();
    let sub = dependents(&g, d);
    assert!(sub.nodes.contains(&d));
    assert_eq!(names(&g, &sub.nodes), vec!["d".to_string()]);
}

#[test]
fn dependents_follows_outgoing_edges_transitively() {
    // c -> b (optional), b -> a (required): removing c affects b and a.
    let g = fixture();
    let c = g.lookup(&"c".to_string()).unwrap();
    let sub = dependents(&g, c);
    assert_eq!(
        names(&g, &sub.nodes),
        vec!["a".to_string(), "b".to_string(), "c".to_string()]
    );
    // d is not reachable from c.
    let d = g.lookup(&"d".to_string()).unwrap();
    assert!(!sub.nodes.contains(&d));
}

#[test]
fn dependents_subgraph_preserves_edge_weights() {
    let g = fixture();
    let c = g.lookup(&"c".to_string()).unwrap();
    let b = g.lookup(&"b".to_string()).unwrap();
    let a = g.lookup(&"a".to_string()).unwrap();
    let sub = dependents(&g, c);
    assert_eq!(sub.edges.len(), 2);
    assert!(sub.edges.contains(&(c, b, DependencyEdge::Optional)));
    assert!(sub.edges.contains(&(b, a, DependencyEdge::Required)));
}

#[test]
fn orphans_are_stable_across_calls() {
    let g = fixture();
    let first = orphans(&g);
    let second = orphans(&g);
    assert_eq!(first, second);
}

#[test]
fn shared_dependency_is_discovered_exactly_once() {
    // Two explicit roots both require dep: edges dep -> r1 and dep -> r2.
    let records = vec![
        rec("r1", true, &[], &[]),
        rec("r2", true, &[], &[]),
        rec("dep", false, &["r1", "r2"], &[]),
    ];
    let (g, warnings) = build_graph(records);
    assert!(warnings.is_empty());
    let r1 = g.lookup(&"r1".to_string()).unwrap();
    let r2 = g.lookup(&"r2".to_string()).unwrap();
    let dep = g.lookup(&"dep".to_string()).unwrap();
    let rv = ReversedView { base: &g };
    let marked = reach_from(&rv, &vec![r1, r2]);
    // one shared discovery set: dep appears once, and the total work is
    // bounded by one full visit of the graph
    assert_eq!(marked.iter().filter(|n| **n == dep).count(), 1);
    assert!(marked.len() <= g.node_count());
    assert!(orphans(&g).is_empty());
}

#[test]
fn dependents_of_unknown_name_fails_without_traversal() {
    let g = fixture();
    let r = dependents_by_name(&g, &"no-such-package".to_string());
    assert_eq!(r, Err(LookupError::NotFound));
}

#[test]
fn dependents_by_name_resolves_and_traverses() {
    let g = fixture();
    let sub = dependents_by_name(&g, &"b".to_string()).unwrap();
    assert_eq!(names(&g, &sub.nodes), vec!["a".to_string(), "b".to_string()]);
}

#[test]
fn unresolved_reference_warns_and_drops_only_that_edge() {
    let records = vec![
        rec("app", true, &[], &[]),
        rec("lib", false, &["app", "ghost"], &[]),
    ];
    let (g, warnings) = build_graph(records);
    assert_eq!(warnings.len(), 1);
    assert_eq!(warnings[0].package, "lib");
    assert_eq!(warnings[0].missing, "ghost");
    assert_eq!(warnings[0].edge, DependencyEdge::Required);
    // construction still produced the resolvable edge
    assert!(orphans(&g).is_empty());
    let lib = g.lookup(&"lib".to_string()).unwrap();
    let app = g.lookup(&"app".to_string()).unwrap();
    assert!(g.edges().contains(&(lib, app, DependencyEdge::Required)));
}

#[test]
fn later_optional_write_wins_for_the_same_pair() {
    let records = vec![
        rec("x", true, &[], &[]),
        rec("y", false, &["x"], &["x"]),
    ];
    let (g, _) = build_graph(records);
    let x = g.lookup(&"x".to_string()).unwrap();
    let y = g.lookup(&"y".to_string()).unwrap();
    let edges = g.edges();
    assert_eq!(edges.len(), 1);
    assert_eq!(edges[0], (y, x, DependencyEdge::Optional));
}

#[test]
fn empty_graph_has_no_orphans() {
    let (g, warnings) = build_graph(Vec::new());
    assert!(warnings.is_empty());
    assert_eq!(g.node_count(), 0);
    assert!(orphans(&g).is_empty());
}

#[test]
fn orphans_subgraph_is_induced_over_the_orphan_set() {
    // Two orphans joined by an edge: o2 required by o1, neither explicit.
    let records = vec![
        rec("keeper", true, &[], &[]),
        rec("o1", false, &[], &[]),
        rec("o2", false, &["o1"], &[]),
    ];
    let (g, _) = build_graph(records);
    let sub = orphans_subgraph(&g);
    assert_eq!(names(&g, &sub.nodes), vec!["o1".to_string(), "o2".to_string()]);
    let o1 = g.lookup(&"o1".to_string()).unwrap();
    let o2 = g.lookup(&"o2".to_string()).unwrap();
    assert_eq!(sub.edges, vec![(o2, o1, DependencyEdge::Required)]);
}

#[test]
fn lookup_finds_the_first_record_with_a_name() {
    // two distinct records with the same name are distinct nodes
    let records = vec![
        rec("dup", true, &[], &[]),
        rec("dup", false, &[], &[]),
    ];
    let (g, _) = build_graph(records);
    assert_eq!(g.node_count(), 2);
    let found = g.lookup(&"dup".to_string()).unwrap();
    assert_eq!(found, PackageNode(0));
    assert!(g.lookup(&"absent".to_string()).is_none());
}

#[test]
fn graph_nodes_enumerate_every_record() {
    let g = fixture();
    let all = g.nodes();
    assert_eq!(all.len(), 4);
    assert_eq!(
        names(&g, &all),
        vec!["a".to_string(), "b".to_string(), "c".to_string(), "d".to_string()]
    );
}

#[test]
fn oneline_style_follows_the_quiet_flag() {
    let o = Orphans { quiet: true, ignore_optdepends: false };
    assert_eq!(o.oneline_style(), PrintOneLine::NameOnly);
    let o = Orphans { quiet: false, ignore_optdepends: true };
    assert_eq!(o.oneline_style(), PrintOneLine::WithVersion);
    let d = Dependents {
        package: "b".to_string(),
        quiet: true,
        ignore_optdepends: false,
        dot: false,
    };
    assert_eq!(d.oneline_style(), PrintOneLine::NameOnly);
}
