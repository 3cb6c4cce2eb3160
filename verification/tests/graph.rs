//! The dependency graph: what linking needs, and the order of targets.

use dowel::deps::Deps;
use dowel::diag::Diagnostic;
use dowel::graph::{build, topological_order, Edge, Graph};
use dowel::model::TargetId;
use dowel::schema::Block;
use dowel::value::{FileId, Site, Span};

fn site() -> Site {
    Site::new(FileId(0), Span::empty())
}

fn edge(to: usize, block: Block) -> Edge {
    Edge { to: TargetId(to), block, site: site() }
}

fn labels(n: usize) -> Vec<String> {
    (0..n).map(|i| format!("p:t{i}")).collect()
}

#[test]
fn link_closure_preserves_declaration_order() {
    let edges = vec![
        vec![edge(1, Block::Private), edge(2, Block::Private)],
        vec![edge(3, Block::Public)],
        vec![],
        vec![],
    ];
    let g = Graph { edges, order: Vec::new() };
    assert_eq!(g.link_closure(TargetId(0)), vec![TargetId(0), TargetId(1), TargetId(3), TargetId(2)]);
}

#[test]
fn a_shared_dependency_is_linked_once() {
    let edges = vec![vec![edge(1, Block::Public), edge(2, Block::Public)], vec![edge(2, Block::Public)], vec![]];
    let g = Graph { edges, order: Vec::new() };
    assert_eq!(g.link_closure(TargetId(0)), vec![TargetId(0), TargetId(1), TargetId(2)]);
    assert_eq!(g.link_closure(TargetId(2)), vec![TargetId(2)]);
}

#[test]
fn only_public_dependencies_propagate() {
    let edges = vec![vec![edge(1, Block::Private), edge(2, Block::Public)], vec![], vec![]];
    let g = Graph { edges, order: Vec::new() };
    let public: Vec<TargetId> = g.public_deps_of(TargetId(0)).iter().map(|e| e.to).collect();
    assert_eq!(public, vec![TargetId(2)]);
    assert!(g.deps_of(TargetId(7)).is_empty());
}

#[test]
fn dependencies_come_before_their_dependents() {
    let edges = vec![
        vec![edge(2, Block::Public)],
        vec![edge(0, Block::Private), edge(2, Block::Private)],
        vec![],
    ];
    let (order, diags) = topological_order(&labels(3), &edges);
    assert!(diags.is_empty());
    assert_eq!(order, vec![TargetId(2), TargetId(0), TargetId(1)]);
}

#[test]
fn a_cycle_is_reported_and_ordering_goes_on() {
    let edges = vec![vec![edge(1, Block::Public)], vec![edge(2, Block::Public)], vec![edge(0, Block::Public)]];
    let (order, diags) = topological_order(&labels(3), &edges);
    assert_eq!(diags.len(), 1);
    assert_eq!(diags[0].code, "dependency-cycle");
    assert_eq!(diags[0].notes[0], "p:t0 → p:t1 → p:t2 → p:t0");
    assert_eq!(order.len(), 3);
}

#[test]
fn a_graph_keeps_edges_to_the_session_and_the_diagnostics_of_resolving() {
    let labels = vec!["app:core".to_string(), "app:cli".to_string()];
    let resolved = vec![
        Deps { edges: Vec::new(), diagnostics: Vec::new() },
        Deps {
            edges: vec![
                ("app:core".to_string(), Block::Public, site()),
                ("elsewhere:x".to_string(), Block::Private, site()),
            ],
            diagnostics: vec![Diagnostic::error("unknown-target", "no target named `y`".to_string())],
        },
    ];
    let (g, diags) = build(&labels, &resolved);
    assert_eq!(g.edges[0].len(), 0);
    assert_eq!(g.edges[1].len(), 1);
    assert_eq!(g.edges[1][0].to, TargetId(0));
    assert_eq!(g.edges[1][0].block, Block::Public);
    assert_eq!(g.order, vec![TargetId(0), TargetId(1)]);
    assert_eq!(diags.len(), 1);
    assert_eq!(diags[0].code, "unknown-target");
}

#[test]
fn a_cycle_is_reported_after_what_resolving_said() {
    let labels = vec!["p:a".to_string(), "p:b".to_string()];
    let resolved = vec![
        Deps {
            edges: vec![("p:b".to_string(), Block::Private, site())],
            diagnostics: vec![Diagnostic::error("inactive-dependency", "x".to_string())],
        },
        Deps { edges: vec![("p:a".to_string(), Block::Private, site())], diagnostics: Vec::new() },
    ];
    let (g, diags) = build(&labels, &resolved);
    assert_eq!(g.order.len(), 2);
    assert!(diags.len() >= 2);
    assert_eq!(diags[0].code, "inactive-dependency");
    assert!(diags[1..].iter().all(|d| d.code == "dependency-cycle"));
}

#[test]
fn a_diamond_has_no_cycle_and_is_ordered_depth_first() {
    let edges = vec![
        vec![edge(1, Block::Public), edge(2, Block::Public)],
        vec![edge(3, Block::Public)],
        vec![edge(3, Block::Public)],
        vec![],
    ];
    let (order, diags) = topological_order(&labels(4), &edges);
    assert!(diags.is_empty());
    assert_eq!(order, vec![TargetId(3), TargetId(1), TargetId(2), TargetId(0)]);
}
