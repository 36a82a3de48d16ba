//! Tests for dead-end filtering: removal, renumbering, and idempotence.

use fcos_graph_builder::graph::{CincinnatiPayload, Graph, GraphScope};
use fcos_graph_builder::metadata::{
    Commit, Release, UpdateDeadend, UpdateEntry, UpdateMetadata, UpdatesJSON,
};
use fcos_graph_builder::policy::filter_deadends;

fn release(version: &str, checksum: &str) -> Release {
    Release {
        version: version.to_string(),
        commits: vec![Commit {
            architecture: "x86_64".to_string(),
            checksum: checksum.to_string(),
        }],
        oci_images: None,
    }
}

fn deadend_entry(version: &str, reason: &str) -> UpdateEntry {
    UpdateEntry {
        version: version.to_string(),
        metadata: UpdateMetadata {
            barrier: None,
            deadend: Some(UpdateDeadend {
                reason: reason.to_string(),
            }),
            rollout: None,
        },
    }
}

fn barrier_entry(version: &str) -> UpdateEntry {
    UpdateEntry {
        version: version.to_string(),
        metadata: UpdateMetadata {
            barrier: Some(fcos_graph_builder::metadata::UpdateBarrier {
                reason: "hold".to_string(),
            }),
            deadend: None,
            rollout: None,
        },
    }
}

fn x86_scope() -> GraphScope {
    GraphScope {
        basearch: "x86_64".to_string(),
        stream: "stable".to_string(),
        oci: false,
    }
}

fn node(version: &str, pairs: &[(&str, &str)]) -> CincinnatiPayload {
    CincinnatiPayload {
        version: version.to_string(),
        metadata: pairs
            .iter()
            .map(|(k, v)| (k.to_string(), v.to_string()))
            .collect(),
        payload: format!("sha-{}", version),
    }
}

fn versions(g: &Graph) -> Vec<String> {
    g.nodes.iter().map(|n| n.version.clone()).collect()
}

#[test]
fn deadend_removed_and_edges_renumbered() {
    // [A, B, C, D] with C a barrier and B a dead end: B disappears, the
    // barrier edges to C are renumbered against the shorter node list.
    let releases = vec![
        release("A", "sha-a"),
        release("B", "sha-b"),
        release("C", "sha-c"),
        release("D", "sha-d"),
    ];
    let updates = UpdatesJSON {
        releases: vec![barrier_entry("C"), deadend_entry("B", "bad build")],
    };
    let g = Graph::from_metadata(releases, updates, x86_scope()).unwrap();
    assert_eq!(versions(&g), vec!["A", "C", "D"]);
    // Pre-filter edges were (0,2) and (1,2); (1,2) touched the dead end.
    assert_eq!(g.edges, vec![(0, 1)]);
}

#[test]
fn deadend_reason_defaults_to_generic() {
    // The marker is merged before filtering; observe it on a hand-built node.
    let releases = vec![release("A", "sha-a")];
    let updates = UpdatesJSON {
        releases: vec![deadend_entry("A", "")],
    };
    let g = Graph::from_metadata(releases, updates, x86_scope()).unwrap();
    // The only node was a dead end: the published graph is empty.
    assert!(g.nodes.is_empty());
    assert!(g.edges.is_empty());
}

#[test]
fn filter_drops_marked_nodes_only() {
    let g = Graph {
        nodes: vec![
            node("1.0", &[("age_index", "0")]),
            node("2.0", &[("age_index", "1"), ("deadend", "true")]),
            node("3.0", &[("age_index", "2")]),
        ],
        edges: vec![(0, 1), (0, 2), (1, 2)],
    };
    let f = filter_deadends(g);
    assert_eq!(versions(&f), vec!["1.0", "3.0"]);
    assert_eq!(f.edges, vec![(0, 1)]);
}

#[test]
fn filter_is_idempotent() {
    let g = Graph {
        nodes: vec![
            node("1.0", &[]),
            node("2.0", &[("deadend", "true")]),
            node("3.0", &[]),
            node("4.0", &[("deadend", "true")]),
        ],
        edges: vec![(0, 1), (0, 2), (1, 3), (2, 3)],
    };
    let once = filter_deadends(g);
    let again = filter_deadends(Graph {
        nodes: once.nodes.clone(),
        edges: once.edges.clone(),
    });
    assert_eq!(versions(&again), versions(&once));
    assert_eq!(again.edges, once.edges);
    let node_pairs: Vec<_> = once
        .nodes
        .iter()
        .zip(again.nodes.iter())
        .collect();
    for (a, b) in node_pairs {
        assert_eq!(a.version, b.version);
        assert_eq!(a.metadata, b.metadata);
        assert_eq!(a.payload, b.payload);
    }
}

#[test]
fn filter_drops_out_of_range_edges() {
    // An edge pointing outside the node list never survives filtering.
    let g = Graph {
        nodes: vec![node("1.0", &[]), node("2.0", &[])],
        edges: vec![(0, 1), (0, 7), (9, 1)],
    };
    let f = filter_deadends(g);
    assert_eq!(f.edges, vec![(0, 1)]);
}
