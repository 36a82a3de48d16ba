//! Tests for graph assembly: eligibility, metadata merging, and edges.

use fcos_graph_builder::graph::{Graph, GraphScope};
use fcos_graph_builder::metadata::{
    Commit, OciImage, Release, UpdateBarrier, UpdateDeadend, UpdateEntry, UpdateMetadata,
    UpdateRollout, UpdatesJSON,
};

fn release(version: &str, arch: &str, checksum: &str) -> Release {
    Release {
        version: version.to_string(),
        commits: vec![Commit {
            architecture: arch.to_string(),
            checksum: checksum.to_string(),
        }],
        oci_images: None,
    }
}

fn empty_markers() -> UpdateMetadata {
    UpdateMetadata {
        barrier: None,
        deadend: None,
        rollout: None,
    }
}

fn barrier_entry(version: &str, reason: &str) -> UpdateEntry {
    UpdateEntry {
        version: version.to_string(),
        metadata: UpdateMetadata {
            barrier: Some(UpdateBarrier {
                reason: reason.to_string(),
            }),
            ..empty_markers()
        },
    }
}

fn rollout_entry(version: &str, rollout: UpdateRollout) -> UpdateEntry {
    UpdateEntry {
        version: version.to_string(),
        metadata: UpdateMetadata {
            rollout: Some(rollout),
            ..empty_markers()
        },
    }
}

fn x86_scope() -> GraphScope {
    GraphScope {
        basearch: "x86_64".to_string(),
        stream: "stable".to_string(),
        oci: false,
    }
}

fn md_get<'a>(node: &'a fcos_graph_builder::graph::CincinnatiPayload, key: &str) -> Option<&'a str> {
    node.metadata
        .iter()
        .find(|(k, _)| k.as_str() == key)
        .map(|(_, v)| v.as_str())
}

fn sorted_edges(g: &Graph) -> Vec<(u64, u64)> {
    let mut e = g.edges.clone();
    e.sort();
    e
}

#[test]
fn single_release_becomes_node() {
    let releases = vec![release("36.1", "x86_64", "sha-a")];
    let updates = UpdatesJSON { releases: vec![] };
    let g = Graph::from_metadata(releases, updates, x86_scope()).unwrap();
    assert_eq!(g.nodes.len(), 1);
    assert_eq!(g.nodes[0].version, "36.1");
    assert_eq!(g.nodes[0].payload, "sha-a");
    assert_eq!(md_get(&g.nodes[0], "age_index"), Some("0"));
    assert_eq!(md_get(&g.nodes[0], "scheme"), Some("checksum"));
    assert!(g.edges.is_empty());
}

#[test]
fn ineligible_release_never_appears() {
    // No scope-matching payload: wrong arch, empty checksum, or no commits.
    let releases = vec![
        release("1.0", "aarch64", "sha-a"),
        release("2.0", "x86_64", ""),
        Release {
            version: "3.0".to_string(),
            commits: vec![],
            oci_images: None,
        },
        release("4.0", "x86_64", "sha-d"),
    ];
    let updates = UpdatesJSON { releases: vec![] };
    let g = Graph::from_metadata(releases, updates, x86_scope()).unwrap();
    assert_eq!(g.nodes.len(), 1);
    assert_eq!(g.nodes[0].version, "4.0");
    // age_index still counts the position in the full input.
    assert_eq!(md_get(&g.nodes[0], "age_index"), Some("3"));
}

#[test]
fn oci_scope_selects_digest() {
    let releases = vec![
        Release {
            version: "1.0".to_string(),
            commits: vec![Commit {
                architecture: "x86_64".to_string(),
                checksum: "sha-a".to_string(),
            }],
            oci_images: None,
        },
        Release {
            version: "2.0".to_string(),
            commits: vec![],
            oci_images: Some(vec![OciImage {
                architecture: "x86_64".to_string(),
                digest_ref: "quay.io/img@sha256:b".to_string(),
            }]),
        },
    ];
    let updates = UpdatesJSON { releases: vec![] };
    let scope = GraphScope {
        basearch: "x86_64".to_string(),
        stream: "stable".to_string(),
        oci: true,
    };
    // A release without OCI images is skipped under an OCI scope.
    let g = Graph::from_metadata(releases, updates, scope).unwrap();
    assert_eq!(g.nodes.len(), 1);
    assert_eq!(g.nodes[0].version, "2.0");
    assert_eq!(g.nodes[0].payload, "quay.io/img@sha256:b");
    assert_eq!(md_get(&g.nodes[0], "scheme"), Some("oci"));
}

#[test]
fn last_matching_payload_wins() {
    let releases = vec![Release {
        version: "1.0".to_string(),
        commits: vec![
            Commit {
                architecture: "x86_64".to_string(),
                checksum: "sha-early".to_string(),
            },
            Commit {
                architecture: "aarch64".to_string(),
                checksum: "sha-other".to_string(),
            },
            Commit {
                architecture: "x86_64".to_string(),
                checksum: "sha-late".to_string(),
            },
        ],
        oci_images: None,
    }];
    let updates = UpdatesJSON { releases: vec![] };
    let g = Graph::from_metadata(releases, updates, x86_scope()).unwrap();
    assert_eq!(g.nodes[0].payload, "sha-late");
}

#[test]
fn barrier_then_plain_tail() {
    // Releases [A, B, C, D], C a barrier, D plain: the barrier receives an
    // edge from everything before it; a plain node receives none.
    let releases = vec![
        release("A", "x86_64", "sha-a"),
        release("B", "x86_64", "sha-b"),
        release("C", "x86_64", "sha-c"),
        release("D", "x86_64", "sha-d"),
    ];
    let updates = UpdatesJSON {
        releases: vec![barrier_entry("C", "security fix")],
    };
    let g = Graph::from_metadata(releases, updates, x86_scope()).unwrap();
    assert_eq!(g.nodes.len(), 4);
    assert_eq!(md_get(&g.nodes[2], "barrier"), Some("true"));
    assert_eq!(md_get(&g.nodes[2], "barrier_reason"), Some("security fix"));
    assert_eq!(sorted_edges(&g), vec![(0, 2), (1, 2)]);
}

#[test]
fn barrier_then_rollout_tail() {
    // Releases [A, B, C, D], C a barrier, D under rollout: D is reachable
    // from the barrier on, the barrier from everything before it.
    let releases = vec![
        release("A", "x86_64", "sha-a"),
        release("B", "x86_64", "sha-b"),
        release("C", "x86_64", "sha-c"),
        release("D", "x86_64", "sha-d"),
    ];
    let updates = UpdatesJSON {
        releases: vec![
            barrier_entry("C", "security fix"),
            rollout_entry(
                "D",
                UpdateRollout {
                    start_epoch: None,
                    start_percentage: None,
                    duration_minutes: None,
                },
            ),
        ],
    };
    let g = Graph::from_metadata(releases, updates, x86_scope()).unwrap();
    assert_eq!(sorted_edges(&g), vec![(0, 2), (1, 2), (2, 3)]);
}

#[test]
fn rollout_reaches_back_to_barrier() {
    // Releases [A, B, C, D], B a barrier, D under rollout with no further
    // barrier: edges {(0,1), (1,3), (2,3)}.
    let releases = vec![
        release("A", "x86_64", "sha-a"),
        release("B", "x86_64", "sha-b"),
        release("C", "x86_64", "sha-c"),
        release("D", "x86_64", "sha-d"),
    ];
    let updates = UpdatesJSON {
        releases: vec![
            barrier_entry("B", ""),
            rollout_entry(
                "D",
                UpdateRollout {
                    start_epoch: Some(1618000000),
                    start_percentage: Some(25),
                    duration_minutes: Some(60),
                },
            ),
        ],
    };
    let g = Graph::from_metadata(releases, updates, x86_scope()).unwrap();
    assert_eq!(sorted_edges(&g), vec![(0, 1), (1, 3), (2, 3)]);
    assert_eq!(md_get(&g.nodes[3], "rollout"), Some("true"));
    assert_eq!(md_get(&g.nodes[3], "start_epoch"), Some("1618000000"));
    assert_eq!(md_get(&g.nodes[3], "start_value"), Some("25"));
    assert_eq!(md_get(&g.nodes[3], "duration"), Some("60"));
}

#[test]
fn all_edges_point_forward() {
    // Acyclicity by construction: every edge satisfies from < to.
    let releases = vec![
        release("A", "x86_64", "sha-a"),
        release("B", "x86_64", "sha-b"),
        release("C", "x86_64", "sha-c"),
        release("D", "x86_64", "sha-d"),
        release("E", "x86_64", "sha-e"),
    ];
    let updates = UpdatesJSON {
        releases: vec![
            barrier_entry("B", ""),
            barrier_entry("D", ""),
            rollout_entry(
                "E",
                UpdateRollout {
                    start_epoch: None,
                    start_percentage: Some(10),
                    duration_minutes: None,
                },
            ),
        ],
    };
    let g = Graph::from_metadata(releases, updates, x86_scope()).unwrap();
    assert!(!g.edges.is_empty());
    for (from, to) in &g.edges {
        assert!(from < to);
        assert!((*to as usize) < g.nodes.len());
    }
}

#[test]
fn coincident_barrier_and_rollout_keeps_rollout_edges_only() {
    // A node that is both barrier and rollout gets only its rollout-pass
    // edges; the blanket barrier edge set is skipped. A later barrier still
    // treats it as the previous barrier.
    let releases = vec![
        release("A", "x86_64", "sha-a"),
        release("B", "x86_64", "sha-b"),
        release("C", "x86_64", "sha-c"),
        release("D", "x86_64", "sha-d"),
    ];
    let updates = UpdatesJSON {
        releases: vec![
            barrier_entry("B", ""),
            rollout_entry(
                "B",
                UpdateRollout {
                    start_epoch: None,
                    start_percentage: Some(0),
                    duration_minutes: None,
                },
            ),
            barrier_entry("D", ""),
        ],
    };
    let g = Graph::from_metadata(releases, updates, x86_scope()).unwrap();
    // B: rollout edges from [0, 1). D: barrier edges from [1, 4).
    assert_eq!(sorted_edges(&g), vec![(0, 1), (1, 3), (2, 3)]);
}

#[test]
fn empty_reason_defaults_to_generic() {
    let releases = vec![
        release("A", "x86_64", "sha-a"),
        release("B", "x86_64", "sha-b"),
    ];
    let updates = UpdatesJSON {
        releases: vec![barrier_entry("B", "")],
    };
    let g = Graph::from_metadata(releases, updates, x86_scope()).unwrap();
    assert_eq!(md_get(&g.nodes[1], "barrier_reason"), Some("generic"));
}

#[test]
fn barrier_node_metadata_in_full() {
    let releases = vec![
        release("A", "x86_64", "sha-a"),
        release("B", "x86_64", "sha-b"),
    ];
    let updates = UpdatesJSON {
        releases: vec![barrier_entry("B", "hold")],
    };
    let g = Graph::from_metadata(releases, updates, x86_scope()).unwrap();
    let expected: Vec<(String, String)> = vec![
        ("age_index".to_string(), "1".to_string()),
        ("scheme".to_string(), "checksum".to_string()),
        ("barrier".to_string(), "true".to_string()),
        ("barrier_reason".to_string(), "hold".to_string()),
    ];
    assert_eq!(g.nodes[1].metadata, expected);
}

#[test]
fn no_markers_means_no_marker_keys() {
    let releases = vec![release("A", "x86_64", "sha-a")];
    let updates = UpdatesJSON {
        releases: vec![UpdateEntry {
            version: "other".to_string(),
            metadata: UpdateMetadata {
                barrier: Some(UpdateBarrier {
                    reason: "not for A".to_string(),
                }),
                deadend: None,
                rollout: None,
            },
        }],
    };
    let g = Graph::from_metadata(releases, updates, x86_scope()).unwrap();
    assert_eq!(md_get(&g.nodes[0], "barrier"), None);
    assert_eq!(md_get(&g.nodes[0], "rollout"), None);
    assert_eq!(md_get(&g.nodes[0], "deadend"), None);
}
