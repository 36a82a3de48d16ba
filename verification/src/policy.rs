//! Dead-end filtering: dead-end releases are removed from every served graph,
//! with the remaining nodes renumbered and the edges remapped accordingly.

use crate::graph::{
    has_md_key, node_is_deadend, nodes_view, CincinnatiPayload, Graph, GraphView, NodeView,
};
use vstd::prelude::*;

verus! {

/// Whether a node survives dead-end filtering.
pub open spec fn node_kept(n: NodeView) -> bool {
    !node_is_deadend(n)
}

/// The node sequence with dead-end nodes removed, order preserved.
pub open spec fn kept_nodes(nodes: Seq<NodeView>) -> Seq<NodeView>
    decreases nodes.len(),
{
    if nodes.len() == 0 {
        Seq::empty()
    } else {
        kept_nodes(nodes.drop_last()) + if node_kept(nodes.last()) {
            seq![nodes.last()]
        } else {
            Seq::empty()
        }
    }
}

/// The index a surviving node moves to: the number of kept indices strictly
/// below `i`.
pub open spec fn new_index(nodes: Seq<NodeView>, i: int) -> int
    decreases i,
{
    if i <= 0 {
        0
    } else {
        new_index(nodes, i - 1) + if node_kept(nodes[i - 1]) {
            1int
        } else {
            0int
        }
    }
}

/// Whether an edge survives: both endpoints are valid indices of kept nodes.
pub open spec fn edge_kept(nodes: Seq<NodeView>, e: (u64, u64)) -> bool {
    (e.0 as int) < nodes.len() && (e.1 as int) < nodes.len() && node_kept(nodes[e.0 as int])
        && node_kept(nodes[e.1 as int])
}

/// A surviving edge, renumbered to the filtered node sequence.
pub open spec fn remap_edge(nodes: Seq<NodeView>, e: (u64, u64)) -> (u64, u64) {
    (new_index(nodes, e.0 as int) as u64, new_index(nodes, e.1 as int) as u64)
}

/// The edge list with edges touching removed nodes dropped and the rest
/// renumbered, order preserved.
pub open spec fn filtered_edges(nodes: Seq<NodeView>, edges: Seq<(u64, u64)>) -> Seq<(u64, u64)>
    decreases edges.len(),
{
    if edges.len() == 0 {
        Seq::empty()
    } else {
        filtered_edges(nodes, edges.drop_last()) + if edge_kept(nodes, edges.last()) {
            seq![remap_edge(nodes, edges.last())]
        } else {
            Seq::empty()
        }
    }
}

/// The dead-end filter, as a function on graph views.
pub open spec fn filter_deadends_spec(g: GraphView) -> GraphView {
    GraphView { nodes: kept_nodes(g.nodes), edges: filtered_edges(g.nodes, g.edges) }
}

/// A well-formed graph: every edge points from an earlier node to a strictly
/// later one, and both endpoints are valid indices.
pub open spec fn graph_wf(g: GraphView) -> bool {
    forall|j: int|
        0 <= j < g.edges.len() ==> ((#[trigger] g.edges[j]).0 < g.edges[j].1 && (
        g.edges[j].1 as int) < g.nodes.len())
}

/// `new_index` never exceeds the index itself and counts exactly the kept
/// prefix.
proof fn lemma_new_index_bounds(nodes: Seq<NodeView>, i: int)
    requires
        0 <= i <= nodes.len(),
    ensures
        0 <= new_index(nodes, i) <= i,
        new_index(nodes, i) == kept_nodes(nodes.take(i)).len(),
    decreases i,
{
    if i > 0 {
        lemma_new_index_bounds(nodes, i - 1);
        assert(nodes.take(i).drop_last() =~= nodes.take(i - 1));
        assert(nodes.take(i).last() == nodes[i - 1]);
    }
}

/// `new_index` depends only on the nodes below the index.
proof fn lemma_new_index_prefix(nodes: Seq<NodeView>, pre: Seq<NodeView>, i: int)
    requires
        0 <= i <= pre.len() <= nodes.len(),
        forall|k: int| 0 <= k < pre.len() ==> nodes[k] == pre[k],
    ensures
        new_index(nodes, i) == new_index(pre, i),
    decreases i,
{
    if i > 0 {
        lemma_new_index_prefix(nodes, pre, i - 1);
    }
}

/// A kept node keeps its identity: it sits at its new index in the filtered
/// sequence.
proof fn lemma_kept_index(nodes: Seq<NodeView>, a: int)
    requires
        0 <= a < nodes.len(),
        node_kept(nodes[a]),
    ensures
        0 <= new_index(nodes, a) < kept_nodes(nodes).len(),
        kept_nodes(nodes)[new_index(nodes, a)] == nodes[a],
    decreases nodes.len(),
{
    lemma_new_index_bounds(nodes, a);
    if a == nodes.len() - 1 {
        assert(nodes.take(a) =~= nodes.drop_last());
        lemma_new_index_bounds(nodes, a);
        assert(new_index(nodes, a) == kept_nodes(nodes.drop_last()).len());
    } else {
        lemma_kept_index(nodes.drop_last(), a);
        lemma_new_index_prefix(nodes, nodes.drop_last(), a);
    }
}

/// Renumbering preserves strict order between kept indices.
proof fn lemma_new_index_monotone(nodes: Seq<NodeView>, a: int, b: int)
    requires
        0 <= a < b <= nodes.len(),
        node_kept(nodes[a]),
    ensures
        new_index(nodes, a) < new_index(nodes, b),
    decreases b - a,
{
    if b > a + 1 {
        lemma_new_index_monotone(nodes, a, b - 1);
    }
}

/// On a sequence without dead ends, renumbering is the identity.
proof fn lemma_new_index_identity(nodes: Seq<NodeView>, i: int)
    requires
        0 <= i <= nodes.len(),
        forall|k: int| 0 <= k < nodes.len() ==> node_kept(#[trigger] nodes[k]),
    ensures
        new_index(nodes, i) == i,
    decreases i,
{
    if i > 0 {
        lemma_new_index_identity(nodes, i - 1);
    }
}

/// A filtered graph carries no dead end: every node of the filtered sequence
/// is kept.
pub proof fn lemma_kept_nodes_all_kept(nodes: Seq<NodeView>)
    ensures
        forall|j: int|
            0 <= j < kept_nodes(nodes).len() ==> node_kept(#[trigger] kept_nodes(nodes)[j]),
    decreases nodes.len(),
{
    if nodes.len() > 0 {
        lemma_kept_nodes_all_kept(nodes.drop_last());
        let out = kept_nodes(nodes);
        let sub = kept_nodes(nodes.drop_last());
        assert forall|j: int| 0 <= j < out.len() implies node_kept(#[trigger] out[j]) by {
            if j < sub.len() {
                assert(out[j] == sub[j]);
                assert(node_kept(kept_nodes(nodes.drop_last())[j]));
            } else {
                assert(out[j] == nodes.last());
            }
        }
    }
}

/// Every filtered node is one of the input nodes: filtering invents nothing.
pub proof fn lemma_kept_nodes_elements(nodes: Seq<NodeView>)
    ensures
        forall|j: int|
            0 <= j < kept_nodes(nodes).len() ==> exists|k: int|
                0 <= k < nodes.len() && (#[trigger] kept_nodes(nodes)[j]) == nodes[k],
    decreases nodes.len(),
{
    if nodes.len() > 0 {
        lemma_kept_nodes_elements(nodes.drop_last());
        let sub = kept_nodes(nodes.drop_last());
        assert forall|j: int| 0 <= j < kept_nodes(nodes).len() implies exists|k: int|
            0 <= k < nodes.len() && (#[trigger] kept_nodes(nodes)[j]) == nodes[k] by {
            let out = kept_nodes(nodes);
            if j < sub.len() {
                assert(out[j] == kept_nodes(nodes.drop_last())[j]);
                let k = choose|k: int|
                    0 <= k < nodes.drop_last().len() && (#[trigger] kept_nodes(
                        nodes.drop_last(),
                    )[j]) == nodes.drop_last()[k];
                assert(nodes[k] == nodes.drop_last()[k]);
                assert(0 <= k < nodes.len() && out[j] == nodes[k]);
            } else {
                let k = nodes.len() - 1;
                assert(0 <= k < nodes.len() && out[j] == nodes[k]);
            }
        }
    }
}

/// Filtering a sequence without dead ends changes nothing.
proof fn lemma_kept_nodes_identity(nodes: Seq<NodeView>)
    requires
        forall|k: int| 0 <= k < nodes.len() ==> node_kept(#[trigger] nodes[k]),
    ensures
        kept_nodes(nodes) == nodes,
    decreases nodes.len(),
{
    if nodes.len() == 0 {
        assert(kept_nodes(nodes) =~= nodes);
    } else {
        lemma_kept_nodes_identity(nodes.drop_last());
        assert(kept_nodes(nodes) =~= nodes);
    }
}

/// Every filtered edge is the renumbering of some kept input edge.
proof fn lemma_filtered_edges_elements(nodes: Seq<NodeView>, edges: Seq<(u64, u64)>)
    ensures
        forall|j: int|
            0 <= j < filtered_edges(nodes, edges).len() ==> exists|k: int|
                0 <= k < edges.len() && edge_kept(nodes, #[trigger] edges[k]) && (
                #[trigger] filtered_edges(nodes, edges)[j]) == remap_edge(nodes, edges[k]),
    decreases edges.len(),
{
    if edges.len() > 0 {
        lemma_filtered_edges_elements(nodes, edges.drop_last());
        let sub = filtered_edges(nodes, edges.drop_last());
        assert forall|j: int| 0 <= j < filtered_edges(nodes, edges).len() implies exists|k: int|
            0 <= k < edges.len() && edge_kept(nodes, #[trigger] edges[k]) && (
            #[trigger] filtered_edges(nodes, edges)[j]) == remap_edge(nodes, edges[k]) by {
            let out = filtered_edges(nodes, edges);
            if j < sub.len() {
                assert(out[j] == filtered_edges(nodes, edges.drop_last())[j]);
                let k = choose|k: int|
                    0 <= k < edges.drop_last().len() && edge_kept(
                        nodes,
                        #[trigger] edges.drop_last()[k],
                    ) && filtered_edges(nodes, edges.drop_last())[j] == remap_edge(
                        nodes,
                        edges.drop_last()[k],
                    );
                assert(edges[k] == edges.drop_last()[k]);
                assert(0 <= k < edges.len() && edge_kept(nodes, edges[k]) && out[j] == remap_edge(
                    nodes,
                    edges[k],
                ));
            } else {
                let k = edges.len() - 1;
                assert(edges.last() == edges[k]);
                assert(0 <= k < edges.len() && edge_kept(nodes, edges[k]) && out[j] == remap_edge(
                    nodes,
                    edges[k],
                ));
            }
        }
    }
}

/// Filtering edges that all survive, over nodes that are all kept, changes
/// nothing.
proof fn lemma_filtered_edges_identity(nodes: Seq<NodeView>, edges: Seq<(u64, u64)>)
    requires
        forall|k: int| 0 <= k < nodes.len() ==> node_kept(#[trigger] nodes[k]),
        forall|j: int| 0 <= j < edges.len() ==> edge_kept(nodes, #[trigger] edges[j]),
    ensures
        filtered_edges(nodes, edges) == edges,
    decreases edges.len(),
{
    if edges.len() == 0 {
        assert(filtered_edges(nodes, edges) =~= edges);
    } else {
        lemma_filtered_edges_identity(nodes, edges.drop_last());
        let e = edges.last();
        lemma_new_index_identity(nodes, e.0 as int);
        lemma_new_index_identity(nodes, e.1 as int);
        assert(remap_edge(nodes, e) == e);
        assert(filtered_edges(nodes, edges) =~= edges);
    }
}

/// Dead-end filtering is idempotent: filtering an already-filtered graph is a
/// no-op.
pub proof fn lemma_filter_deadends_idempotent(g: GraphView)
    ensures
        filter_deadends_spec(filter_deadends_spec(g)) == filter_deadends_spec(g),
{
    let f = filter_deadends_spec(g);
    lemma_kept_nodes_all_kept(g.nodes);
    lemma_kept_nodes_identity(f.nodes);
    lemma_filtered_edges_elements(g.nodes, g.edges);
    assert forall|j: int| 0 <= j < f.edges.len() implies edge_kept(
        f.nodes,
        #[trigger] f.edges[j],
    ) by {
        assert(f.edges[j] == filtered_edges(g.nodes, g.edges)[j]);
        let k = choose|k: int|
            0 <= k < g.edges.len() && edge_kept(g.nodes, #[trigger] g.edges[k]) && f.edges[j]
                == remap_edge(g.nodes, g.edges[k]);
        let e = g.edges[k];
        lemma_kept_index(g.nodes, e.0 as int);
        lemma_kept_index(g.nodes, e.1 as int);
    }
    lemma_filtered_edges_identity(f.nodes, f.edges);
}

/// Dead-end filtering preserves well-formedness.
pub proof fn lemma_filter_preserves_wf(g: GraphView)
    requires
        graph_wf(g),
    ensures
        graph_wf(filter_deadends_spec(g)),
{
    let f = filter_deadends_spec(g);
    lemma_filtered_edges_elements(g.nodes, g.edges);
    assert forall|j: int|
        0 <= j < f.edges.len() implies ((#[trigger] f.edges[j]).0 < f.edges[j].1 && (
    f.edges[j].1 as int) < f.nodes.len()) by {
        assert(f.edges[j] == filtered_edges(g.nodes, g.edges)[j]);
        let k = choose|k: int|
            0 <= k < g.edges.len() && edge_kept(g.nodes, #[trigger] g.edges[k]) && f.edges[j]
                == remap_edge(g.nodes, g.edges[k]);
        let e = g.edges[k];
        lemma_new_index_monotone(g.nodes, e.0 as int, e.1 as int);
        lemma_new_index_bounds(g.nodes, e.0 as int);
        lemma_new_index_bounds(g.nodes, e.1 as int);
        lemma_kept_index(g.nodes, e.1 as int);
    }
}

/// Removes every dead-end node from the graph, drops the edges touching one,
/// and renumbers the remaining node references.
pub fn filter_deadends(graph: Graph) -> (r: Graph)
    ensures
        r@ == filter_deadends_spec(graph@),
{
    let ghost nv = nodes_view(graph.nodes@);
    let n = graph.nodes.len();
    let mut kept: Vec<bool> = Vec::new();
    let mut index_map: Vec<usize> = Vec::new();
    let mut new_nodes: Vec<CincinnatiPayload> = Vec::new();
    let mut i: usize = 0;
    while i < n
        invariant
            i <= n,
            n == graph.nodes@.len(),
            nv == nodes_view(graph.nodes@),
            kept@.len() == i,
            index_map@.len() == i,
            forall|k: int| 0 <= k < i ==> kept@[k] == node_kept(nv[k]),
            forall|k: int| 0 <= k < i ==> (#[trigger] index_map@[k]) as int == new_index(nv, k),
            new_nodes@.len() == new_index(nv, i as int),
            nodes_view(new_nodes@) == kept_nodes(nv.take(i as int)),
        decreases n - i,
    {
        proof {
            lemma_new_index_bounds(nv, i as int);
        }
        index_map.push(new_nodes.len());
        let is_dead = has_md_key(&graph.nodes[i].metadata, "deadend");
        kept.push(!is_dead);
        assert(nv[i as int] == graph.nodes@[i as int]@);
        if !is_dead {
            new_nodes.push(graph.nodes[i].clone());
        }
        proof {
            assert(nv.take(i as int + 1).drop_last() =~= nv.take(i as int));
            assert(nv.take(i as int + 1).last() == nv[i as int]);
            assert(nodes_view(new_nodes@) =~= kept_nodes(nv.take(i as int + 1)));
        }
        i += 1;
    }
    let m = graph.edges.len();
    let mut new_edges: Vec<(u64, u64)> = Vec::new();
    let mut j: usize = 0;
    while j < m
        invariant
            j <= m,
            m == graph.edges@.len(),
            n == graph.nodes@.len(),
            nv == nodes_view(graph.nodes@),
            kept@.len() == n,
            index_map@.len() == n,
            forall|k: int| 0 <= k < n ==> kept@[k] == node_kept(nv[k]),
            forall|k: int| 0 <= k < n ==> (#[trigger] index_map@[k]) as int == new_index(nv, k),
            new_edges@ == filtered_edges(nv, graph.edges@.take(j as int)),
        decreases m - j,
    {
        let e = graph.edges[j];
        if e.0 < n as u64 && e.1 < n as u64 {
            let a = e.0 as usize;
            let b = e.1 as usize;
            if kept[a] && kept[b] {
                new_edges.push((index_map[a] as u64, index_map[b] as u64));
                proof {
                    lemma_new_index_bounds(nv, a as int);
                    lemma_new_index_bounds(nv, b as int);
                }
            }
        }
        proof {
            assert(graph.edges@.take(j as int + 1).drop_last() =~= graph.edges@.take(j as int));
            assert(graph.edges@.take(j as int + 1).last() == graph.edges@[j as int]);
            assert(new_edges@ =~= filtered_edges(nv, graph.edges@.take(j as int + 1)));
        }
        j += 1;
    }
    proof {
        assert(nv.take(n as int) =~= nv);
        assert(graph.edges@.take(m as int) =~= graph.edges@);
    }
    Graph { nodes: new_nodes, edges: new_edges }
}

} // verus!
