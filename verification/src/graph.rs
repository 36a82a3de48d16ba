//! The update graph: nodes are releases (oldest first), edges are permitted
//! update paths, always from an older node to a newer one.

use crate::metadata::{Commit, OciImage, Release, UpdateEntry, UpdateRollout, UpdatesJSON};
use crate::numtext::{dec_of, u64_to_string};
use crate::policy::{filter_deadends, filter_deadends_spec, graph_wf};
use vstd::prelude::*;

verus! {

/// Single release entry in the update graph.
///
/// `metadata` is a string-to-string mapping kept as a vector of key/value
/// pairs; assembly never writes a key twice, and insertion order carries no
/// meaning.
#[derive(Debug)]
pub struct CincinnatiPayload {
    pub version: String,
    pub metadata: Vec<(String, String)>,
    pub payload: String,
}

/// Mathematical abstraction of one node: every string as a sequence of
/// characters.
pub struct NodeView {
    pub version: Seq<char>,
    pub metadata: Seq<(Seq<char>, Seq<char>)>,
    pub payload: Seq<char>,
}

/// The character-level view of a metadata pair list.
pub open spec fn md_view(md: Seq<(String, String)>) -> Seq<(Seq<char>, Seq<char>)> {
    md.map_values(|p: (String, String)| (p.0@, p.1@))
}

impl View for CincinnatiPayload {
    type V = NodeView;

    open spec fn view(&self) -> NodeView {
        NodeView { version: self.version@, metadata: md_view(self.metadata@), payload: self.payload@ }
    }
}

impl Clone for CincinnatiPayload {
    fn clone(&self) -> (r: Self)
        ensures
            r@ == self@,
    {
        let mut metadata: Vec<(String, String)> = Vec::new();
        let mut j: usize = 0;
        while j < self.metadata.len()
            invariant
                j <= self.metadata.len(),
                metadata@.len() == j,
                forall|k: int|
                    0 <= k < j ==> #[trigger] md_view(metadata@)[k] == md_view(self.metadata@)[k],
            decreases self.metadata.len() - j,
        {
            let pair = (self.metadata[j].0.clone(), self.metadata[j].1.clone());
            let ghost prev = metadata@;
            metadata.push(pair);
            proof {
                assert forall|k: int| 0 <= k < j + 1 implies #[trigger] md_view(metadata@)[k]
                    == md_view(self.metadata@)[k] by {
                    if k < j {
                        assert(metadata@[k] == prev[k]);
                        assert(md_view(prev)[k] == md_view(self.metadata@)[k]);
                    } else {
                        assert(metadata@[k] == pair);
                    }
                }
            }
            j += 1;
        }
        let r = CincinnatiPayload {
            version: self.version.clone(),
            metadata,
            payload: self.payload.clone(),
        };
        proof {
            assert(md_view(r.metadata@) =~= md_view(self.metadata@));
        }
        r
    }
}

/// Update graph: a DAG with releases (nodes) and update paths (edges).
#[derive(Debug)]
pub struct Graph {
    pub nodes: Vec<CincinnatiPayload>,
    pub edges: Vec<(u64, u64)>,
}

/// Mathematical abstraction of a graph.
pub struct GraphView {
    pub nodes: Seq<NodeView>,
    pub edges: Seq<(u64, u64)>,
}

/// The node-view sequence of a node vector.
pub open spec fn nodes_view(nodes: Seq<CincinnatiPayload>) -> Seq<NodeView> {
    nodes.map_values(|n: CincinnatiPayload| n@)
}

impl View for Graph {
    type V = GraphView;

    open spec fn view(&self) -> GraphView {
        GraphView { nodes: nodes_view(self.nodes@), edges: self.edges@ }
    }
}

impl Clone for Graph {
    fn clone(&self) -> (r: Self)
        ensures
            r@ == self@,
    {
        let mut nodes: Vec<CincinnatiPayload> = Vec::new();
        let mut i: usize = 0;
        while i < self.nodes.len()
            invariant
                i <= self.nodes.len(),
                nodes@.len() == i,
                forall|k: int|
                    0 <= k < i ==> #[trigger] nodes_view(nodes@)[k] == nodes_view(self.nodes@)[k],
            decreases self.nodes.len() - i,
        {
            let node = self.nodes[i].clone();
            let ghost prev = nodes@;
            nodes.push(node);
            proof {
                assert forall|k: int| 0 <= k < i + 1 implies #[trigger] nodes_view(nodes@)[k]
                    == nodes_view(self.nodes@)[k] by {
                    if k < i {
                        assert(nodes@[k] == prev[k]);
                        assert(nodes_view(prev)[k] == nodes_view(self.nodes@)[k]);
                    } else {
                        assert(nodes@[k] == node);
                    }
                }
            }
            i += 1;
        }
        let mut edges: Vec<(u64, u64)> = Vec::new();
        let mut j: usize = 0;
        while j < self.edges.len()
            invariant
                j <= self.edges.len(),
                edges@ == self.edges@.take(j as int),
            decreases self.edges.len() - j,
        {
            edges.push(self.edges[j]);
            proof {
                assert(edges@ =~= self.edges@.take(j as int + 1));
            }
            j += 1;
        }
        let r = Graph { nodes, edges };
        proof {
            assert(r.edges@ =~= self.edges@);
            assert(nodes_view(r.nodes@) =~= nodes_view(self.nodes@));
        }
        r
    }
}

impl Default for Graph {
    /// The empty graph: the well-formed answer meaning "no data yet".
    fn default() -> (g: Graph)
        ensures
            g@.nodes.len() == 0,
            g@.edges.len() == 0,
    {
        Graph { nodes: Vec::new(), edges: Vec::new() }
    }
}

/// The scope of a cached graph: the stream, basearch and payload scheme that
/// it is valid for.
#[derive(Debug)]
pub struct GraphScope {
    pub basearch: String,
    pub stream: String,
    pub oci: bool,
}

/// Scope equality: full equality of all three components.
pub open spec fn scope_eq(a: GraphScope, b: GraphScope) -> bool {
    a.basearch@ == b.basearch@ && a.stream@ == b.stream@ && a.oci == b.oci
}

impl Clone for GraphScope {
    fn clone(&self) -> (r: Self)
        ensures
            r == *self,
    {
        GraphScope {
            basearch: self.basearch.clone(),
            stream: self.stream.clone(),
            oci: self.oci,
        }
    }
}

impl PartialEq for GraphScope {
    fn eq(&self, other: &GraphScope) -> (r: bool) {
        self.basearch == other.basearch && self.stream == other.stream && self.oci == other.oci
    }
}

impl vstd::std_specs::cmp::PartialEqSpecImpl for GraphScope {
    open spec fn obeys_eq_spec() -> bool {
        true
    }

    open spec fn eq_spec(&self, other: &GraphScope) -> bool {
        scope_eq(*self, *other)
    }
}

/// Whether the metadata mapping carries `key`.
pub open spec fn md_has_key(md: Seq<(Seq<char>, Seq<char>)>, key: Seq<char>) -> bool {
    exists|i: int| 0 <= i < md.len() && md[i].0 == key
}

/// Whether the node is marked as a barrier.
pub open spec fn node_is_barrier(n: NodeView) -> bool {
    md_has_key(n.metadata, "barrier"@)
}

/// Whether the node is marked as under progressive rollout.
pub open spec fn node_is_rollout(n: NodeView) -> bool {
    md_has_key(n.metadata, "rollout"@)
}

/// Whether the node is marked as a dead end.
pub open spec fn node_is_deadend(n: NodeView) -> bool {
    md_has_key(n.metadata, "deadend"@)
}

/// Looks a key up in a node's metadata pair list.
pub(crate) fn has_md_key(md: &Vec<(String, String)>, key: &str) -> (r: bool)
    ensures
        r == md_has_key(md_view(md@), key@),
{
    let key_owned: String = key.to_owned();
    let mut j: usize = 0;
    while j < md.len()
        invariant
            j <= md.len(),
            key_owned@ == key@,
            forall|i: int| 0 <= i < j ==> md_view(md@)[i].0 != key@,
        decreases md.len() - j,
    {
        if md[j].0 == key_owned {
            assert(md_view(md@)[j as int].0 == key@);
            return true;
        }
        j += 1;
    }
    false
}

/// The nearest barrier-marked index strictly below `t`, or 0 if there is
/// none.
pub open spec fn prev_barrier(nodes: Seq<NodeView>, t: int) -> int
    decreases t,
{
    if t <= 0 {
        0
    } else if node_is_barrier(nodes[t - 1]) {
        t - 1
    } else {
        prev_barrier(nodes, t - 1)
    }
}

/// Whether index `t` receives incoming edges: it is barrier- or
/// rollout-marked.
pub open spec fn edge_target(n: NodeView) -> bool {
    node_is_barrier(n) || node_is_rollout(n)
}

/// The incoming edges of target `t`: one from every index in `[pb, t)`.
pub open spec fn incoming_edges(pb: int, t: int) -> Seq<(u64, u64)> {
    Seq::new((t - pb) as nat, |k: int| ((pb + k) as u64, t as u64))
}

/// The edge list over targets below `t`, in ascending target order.
pub open spec fn edges_upto(nodes: Seq<NodeView>, t: int) -> Seq<(u64, u64)>
    decreases t,
{
    if t <= 0 {
        Seq::empty()
    } else {
        edges_upto(nodes, t - 1) + if edge_target(nodes[t - 1]) {
            incoming_edges(prev_barrier(nodes, t - 1), t - 1)
        } else {
            Seq::empty()
        }
    }
}

/// The full edge list of a node sequence.
pub open spec fn graph_edges_spec(nodes: Seq<NodeView>) -> Seq<(u64, u64)> {
    edges_upto(nodes, nodes.len() as int)
}

/// Failure of graph assembly. Reachable only on internal inconsistency, never
/// on malformed input; ineligible releases are silently skipped instead.
#[derive(Clone, Copy, Debug, PartialEq, Eq, Structural)]
pub enum GraphError {
    Inconsistency,
}

/// The view of an optional string.
pub open spec fn opt_string_view(o: Option<String>) -> Option<Seq<char>> {
    match o {
        None => None,
        Some(s) => Some(s@),
    }
}

/// Whether a commit payload fits the scope's architecture and is non-empty.
pub open spec fn commit_match(c: Commit, basearch: Seq<char>) -> bool {
    c.architecture@ == basearch && c.checksum@.len() > 0
}

/// The checksum of the last matching commit, if any.
pub open spec fn select_commit(commits: Seq<Commit>, basearch: Seq<char>) -> Option<Seq<char>>
    decreases commits.len(),
{
    if commits.len() == 0 {
        None
    } else if commit_match(commits.last(), basearch) {
        Some(commits.last().checksum@)
    } else {
        select_commit(commits.drop_last(), basearch)
    }
}

/// Whether an OCI image fits the scope's architecture and is non-empty.
pub open spec fn oci_match(img: OciImage, basearch: Seq<char>) -> bool {
    img.architecture@ == basearch && img.digest_ref@.len() > 0
}

/// The digest of the last matching OCI image, if any.
pub open spec fn select_oci(images: Seq<OciImage>, basearch: Seq<char>) -> Option<Seq<char>>
    decreases images.len(),
{
    if images.len() == 0 {
        None
    } else if oci_match(images.last(), basearch) {
        Some(images.last().digest_ref@)
    } else {
        select_oci(images.drop_last(), basearch)
    }
}

/// The payload reference a release contributes under a scope, if it is
/// eligible: the last scope-matching checksum or image digest.
pub open spec fn select_payload_spec(r: Release, scope: GraphScope) -> Option<Seq<char>> {
    if scope.oci {
        match r.oci_images {
            None => None,
            Some(images) => select_oci(images@, scope.basearch@),
        }
    } else {
        select_commit(r.commits@, scope.basearch@)
    }
}

/// A release becomes a node only if it has a scope-matching payload.
pub open spec fn release_eligible(r: Release, scope: GraphScope) -> bool {
    select_payload_spec(r, scope) is Some
}

/// The payload scheme name of a scope.
pub open spec fn scheme_of(scope: GraphScope) -> Seq<char> {
    if scope.oci {
        "oci"@
    } else {
        "checksum"@
    }
}

/// The declared reason, defaulting to "generic" when empty.
pub open spec fn effective_reason(reason: Seq<char>) -> Seq<char> {
    if reason.len() == 0 {
        "generic"@
    } else {
        reason
    }
}

/// The dead-end reason declared for `version` by the last policy entry that
/// carries one, if any.
pub open spec fn deadend_reason_for(entries: Seq<UpdateEntry>, version: Seq<char>) -> Option<
    Seq<char>,
>
    decreases entries.len(),
{
    if entries.len() == 0 {
        None
    } else if entries.last().version@ == version && entries.last().metadata.deadend is Some {
        Some(entries.last().metadata.deadend->0.reason@)
    } else {
        deadend_reason_for(entries.drop_last(), version)
    }
}

/// The barrier reason declared for `version` by the last policy entry that
/// carries one, if any.
pub open spec fn barrier_reason_for(entries: Seq<UpdateEntry>, version: Seq<char>) -> Option<
    Seq<char>,
>
    decreases entries.len(),
{
    if entries.len() == 0 {
        None
    } else if entries.last().version@ == version && entries.last().metadata.barrier is Some {
        Some(entries.last().metadata.barrier->0.reason@)
    } else {
        barrier_reason_for(entries.drop_last(), version)
    }
}

/// The rollout directive declared for `version` by the last policy entry that
/// carries one, if any.
pub open spec fn rollout_for(entries: Seq<UpdateEntry>, version: Seq<char>) -> Option<
    UpdateRollout,
>
    decreases entries.len(),
{
    if entries.len() == 0 {
        None
    } else if entries.last().version@ == version && entries.last().metadata.rollout is Some {
        entries.last().metadata.rollout
    } else {
        rollout_for(entries.drop_last(), version)
    }
}

/// The metadata pairs the dead-end policy adds to a node.
pub open spec fn deadend_pairs(entries: Seq<UpdateEntry>, version: Seq<char>) -> Seq<
    (Seq<char>, Seq<char>),
> {
    match deadend_reason_for(entries, version) {
        None => Seq::empty(),
        Some(reason) => seq![("deadend"@, "true"@), ("deadend_reason"@, effective_reason(reason))],
    }
}

/// The metadata pairs the barrier policy adds to a node.
pub open spec fn barrier_pairs(entries: Seq<UpdateEntry>, version: Seq<char>) -> Seq<
    (Seq<char>, Seq<char>),
> {
    match barrier_reason_for(entries, version) {
        None => Seq::empty(),
        Some(reason) => seq![("barrier"@, "true"@), ("barrier_reason"@, effective_reason(reason))],
    }
}

/// A numeric metadata pair, present only when the value is.
pub open spec fn opt_num_pair(key: Seq<char>, v: Option<u64>) -> Seq<(Seq<char>, Seq<char>)> {
    match v {
        None => Seq::empty(),
        Some(n) => seq![(key, dec_of(n as nat))],
    }
}

/// The metadata pairs the rollout policy adds to a node.
pub open spec fn rollout_pairs(entries: Seq<UpdateEntry>, version: Seq<char>) -> Seq<
    (Seq<char>, Seq<char>),
> {
    match rollout_for(entries, version) {
        None => Seq::empty(),
        Some(r) => seq![("rollout"@, "true"@)] + opt_num_pair("start_epoch"@, r.start_epoch)
            + opt_num_pair("start_value"@, r.start_percentage) + opt_num_pair(
            "duration"@,
            r.duration_minutes,
        ),
    }
}

/// The full metadata mapping of a node: its age rank and payload scheme, plus
/// whatever the updates policy declares for its version.
pub open spec fn node_md_spec(
    age: nat,
    scope: GraphScope,
    entries: Seq<UpdateEntry>,
    version: Seq<char>,
) -> Seq<(Seq<char>, Seq<char>)> {
    seq![("age_index"@, dec_of(age)), ("scheme"@, scheme_of(scope))] + deadend_pairs(
        entries,
        version,
    ) + barrier_pairs(entries, version) + rollout_pairs(entries, version)
}

/// The node an eligible release assembles into.
pub open spec fn node_spec(
    r: Release,
    age: nat,
    entries: Seq<UpdateEntry>,
    scope: GraphScope,
) -> NodeView {
    NodeView {
        version: r.version@,
        metadata: node_md_spec(age, scope, entries, r.version@),
        payload: select_payload_spec(r, scope)->0,
    }
}

/// The node sequence assembled from a release index: eligible releases in
/// input order, each ranked by its position in the full index.
pub open spec fn assemble_nodes(
    releases: Seq<Release>,
    entries: Seq<UpdateEntry>,
    scope: GraphScope,
) -> Seq<NodeView>
    decreases releases.len(),
{
    if releases.len() == 0 {
        Seq::empty()
    } else {
        assemble_nodes(releases.drop_last(), entries, scope) + if release_eligible(
            releases.last(),
            scope,
        ) {
            seq![node_spec(releases.last(), (releases.len() - 1) as nat, entries, scope)]
        } else {
            Seq::empty()
        }
    }
}

/// The graph assembled from a release index and updates policy, before
/// dead-end filtering.
pub open spec fn assembled_graph(
    releases: Seq<Release>,
    entries: Seq<UpdateEntry>,
    scope: GraphScope,
) -> GraphView {
    let nodes = assemble_nodes(releases, entries, scope);
    GraphView { nodes, edges: graph_edges_spec(nodes) }
}

/// The graph `Graph::from_metadata` returns: assembled, then dead-end
/// filtered.
pub open spec fn built_graph(
    releases: Seq<Release>,
    entries: Seq<UpdateEntry>,
    scope: GraphScope,
) -> GraphView {
    filter_deadends_spec(assembled_graph(releases, entries, scope))
}

/// Selects the payload reference a release contributes under a scope.
fn select_payload(release: &Release, scope: &GraphScope) -> (r: Option<String>)
    ensures
        opt_string_view(r) == select_payload_spec(*release, *scope),
{
    let mut found: Option<String> = None;
    if scope.oci {
        if let Some(images) = &release.oci_images {
            let mut j: usize = 0;
            while j < images.len()
                invariant
                    j <= images.len(),
                    opt_string_view(found) == select_oci(images@.take(j as int), scope.basearch@),
                decreases images.len() - j,
            {
                if images[j].architecture == scope.basearch && !images[j].digest_ref.as_str().is_empty() {
                    found = Some(images[j].digest_ref.clone());
                }
                proof {
                    assert(images@.take(j as int + 1).drop_last() =~= images@.take(j as int));
                    assert(images@.take(j as int + 1).last() == images@[j as int]);
                }
                j += 1;
            }
            proof {
                assert(images@.take(images@.len() as int) =~= images@);
            }
        }
    } else {
        let commits = &release.commits;
        let mut j: usize = 0;
        while j < commits.len()
            invariant
                j <= commits.len(),
                opt_string_view(found) == select_commit(commits@.take(j as int), scope.basearch@),
            decreases commits.len() - j,
        {
            if commits[j].architecture == scope.basearch && !commits[j].checksum.as_str().is_empty() {
                found = Some(commits[j].checksum.clone());
            }
            proof {
                assert(commits@.take(j as int + 1).drop_last() =~= commits@.take(j as int));
                assert(commits@.take(j as int + 1).last() == commits@[j as int]);
            }
            j += 1;
        }
        proof {
            assert(commits@.take(commits@.len() as int) =~= commits@);
        }
    }
    found
}

impl Graph {
    /// Compute edges based on graph metadata: every barrier- or
    /// rollout-marked node receives an edge from each node since the previous
    /// barrier.
    fn compute_edges(nodes: &Vec<CincinnatiPayload>) -> (edges: Vec<(u64, u64)>)
        ensures
            edges@ == graph_edges_spec(nodes_view(nodes@)),
    {
        let ghost nv = nodes_view(nodes@);
        let mut edges: Vec<(u64, u64)> = Vec::new();
        let mut pb: usize = 0;
        let n = nodes.len();
        let mut t: usize = 0;
        while t < n
            invariant
                n == nv.len(),
                nv == nodes_view(nodes@),
                t <= n,
                pb <= t,
                pb as int == prev_barrier(nv, t as int),
                edges@ == edges_upto(nv, t as int),
            decreases n - t,
        {
            assert(nv[t as int] == nodes@[t as int]@);
            let rollout = has_md_key(&nodes[t].metadata, "rollout");
            let barrier = has_md_key(&nodes[t].metadata, "barrier");
            if rollout || barrier {
                let mut i = pb;
                while i < t
                    invariant
                        pb <= i <= t,
                        edges@ == edges_upto(nv, t as int) + incoming_edges(pb as int, t as int).take(
                            i - pb,
                        ),
                    decreases t - i,
                {
                    edges.push((i as u64, t as u64));
                    proof {
                        assert(incoming_edges(pb as int, t as int).take(i + 1 - pb) =~= incoming_edges(
                            pb as int,
                            t as int,
                        ).take(i - pb) + seq![(i as u64, t as u64)]);
                    }
                    i += 1;
                }
                proof {
                    assert(incoming_edges(pb as int, t as int).take(t - pb) =~= incoming_edges(
                        pb as int,
                        t as int,
                    ));
                }
            } else {
                proof {
                    assert(edges@ =~= edges_upto(nv, t as int) + Seq::<(u64, u64)>::empty());
                }
            }
            if barrier {
                pb = t;
            }
            t += 1;
        }
        edges
    }

    /// Augments a node with the barrier marker and reason that the updates
    /// policy declares for its version, if any.
    pub fn inject_barrier_reason(updates: &UpdatesJSON, release: &mut CincinnatiPayload)
        ensures
            final(release).version == old(release).version,
            final(release).payload == old(release).payload,
            md_view(final(release).metadata@) == md_view(old(release).metadata@) + barrier_pairs(
                updates.releases@,
                old(release).version@,
            ),
    {
        let ghost orig = *release;
        let mut found: Option<String> = None;
        let n = updates.releases.len();
        let mut j: usize = 0;
        while j < n
            invariant
                j <= n,
                n == updates.releases@.len(),
                *release == orig,
                opt_string_view(found) == barrier_reason_for(
                    updates.releases@.take(j as int),
                    orig.version@,
                ),
            decreases n - j,
        {
            let entry = &updates.releases[j];
            if entry.version == release.version {
                if let Some(barrier) = &entry.metadata.barrier {
                    found = Some(barrier.reason.clone());
                }
            }
            proof {
                assert(updates.releases@.take(j as int + 1).drop_last() =~= updates.releases@.take(
                    j as int,
                ));
                assert(updates.releases@.take(j as int + 1).last() == updates.releases@[j as int]);
            }
            j += 1;
        }
        proof {
            assert(updates.releases@.take(n as int) =~= updates.releases@);
        }
        if let Some(reason) = found {
            let ghost md0 = release.metadata@;
            release.metadata.push(("barrier".to_owned(), "true".to_owned()));
            let effective: String = if reason.as_str().is_empty() {
                "generic".to_owned()
            } else {
                reason
            };
            release.metadata.push(("barrier_reason".to_owned(), effective));
            proof {
                assert(md_view(release.metadata@) =~= md_view(md0) + barrier_pairs(
                    updates.releases@,
                    orig.version@,
                ));
            }
        } else {
            proof {
                assert(md_view(release.metadata@) =~= md_view(release.metadata@) + barrier_pairs(
                    updates.releases@,
                    orig.version@,
                ));
            }
        }
    }

    /// Augments a node with the dead-end marker and reason that the updates
    /// policy declares for its version, if any.
    pub fn inject_deadend_reason(updates: &UpdatesJSON, release: &mut CincinnatiPayload)
        ensures
            final(release).version == old(release).version,
            final(release).payload == old(release).payload,
            md_view(final(release).metadata@) == md_view(old(release).metadata@) + deadend_pairs(
                updates.releases@,
                old(release).version@,
            ),
    {
        let ghost orig = *release;
        let mut found: Option<String> = None;
        let n = updates.releases.len();
        let mut j: usize = 0;
        while j < n
            invariant
                j <= n,
                n == updates.releases@.len(),
                *release == orig,
                opt_string_view(found) == deadend_reason_for(
                    updates.releases@.take(j as int),
                    orig.version@,
                ),
            decreases n - j,
        {
            let entry = &updates.releases[j];
            if entry.version == release.version {
                if let Some(deadend) = &entry.metadata.deadend {
                    found = Some(deadend.reason.clone());
                }
            }
            proof {
                assert(updates.releases@.take(j as int + 1).drop_last() =~= updates.releases@.take(
                    j as int,
                ));
                assert(updates.releases@.take(j as int + 1).last() == updates.releases@[j as int]);
            }
            j += 1;
        }
        proof {
            assert(updates.releases@.take(n as int) =~= updates.releases@);
        }
        if let Some(reason) = found {
            let ghost md0 = release.metadata@;
            release.metadata.push(("deadend".to_owned(), "true".to_owned()));
            let effective: String = if reason.as_str().is_empty() {
                "generic".to_owned()
            } else {
                reason
            };
            release.metadata.push(("deadend_reason".to_owned(), effective));
            proof {
                assert(md_view(release.metadata@) =~= md_view(md0) + deadend_pairs(
                    updates.releases@,
                    orig.version@,
                ));
            }
        } else {
            proof {
                assert(md_view(release.metadata@) =~= md_view(release.metadata@) + deadend_pairs(
                    updates.releases@,
                    orig.version@,
                ));
            }
        }
    }

    /// Augments a node with the rollout marker and throttling parameters that
    /// the updates policy declares for its version, if any.
    pub fn inject_throttling_params(updates: &UpdatesJSON, release: &mut CincinnatiPayload)
        ensures
            final(release).version == old(release).version,
            final(release).payload == old(release).payload,
            md_view(final(release).metadata@) == md_view(old(release).metadata@) + rollout_pairs(
                updates.releases@,
                old(release).version@,
            ),
    {
        let ghost orig = *release;
        let mut found: Option<UpdateRollout> = None;
        let n = updates.releases.len();
        let mut j: usize = 0;
        while j < n
            invariant
                j <= n,
                n == updates.releases@.len(),
                *release == orig,
                found == rollout_for(updates.releases@.take(j as int), orig.version@),
            decreases n - j,
        {
            let entry = &updates.releases[j];
            if entry.version == release.version {
                if let Some(rollout) = &entry.metadata.rollout {
                    found = Some(*rollout);
                }
            }
            proof {
                assert(updates.releases@.take(j as int + 1).drop_last() =~= updates.releases@.take(
                    j as int,
                ));
                assert(updates.releases@.take(j as int + 1).last() == updates.releases@[j as int]);
            }
            j += 1;
        }
        proof {
            assert(updates.releases@.take(n as int) =~= updates.releases@);
        }
        if let Some(rollout) = found {
            let ghost md0 = release.metadata@;
            release.metadata.push(("rollout".to_owned(), "true".to_owned()));
            if let Some(val) = rollout.start_epoch {
                release.metadata.push(("start_epoch".to_owned(), u64_to_string(val)));
            }
            if let Some(val) = rollout.start_percentage {
                release.metadata.push(("start_value".to_owned(), u64_to_string(val)));
            }
            if let Some(minutes) = rollout.duration_minutes {
                release.metadata.push(("duration".to_owned(), u64_to_string(minutes)));
            }
            proof {
                assert(md_view(release.metadata@) =~= md_view(md0) + rollout_pairs(
                    updates.releases@,
                    orig.version@,
                ));
            }
        } else {
            proof {
                assert(md_view(release.metadata@) =~= md_view(release.metadata@) + rollout_pairs(
                    updates.releases@,
                    orig.version@,
                ));
            }
        }
    }

    /// Assemble a graph from release-index and updates metadata: eligible
    /// releases become nodes in input order, policy markers are merged in,
    /// edges are computed, and dead ends are filtered out.
    pub fn from_metadata(releases: Vec<Release>, updates: UpdatesJSON, scope: GraphScope) -> (r:
        Result<Graph, GraphError>)
        ensures
            r is Ok,
            r matches Ok(g) ==> g@ == built_graph(releases@, updates.releases@, scope),
            r matches Ok(g) ==> graph_wf(g@),
            r matches Ok(g) ==> forall|j: int|
                0 <= j < g@.nodes.len() ==> (#[trigger] g@.nodes[j]).payload.len() > 0,
    {
        let ghost entries = updates.releases@;
        let mut nodes: Vec<CincinnatiPayload> = Vec::new();
        let n = releases.len();
        let mut idx: usize = 0;
        while idx < n
            invariant
                idx <= n,
                n == releases@.len(),
                nodes_view(nodes@) == assemble_nodes(releases@.take(idx as int), entries, scope),
                entries == updates.releases@,
            decreases n - idx,
        {
            let entry = &releases[idx];
            let selected = select_payload(entry, &scope);
            proof {
                assert(releases@.take(idx as int + 1).drop_last() =~= releases@.take(idx as int));
                assert(releases@.take(idx as int + 1).last() == releases@[idx as int]);
            }
            match selected {
                None => {
                    proof {
                        assert(nodes_view(nodes@) =~= assemble_nodes(
                            releases@.take(idx as int + 1),
                            entries,
                            scope,
                        ));
                    }
                },
                Some(payload) => {
                    let mut current = CincinnatiPayload {
                        version: entry.version.clone(),
                        metadata: Vec::new(),
                        payload,
                    };
                    current.metadata.push(("age_index".to_owned(), u64_to_string(idx as u64)));
                    let scheme: &str = if scope.oci {
                        "oci"
                    } else {
                        "checksum"
                    };
                    current.metadata.push(("scheme".to_owned(), scheme.to_owned()));
                    proof {
                        assert(md_view(current.metadata@) =~= seq![
                            ("age_index"@, dec_of(idx as nat)),
                            ("scheme"@, scheme_of(scope)),
                        ]);
                    }
                    Self::inject_deadend_reason(&updates, &mut current);
                    Self::inject_barrier_reason(&updates, &mut current);
                    Self::inject_throttling_params(&updates, &mut current);
                    proof {
                        assert(current@.metadata =~= node_md_spec(
                            idx as nat,
                            scope,
                            entries,
                            releases@[idx as int].version@,
                        ));
                        assert(current@ == node_spec(releases@[idx as int], idx as nat, entries, scope));
                    }
                    let ghost prev = nodes@;
                    nodes.push(current);
                    proof {
                        assert(nodes_view(nodes@) =~= nodes_view(prev) + seq![node_spec(
                            releases@[idx as int],
                            idx as nat,
                            entries,
                            scope,
                        )]);
                        assert(nodes_view(nodes@) =~= assemble_nodes(
                            releases@.take(idx as int + 1),
                            entries,
                            scope,
                        ));
                    }
                },
            }
            idx += 1;
        }
        proof {
            assert(releases@.take(n as int) =~= releases@);
        }
        let node_count = nodes.len();
        let edges = Self::compute_edges(&nodes);
        let graph = Graph { nodes, edges };
        let ghost assembled = graph@;
        proof {
            assert(assembled.nodes.len() == node_count);
            assert(assembled == assembled_graph(releases@, entries, scope));
            lemma_edges_acyclic(assembled.nodes);
            crate::policy::lemma_filter_preserves_wf(assembled);
        }
        let final_graph = filter_deadends(graph);
        proof {
            lemma_nodes_payload_nonempty(releases@, entries, scope);
            crate::policy::lemma_kept_nodes_elements(assembled.nodes);
            assert forall|j: int| 0 <= j < final_graph@.nodes.len() implies (
            #[trigger] final_graph@.nodes[j]).payload.len() > 0 by {
                assert(final_graph@.nodes[j] == crate::policy::kept_nodes(assembled.nodes)[j]);
                let k = choose|k: int|
                    0 <= k < assembled.nodes.len() && (#[trigger] crate::policy::kept_nodes(
                        assembled.nodes,
                    )[j]) == assembled.nodes[k];
                assert(assembled.nodes[k].payload.len() > 0);
            }
        }
        Ok(final_graph)
    }
}

/// The bound on `prev_barrier`: non-negative and strictly below a positive
/// target.
pub proof fn lemma_prev_barrier_bounds(nodes: Seq<NodeView>, t: int)
    requires
        t >= 0,
    ensures
        0 <= prev_barrier(nodes, t) <= t,
        t > 0 ==> prev_barrier(nodes, t) < t,
    decreases t,
{
    if t > 0 && !node_is_barrier(nodes[t - 1]) {
        lemma_prev_barrier_bounds(nodes, t - 1);
    }
}

/// An edge is in the computed edge list exactly when its target is a barrier
/// or rollout below `t` and its source lies between the previous barrier and
/// the target.
proof fn lemma_edges_upto_membership(nodes: Seq<NodeView>, t: int)
    requires
        0 <= t <= nodes.len(),
        nodes.len() <= u64::MAX,
    ensures
        forall|e: (u64, u64)|
            #[trigger] edges_upto(nodes, t).contains(e) <==> ((e.1 as int) < t && edge_target(
                nodes[e.1 as int],
            ) && prev_barrier(nodes, e.1 as int) <= (e.0 as int) && (e.0 as int) < (e.1 as int)),
    decreases t,
{
    if t > 0 {
        lemma_edges_upto_membership(nodes, t - 1);
        let out = edges_upto(nodes, t);
        let sub = edges_upto(nodes, t - 1);
        let pb = prev_barrier(nodes, t - 1);
        lemma_prev_barrier_bounds(nodes, t - 1);
        assert forall|e: (u64, u64)| #[trigger] out.contains(e) implies ((e.1 as int) < t
            && edge_target(nodes[e.1 as int]) && prev_barrier(nodes, e.1 as int) <= (e.0 as int)
            && (e.0 as int) < (e.1 as int)) by {
            let i = choose|i: int| 0 <= i < out.len() && out[i] == e;
            if i < sub.len() {
                assert(sub[i] == e);
                assert(sub.contains(e));
            } else {
                assert(edge_target(nodes[t - 1]));
                assert(e == incoming_edges(pb, t - 1)[i - sub.len()]);
            }
        }
        assert forall|e: (u64, u64)| ((e.1 as int) < t && edge_target(nodes[e.1 as int])
            && prev_barrier(nodes, e.1 as int) <= (e.0 as int) && (e.0 as int) < (e.1 as int)) implies #[trigger] out.contains(
            e,
        ) by {
            if (e.1 as int) < t - 1 {
                assert(sub.contains(e));
                let i = choose|i: int| 0 <= i < sub.len() && sub[i] == e;
                assert(out[i] == e);
            } else {
                let k = e.0 as int - pb;
                assert(incoming_edges(pb, t - 1)[k] == e);
                assert(out[sub.len() + k] == e);
            }
        }
    }
}

/// Acyclicity by construction: every computed edge points from a strictly
/// earlier node to a strictly later, valid one.
pub proof fn lemma_edges_acyclic(nodes: Seq<NodeView>)
    requires
        nodes.len() <= u64::MAX,
    ensures
        forall|j: int|
            0 <= j < graph_edges_spec(nodes).len() ==> ((#[trigger] graph_edges_spec(nodes)[j]).0
                < graph_edges_spec(nodes)[j].1 && (graph_edges_spec(nodes)[j].1 as int)
                < nodes.len()),
{
    lemma_edges_upto_membership(nodes, nodes.len() as int);
    assert forall|j: int| 0 <= j < graph_edges_spec(nodes).len() implies ((
    #[trigger] graph_edges_spec(nodes)[j]).0 < graph_edges_spec(nodes)[j].1 && (graph_edges_spec(
        nodes,
    )[j].1 as int) < nodes.len()) by {
        let e = graph_edges_spec(nodes)[j];
        assert(graph_edges_spec(nodes).contains(e));
    }
}

/// A barrier that is not also under rollout receives an edge from exactly the
/// nodes since the previous barrier: all of `[p, b)` and nothing before `p`.
pub proof fn lemma_barrier_incoming(nodes: Seq<NodeView>, b: int)
    requires
        0 <= b < nodes.len(),
        nodes.len() <= u64::MAX,
        node_is_barrier(nodes[b]),
        !node_is_rollout(nodes[b]),
    ensures
        forall|i: int|
            prev_barrier(nodes, b) <= i < b ==> #[trigger] graph_edges_spec(nodes).contains(
                (i as u64, b as u64),
            ),
        forall|i: int|
            0 <= i < prev_barrier(nodes, b) ==> !(#[trigger] graph_edges_spec(nodes).contains(
                (i as u64, b as u64),
            )),
{
    lemma_edges_upto_membership(nodes, nodes.len() as int);
    lemma_prev_barrier_bounds(nodes, b);
}

/// A rollout receives an edge from every node since the previous barrier:
/// all of `[p, r)`.
pub proof fn lemma_rollout_incoming(nodes: Seq<NodeView>, r: int)
    requires
        0 <= r < nodes.len(),
        nodes.len() <= u64::MAX,
        node_is_rollout(nodes[r]),
    ensures
        forall|i: int|
            prev_barrier(nodes, r) <= i < r ==> #[trigger] graph_edges_spec(nodes).contains(
                (i as u64, r as u64),
            ),
{
    lemma_edges_upto_membership(nodes, nodes.len() as int);
    lemma_prev_barrier_bounds(nodes, r);
}

/// A selected commit checksum is never empty.
proof fn lemma_select_commit_nonempty(commits: Seq<Commit>, basearch: Seq<char>)
    ensures
        select_commit(commits, basearch) matches Some(p) ==> p.len() > 0,
    decreases commits.len(),
{
    if commits.len() > 0 && !commit_match(commits.last(), basearch) {
        lemma_select_commit_nonempty(commits.drop_last(), basearch);
    }
}

/// A selected OCI digest is never empty.
proof fn lemma_select_oci_nonempty(images: Seq<OciImage>, basearch: Seq<char>)
    ensures
        select_oci(images, basearch) matches Some(p) ==> p.len() > 0,
    decreases images.len(),
{
    if images.len() > 0 && !oci_match(images.last(), basearch) {
        lemma_select_oci_nonempty(images.drop_last(), basearch);
    }
}

/// A finished node never carries an empty payload reference.
pub proof fn lemma_nodes_payload_nonempty(
    releases: Seq<Release>,
    entries: Seq<UpdateEntry>,
    scope: GraphScope,
)
    ensures
        forall|j: int|
            0 <= j < assemble_nodes(releases, entries, scope).len() ==> (
            #[trigger] assemble_nodes(releases, entries, scope)[j]).payload.len() > 0,
{
    lemma_node_origin(releases, entries, scope);
    assert forall|j: int|
        0 <= j < assemble_nodes(releases, entries, scope).len() implies (
    #[trigger] assemble_nodes(releases, entries, scope)[j]).payload.len() > 0 by {
        let k = choose|k: int|
            0 <= k < releases.len() && release_eligible(#[trigger] releases[k], scope)
                && assemble_nodes(releases, entries, scope)[j] == node_spec(
                releases[k],
                k as nat,
                entries,
                scope,
            );
        if scope.oci {
            match releases[k].oci_images {
                None => {},
                Some(images) => {
                    lemma_select_oci_nonempty(images@, scope.basearch@);
                },
            }
        } else {
            lemma_select_commit_nonempty(releases[k].commits@, scope.basearch@);
        }
    }
}

/// Every assembled node arises from an eligible release: a release with no
/// scope-matching payload never appears as a node.
pub proof fn lemma_node_origin(releases: Seq<Release>, entries: Seq<UpdateEntry>, scope: GraphScope)
    ensures
        forall|j: int|
            0 <= j < assemble_nodes(releases, entries, scope).len() ==> exists|k: int|
                0 <= k < releases.len() && release_eligible(#[trigger] releases[k], scope) && (
                #[trigger] assemble_nodes(releases, entries, scope)[j]) == node_spec(
                    releases[k],
                    k as nat,
                    entries,
                    scope,
                ),
    decreases releases.len(),
{
    if releases.len() > 0 {
        lemma_node_origin(releases.drop_last(), entries, scope);
        let sub = assemble_nodes(releases.drop_last(), entries, scope);
        assert forall|j: int|
            0 <= j < assemble_nodes(releases, entries, scope).len() implies exists|k: int|
            0 <= k < releases.len() && release_eligible(#[trigger] releases[k], scope) && (
            #[trigger] assemble_nodes(releases, entries, scope)[j]) == node_spec(
                releases[k],
                k as nat,
                entries,
                scope,
            ) by {
            let out = assemble_nodes(releases, entries, scope);
            if j < sub.len() {
                assert(out[j] == assemble_nodes(releases.drop_last(), entries, scope)[j]);
                let k = choose|k: int|
                    0 <= k < releases.drop_last().len() && release_eligible(
                        #[trigger] releases.drop_last()[k],
                        scope,
                    ) && assemble_nodes(releases.drop_last(), entries, scope)[j] == node_spec(
                        releases.drop_last()[k],
                        k as nat,
                        entries,
                        scope,
                    );
                assert(releases[k] == releases.drop_last()[k]);
                assert(0 <= k < releases.len() && release_eligible(releases[k], scope) && out[j]
                    == node_spec(releases[k], k as nat, entries, scope));
            } else {
                let k = releases.len() - 1;
                assert(releases.last() == releases[k]);
                assert(0 <= k < releases.len() && release_eligible(releases[k], scope) && out[j]
                    == node_spec(releases[k], k as nat, entries, scope));
            }
        }
    }
}

} // verus!
