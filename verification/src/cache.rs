//! Per-scope graph cache: each configured scope owns one cache slot holding
//! the most recently successfully assembled graph for that scope.
//!
//! A long-lived worker drives one `ScopeCache` per scope: each cycle it
//! fetches upstream metadata and hands the outcome to `apply_scrape`. Readers
//! take snapshots through `get_cached_graph` at any time; they never see a
//! partially built graph, and a failed scrape never disturbs the cached one.

use crate::graph::{built_graph, Graph, GraphScope};
use crate::metadata::{Release, UpdatesJSON};
use vstd::prelude::*;

verus! {

/// The cache slot for one scope.
pub struct ScopeCache {
    pub scope: GraphScope,
    pub graph: Graph,
}

impl ScopeCache {
    /// Creates the cache for a scope. Before any successful scrape it holds
    /// the empty graph: a valid, well-formed answer meaning "no data yet".
    pub fn new(scope: GraphScope) -> (c: ScopeCache)
        ensures
            c.scope == scope,
            c.graph@.nodes.len() == 0,
            c.graph@.edges.len() == 0,
    {
        ScopeCache { scope, graph: Graph::default() }
    }

    /// Returns the most recently successfully built graph, immediately: a
    /// snapshot of the cached value, never a partially built graph.
    pub fn get_cached_graph(&self) -> (g: Graph)
        ensures
            g@ == self.graph@,
    {
        self.graph.clone()
    }

    /// Applies the outcome of one scrape cycle. A successful fetch replaces
    /// the cached graph wholesale with the freshly assembled one; a failed
    /// fetch (`None`) leaves the previously cached graph untouched, to be
    /// retried on the next cycle. Assembly failure degrades the same way.
    pub fn apply_scrape(&mut self, fetched: Option<(Vec<Release>, UpdatesJSON)>)
        ensures
            final(self).scope == old(self).scope,
            fetched is None ==> *final(self) == *old(self),
            fetched matches Some(f) ==> final(self).graph@ == built_graph(
                f.0@,
                f.1.releases@,
                old(self).scope,
            ),
    {
        match fetched {
            None => {},
            Some((releases, updates)) => {
                let scope = self.scope.clone();
                match Graph::from_metadata(releases, updates, scope) {
                    Ok(graph) => {
                        self.graph = graph;
                    },
                    Err(_) => {},
                }
            },
        }
    }
}

} // verus!
