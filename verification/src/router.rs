//! Query routing: validates an inbound scope against the allowed set,
//! dispatches to the matching scope cache, and dead-end filters the snapshot.

use crate::cache::ScopeCache;
use crate::graph::{scope_eq, Graph, GraphScope};
use crate::policy::{filter_deadends, filter_deadends_spec};
use vstd::prelude::*;

verus! {

/// Rejection of a graph query. Always a client error, never a server fault.
#[derive(Clone, Copy, Debug, PartialEq, Eq, Structural)]
pub enum QueryError {
    /// The requested scope fails validation against the allowed set.
    DisallowedScope,
    /// No scope cache is configured for the requested scope.
    UnknownScope,
}

/// Whether `scope` occurs in `scopes`.
pub open spec fn scope_in(scopes: Seq<GraphScope>, scope: GraphScope) -> bool {
    exists|i: int| 0 <= i < scopes.len() && scope_eq(scopes[i], scope)
}

/// Whether a scope passes validation: either no restriction is configured, or
/// the scope is in the allowed set.
pub open spec fn scope_allowed(filter: Option<Vec<GraphScope>>, scope: GraphScope) -> bool {
    match filter {
        None => true,
        Some(allowed) => scope_in(allowed@, scope),
    }
}

/// The position of the first cache serving `scope`, from index `i` on;
/// `caches.len()` when none does.
pub open spec fn first_cache_from(caches: Seq<ScopeCache>, scope: GraphScope, i: int) -> int
    decreases caches.len() - i,
{
    if i < 0 || i >= caches.len() {
        caches.len() as int
    } else if scope_eq(caches[i].scope, scope) {
        i
    } else {
        first_cache_from(caches, scope, i + 1)
    }
}

/// The position of the first cache serving `scope`; `caches.len()` when no
/// cache is configured for it.
pub open spec fn first_cache(caches: Seq<ScopeCache>, scope: GraphScope) -> int {
    first_cache_from(caches, scope, 0)
}

/// Validates an inbound scope against the configured allowed set.
pub fn validate_scope(scope: &GraphScope, filter: &Option<Vec<GraphScope>>) -> (r: Result<
    (),
    QueryError,
>)
    ensures
        r is Ok <==> scope_allowed(*filter, *scope),
        r is Err ==> r == Err::<(), QueryError>(QueryError::DisallowedScope),
{
    match filter {
        None => Ok(()),
        Some(allowed) => {
            let n = allowed.len();
            let mut i: usize = 0;
            while i < n
                invariant
                    i <= n,
                    n == allowed@.len(),
                    scope_allowed(*filter, *scope) == scope_in(allowed@, *scope),
                    forall|k: int| 0 <= k < i ==> !scope_eq(allowed@[k], *scope),
                decreases n - i,
            {
                if allowed[i] == *scope {
                    proof {
                        assert(scope_eq(allowed@[i as int], *scope));
                        assert(scope_in(allowed@, *scope));
                    }
                    return Ok(());
                }
                i += 1;
            }
            Err(QueryError::DisallowedScope)
        },
    }
}

/// Serves one graph query: rejects a scope that fails validation or has no
/// configured cache, and otherwise answers with the dead-end-filtered
/// snapshot of the first matching cache's current graph.
pub fn route_query(
    scope: &GraphScope,
    filter: &Option<Vec<GraphScope>>,
    caches: &Vec<ScopeCache>,
) -> (r: Result<Graph, QueryError>)
    ensures
        r is Err <==> (!scope_allowed(*filter, *scope) || first_cache(caches@, *scope)
            == caches@.len()),
        !scope_allowed(*filter, *scope) ==> r == Err::<Graph, QueryError>(
            QueryError::DisallowedScope,
        ),
        (scope_allowed(*filter, *scope) && first_cache(caches@, *scope) == caches@.len()) ==> r
            == Err::<Graph, QueryError>(QueryError::UnknownScope),
        r matches Ok(g) ==> g@ == filter_deadends_spec(
            caches@[first_cache(caches@, *scope)].graph@,
        ),
    {
    if let Err(e) = validate_scope(scope, filter) {
        return Err(e);
    }
    let n = caches.len();
    let mut i: usize = 0;
    while i < n
        invariant
            i <= n,
            n == caches@.len(),
            scope_allowed(*filter, *scope),
            first_cache_from(caches@, *scope, 0) == first_cache_from(caches@, *scope, i as int),
            forall|k: int| 0 <= k < i ==> !scope_eq((#[trigger] caches@[k]).scope, *scope),
        decreases n - i,
    {
        if caches[i].scope == *scope {
            proof {
                assert(scope_eq(caches@[i as int].scope, *scope));
                assert(first_cache_from(caches@, *scope, i as int) == i as int);
            }
            let snapshot = caches[i].get_cached_graph();
            let served = filter_deadends(snapshot);
            return Ok(served);
        }
        proof {
            assert(first_cache_from(caches@, *scope, i as int) == first_cache_from(
                caches@,
                *scope,
                i as int + 1,
            ));
        }
        i += 1;
    }
    Err(QueryError::UnknownScope)
}

} // verus!
