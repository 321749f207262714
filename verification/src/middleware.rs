//! The middleware chain of a route and the default authentication check.
//!
//! A handler runs, in order: the global middleware, the middleware of its
//! group chain (outer groups first), the authentication check when the
//! route requires it, the route's own middleware, and the handler. The
//! first middleware that rejects the request ends the chain.

use vstd::prelude::*;
use crate::group::{group_middleware, max_chain, GroupRegistry};

verus! {

/// The runtime middleware that a route of group `prefix` runs before its
/// own middleware: the global middleware, then the group chain's.
pub fn middleware_chain<M: Copy>(global: &Vec<M>, groups: &GroupRegistry<M>, prefix: &str) -> (r: Vec<M>)
    requires
        groups.wf(),
        groups.depth(prefix@) <= max_chain(),
    ensures
        r@ == global@ + groups.effective_middleware(prefix@),
{
    let mut r: Vec<M> = Vec::new();
    let mut i: usize = 0;
    while i < global.len()
        invariant
            i <= global.len(),
            r@ == global@.take(i as int),
        decreases global.len() - i,
    {
        r.push(global[i]);
        assert(global@.take(i + 1) == global@.take(i as int).push(global@[i as int]));
        i = i + 1;
    }
    assert(global@.take(global.len() as int) == global@);
    let group = group_middleware(groups, prefix);
    let mut j: usize = 0;
    while j < group.len()
        invariant
            j <= group.len(),
            r@ == global@ + group@.take(j as int),
        decreases group.len() - j,
    {
        r.push(group[j]);
        assert(group@.take(j + 1) == group@.take(j as int).push(group@[j as int]));
        j = j + 1;
    }
    assert(group@.take(group.len() as int) == group@);
    r
}

/// The default authentication check: the request passes when its
/// `Authorization` header is present, readable as text and not empty.
pub fn authorization_accepted(header: Option<&str>) -> (r: bool)
    ensures
        r == (header matches Some(h) && h@.len() > 0),
{
    match header {
        Some(h) => !h.is_empty(),
        None => false,
    }
}

} // verus!
