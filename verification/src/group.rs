//! Route groups: nested path prefixes with their own middleware and an
//! optional authentication flag. A group's full prefix is its parent's full
//! prefix followed by its own segment; middleware accumulates along the
//! nesting (outer groups first) and the innermost explicit authentication
//! flag wins, then the global flag, then `false`.
//!
//! Groups are registered before start-up; `freeze_resolved` takes a
//! snapshot of every group's resolved middleware and flag. From then on
//! lookups read the snapshot only, so a group registered afterwards takes
//! no effect.

use vstd::prelude::*;
use crate::text::owned;

verus! {

broadcast use vstd::string::group_string_axioms;

/// A group definition.
#[derive(Clone, Debug)]
pub struct GroupDef<M> {
    /// The group's own segment (such as `/user`).
    pub segment: String,
    /// The full prefix: the parent's full prefix followed by `segment`.
    pub full: String,
    /// The parent group's full prefix (`None` at the root).
    pub parent: Option<String>,
    /// The group's own middleware.
    pub middleware: Vec<M>,
    /// The group's authentication flag (`None` inherits the enclosing one).
    pub auth: Option<bool>,
}

/// A group definition as values.
pub struct GroupView<M> {
    pub segment: Seq<char>,
    pub full: Seq<char>,
    pub parent: Option<Seq<char>>,
    pub middleware: Seq<M>,
    pub auth: Option<bool>,
}

impl<M> View for GroupDef<M> {
    type V = GroupView<M>;

    open spec fn view(&self) -> GroupView<M> {
        GroupView {
            segment: self.segment@,
            full: self.full@,
            parent: match self.parent {
                Some(p) => Some(p@),
                None => None,
            },
            middleware: self.middleware@,
            auth: self.auth,
        }
    }
}

/// Why a group could not be registered.
#[derive(Debug)]
pub enum GroupError {
    /// The parent prefix names no registered group.
    ParentNotRegistered(String),
    /// A group with this full prefix is already registered.
    AlreadyExist(String),
}

/// `i` is the first group whose full prefix is `p`.
pub open spec fn is_first_full<M>(gs: Seq<GroupDef<M>>, p: Seq<char>, i: int) -> bool {
    &&& 0 <= i < gs.len()
    &&& gs[i].full@ == p
    &&& forall|j: int| 0 <= j < i ==> gs[j].full@ != p
}

/// The position of the group whose full prefix is `p`.
pub open spec fn group_index<M>(gs: Seq<GroupDef<M>>, p: Seq<char>) -> Option<int> {
    if exists|i: int| is_first_full(gs, p, i) {
        Some(choose|i: int| is_first_full(gs, p, i))
    } else {
        None
    }
}

/// The position of the parent of group `i`.
pub open spec fn parent_index<M>(gs: Seq<GroupDef<M>>, i: int) -> Option<int> {
    match gs[i].parent {
        Some(p) => group_index(gs, p@),
        None => None,
    }
}

/// Registered groups are consistent: full prefixes are distinct, each
/// parent is registered before its child, and each full prefix is the
/// parent's full prefix followed by the segment.
pub open spec fn groups_wf<M>(gs: Seq<GroupDef<M>>) -> bool {
    &&& forall|i: int, j: int| 0 <= i < j < gs.len() ==> #[trigger] gs[i].full@ != #[trigger] gs[j].full@
    &&& forall|i: int|
        0 <= i < gs.len() ==> match #[trigger] gs[i].parent {
            Some(p) => (group_index(gs, p@) matches Some(j) && j < i) && gs[i].full@ == p@ + gs[i].segment@,
            None => gs[i].full@ == gs[i].segment@,
        }
}

/// The middleware of group `i` and its ancestors, outermost first.
pub open spec fn chain_middleware<M>(gs: Seq<GroupDef<M>>, i: int) -> Seq<M>
    decreases i,
{
    if 0 <= i < gs.len() {
        match parent_index(gs, i) {
            Some(j) => if 0 <= j < i {
                chain_middleware(gs, j) + gs[i].middleware@
            } else {
                gs[i].middleware@
            },
            None => gs[i].middleware@,
        }
    } else {
        Seq::empty()
    }
}

/// The innermost explicit authentication flag along the chain of group `i`.
pub open spec fn chain_auth<M>(gs: Seq<GroupDef<M>>, i: int) -> Option<bool>
    decreases i,
{
    if 0 <= i < gs.len() {
        match gs[i].auth {
            Some(a) => Some(a),
            None => match parent_index(gs, i) {
                Some(j) => if 0 <= j < i {
                    chain_auth(gs, j)
                } else {
                    None
                },
                None => None,
            },
        }
    } else {
        None
    }
}

/// The number of groups on the chain of group `i` (itself included).
pub open spec fn chain_len<M>(gs: Seq<GroupDef<M>>, i: int) -> nat
    decreases i,
{
    if 0 <= i < gs.len() {
        match parent_index(gs, i) {
            Some(j) => if 0 <= j < i {
                chain_len(gs, j) + 1
            } else {
                1
            },
            None => 1,
        }
    } else {
        0
    }
}

/// The deepest nesting that resolving a group chain accepts.
pub open spec fn max_chain() -> nat {
    64
}

proof fn lemma_first_full<M>(gs: Seq<GroupDef<M>>, p: Seq<char>, i: int)
    requires
        is_first_full(gs, p, i),
    ensures
        group_index(gs, p) == Some(i),
{
    let c = choose|c: int| is_first_full(gs, p, c);
    assert(is_first_full(gs, p, c));
    if c < i {
        assert(gs[c].full@ != p);
    } else if c > i {
        assert(gs[i].full@ != p);
    }
}

proof fn lemma_no_full<M>(gs: Seq<GroupDef<M>>, p: Seq<char>)
    requires
        forall|j: int| 0 <= j < gs.len() ==> gs[j].full@ != p,
    ensures
        group_index(gs, p) is None,
{
    if exists|i: int| is_first_full(gs, p, i) {
        let i = choose|i: int| is_first_full(gs, p, i);
        assert(gs[i].full@ == p);
    }
}

/// If some group has full prefix `p`, a first such group exists.
proof fn lemma_first_below<M>(gs: Seq<GroupDef<M>>, p: Seq<char>, j: int)
    requires
        0 <= j < gs.len(),
        gs[j].full@ == p,
    ensures
        exists|c: int| is_first_full(gs, p, c),
    decreases j,
{
    if forall|k: int| 0 <= k < j ==> gs[k].full@ != p {
        assert(is_first_full(gs, p, j));
    } else {
        let k = choose|k: int| 0 <= k < j && gs[k].full@ == p;
        lemma_first_below(gs, p, k);
    }
}

/// Appending a group with a new full prefix keeps where existing prefixes are found.
proof fn lemma_push_index<M>(gs: Seq<GroupDef<M>>, g: GroupDef<M>, p: Seq<char>)
    requires
        group_index(gs, p) is Some,
    ensures
        group_index(gs.push(g), p) == group_index(gs, p),
{
    let i = group_index(gs, p)->0;
    let c = choose|c: int| is_first_full(gs, p, c);
    assert(is_first_full(gs, p, c));
    assert forall|j: int| 0 <= j < c implies gs.push(g)[j].full@ != p by {
        assert(gs.push(g)[j] == gs[j]);
    }
    assert(is_first_full(gs.push(g), p, c));
    lemma_first_full(gs.push(g), p, c);
}

/// Appending a group keeps where every other full prefix is found.
proof fn lemma_push_other<M>(gs: Seq<GroupDef<M>>, g: GroupDef<M>, q: Seq<char>)
    requires
        g.full@ != q,
    ensures
        group_index(gs.push(g), q) == group_index(gs, q),
{
    if group_index(gs, q) is Some {
        lemma_push_index(gs, g, q);
    } else {
        assert forall|j: int| 0 <= j < gs.push(g).len() implies gs.push(g)[j].full@ != q by {
            if j < gs.len() && gs[j].full@ == q {
                lemma_first_below(gs, q, j);
            }
        }
        lemma_no_full(gs.push(g), q);
    }
}

proof fn lemma_push_chains<M>(gs: Seq<GroupDef<M>>, g: GroupDef<M>, i: int)
    requires
        groups_wf(gs),
        0 <= i < gs.len(),
    ensures
        chain_middleware(gs.push(g), i) == chain_middleware(gs, i),
        chain_auth(gs.push(g), i) == chain_auth(gs, i),
        chain_len(gs.push(g), i) == chain_len(gs, i),
    decreases i,
{
    let t = gs.push(g);
    assert(t[i] == gs[i]);
    if let Some(p) = gs[i].parent {
        let j = group_index(gs, p@)->0;
        lemma_push_index(gs, g, p@);
        assert(parent_index(t, i) == parent_index(gs, i));
        lemma_push_chains(gs, g, j);
    } else {
        assert(parent_index(t, i) == parent_index(gs, i));
    }
}

/// The resolved middleware and flag of a group.
pub struct ResolvedGroup<M> {
    middleware: Vec<M>,
    auth: Option<bool>,
}

/// The registered groups, the global authentication flag and, once frozen,
/// the snapshot of the resolved middleware and flag of every group
/// registered by then (entry `k` belongs to group `k`).
pub struct GroupRegistry<M> {
    groups: Vec<GroupDef<M>>,
    resolved: Option<Vec<ResolvedGroup<M>>>,
    global_auth: bool,
}

/// Copies a vector of copyable values.
fn copy_vec<M: Copy>(v: &Vec<M>) -> (r: Vec<M>)
    ensures
        r@ == v@,
{
    let mut r: Vec<M> = Vec::new();
    let mut i: usize = 0;
    while i < v.len()
        invariant
            i <= v.len(),
            r@ == v@.take(i as int),
        decreases v.len() - i,
    {
        r.push(v[i]);
        assert(v@.take(i + 1) == v@.take(i as int).push(v@[i as int]));
        i = i + 1;
    }
    assert(v@.take(v.len() as int) == v@);
    r
}

/// Appends copies of the values of `v` to `r`.
fn extend_copies<M: Copy>(r: &mut Vec<M>, v: &Vec<M>)
    ensures
        final(r)@ == old(r)@ + v@,
{
    let mut i: usize = 0;
    while i < v.len()
        invariant
            i <= v.len(),
            r@ == old(r)@ + v@.take(i as int),
        decreases v.len() - i,
    {
        r.push(v[i]);
        assert(v@.take(i + 1) == v@.take(i as int).push(v@[i as int]));
        i = i + 1;
    }
    assert(v@.take(v.len() as int) == v@);
}

/// Finds the group whose full prefix is `p`.
fn find_full<M>(gs: &Vec<GroupDef<M>>, p: &str) -> (r: Option<usize>)
    ensures
        group_index(gs@, p@) == (match r {
            Some(i) => Some(i as int),
            None => None,
        }),
{
    let key = owned(p);
    let mut i: usize = 0;
    while i < gs.len()
        invariant
            i <= gs.len(),
            key@ == p@,
            forall|j: int| 0 <= j < i ==> gs@[j].full@ != p@,
        decreases gs.len() - i,
    {
        if gs[i].full == key {
            proof {
                lemma_first_full(gs@, p@, i as int);
            }
            return Some(i);
        }
        i = i + 1;
    }
    proof {
        lemma_no_full(gs@, p@);
    }
    None
}


/// Copies a slice of copyable values.
fn copy_slice<M: Copy>(v: &[M]) -> (r: Vec<M>)
    ensures
        r@ == v@,
{
    let mut r: Vec<M> = Vec::new();
    let mut i: usize = 0;
    while i < v.len()
        invariant
            i <= v.len(),
            r@ == v@.take(i as int),
        decreases v.len() - i,
    {
        r.push(v[i]);
        assert(v@.take(i + 1) == v@.take(i as int).push(v@[i as int]));
        i = i + 1;
    }
    assert(v@.take(v.len() as int) == v@);
    r
}

fn chain_middleware_exec<M: Copy>(gs: &Vec<GroupDef<M>>, i: usize) -> (r: Vec<M>)
    requires
        groups_wf(gs@),
        i < gs.len(),
    ensures
        r@ == chain_middleware(gs@, i as int),
    decreases i,
{
    let mut r = match &gs[i].parent {
        Some(p) => {
            match find_full(gs, p.as_str()) {
                Some(j) => {
                    assert(j < i);
                    chain_middleware_exec(gs, j)
                },
                None => Vec::new(),
            }
        },
        None => Vec::new(),
    };
    extend_copies(&mut r, &gs[i].middleware);
    r
}

fn chain_auth_exec<M>(gs: &Vec<GroupDef<M>>, i: usize) -> (r: Option<bool>)
    requires
        groups_wf(gs@),
        i < gs.len(),
    ensures
        r == chain_auth(gs@, i as int),
    decreases i,
{
    match gs[i].auth {
        Some(a) => Some(a),
        None => match &gs[i].parent {
            Some(p) => {
                match find_full(gs, p.as_str()) {
                    Some(j) => {
                        assert(j < i);
                        chain_auth_exec(gs, j)
                    },
                    None => None,
                }
            },
            None => None,
        },
    }
}

proof fn lemma_chain_len_bound<M>(gs: Seq<GroupDef<M>>, i: int)
    requires
        0 <= i < gs.len(),
    ensures
        1 <= chain_len(gs, i) <= i + 1,
    decreases i,
{
    if let Some(j) = parent_index(gs, i) {
        if 0 <= j < i {
            lemma_chain_len_bound(gs, j);
        }
    }
}

fn chain_len_exec<M>(gs: &Vec<GroupDef<M>>, i: usize) -> (r: usize)
    requires
        groups_wf(gs@),
        i < gs.len(),
    ensures
        r == chain_len(gs@, i as int),
    decreases i,
{
    proof {
        lemma_chain_len_bound(gs@, i as int);
    }
    match &gs[i].parent {
        Some(p) => {
            match find_full(gs, p.as_str()) {
                Some(j) => {
                    assert(j < i);
                    proof {
                        lemma_chain_len_bound(gs@, j as int);
                    }
                    chain_len_exec(gs, j) + 1
                },
                None => 1,
            }
        },
        None => 1,
    }
}

impl<M> GroupRegistry<M> {
    /// The registered groups, in registration order.
    pub closed spec fn defs(&self) -> Seq<GroupDef<M>> {
        self.groups@
    }

    /// The global authentication flag.
    pub closed spec fn global(&self) -> bool {
        self.global_auth
    }

    /// Whether the snapshot has been taken.
    pub closed spec fn frozen(&self) -> bool {
        self.resolved is Some
    }

    /// How many groups (the first ones registered) the snapshot holds.
    pub closed spec fn snapshot_len(&self) -> nat {
        match self.resolved {
            Some(v) => v@.len(),
            None => 0,
        }
    }

    /// The registry is consistent: the groups are, and each snapshot entry
    /// holds its group's resolved middleware and flag.
    pub closed spec fn wf(&self) -> bool {
        &&& groups_wf(self.groups@)
        &&& match self.resolved {
            Some(v) => {
                &&& v@.len() <= self.groups@.len()
                &&& forall|k: int|
                    0 <= k < v@.len() ==> {
                        &&& (#[trigger] v@[k]).middleware@ == chain_middleware(self.groups@, k)
                        &&& v@[k].auth == chain_auth(self.groups@, k)
                        &&& chain_len(self.groups@, k) <= max_chain()
                    }
            },
            None => true,
        }
    }

    /// A group with full prefix `p` is registered.
    pub open spec fn registered(&self, p: Seq<char>) -> bool {
        group_index(self.defs(), p) is Some
    }

    /// The snapshot holds the group with full prefix `p`.
    pub open spec fn in_snapshot(&self, p: Seq<char>) -> bool {
        &&& self.frozen()
        &&& group_index(self.defs(), p) matches Some(i)
        &&& i < self.snapshot_len()
    }

    /// Every group's chain is at most `max_chain()` groups long.
    pub open spec fn chains_within_limit(&self) -> bool {
        forall|i: int| 0 <= i < self.defs().len() ==> #[trigger] chain_len(self.defs(), i) <= max_chain()
    }

    /// The number of groups on the chain of prefix `p` (0 when unregistered).
    pub open spec fn depth(&self, p: Seq<char>) -> nat {
        match group_index(self.defs(), p) {
            Some(i) => chain_len(self.defs(), i),
            None => 0,
        }
    }

    /// The middleware along the chain of prefix `p`, outermost first.
    pub open spec fn live_middleware(&self, p: Seq<char>) -> Seq<M> {
        match group_index(self.defs(), p) {
            Some(i) => chain_middleware(self.defs(), i),
            None => Seq::empty(),
        }
    }

    /// The innermost explicit flag along the chain of prefix `p`.
    pub open spec fn live_auth(&self, p: Seq<char>) -> Option<bool> {
        match group_index(self.defs(), p) {
            Some(i) => chain_auth(self.defs(), i),
            None => None,
        }
    }

    /// The middleware that a route of group `p` runs after the global
    /// middleware, outermost group first. Once frozen, only the snapshot
    /// counts: a group outside it (registered later, or none) has no
    /// middleware. Before that the chain is resolved live, the empty prefix
    /// meaning no group.
    pub open spec fn effective_middleware(&self, p: Seq<char>) -> Seq<M> {
        if self.frozen() {
            if self.in_snapshot(p) {
                self.live_middleware(p)
            } else {
                Seq::empty()
            }
        } else if p.len() == 0 {
            Seq::empty()
        } else {
            self.live_middleware(p)
        }
    }

    /// The authentication flag that a route of group `p` inherits: the
    /// innermost explicit flag of the chain, else the global flag. Once
    /// frozen, only the snapshot counts: a group outside it gives the global
    /// flag. Before that the chain is resolved live, the empty prefix
    /// meaning no group.
    pub open spec fn effective_auth(&self, p: Seq<char>) -> bool {
        let chain = if self.frozen() {
            if self.in_snapshot(p) {
                self.live_auth(p)
            } else {
                None
            }
        } else if p.len() == 0 {
            None
        } else {
            self.live_auth(p)
        };
        match chain {
            Some(a) => a,
            None => self.global(),
        }
    }

    /// A registry with no groups, not frozen, global flag `false`.
    pub fn new() -> (r: Self)
        ensures
            r.wf(),
            r.defs().len() == 0,
            !r.frozen(),
            !r.global(),
    {
        GroupRegistry { groups: Vec::new(), resolved: None, global_auth: false }
    }
}

/// Sets the global authentication flag (done at configuration).
pub fn set_global_auth<M>(groups: &mut GroupRegistry<M>, auth: bool)
    requires
        old(groups).wf(),
    ensures
        final(groups).wf(),
        final(groups).defs() == old(groups).defs(),
        final(groups).frozen() == old(groups).frozen(),
        final(groups).snapshot_len() == old(groups).snapshot_len(),
        final(groups).global() == auth,
{
    groups.global_auth = auth;
}

/// The global authentication flag.
pub fn global_auth<M>(groups: &GroupRegistry<M>) -> (r: bool)
    ensures
        r == groups.global(),
{
    groups.global_auth
}

/// Registers a group: `segment` under the group whose full prefix is
/// `parent` (registered before), or at the root.
pub fn add_group<M: Copy>(
    groups: &mut GroupRegistry<M>,
    segment: &str,
    parent: Option<&str>,
    middleware: &[M],
    auth: Option<bool>,
) -> (r: Result<(), GroupError>)
    requires
        old(groups).wf(),
    ensures
        final(groups).wf(),
        ({
            let full = match parent {
                Some(p) => p@ + segment@,
                None => segment@,
            };
            let parent_ok = match parent {
                Some(p) => old(groups).registered(p@),
                None => true,
            };
            match r {
                Err(GroupError::ParentNotRegistered(q)) => {
                    &&& parent matches Some(p) && q@ == p@
                    &&& !parent_ok
                    &&& *final(groups) == *old(groups)
                },
                Err(GroupError::AlreadyExist(f)) => {
                    &&& parent_ok
                    &&& f@ == full
                    &&& old(groups).registered(full)
                    &&& *final(groups) == *old(groups)
                },
                Ok(()) => {
                    &&& parent_ok
                    &&& !old(groups).registered(full)
                    &&& final(groups).defs().len() == old(groups).defs().len() + 1
                    &&& final(groups).defs().drop_last() == old(groups).defs()
                    &&& final(groups).defs().last()@ == (GroupView {
                        segment: segment@,
                        full,
                        parent: match parent {
                            Some(p) => Some(p@),
                            None => None,
                        },
                        middleware: middleware@,
                        auth,
                    })
                    &&& group_index(final(groups).defs(), full) == Some(old(groups).defs().len() as int)
                    &&& forall|q: Seq<char>|
                        q != full ==> #[trigger] group_index(final(groups).defs(), q) == group_index(old(groups).defs(), q)
                    &&& forall|q: Seq<char>|
                        #![trigger final(groups).live_middleware(q)]
                        #![trigger final(groups).live_auth(q)]
                        #![trigger final(groups).depth(q)]
                        old(groups).registered(q) ==> final(groups).live_middleware(q) == old(groups).live_middleware(q)
                            && final(groups).live_auth(q) == old(groups).live_auth(q) && final(groups).depth(q) == old(
                            groups,
                        ).depth(q)
                    &&& final(groups).global() == old(groups).global()
                    &&& final(groups).frozen() == old(groups).frozen()
                    &&& final(groups).snapshot_len() == old(groups).snapshot_len()
                },
            }
        }),
{
    let ghost g0 = *groups;
    let mut full = String::new();
    let mut parent_full: Option<String> = None;
    match parent {
        Some(p) => {
            if find_full(&groups.groups, p).is_none() {
                return Err(GroupError::ParentNotRegistered(owned(p)));
            }
            full = owned(p);
            parent_full = Some(owned(p));
        },
        None => {},
    }
    crate::text::push_str(&mut full, segment);
    if find_full(&groups.groups, full.as_str()).is_some() {
        return Err(GroupError::AlreadyExist(full));
    }
    let g = GroupDef {
        segment: owned(segment),
        full,
        parent: parent_full,
        middleware: copy_slice(middleware),
        auth,
    };
    let ghost gs0 = groups.groups@;
    groups.groups.push(g);
    proof {
        let gs = groups.groups@;
        assert(gs.drop_last() =~= gs0);
        assert forall|j: int| 0 <= j < gs0.len() implies gs0[j].full@ != g.full@ by {
            if gs0[j].full@ == g.full@ {
                lemma_first_below(gs0, g.full@, j);
            }
        }
        assert forall|i: int, j: int| 0 <= i < j < gs.len() implies #[trigger] gs[i].full@ != #[trigger] gs[j].full@ by {
            if j == gs0.len() {
                assert(gs[i] == gs0[i]);
            } else {
                assert(gs[i] == gs0[i]);
                assert(gs[j] == gs0[j]);
            }
        }
        assert forall|i: int| 0 <= i < gs.len() implies match #[trigger] gs[i].parent {
            Some(p) => (group_index(gs, p@) matches Some(j) && j < i) && gs[i].full@ == p@ + gs[i].segment@,
            None => gs[i].full@ == gs[i].segment@,
        } by {
            if i < gs0.len() {
                assert(gs[i] == gs0[i]);
                if let Some(p) = gs0[i].parent {
                    lemma_push_index(gs0, g, p@);
                }
            } else {
                if let Some(p) = parent {
                    lemma_push_index(gs0, g, p@);
                }
            }
        }
        assert(groups_wf(gs));
        assert(is_first_full(gs, g.full@, gs0.len() as int));
        lemma_first_full(gs, g.full@, gs0.len() as int);
        assert forall|q: Seq<char>| q != g.full@ implies #[trigger] group_index(gs, q) == group_index(gs0, q) by {
            lemma_push_other(gs0, g, q);
        }
        assert forall|q: Seq<char>| #[trigger] group_index(gs0, q) is Some implies chain_middleware(gs, group_index(gs0, q)->0)
            == chain_middleware(gs0, group_index(gs0, q)->0) && chain_auth(gs, group_index(gs0, q)->0) == chain_auth(
            gs0,
            group_index(gs0, q)->0,
        ) && chain_len(gs, group_index(gs0, q)->0) == chain_len(gs0, group_index(gs0, q)->0) && group_index(gs, q)
            == group_index(gs0, q) by {
            let i = group_index(gs0, q)->0;
            assert(is_first_full(gs0, q, i));
            lemma_push_chains(gs0, g, i);
            lemma_push_index(gs0, g, q);
        }
        let ghost res = groups.resolved;
        if let Some(v) = res {
            assert forall|k: int| 0 <= k < v@.len() implies {
                &&& (#[trigger] v@[k]).middleware@ == chain_middleware(gs, k)
                &&& v@[k].auth == chain_auth(gs, k)
                &&& chain_len(gs, k) <= max_chain()
            } by {
                lemma_push_chains(gs0, g, k);
            }
        }
    }
    Ok(())
}


/// A copy of a group definition.
fn clone_group<M: Copy>(g: &GroupDef<M>) -> (r: GroupDef<M>)
    ensures
        r@ == g@,
{
    let parent = match &g.parent {
        Some(p) => Some(p.clone()),
        None => None,
    };
    GroupDef {
        segment: g.segment.clone(),
        full: g.full.clone(),
        parent,
        middleware: copy_vec(&g.middleware),
        auth: g.auth,
    }
}

/// The group whose full prefix is `prefix` (a copy).
pub fn find_group<M: Copy>(groups: &GroupRegistry<M>, prefix: &str) -> (r: Option<GroupDef<M>>)
    ensures
        match r {
            Some(g) => group_index(groups.defs(), prefix@) matches Some(i) && g@ == groups.defs()[i]@,
            None => !groups.registered(prefix@),
        },
{
    match find_full(&groups.groups, prefix) {
        Some(i) => Some(clone_group(&groups.groups[i])),
        None => None,
    }
}

/// The number of groups on the chain of `prefix` (0 when unregistered);
/// resolving a chain accepts at most 64.
pub fn chain_depth<M>(groups: &GroupRegistry<M>, prefix: &str) -> (r: usize)
    requires
        groups.wf(),
    ensures
        r == groups.depth(prefix@),
{
    match find_full(&groups.groups, prefix) {
        Some(i) => chain_len_exec(&groups.groups, i),
        None => 0,
    }
}

/// The snapshot entry of the group with full prefix `prefix`.
fn snapshot_entry<'a, M>(groups: &'a GroupRegistry<M>, prefix: &str) -> (r: Option<&'a ResolvedGroup<M>>)
    requires
        groups.wf(),
    ensures
        match r {
            Some(e) => groups.in_snapshot(prefix@) && e.middleware@ == groups.live_middleware(prefix@) && e.auth
                == groups.live_auth(prefix@),
            None => !groups.in_snapshot(prefix@),
        },
{
    match &groups.resolved {
        Some(v) => match find_full(&groups.groups, prefix) {
            Some(i) => {
                if i < v.len() {
                    Some(&v[i])
                } else {
                    None
                }
            },
            None => None,
        },
        None => None,
    }
}

/// The group middleware that runs for routes of group `prefix` (outer
/// groups first): from the snapshot once frozen (none for a group outside
/// it), resolved live before.
pub fn group_middleware<M: Copy>(groups: &GroupRegistry<M>, prefix: &str) -> (r: Vec<M>)
    requires
        groups.wf(),
        groups.depth(prefix@) <= max_chain(),
    ensures
        r@ == groups.effective_middleware(prefix@),
{
    if let Some(e) = snapshot_entry(groups, prefix) {
        return copy_vec(&e.middleware);
    }
    if groups.resolved.is_some() || prefix.is_empty() {
        return Vec::new();
    }
    match find_full(&groups.groups, prefix) {
        Some(i) => chain_middleware_exec(&groups.groups, i),
        None => Vec::new(),
    }
}

/// The authentication flag that routes of group `prefix` inherit: the
/// innermost explicit flag of the group chain, else the global flag (from
/// the snapshot once frozen, a group outside it giving the global flag).
pub fn inherited_auth<M>(groups: &GroupRegistry<M>, prefix: &str) -> (r: bool)
    requires
        groups.wf(),
        groups.depth(prefix@) <= max_chain(),
    ensures
        r == groups.effective_auth(prefix@),
{
    let snap = match snapshot_entry(groups, prefix) {
        Some(e) => e.auth,
        None => None,
    };
    let found = match snap {
        Some(a) => Some(a),
        None => {
            if groups.resolved.is_some() || prefix.is_empty() {
                None
            } else {
                match find_full(&groups.groups, prefix) {
                    Some(i) => chain_auth_exec(&groups.groups, i),
                    None => None,
                }
            }
        },
    };
    match found {
        Some(a) => a,
        None => groups.global_auth,
    }
}

/// The group's full prefix when a group with that prefix is registered,
/// else the empty string.
pub fn chain_prefix<M>(groups: &GroupRegistry<M>, prefix: &str) -> (r: String)
    ensures
        r@ == (if groups.registered(prefix@) {
            prefix@
        } else {
            Seq::<char>::empty()
        }),
{
    match find_full(&groups.groups, prefix) {
        Some(i) => groups.groups[i].full.clone(),
        None => String::new(),
    }
}

/// The full prefix of the first registered group whose chain is deeper
/// than resolving accepts (`max_chain()` groups); `None` when every chain
/// fits.
pub fn first_too_deep<M>(groups: &GroupRegistry<M>) -> (r: Option<String>)
    requires
        groups.wf(),
    ensures
        match r {
            None => groups.chains_within_limit(),
            Some(p) => exists|i: int|
                0 <= i < groups.defs().len() && #[trigger] groups.defs()[i].full@ == p@ && chain_len(groups.defs(), i)
                    > max_chain() && forall|j: int| 0 <= j < i ==> #[trigger] chain_len(groups.defs(), j) <= max_chain(),
        },
{
    let mut i: usize = 0;
    while i < groups.groups.len()
        invariant
            i <= groups.groups.len(),
            groups_wf(groups.groups@),
            forall|j: int| 0 <= j < i ==> #[trigger] chain_len(groups.groups@, j) <= max_chain(),
        decreases groups.groups.len() - i,
    {
        if chain_len_exec(&groups.groups, i) > 64 {
            let p = groups.groups[i].full.clone();
            assert(groups.defs()[i as int].full@ == p@);
            return Some(p);
        }
        i = i + 1;
    }
    None
}

/// Takes the snapshot of every registered group's resolved middleware and
/// flag, after which groups registered later take no effect; a registry
/// already frozen keeps its snapshot. Every group chain
/// must be at most 64 deep.
pub fn freeze_resolved<M: Copy>(groups: &mut GroupRegistry<M>)
    requires
        old(groups).wf(),
        old(groups).chains_within_limit(),
    ensures
        final(groups).wf(),
        final(groups).defs() == old(groups).defs(),
        final(groups).global() == old(groups).global(),
        final(groups).frozen(),
        final(groups).snapshot_len() == (if old(groups).frozen() {
            old(groups).snapshot_len()
        } else {
            old(groups).defs().len()
        }),
{
    let mut snapshot: Vec<ResolvedGroup<M>> = Vec::new();
    let mut i: usize = 0;
    assert(groups.groups@ == old(groups).defs());
    while i < groups.groups.len()
        invariant
            groups_wf(groups.groups@),
            forall|j: int| 0 <= j < groups.groups@.len() ==> #[trigger] chain_len(groups.groups@, j) <= max_chain(),
            i <= groups.groups.len(),
            snapshot@.len() == i,
            forall|k: int|
                0 <= k < i ==> {
                    &&& (#[trigger] snapshot@[k]).middleware@ == chain_middleware(groups.groups@, k)
                    &&& snapshot@[k].auth == chain_auth(groups.groups@, k)
                },
        decreases groups.groups.len() - i,
    {
        let middleware = chain_middleware_exec(&groups.groups, i);
        let auth = chain_auth_exec(&groups.groups, i);
        snapshot.push(ResolvedGroup { middleware, auth });
        i = i + 1;
    }
    if groups.resolved.is_none() {
        groups.resolved = Some(snapshot);
    }
}

impl<M> GroupRegistry<M> {
    /// A registered group's full prefix is its parent's full prefix followed
    /// by its own segment; the group runs its parent's chain of middleware
    /// and then its own, and its own flag, when set, overrides the one it
    /// inherits from its parent.
    pub proof fn lemma_nested_group(&self, p: Seq<char>)
        requires
            self.wf(),
            self.registered(p),
        ensures
            ({
                let g = self.defs()[group_index(self.defs(), p)->0]@;
                &&& g.full == p
                &&& match g.parent {
                    Some(q) => {
                        &&& self.registered(q)
                        &&& p == q + g.segment
                        &&& self.live_middleware(p) == self.live_middleware(q) + g.middleware
                        &&& self.live_auth(p) == (match g.auth {
                            Some(a) => Some(a),
                            None => self.live_auth(q),
                        })
                        &&& self.depth(p) == self.depth(q) + 1
                    },
                    None => {
                        &&& p == g.segment
                        &&& self.live_middleware(p) == g.middleware
                        &&& self.live_auth(p) == g.auth
                        &&& self.depth(p) == 1
                    },
                }
            }),
    {
        let gs = self.groups@;
        let i = group_index(gs, p)->0;
        assert(is_first_full(gs, p, i));
        assert(0 <= i < gs.len());
        match gs[i].parent {
            Some(q) => {
                let j = group_index(gs, q@)->0;
                assert(parent_index(gs, i) == Some(j));
                assert(0 <= j < i);
            },
            None => {
                assert(parent_index(gs, i) is None);
            },
        }
    }
}

impl<M> GroupRegistry<M> {
    /// The flag a route of a group inherits: when the chain of the group
    /// has an explicit flag (the innermost one counting), that flag,
    /// whatever the global flag; the global flag only when the chain has
    /// none. A group that sets its own flag inherits exactly that flag. This
    /// holds for a group the lookup resolves: one in the snapshot once
    /// frozen, any group with a non-empty prefix before.
    pub proof fn lemma_explicit_flag_wins(&self, p: Seq<char>)
        requires
            self.wf(),
            self.frozen() ==> self.in_snapshot(p),
            !self.frozen() ==> p.len() > 0,
        ensures
            forall|a: bool| self.live_auth(p) == Some(a) ==> self.effective_auth(p) == a,
            self.live_auth(p) is None ==> self.effective_auth(p) == self.global(),
            self.registered(p) && self.defs()[group_index(self.defs(), p)->0].auth is Some ==> self.effective_auth(p)
                == self.defs()[group_index(self.defs(), p)->0].auth->0,
    {
        if self.registered(p) {
            let gs = self.groups@;
            let i = group_index(gs, p)->0;
            assert(is_first_full(gs, p, i));
        }
    }

    /// A group registered after the snapshot was taken takes no effect:
    /// no middleware, and the global flag.
    pub proof fn lemma_late_group_ignored(&self, p: Seq<char>)
        requires
            self.wf(),
            self.frozen(),
            !self.in_snapshot(p),
        ensures
            self.effective_middleware(p).len() == 0,
            self.effective_auth(p) == self.global(),
    {
    }
}

} // verus!
