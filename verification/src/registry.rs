//! Route collection and registration: the plan that checks and orders the
//! declared routes (method whitelist, unique tags, registered groups,
//! prefix joining, authentication inheritance, `(method, path)` conflicts),
//! the route table with its lookup index, and the grouping of routes by
//! path for mounting.

use vstd::prelude::*;
use crate::group::{chain_prefix, find_group, freeze_resolved, inherited_auth, set_global_auth, GroupRegistry};
use crate::order::{
    holds_position, is_listing, lemma_listing_positions, listed_before, lemma_is_the_listing, lemma_text_less_asymmetric, lemma_text_less_irreflexive, lemma_text_less_total,
    lemma_text_less_transitive, listing, listing_order, text_less, text_lt,
};
use crate::route::{clone_strings, pad_right, route_views, string_views, table_row, RouteEntry, RouteInfo, RouteView};
use crate::text::{ascii_upper_text, is_ascii_text, owned, push_char, push_str, str_eq, to_uppercase, uppercase};
use crate::trie::{
    classify, history_name, history_terminal, key_matches, name_after_insert, params_by, pattern_segments, lemma_matching_comparable, lemma_preferred_needs_param, pairs, path_pieces, pattern_keys, preferred,
    strs, Key, Trie,
};

verus! {

broadcast use vstd::string::group_string_axioms;

/// Global routing configuration.
#[derive(Clone, Debug)]
pub struct RouterConfig {
    /// Global group prefix (routes may skip it).
    pub global_prefix: String,
    /// Global API prefix (routes may skip it).
    pub global_api_prefix: String,
    /// Global default authentication flag.
    pub global_auth: bool,
    /// Service name, a label of the route table.
    pub service: String,
}

impl Default for RouterConfig {
    /// Empty prefixes, no authentication, service `http`.
    fn default() -> (r: Self)
        ensures
            r.global_prefix@ == Seq::<char>::empty(),
            r.global_api_prefix@ == Seq::<char>::empty(),
            !r.global_auth,
            r.service@ == seq!['h', 't', 't', 'p'],
    {
        let service = owned("http");
        proof {
            reveal_strlit("http");
            assert("http"@ =~= seq!['h', 't', 't', 'p']);
        }
        RouterConfig { global_prefix: String::new(), global_api_prefix: String::new(), global_auth: false, service }
    }
}

/// The supported HTTP methods: GET, POST, PUT, DELETE, PATCH, OPTIONS, HEAD.
pub open spec fn supported_method(m: Seq<char>) -> bool {
    ||| m == seq!['G', 'E', 'T']
    ||| m == seq!['P', 'O', 'S', 'T']
    ||| m == seq!['P', 'U', 'T']
    ||| m == seq!['D', 'E', 'L', 'E', 'T', 'E']
    ||| m == seq!['P', 'A', 'T', 'C', 'H']
    ||| m == seq!['O', 'P', 'T', 'I', 'O', 'N', 'S']
    ||| m == seq!['H', 'E', 'A', 'D']
}

/// Whether `m` is one of the supported methods (exactly, upper case).
pub fn is_supported_method(m: &str) -> (r: bool)
    ensures
        r == supported_method(m@),
{
    proof {
        reveal_strlit("GET");
        reveal_strlit("POST");
        reveal_strlit("PUT");
        reveal_strlit("DELETE");
        reveal_strlit("PATCH");
        reveal_strlit("OPTIONS");
        reveal_strlit("HEAD");
        assert("GET"@ =~= seq!['G', 'E', 'T']);
        assert("POST"@ =~= seq!['P', 'O', 'S', 'T']);
        assert("PUT"@ =~= seq!['P', 'U', 'T']);
        assert("DELETE"@ =~= seq!['D', 'E', 'L', 'E', 'T', 'E']);
        assert("PATCH"@ =~= seq!['P', 'A', 'T', 'C', 'H']);
        assert("OPTIONS"@ =~= seq!['O', 'P', 'T', 'I', 'O', 'N', 'S']);
        assert("HEAD"@ =~= seq!['H', 'E', 'A', 'D']);
    }
    str_eq(m, "GET") || str_eq(m, "POST") || str_eq(m, "PUT") || str_eq(m, "DELETE") || str_eq(m, "PATCH")
        || str_eq(m, "OPTIONS") || str_eq(m, "HEAD")
}

/// The prefix of a route: the global prefix and the global API prefix
/// (unless the route skips them), then the group prefix.
pub open spec fn route_prefix_of(e: RouteEntry, group_prefix: Seq<char>, cfg: RouterConfig) -> Seq<char> {
    (if e.cancel_global_prefix {
        Seq::<char>::empty()
    } else {
        cfg.global_prefix@
    }) + (if e.cancel_global_api_prefix {
        Seq::<char>::empty()
    } else {
        cfg.global_api_prefix@
    }) + group_prefix
}

/// The absolute path of a route: its prefix and its relative path; `/`
/// when both are empty.
pub open spec fn absolute_path_of(e: RouteEntry, group_prefix: Seq<char>, cfg: RouterConfig) -> Seq<char> {
    let p = route_prefix_of(e, group_prefix, cfg) + e.path@;
    if p.len() == 0 {
        seq!['/']
    } else {
        p
    }
}

/// The route information planned for a declaration, with groups `g`
/// (frozen, global flag set) and configuration `cfg`.
pub open spec fn planned_view<M>(e: RouteEntry, g: GroupRegistry<M>, cfg: RouterConfig) -> RouteView {
    let gp = if g.registered(e.group@) {
        e.group@
    } else {
        Seq::<char>::empty()
    };
    RouteView {
        method: uppercase(e.method@),
        group_prefix: route_prefix_of(e, gp, cfg),
        relative_path: e.path@,
        absolute_path: absolute_path_of(e, gp, cfg),
        tag: e.tag@,
        desc: e.desc@,
        title: e.title@,
        front_path: e.front_path@,
        is_data_auth: match e.is_data_auth {
            Some(b) => b,
            None => false,
        },
        auth: match e.auth {
            Some(a) => a,
            None => g.effective_auth(e.group@),
        },
        is_ws: e.is_ws,
        service: cfg.service@,
        middleware_names: string_views(e.middleware_names@),
    }
}

/// The key under which the lookup index files a route: its method
/// (upper-cased once more by the index) and the keys of its absolute path.
pub open spec fn route_key(v: RouteView) -> (Seq<char>, Seq<Key>) {
    (uppercase(v.method), pattern_keys(v.absolute_path))
}

/// Why the declared routes cannot be registered.
#[derive(Debug)]
pub enum PlanError {
    /// The method is not supported.
    UnsupportedMethod { service: String, method: String },
    /// A route with this tag was declared before.
    DuplicateTag(String),
    /// The route names a group that is not registered.
    UnknownGroup { tag: String, group: String },
    /// The `(method, absolute path)` was declared before.
    AlreadyExist { method: String, path: String },
}

/// A plan error as values.
pub enum PlanFault {
    UnsupportedMethod(Seq<char>, Seq<char>),
    DuplicateTag(Seq<char>),
    UnknownGroup(Seq<char>, Seq<char>),
    AlreadyExist(Seq<char>, Seq<char>),
}

impl View for PlanError {
    type V = PlanFault;

    open spec fn view(&self) -> PlanFault {
        match self {
            PlanError::UnsupportedMethod { service, method } => PlanFault::UnsupportedMethod(service@, method@),
            PlanError::DuplicateTag(t) => PlanFault::DuplicateTag(t@),
            PlanError::UnknownGroup { tag, group } => PlanFault::UnknownGroup(tag@, group@),
            PlanError::AlreadyExist { method, path } => PlanFault::AlreadyExist(method@, path@),
        }
    }
}

/// The fault of the declaration listed at position `t` of `p`, given that
/// the ones listed before it had none: unsupported method, then a tag used
/// before, then an unregistered group, then a `(method, pattern)` declared
/// before (parameter names do not count).
pub open spec fn plan_fault<M>(es: Seq<RouteEntry>, p: Seq<usize>, t: int, g: GroupRegistry<M>, cfg: RouterConfig) -> Option<PlanFault> {
    let e = es[p[t] as int];
    let v = planned_view(e, g, cfg);
    if !supported_method(v.method) {
        Some(PlanFault::UnsupportedMethod(cfg.service@, v.method))
    } else if exists|s: int| 0 <= s < t && #[trigger] es[p[s] as int].tag@ == e.tag@ {
        Some(PlanFault::DuplicateTag(e.tag@))
    } else if e.group@.len() > 0 && !g.registered(e.group@) {
        Some(PlanFault::UnknownGroup(e.tag@, e.group@))
    } else if exists|s: int| 0 <= s < t && #[trigger] route_key(planned_view(es[p[s] as int], g, cfg)) == route_key(v) {
        Some(PlanFault::AlreadyExist(uppercase(v.method), v.absolute_path))
    } else {
        None
    }
}

/// A route of the plan: its information and the position of its declaration.
#[derive(Debug)]
pub struct PlannedRoute {
    pub info: RouteInfo,
    pub entry: usize,
}

/// The route views of a plan.
pub open spec fn plan_views(plan: Seq<PlannedRoute>) -> Seq<RouteView> {
    plan.map_values(|r: PlannedRoute| r.info@)
}

/// No two routes of a plan share a lookup key.
pub open spec fn keys_distinct(vs: Seq<RouteView>) -> bool {
    forall|s: int, t: int| 0 <= s < t < vs.len() ==> route_key(#[trigger] vs[s]) != route_key(#[trigger] vs[t])
}


/// Builds the registration plan of the declared routes: sets the global
/// authentication flag, freezes the groups, lists the declarations by
/// `(module path, line)` and, for each in turn, upper-cases its method,
/// checks it, joins its absolute path and resolves its authentication flag.
/// The first declaration (in listing order) with a fault stops the plan
/// with that fault.
pub fn build_plan<M: Copy>(entries: &Vec<RouteEntry>, groups: &mut GroupRegistry<M>, config: &RouterConfig) -> (r: Result<
    Vec<PlannedRoute>,
    PlanError,
>)
    requires
        old(groups).wf(),
        old(groups).chains_within_limit(),
    ensures
        final(groups).wf(),
        final(groups).defs() == old(groups).defs(),
        final(groups).global() == config.global_auth,
        final(groups).frozen(),
        final(groups).snapshot_len() == (if old(groups).frozen() {
            old(groups).snapshot_len()
        } else {
            old(groups).defs().len()
        }),
        match r {
            Ok(plan) => {
                &&& is_listing(entries@, listing(entries@))
                &&& plan.len() == entries.len()
                &&& forall|a: int|
                    0 <= a < entries.len() && is_ascii_text((#[trigger] entries@[a]).method@) ==> uppercase(entries@[a].method@)
                        == ascii_upper_text(entries@[a].method@)
                &&& forall|t: int|
                    0 <= t < plan.len() ==> #[trigger] plan_fault(entries@, listing(entries@), t, *final(groups), *config)
                        is None
                &&& forall|t: int|
                    0 <= t < plan.len() ==> (#[trigger] plan@[t]).entry == listing(entries@)[t] && plan@[t].info@
                        == planned_view(entries@[listing(entries@)[t] as int], *final(groups), *config)
                &&& keys_distinct(plan_views(plan@))
                &&& forall|t: int|
                    0 <= t < plan.len() ==> (#[trigger] plan@[t]).info@.absolute_path == (if (plan@[t].info@.group_prefix
                        + plan@[t].info@.relative_path).len() == 0 {
                        seq!['/']
                    } else {
                        plan@[t].info@.group_prefix + plan@[t].info@.relative_path
                    })
            },
            Err(e) => exists|t: int|
                0 <= t < entries.len() && #[trigger] plan_fault(entries@, listing(entries@), t, *final(groups), *config) == Some(
                    e@,
                ) && forall|s: int| 0 <= s < t ==> #[trigger] plan_fault(entries@, listing(entries@), s, *final(groups), *config) is None,
        },
{
    set_global_auth(groups, config.global_auth);
    freeze_resolved(groups);
    let order = listing_order(entries);
    proof {
        lemma_is_the_listing(entries@, order@);
    }
    let ghost g = *groups;
    let ghost es = entries@;
    let ghost cfg = *config;
    let mut trie: Trie<()> = Trie::new();
    let mut plan: Vec<PlannedRoute> = Vec::new();
    let mut t: usize = 0;
    while t < order.len()
        invariant
            *groups == g,
            g.wf(),
            g.defs() == old(groups).defs(),
            g.global() == config.global_auth,
            g.frozen(),
            g.snapshot_len() == (if old(groups).frozen() {
                old(groups).snapshot_len()
            } else {
                old(groups).defs().len()
            }),
            g.chains_within_limit(),
            es == entries@,
            cfg == *config,
            order@ == listing(es),
            is_listing(es, order@),
            t <= order.len(),
            plan.len() == t,
            forall|s: int|
                0 <= s < t ==> (#[trigger] plan@[s]).entry == order@[s] && plan@[s].info@ == planned_view(
                    es[order@[s] as int],
                    g,
                    cfg,
                ),
            forall|s: int| 0 <= s < t ==> #[trigger] plan_fault(es, order@, s, g, cfg) is None,
            trie.wf(),
            forall|s: int|
                0 <= s < t && is_ascii_text((#[trigger] es[order@[s] as int]).method@) ==> uppercase(es[order@[s] as int].method@)
                    == ascii_upper_text(es[order@[s] as int].method@),
            forall|m: Seq<char>, ks: Seq<Key>|
                #[trigger] trie.terminal_at(m, ks) is Some <==> exists|s: int|
                    0 <= s < t && #[trigger] route_key(plan@[s].info@) == (m, ks),
        decreases order.len() - t,
    {
        let idx = order[t];
        let e = &entries[idx];
        let ghost v = planned_view(*e, g, cfg);
        assert(es[order@[t as int] as int] == *e);
        let method = to_uppercase(e.method.as_str());
        if !is_supported_method(method.as_str()) {
            let err = PlanError::UnsupportedMethod { service: config.service.clone(), method };
            assert(plan_fault(es, order@, t as int, g, cfg) == Some(err@));
            return Err(err);
        }
        let mut s: usize = 0;
        #[verifier::loop_isolation(false)]
        while s < plan.len()
            invariant
                s <= plan.len(),
                plan.len() == t,
                forall|j: int| 0 <= j < s ==> (#[trigger] plan@[j]).info.tag@ != e.tag@,
            decreases plan.len() - s,
        {
            if str_eq(plan[s].info.tag.as_str(), e.tag.as_str()) {
                let err = PlanError::DuplicateTag(e.tag.clone());
                proof {
                    assert(plan@[s as int].info@ == planned_view(es[order@[s as int] as int], g, cfg));
                    assert(es[order@[s as int] as int].tag@ == e.tag@);
                    assert(plan_fault(es, order@, t as int, g, cfg) == Some(err@));
                }
                return Err(err);
            }
            s = s + 1;
        }
        assert(!exists|s: int| 0 <= s < t && #[trigger] es[order@[s] as int].tag@ == e.tag@) by {
            if exists|s: int| 0 <= s < t && #[trigger] es[order@[s] as int].tag@ == e.tag@ {
                let s = choose|s: int| 0 <= s < t && #[trigger] es[order@[s] as int].tag@ == e.tag@;
                assert(plan@[s].info@ == planned_view(es[order@[s] as int], g, cfg));
            }
        }
        if !e.group.as_str().is_empty() && find_group(groups, e.group.as_str()).is_none() {
            let err = PlanError::UnknownGroup { tag: e.tag.clone(), group: e.group.clone() };
            assert(plan_fault(es, order@, t as int, g, cfg) == Some(err@));
            return Err(err);
        }
        let group_prefix = chain_prefix(groups, e.group.as_str());
        let auth = match e.auth {
            Some(a) => a,
            None => {
                proof {
                    if let Some(i) = crate::group::group_index(g.defs(), e.group@) {
                        assert(crate::group::chain_len(g.defs(), i) <= crate::group::max_chain());
                    }
                }
                inherited_auth(groups, e.group.as_str())
            },
        };
        let mut prefix = String::new();
        if !e.cancel_global_prefix {
            push_str(&mut prefix, config.global_prefix.as_str());
        }
        if !e.cancel_global_api_prefix {
            push_str(&mut prefix, config.global_api_prefix.as_str());
        }
        push_str(&mut prefix, group_prefix.as_str());
        proof {
            assert(prefix@ =~= v.group_prefix);
        }
        let mut full = prefix.clone();
        push_str(&mut full, e.path.as_str());
        if full.as_str().is_empty() {
            push_char(&mut full, '/');
        }
        proof {
            assert(full@ =~= v.absolute_path);
        }
        if trie.has(method.as_str(), full.as_str()) {
            let err = PlanError::AlreadyExist { method: to_uppercase(method.as_str()), path: full };
            proof {
                let s = choose|s: int| 0 <= s < t && #[trigger] route_key(plan@[s].info@) == (uppercase(method@), pattern_keys(full@));
                assert(plan@[s].info@ == planned_view(es[order@[s] as int], g, cfg));
                assert(route_key(planned_view(es[order@[s] as int], g, cfg)) == route_key(v));
                assert(plan_fault(es, order@, t as int, g, cfg) == Some(err@));
            }
            return Err(err);
        }
        let ghost trie0 = trie;
        trie.insert(method.as_str(), full.as_str(), ());
        let info = RouteInfo {
            method,
            group_prefix: prefix,
            relative_path: e.path.clone(),
            absolute_path: full,
            tag: e.tag.clone(),
            desc: e.desc.clone(),
            title: e.title.clone(),
            front_path: e.front_path.clone(),
            is_data_auth: match e.is_data_auth {
                Some(b) => b,
                None => false,
            },
            auth,
            is_ws: e.is_ws,
            service: config.service.clone(),
            middleware_names: clone_strings(&e.middleware_names),
        };
        proof {
            assert(info@ == v);
            assert(!exists|s: int| 0 <= s < t && #[trigger] route_key(planned_view(es[order@[s] as int], g, cfg)) == route_key(v)) by {
                if exists|s: int| 0 <= s < t && #[trigger] route_key(planned_view(es[order@[s] as int], g, cfg)) == route_key(v) {
                    let s = choose|s: int| 0 <= s < t && #[trigger] route_key(planned_view(es[order@[s] as int], g, cfg)) == route_key(v);
                    assert(plan@[s].info@ == planned_view(es[order@[s] as int], g, cfg));
                    assert(trie.terminal_at(uppercase(method@), pattern_keys(full@)) is Some);
                }
            }
            assert(plan_fault(es, order@, t as int, g, cfg) is None);
        }
        let ghost old_plan = plan@;
        plan.push(PlannedRoute { info, entry: idx });
        proof {
            assert(route_key(v) == (uppercase(method@), pattern_keys(full@)));
            assert forall|m: Seq<char>, ks: Seq<Key>|
                #[trigger] trie.terminal_at(m, ks) is Some <==> exists|s: int|
                    0 <= s < t + 1 && #[trigger] route_key(plan@[s].info@) == (m, ks) by {
                if (m, ks) == route_key(v) {
                    assert(route_key(plan@[t as int].info@) == (m, ks));
                } else {
                    assert(trie.terminal_at(m, ks) == trie0.terminal_at(m, ks));
                    if exists|s: int| 0 <= s < t && #[trigger] route_key(old_plan[s].info@) == (m, ks) {
                        let s = choose|s: int| 0 <= s < t && #[trigger] route_key(old_plan[s].info@) == (m, ks);
                        assert(plan@[s] == old_plan[s]);
                    }
                    if exists|s: int| 0 <= s < t + 1 && #[trigger] route_key(plan@[s].info@) == (m, ks) {
                        let s = choose|s: int| 0 <= s < t + 1 && #[trigger] route_key(plan@[s].info@) == (m, ks);
                        assert(s < t);
                        assert(plan@[s] == old_plan[s]);
                    }
                }
            }
        }
        t = t + 1;
    }
    proof {
        assert(is_listing(es, listing(es)));
        lemma_listing_positions(es, order@);
        assert forall|a: int|
            0 <= a < entries.len() && is_ascii_text((#[trigger] entries@[a]).method@) implies uppercase(entries@[a].method@)
                == ascii_upper_text(entries@[a].method@) by {
            assert(holds_position(order@, a));
            let s = choose|s: int| 0 <= s < order@.len() && order@[s] as int == a;
            assert(es[order@[s] as int] == entries@[a]);
        }
        assert forall|a: int, b: int| 0 <= a < b < plan@.len() implies route_key(#[trigger] plan_views(plan@)[a]) != route_key(
            #[trigger] plan_views(plan@)[b],
        ) by {
            assert(plan_fault(es, order@, b, g, cfg) is None);
            assert(route_key(planned_view(es[order@[a] as int], g, cfg)) == route_key(plan@[a].info@));
        }
    }
    Ok(plan)
}


/// How a planned route's prefix and absolute path are joined: the global
/// prefix comes in exactly when the declaration does not skip it, the
/// global API prefix exactly when the declaration does not skip that one
/// (whether or not it skips the global prefix), then the prefix of the
/// group it names when that group is registered; the absolute path is the
/// prefix and the relative path, or `/` when both are empty.
pub proof fn lemma_planned_prefix<M>(e: RouteEntry, g: GroupRegistry<M>, cfg: RouterConfig)
    ensures
        ({
            let v = planned_view(e, g, cfg);
            let global = if e.cancel_global_prefix {
                Seq::<char>::empty()
            } else {
                cfg.global_prefix@
            };
            let api = if e.cancel_global_api_prefix {
                Seq::<char>::empty()
            } else {
                cfg.global_api_prefix@
            };
            let group = if g.registered(e.group@) {
                e.group@
            } else {
                Seq::<char>::empty()
            };
            &&& v.group_prefix == global + api + group
            &&& v.relative_path == e.path@
            &&& (global + api + group + e.path@).len() > 0 ==> v.absolute_path == global + api + group + e.path@
            &&& (global + api + group + e.path@).len() == 0 ==> v.absolute_path == seq!['/']
            &&& e.cancel_global_prefix && !e.cancel_global_api_prefix ==> v.group_prefix == cfg.global_api_prefix@ + group
            &&& !e.cancel_global_prefix && e.cancel_global_api_prefix ==> v.group_prefix == cfg.global_prefix@ + group
        }),
{
}

/// The declarations of an accepted plan: every method is supported, every
/// group that a declaration names is registered, and no two declarations
/// share a tag or a `(method, pattern)` lookup key.
pub proof fn lemma_accepted_plan<M>(es: Seq<RouteEntry>, g: GroupRegistry<M>, cfg: RouterConfig)
    requires
        is_listing(es, listing(es)),
        forall|t: int| 0 <= t < es.len() ==> #[trigger] plan_fault(es, listing(es), t, g, cfg) is None,
    ensures
        forall|a: int| 0 <= a < es.len() ==> supported_method(#[trigger] planned_view(es[a], g, cfg).method),
        forall|a: int| 0 <= a < es.len() && (#[trigger] es[a]).group@.len() > 0 ==> g.registered(es[a].group@),
        forall|a: int, b: int|
            0 <= a < es.len() && 0 <= b < es.len() && a != b ==> #[trigger] es[a].tag@ != #[trigger] es[b].tag@,
        forall|a: int, b: int|
            0 <= a < es.len() && 0 <= b < es.len() && a != b ==> route_key(#[trigger] planned_view(es[a], g, cfg))
                != route_key(#[trigger] planned_view(es[b], g, cfg)),
{
    let p = listing(es);
    lemma_listing_positions(es, p);
    assert forall|a: int|
        #![trigger es[a]]
        #![trigger planned_view(es[a], g, cfg)]
        0 <= a < es.len() implies supported_method(planned_view(es[a], g, cfg).method) && (es[a].group@.len() > 0
            ==> g.registered(es[a].group@)) by {
        assert(holds_position(p, a));
        let s = choose|s: int| 0 <= s < p.len() && p[s] as int == a;
        assert(plan_fault(es, p, s, g, cfg) is None);
    }
    assert forall|a: int, b: int| 0 <= a < es.len() && 0 <= b < es.len() && a != b implies #[trigger] es[a].tag@
        != #[trigger] es[b].tag@ && route_key(planned_view(es[a], g, cfg)) != route_key(planned_view(es[b], g, cfg)) by {
        assert(holds_position(p, a));
        assert(holds_position(p, b));
        let sa = choose|s: int| 0 <= s < p.len() && p[s] as int == a;
        let sb = choose|s: int| 0 <= s < p.len() && p[s] as int == b;
        if sa < sb {
            assert(plan_fault(es, p, sb, g, cfg) is None);
            assert(es[p[sa] as int].tag@ == es[a].tag@);
        } else {
            assert(plan_fault(es, p, sa, g, cfg) is None);
            assert(es[p[sb] as int].tag@ == es[b].tag@);
        }
    }
}

/// The route table of an accepted plan: one row per declaration, listed
/// by `(module path, line)`, each with the upper-cased method, which is a
/// supported one; no two rows share a tag or a `(method, pattern)` key.
pub proof fn lemma_table_of_accepted_plan<M>(
    es: Seq<RouteEntry>,
    g: GroupRegistry<M>,
    cfg: RouterConfig,
    plan: Seq<PlannedRoute>,
)
    requires
        is_listing(es, listing(es)),
        plan.len() == es.len(),
        forall|t: int| 0 <= t < es.len() ==> #[trigger] plan_fault(es, listing(es), t, g, cfg) is None,
        forall|t: int|
            0 <= t < plan.len() ==> (#[trigger] plan[t]).entry == listing(es)[t] && plan[t].info@ == planned_view(
                es[listing(es)[t] as int],
                g,
                cfg,
            ),
    ensures
        plan_views(plan).len() == es.len(),
        forall|s: int, t: int|
            0 <= s < t < plan.len() ==> listed_before(es, #[trigger] plan[s].entry as int, #[trigger] plan[t].entry as int),
        forall|t: int|
            0 <= t < plan.len() ==> (#[trigger] plan_views(plan)[t]).method == uppercase(es[plan[t].entry as int].method@)
                && supported_method(plan_views(plan)[t].method),
        forall|s: int, t: int|
            0 <= s < plan.len() && 0 <= t < plan.len() && s != t ==> (#[trigger] plan_views(plan)[s]).tag != (
            #[trigger] plan_views(plan)[t]).tag && route_key(plan_views(plan)[s]) != route_key(plan_views(plan)[t]),
{
    let p = listing(es);
    lemma_accepted_plan(es, g, cfg);
    lemma_listing_positions(es, p);
    assert forall|t: int| 0 <= t < plan.len() implies (#[trigger] plan_views(plan)[t]).method == uppercase(
        es[plan[t].entry as int].method@,
    ) && supported_method(plan_views(plan)[t].method) by {
        assert(plan_views(plan)[t] == plan[t].info@);
        assert(p[t] < es.len());
        assert(supported_method(planned_view(es[p[t] as int], g, cfg).method));
    }
    assert forall|s: int, t: int|
        0 <= s < plan.len() && 0 <= t < plan.len() && s != t implies (#[trigger] plan_views(plan)[s]).tag != (
        #[trigger] plan_views(plan)[t]).tag && route_key(plan_views(plan)[s]) != route_key(plan_views(plan)[t]) by {
        assert(plan_views(plan)[s] == plan[s].info@);
        assert(plan_views(plan)[t] == plan[t].info@);
        assert(p[s] != p[t]);
        assert(p[s] < es.len() && p[t] < es.len());
        let a = p[s] as int;
        let b = p[t] as int;
        assert(es[a].tag@ != es[b].tag@);
        assert(route_key(planned_view(es[a], g, cfg)) != route_key(planned_view(es[b], g, cfg)));
    }
}

/// Route `v` answers method key `m` and URL pieces `u`: same method key
/// (as the index files it) and its pattern matches the pieces.
pub open spec fn route_matches(v: RouteView, m: Seq<char>, u: Seq<Seq<char>>) -> bool {
    uppercase(v.method) == m && key_matches(pattern_keys(v.absolute_path), u)
}

/// Route `i` of `routes` is the one that a lookup of method key `m` and
/// URL pieces `u` selects: it matches, and no matching route's pattern
/// comes before its pattern in priority (literal segments before
/// parameters, position by position).
pub open spec fn is_selected_route(routes: Seq<RouteView>, m: Seq<char>, u: Seq<Seq<char>>, i: int) -> bool {
    &&& 0 <= i < routes.len()
    &&& route_matches(routes[i], m, u)
    &&& forall|j: int|
        0 <= j < routes.len() && #[trigger] route_matches(routes[j], m, u) ==> !preferred(
            pattern_keys(routes[j].absolute_path),
            pattern_keys(routes[i].absolute_path),
        )
}

/// The result of a route lookup: the matched route and the parameter values.
#[derive(Clone, Debug)]
pub struct SearchResult {
    /// The matched route.
    pub route: RouteInfo,
    /// Parameter values: `/api/v1/user/{id}` matching `/api/v1/user/42`
    /// gives `[("id", "42")]`.
    pub params: Vec<(String, String)>,
}

/// The route table built from a plan, with its lookup index.
pub struct Router {
    table: Vec<RouteInfo>,
    index: Trie<usize>,
}

/// The registrations of a route table into its lookup index, in table
/// order: method, absolute path, position.
pub open spec fn table_history(routes: Seq<RouteView>) -> Seq<(Seq<char>, Seq<char>, usize)> {
    Seq::new(routes.len(), |i: int| (uppercase(routes[i].method), routes[i].absolute_path, i as usize))
}

/// The name of the parameter that follows pattern keys `ks` under method
/// key `m`, given routes registered in the order of `routes`: the first
/// route whose pattern continues `ks` with a parameter names it.
pub open spec fn table_param_name(routes: Seq<RouteView>, m: Seq<char>, ks: Seq<Key>) -> Option<Seq<char>>
    decreases routes.len(),
{
    if routes.len() == 0 {
        None
    } else {
        let before = table_param_name(routes.drop_last(), m, ks);
        if uppercase(routes.last().method) == m {
            name_after_insert(before, ks, pattern_segments(routes.last().absolute_path))
        } else {
            before
        }
    }
}

impl Router {
    /// The routes of the table, in plan order.
    pub closed spec fn routes(&self) -> Seq<RouteView> {
        route_views(self.table@)
    }

    /// The index is consistent, files each route under its lookup key and
    /// nothing else, and names its parameter segments as the routes, in
    /// table order, first named them.
    pub closed spec fn wf(&self) -> bool {
        &&& self.index.wf()
        &&& self.index.built_by(table_history(route_views(self.table@)))
        &&& forall|m: Seq<char>, ks: Seq<Key>|
            #[trigger] self.index.terminal_at(m, ks) matches Some(i) ==> i < self.table@.len() && route_key(
                self.table@[i as int]@,
            ) == (m, ks)
        &&& forall|i: int|
            0 <= i < self.table@.len() ==> self.index.terminal_at(
                route_key(#[trigger] self.table@[i]@).0,
                route_key(self.table@[i]@).1,
            ) == Some(i as usize)
        &&& forall|m: Seq<char>, ks: Seq<Key>|
            #[trigger] self.index.param_name_at(m, ks) == table_param_name(route_views(self.table@), m, ks)
    }

    /// The `(name, value)` pairs that pattern `k` extracts from URL pieces
    /// `u` under method key `m`: one per parameter segment, in order, named
    /// as the first route registered with a parameter at that position
    /// named it.
    pub open spec fn params_for(&self, m: Seq<char>, k: Seq<Key>, u: Seq<Seq<char>>) -> Seq<(Seq<char>, Seq<char>)> {
        params_by(|ks: Seq<Key>| table_param_name(self.routes(), m, ks), k, u)
    }

    /// The table of a plan whose routes have distinct lookup keys.
    pub fn from_plan(plan: &Vec<PlannedRoute>) -> (r: Router)
        requires
            keys_distinct(plan_views(plan@)),
        ensures
            r.wf(),
            r.routes() == plan_views(plan@),
    {
        let mut table: Vec<RouteInfo> = Vec::new();
        let mut index: Trie<usize> = Trie::new();
        let mut i: usize = 0;
        assert(table_history(route_views(table@)) =~= Seq::empty());
        assert forall|m: Seq<char>, ks: Seq<Key>|
            #[trigger] index.param_name_at(m, ks) == table_param_name(route_views(table@), m, ks) by {
            assert(route_views(table@).len() == 0);
        }
        while i < plan.len()
            invariant
                i <= plan.len(),
                keys_distinct(plan_views(plan@)),
                index.wf(),
                index.built_by(table_history(route_views(table@))),
                table.len() == i,
                forall|j: int| 0 <= j < i ==> (#[trigger] table@[j])@ == plan@[j].info@,
                forall|m: Seq<char>, ks: Seq<Key>|
                    #[trigger] index.terminal_at(m, ks) matches Some(j) ==> j < i && route_key(plan@[j as int].info@) == (m, ks),
                forall|m: Seq<char>, ks: Seq<Key>|
                    #[trigger] index.terminal_at(m, ks) is None ==> forall|j: int|
                        0 <= j < i ==> route_key(#[trigger] plan@[j].info@) != (m, ks),
                forall|j: int|
                    0 <= j < i ==> index.terminal_at(route_key(#[trigger] plan@[j].info@).0, route_key(plan@[j].info@).1)
                        == Some(j as usize),
                forall|m: Seq<char>, ks: Seq<Key>|
                    #[trigger] index.param_name_at(m, ks) == table_param_name(route_views(table@), m, ks),
            decreases plan.len() - i,
        {
            let info = plan[i].info.clone();
            let ghost key = route_key(info@);
            proof {
                assert(plan_views(plan@)[i as int] == plan@[i as int].info@);
                if let Some(j) = index.terminal_at(key.0, key.1) {
                    assert(plan_views(plan@)[j as int] == plan@[j as int].info@);
                }
            }
            let ghost index0 = index;
            let ghost table0 = table@;
            index.insert(info.method.as_str(), info.absolute_path.as_str(), i);
            let ghost v = info@;
            table.push(info);
            proof {
                assert(route_views(table@).drop_last() =~= route_views(table0));
                assert(route_views(table@).last() == v);
                assert(table_history(route_views(table@)) =~= table_history(route_views(table0)).push(
                    (uppercase(v.method), v.absolute_path, i),
                ));
                assert forall|m: Seq<char>, ks: Seq<Key>|
                    #[trigger] index.param_name_at(m, ks) == table_param_name(route_views(table@), m, ks) by {
                    assert(index0.param_name_at(m, ks) == table_param_name(route_views(table0), m, ks));
                }
                assert forall|m: Seq<char>, ks: Seq<Key>|
                    (#[trigger] index.terminal_at(m, ks) matches Some(j) ==> j < i + 1 && route_key(plan@[j as int].info@) == (m, ks)) by {
                    if (m, ks) != key {
                        assert(index.terminal_at(m, ks) == index0.terminal_at(m, ks));
                    }
                }
                assert forall|m: Seq<char>, ks: Seq<Key>|
                    #[trigger] index.terminal_at(m, ks) is None implies forall|j: int|
                        0 <= j < i + 1 ==> route_key(#[trigger] plan@[j].info@) != (m, ks) by {
                    assert((m, ks) != key);
                    assert(index.terminal_at(m, ks) == index0.terminal_at(m, ks));
                }
                assert forall|j: int| 0 <= j < i + 1 implies index.terminal_at(
                    route_key(#[trigger] plan@[j].info@).0,
                    route_key(plan@[j].info@).1,
                ) == Some(j as usize) by {
                    if j < i {
                        assert(plan_views(plan@)[j] == plan@[j].info@);
                        assert(plan_views(plan@)[i as int] == plan@[i as int].info@);
                        assert(route_key(plan@[j].info@) != key);
                    }
                }
            }
            i = i + 1;
        }
        let r = Router { table, index };
        proof {
            assert(r.routes() =~= plan_views(plan@));
        }
        r
    }
}

/// Looks up the route that a concrete URL selects under the upper-cased
/// method: literal segments match exactly and come before parameter
/// segments, parameter segments match any single URL segment and record
/// its value. `None` when no route matches.
pub fn search(router: &Router, method: &str, url: &str) -> (r: Option<SearchResult>)
    requires
        router.wf(),
    ensures
        is_ascii_text(method@) ==> uppercase(method@) == ascii_upper_text(method@),
        match r {
            None => forall|i: int|
                0 <= i < router.routes().len() ==> !#[trigger] route_matches(
                    router.routes()[i],
                    uppercase(method@),
                    path_pieces(url@),
                ),
            Some(sr) => exists|i: int|
                #[trigger] is_selected_route(router.routes(), uppercase(method@), path_pieces(url@), i) && sr.route@
                    == router.routes()[i] && pairs(sr.params@) == router.params_for(
                    uppercase(method@),
                    pattern_keys(router.routes()[i].absolute_path),
                    path_pieces(url@),
                ),
        },
{
    let ghost m = uppercase(method@);
    let ghost u = path_pieces(url@);
    let hit = router.index.search(method, url);
    match hit {
        Some(h) => {
            let i = *h.value;
            proof {
                let k = router.index.selected(m, u)->0;
                assert(router.index.is_selected(m, k, u));
                assert(router.index.terminal_at(m, k) == Some(i));
                assert(route_key(router.table@[i as int]@) == (m, k));
                assert(router.routes()[i as int] == router.table@[i as int]@);
                assert forall|j: int|
                    0 <= j < router.routes().len() && #[trigger] route_matches(router.routes()[j], m, u) implies !preferred(
                        pattern_keys(router.routes()[j].absolute_path),
                        pattern_keys(router.routes()[i as int].absolute_path),
                    ) by {
                    assert(router.routes()[j] == router.table@[j]@);
                    let kj = pattern_keys(router.table@[j]@.absolute_path);
                    assert(router.index.terminal_at(m, kj) == Some(j as usize));
                }
                assert(is_selected_route(router.routes(), m, u, i as int));
                assert((|ks: Seq<Key>| router.index.param_name_at(m, ks)) =~= (|ks: Seq<Key>| table_param_name(
                    router.routes(),
                    m,
                    ks,
                )));
            }
            if i < router.table.len() {
                let route = router.table[i].clone();
                Some(SearchResult { route, params: h.params })
            } else {
                None
            }
        },
        None => {
            proof {
                assert forall|i: int| 0 <= i < router.routes().len() implies !#[trigger] route_matches(router.routes()[i], m, u) by {
                    assert(router.routes()[i] == router.table@[i]@);
                    let ki = pattern_keys(router.table@[i]@.absolute_path);
                    if route_matches(router.routes()[i], m, u) {
                        assert(router.index.terminal_at(m, ki) == Some(i as usize));
                    }
                }
            }
            None
        },
    }
}

impl Router {
    /// At most one route is selected by a lookup.
    pub proof fn lemma_selected_route_unique(&self, m: Seq<char>, u: Seq<Seq<char>>, i: int, j: int)
        requires
            self.wf(),
            is_selected_route(self.routes(), m, u, i),
            is_selected_route(self.routes(), m, u, j),
        ensures
            i == j,
    {
        let rs = self.routes();
        let ki = pattern_keys(rs[i].absolute_path);
        let kj = pattern_keys(rs[j].absolute_path);
        assert(route_matches(rs[i], m, u));
        assert(route_matches(rs[j], m, u));
        if ki != kj {
            lemma_matching_comparable(ki, kj, u);
        }
        assert(rs[i] == self.table@[i]@);
        assert(rs[j] == self.table@[j]@);
        assert(route_key(rs[i]) == route_key(rs[j]));
        assert(i < self.table.len() && j < self.table.len());
        assert(self.index.terminal_at(route_key(self.table@[i]@).0, route_key(self.table@[i]@).1) == Some(i as usize));
        assert(self.index.terminal_at(route_key(self.table@[j]@).0, route_key(self.table@[j]@).1) == Some(j as usize));
    }

    /// A lookup answers as a trie built afresh from the route table would:
    /// registering each route's method and absolute path with its position,
    /// in table order, the route a lookup selects is the position that trie
    /// selects, no route matches exactly when that trie holds no matching
    /// pattern, and parameters are named as that trie names them.
    pub proof fn lemma_search_rebuilt(&self, t: Trie<usize>, m: Seq<char>, u: Seq<Seq<char>>)
        requires
            self.wf(),
            t.built_by(table_history(self.routes())),
        ensures
            forall|i: int|
                #[trigger] is_selected_route(self.routes(), m, u, i) <==> (0 <= i < self.routes().len() && t.is_selected(
                    m,
                    pattern_keys(self.routes()[i].absolute_path),
                    u,
                ) && t.terminal_at(m, pattern_keys(self.routes()[i].absolute_path)) == Some(i as usize)),
            (forall|i: int| 0 <= i < self.routes().len() ==> !#[trigger] route_matches(self.routes()[i], m, u)) <==> (
            forall|k: Seq<Key>| key_matches(k, u) ==> #[trigger] t.terminal_at(m, k) is None),
            forall|k: Seq<Key>| #[trigger] self.params_for(m, k, u) == params_by(|ks: Seq<Key>| t.param_name_at(m, ks), k, u),
    {
        let rs = self.routes();
        assert forall|m: Seq<char>, ks: Seq<Key>| #[trigger] t.terminal_at(m, ks) == self.index.terminal_at(m, ks) by {
            assert(t.terminal_at(m, ks) == history_terminal(table_history(rs), m, ks));
            assert(self.index.terminal_at(m, ks) == history_terminal(table_history(rs), m, ks));
        }
        assert forall|m: Seq<char>, ks: Seq<Key>| #[trigger] t.param_name_at(m, ks) == table_param_name(rs, m, ks) by {
            assert(t.param_name_at(m, ks) == history_name(table_history(rs), m, ks));
            assert(self.index.param_name_at(m, ks) == history_name(table_history(rs), m, ks));
            assert(self.index.param_name_at(m, ks) == table_param_name(route_views(self.table@), m, ks));
        }
        assert forall|i: int| 0 <= i < rs.len() implies rs[i] == self.table@[i]@ && #[trigger] t.terminal_at(
            route_key(rs[i]).0,
            route_key(rs[i]).1,
        ) == Some(i as usize) by {
            assert(self.index.terminal_at(route_key(self.table@[i]@).0, route_key(self.table@[i]@).1) == Some(i as usize));
        }
        assert forall|m: Seq<char>, ks: Seq<Key>| #[trigger] t.terminal_at(m, ks) is Some implies t.terminal_at(m, ks)->0
            < rs.len() && route_key(rs[t.terminal_at(m, ks)->0 as int]) == (m, ks) by {
            assert(self.index.terminal_at(m, ks) == t.terminal_at(m, ks));
        }
        assert forall|i: int|
            #[trigger] is_selected_route(rs, m, u, i) <==> (0 <= i < rs.len() && t.is_selected(m, pattern_keys(rs[i].absolute_path), u)
                && t.terminal_at(m, pattern_keys(rs[i].absolute_path)) == Some(i as usize)) by {
            if 0 <= i < rs.len() {
                let ki = pattern_keys(rs[i].absolute_path);
                assert(t.terminal_at(route_key(rs[i]).0, route_key(rs[i]).1) == Some(i as usize));
                if is_selected_route(rs, m, u, i) {
                    assert forall|k2: Seq<Key>| key_matches(k2, u) && #[trigger] t.terminal_at(m, k2) is Some implies !preferred(
                        k2,
                        ki,
                    ) by {
                        let j = t.terminal_at(m, k2)->0;
                        assert(route_key(rs[j as int]) == (m, k2));
                        assert(route_matches(rs[j as int], m, u));
                    }
                }
                if t.is_selected(m, ki, u) && t.terminal_at(m, ki) == Some(i as usize) {
                    assert(route_key(rs[i]) == (m, ki));
                    assert forall|j: int| 0 <= j < rs.len() && #[trigger] route_matches(rs[j], m, u) implies !preferred(
                        pattern_keys(rs[j].absolute_path),
                        ki,
                    ) by {
                        assert(t.terminal_at(route_key(rs[j]).0, route_key(rs[j]).1) == Some(j as usize));
                    }
                }
            }
        }
        if forall|i: int| 0 <= i < rs.len() ==> !#[trigger] route_matches(rs[i], m, u) {
            assert forall|k: Seq<Key>| key_matches(k, u) implies #[trigger] t.terminal_at(m, k) is None by {
                if let Some(j) = t.terminal_at(m, k) {
                    assert(route_key(rs[j as int]) == (m, k));
                    assert(route_matches(rs[j as int], m, u));
                }
            }
        }
        if forall|k: Seq<Key>| key_matches(k, u) ==> #[trigger] t.terminal_at(m, k) is None {
            assert forall|i: int| 0 <= i < rs.len() implies !#[trigger] route_matches(rs[i], m, u) by {
                assert(t.terminal_at(route_key(rs[i]).0, route_key(rs[i]).1) == Some(i as usize));
            }
        }
        assert forall|k: Seq<Key>|
            #[trigger] self.params_for(m, k, u) == params_by(|ks: Seq<Key>| t.param_name_at(m, ks), k, u) by {
            assert((|ks: Seq<Key>| table_param_name(rs, m, ks)) =~= (|ks: Seq<Key>| t.param_name_at(m, ks)));
        }
    }

    /// A route whose absolute path has literal segments only is the one
    /// that a lookup of its own method and absolute path selects.
    pub proof fn lemma_literal_route_found(&self, i: int)
        requires
            self.wf(),
            0 <= i < self.routes().len(),
            forall|x: int|
                0 <= x < pattern_keys(self.routes()[i].absolute_path).len() ==> #[trigger] pattern_keys(
                    self.routes()[i].absolute_path,
                )[x] is Lit,
        ensures
            is_selected_route(
                self.routes(),
                uppercase(self.routes()[i].method),
                path_pieces(self.routes()[i].absolute_path),
                i,
            ),
            forall|j: int|
                #[trigger] is_selected_route(
                    self.routes(),
                    uppercase(self.routes()[i].method),
                    path_pieces(self.routes()[i].absolute_path),
                    j,
                ) ==> j == i,
    {
        let rs = self.routes();
        let m = uppercase(rs[i].method);
        let path = rs[i].absolute_path;
        let k = pattern_keys(path);
        let u = path_pieces(path);
        assert forall|x: int| 0 <= x < k.len() implies (#[trigger] k[x] is Param || k[x] == Key::Lit(u[x])) by {
            assert(k[x] == classify(u[x]).key());
        }
        assert(route_matches(rs[i], m, u));
        assert forall|j: int| 0 <= j < rs.len() && #[trigger] route_matches(rs[j], m, u) implies !preferred(
            pattern_keys(rs[j].absolute_path),
            k,
        ) by {
            if preferred(pattern_keys(rs[j].absolute_path), k) {
                lemma_preferred_needs_param(pattern_keys(rs[j].absolute_path), k);
            }
        }
        assert(is_selected_route(rs, m, u, i));
        assert forall|j: int| #[trigger] is_selected_route(rs, m, u, j) implies j == i by {
            self.lemma_selected_route_unique(m, u, i, j);
        }
    }
}

/// Whether some route answers the method and the URL (the URL may hold
/// actual parameter values).
pub fn exist(router: &Router, method: &str, url: &str) -> (r: bool)
    requires
        router.wf(),
    ensures
        is_ascii_text(method@) ==> uppercase(method@) == ascii_upper_text(method@),
        r == exists|i: int| 0 <= i < router.routes().len() && #[trigger] route_matches(
            router.routes()[i],
            uppercase(method@),
            path_pieces(url@),
        ),
{
    let found = search(router, method, url);
    proof {
        if found is Some {
            let i = choose|i: int| #[trigger] is_selected_route(router.routes(), uppercase(method@), path_pieces(url@), i);
            assert(route_matches(router.routes()[i], uppercase(method@), path_pieces(url@)));
        }
    }
    found.is_some()
}

/// The route table, in plan order.
pub fn route_table(router: &Router) -> (r: Vec<RouteInfo>)
    ensures
        route_views(r@) == router.routes(),
{
    let mut r: Vec<RouteInfo> = Vec::new();
    let mut i: usize = 0;
    while i < router.table.len()
        invariant
            i <= router.table.len(),
            r.len() == i,
            forall|j: int| 0 <= j < i ==> (#[trigger] r@[j])@ == router.table@[j]@,
        decreases router.table.len() - i,
    {
        r.push(router.table[i].clone());
        i = i + 1;
    }
    assert(route_views(r@) =~= router.routes());
    r
}


/// The mounting groups of routes by absolute path, as values.
pub open spec fn resource_views(out: Seq<(String, Vec<usize>)>) -> Seq<(Seq<char>, Seq<usize>)> {
    out.map_values(|r: (String, Vec<usize>)| (r.0@, r.1@))
}

/// `out` groups the positions of `paths` by path: paths in increasing
/// string order, each with the positions that have it (at least one), in
/// increasing order, and every position in its group.
pub open spec fn groups_by_path(paths: Seq<Seq<char>>, out: Seq<(Seq<char>, Seq<usize>)>) -> bool {
    &&& forall|a: int| 0 <= a < out.len() ==> (#[trigger] out[a]).1.len() > 0
    &&& forall|a: int, b: int| 0 <= a < b < out.len() ==> text_less(#[trigger] out[a].0, #[trigger] out[b].0)
    &&& forall|a: int, j: int|
        0 <= a < out.len() && 0 <= j < out[a].1.len() ==> #[trigger] out[a].1[j] < paths.len() && paths[out[a].1[j]
            as int] == out[a].0
    &&& forall|a: int, c: int, d: int|
        0 <= a < out.len() && 0 <= c < d < out[a].1.len() ==> #[trigger] out[a].1[c] < #[trigger] out[a].1[d]
    &&& forall|x: int| 0 <= x < paths.len() ==> has_group_for(out, #[trigger] paths[x], x)
}

/// Some group of `out` has path `p` and holds position `x`.
pub open spec fn has_group_for(out: Seq<(Seq<char>, Seq<usize>)>, p: Seq<char>, x: int) -> bool {
    exists|a: int| #![trigger out[a]] 0 <= a < out.len() && out[a].0 == p && out[a].1.contains(x as usize)
}

/// Path `p` is the path of some position of `paths`.
pub open spec fn group_path_occurs(paths: Seq<Seq<char>>, p: Seq<char>) -> bool {
    exists|x: int| 0 <= x < paths.len() && #[trigger] paths[x] == p
}

/// A grouping by path mounts exactly one resource per distinct path and
/// nothing else: every group's path is the path of some position, no two
/// groups share a path, and a group holds every position with its path.
pub proof fn lemma_one_group_per_path(paths: Seq<Seq<char>>, out: Seq<(Seq<char>, Seq<usize>)>)
    requires
        groups_by_path(paths, out),
    ensures
        forall|a: int| 0 <= a < out.len() ==> #[trigger] group_path_occurs(paths, out[a].0),
        forall|a: int, b: int| 0 <= a < out.len() && 0 <= b < out.len() && a != b ==> (#[trigger] out[a]).0 != (
        #[trigger] out[b]).0,
        forall|a: int, x: int|
            0 <= a < out.len() && 0 <= x < paths.len() && (#[trigger] out[a]).0 == #[trigger] paths[x] ==> out[a].1.contains(
                x as usize,
            ),
{
    lemma_group_paths_distinct(out);
    assert forall|a: int| 0 <= a < out.len() implies #[trigger] group_path_occurs(paths, out[a].0) by {
        assert(out[a].1.len() > 0);
        let x = out[a].1[0] as int;
        assert(paths[x] == out[a].0);
    }
    assert forall|a: int, x: int|
        0 <= a < out.len() && 0 <= x < paths.len() && (#[trigger] out[a]).0 == #[trigger] paths[x] implies out[a].1.contains(
            x as usize,
        ) by {
        assert(has_group_for(out, paths[x], x));
        let c = choose|c: int| #![trigger out[c]] 0 <= c < out.len() && out[c].0 == paths[x] && out[c].1.contains(x as usize);
        assert(c == a);
    }
}

/// Groups in strictly increasing path order have distinct paths.
proof fn lemma_group_paths_distinct(out: Seq<(Seq<char>, Seq<usize>)>)
    requires
        forall|a: int, b: int| 0 <= a < b < out.len() ==> text_less(#[trigger] out[a].0, #[trigger] out[b].0),
    ensures
        forall|a: int, b: int| 0 <= a < out.len() && 0 <= b < out.len() && a != b ==> (#[trigger] out[a]).0 != (
        #[trigger] out[b]).0,
{
    assert forall|a: int, b: int| 0 <= a < out.len() && 0 <= b < out.len() && a != b implies (#[trigger] out[a]).0 != (
    #[trigger] out[b]).0 by {
        lemma_text_less_irreflexive(out[a].0);
        lemma_text_less_irreflexive(out[b].0);
    }
}

/// Groups the routes of a plan by absolute path, paths in increasing
/// order, so that all methods of one path are mounted together.
pub fn resources_by_path(plan: &Vec<PlannedRoute>) -> (r: Vec<(String, Vec<usize>)>)
    ensures
        groups_by_path(plan_views(plan@).map_values(|v: RouteView| v.absolute_path), resource_views(r@)),
{
    let ghost paths = plan_views(plan@).map_values(|v: RouteView| v.absolute_path);
    let mut out: Vec<(String, Vec<usize>)> = Vec::new();
    let mut i: usize = 0;
    while i < plan.len()
        invariant
            i <= plan.len(),
            paths == plan_views(plan@).map_values(|v: RouteView| v.absolute_path),
            groups_by_path(paths.take(i as int), resource_views(out@)),
            forall|a: int, j: int| 0 <= a < out@.len() && 0 <= j < out@[a].1@.len() ==> #[trigger] out@[a].1@[j] < i,
        decreases plan.len() - i,
    {
        let path = &plan[i].info.absolute_path;
        assert(paths[i as int] == path@);
        // the group of this path, or the position where its group goes
        let mut a: usize = 0;
        while a < out.len() && text_lt(out[a].0.as_str(), path.as_str())
            invariant
                a <= out.len(),
                forall|b: int| 0 <= b < a ==> text_less(#[trigger] out@[b].0@, path@),
            decreases out.len() - a,
        {
            a = a + 1;
        }
        let ghost pre = resource_views(out@);
        let ghost taken = paths.take(i as int);
        let ghost after = paths.take(i + 1);
        assert(after.drop_last() == taken);
        if a < out.len() && str_eq(out[a].0.as_str(), path.as_str()) {
            let (k, mut ids) = out.remove(a);
            ids.push(i);
            out.insert(a, (k, ids));
            proof {
                assert(resource_views(out@) =~= pre.update(a as int, (pre[a as int].0, pre[a as int].1.push(i))));
                let post = resource_views(out@);
                assert forall|b: int, c: int| 0 <= b < c < post.len() implies text_less(#[trigger] post[b].0, #[trigger] post[c].0) by {
                    assert(post[b].0 == pre[b].0 && post[c].0 == pre[c].0);
                }
                assert forall|b: int, c: int, d: int|
                    0 <= b < post.len() && 0 <= c < d < post[b].1.len() implies #[trigger] post[b].1[c] < #[trigger] post[b].1[d] by {
                    if b == a && d == pre[b].1.len() {
                        assert(post[b].1[c] == pre[b].1[c]);
                        assert(out@[b].1@[c] < i);
                    } else {
                        assert(post[b].1[c] == pre[b].1[c]);
                        assert(post[b].1[d] == pre[b].1[d]);
                    }
                }
                assert forall|x: int| 0 <= x < after.len() implies has_group_for(post, #[trigger] after[x], x) by {
                    if x < i {
                        assert(after[x] == taken[x]);
                        assert(has_group_for(pre, taken[x], x));
                        let b = choose|b: int| #![trigger pre[b]] 0 <= b < pre.len() && pre[b].0 == taken[x] && pre[b].1.contains(x as usize);
                        let j = choose|j: int| 0 <= j < pre[b].1.len() && pre[b].1[j] == x as usize;
                        assert(post[b].1[j] == x as usize);
                        assert(post[b].0 == after[x] && post[b].1.contains(x as usize));
                    } else {
                        assert(post[a as int].1[post[a as int].1.len() - 1] == i);
                        assert(post[a as int].0 == after[x] && post[a as int].1.contains(x as usize));
                    }
                }
                assert forall|b: int, j: int|
                    0 <= b < post.len() && 0 <= j < post[b].1.len() implies #[trigger] post[b].1[j] < after.len()
                        && after[post[b].1[j] as int] == post[b].0 by {
                    if b != a || j < pre[b].1.len() {
                        assert(post[b].1[j] == pre[b].1[j]);
                        assert(after[pre[b].1[j] as int] == taken[pre[b].1[j] as int]);
                    }
                }
                assert(groups_by_path(after, post));
            }
        } else {
            let mut ids: Vec<usize> = Vec::new();
            ids.push(i);
            out.insert(a, (path.clone(), ids));
            proof {
                let post = resource_views(out@);
                assert(post =~= pre.insert(a as int, (path@, seq![i])));
                assert forall|b: int, c: int, d: int|
                    0 <= b < post.len() && 0 <= c < d < post[b].1.len() implies #[trigger] post[b].1[c] < #[trigger] post[b].1[d] by {
                    if b < a {
                        assert(post[b] == pre[b]);
                    } else if b > a {
                        assert(post[b] == pre[b - 1]);
                    }
                }
                if a < pre.len() {
                    assert(!text_less(pre[a as int].0, path@));
                    assert(pre[a as int].0 != path@);
                    lemma_text_less_total(pre[a as int].0, path@);
                }
                assert forall|b: int, c: int| 0 <= b < c < post.len() implies text_less(#[trigger] post[b].0, #[trigger] post[c].0) by {
                    if c < a {
                    } else if c == a {
                        assert(text_less(pre[b].0, path@));
                    } else if b == a {
                        assert(text_less(path@, pre[a as int].0));
                        if c - 1 > a {
                            assert(text_less(pre[a as int].0, pre[c - 1].0));
                            lemma_text_less_transitive(path@, pre[a as int].0, pre[c - 1].0);
                        }
                    } else if b < a {
                        assert(post[c] == pre[c - 1]);
                    } else {
                        assert(post[b] == pre[b - 1] && post[c] == pre[c - 1]);
                    }
                }
                assert forall|x: int| 0 <= x < after.len() implies has_group_for(post, #[trigger] after[x], x) by {
                    if x < i {
                        assert(after[x] == taken[x]);
                        assert(has_group_for(pre, taken[x], x));
                        let b = choose|b: int| #![trigger pre[b]] 0 <= b < pre.len() && pre[b].0 == taken[x] && pre[b].1.contains(x as usize);
                        if b < a {
                            assert(post[b] == pre[b]);
                            assert(post[b].0 == after[x] && post[b].1.contains(x as usize));
                        } else {
                            assert(post[b + 1] == pre[b]);
                            assert(post[b + 1].0 == after[x] && post[b + 1].1.contains(x as usize));
                        }
                    } else {
                        assert(post[a as int].1[0] == i);
                        assert(post[a as int].0 == after[x] && post[a as int].1.contains(x as usize));
                    }
                }
                assert forall|b: int, j: int|
                    0 <= b < post.len() && 0 <= j < post[b].1.len() implies #[trigger] post[b].1[j] < after.len()
                        && after[post[b].1[j] as int] == post[b].0 by {
                    if b < a {
                        assert(post[b] == pre[b]);
                        assert(after[pre[b].1[j] as int] == taken[pre[b].1[j] as int]);
                    } else if b > a {
                        assert(post[b] == pre[b - 1]);
                        assert(after[pre[b - 1].1[j] as int] == taken[pre[b - 1].1[j] as int]);
                    }
                }
                assert(groups_by_path(after, post));
            }
        }
        i = i + 1;
    }
    assert(paths.take(plan.len() as int) == paths);
    out
}


/// The decimal digits of `n`.
pub open spec fn decimal(n: nat) -> Seq<char>
    decreases n,
{
    if n < 10 {
        seq![((48 + n) as u8) as char]
    } else {
        decimal(n / 10) + seq![((48 + n % 10) as u8) as char]
    }
}

/// The number that the decimal digits `s` write, most significant first.
pub open spec fn numeral_value(s: Seq<char>) -> int
    decreases s.len(),
{
    if s.len() == 0 {
        0
    } else {
        numeral_value(s.drop_last()) * 10 + ((s.last() as int) - 48)
    }
}

/// The decimal numeral of `n` is made of the digits `0`..=`9`, starts with
/// a digit other than `0` unless `n` is 0, and read back, most significant
/// digit first, is `n`.
pub proof fn lemma_decimal_reads_back(n: nat)
    ensures
        numeral_value(decimal(n)) == n,
        decimal(n).len() > 0,
        forall|i: int| 0 <= i < decimal(n).len() ==> 48 <= (#[trigger] decimal(n)[i] as int) <= 57,
        n > 0 ==> decimal(n)[0] != '0',
    decreases n,
{
    if n < 10 {
        let c = ((48 + n) as u8) as char;
        assert(c as int == 48 + n);
        assert(decimal(n) == seq![c]);
        assert(seq![c].drop_last() =~= Seq::<char>::empty());
        assert(numeral_value(Seq::<char>::empty()) == 0);
        assert(numeral_value(seq![c]) == numeral_value(seq![c].drop_last()) * 10 + ((c as int) - 48));
    } else {
        lemma_decimal_reads_back(n / 10);
        let d = ((48 + n % 10) as u8) as char;
        assert(d as int == 48 + n % 10);
        let s = decimal(n);
        assert(s == decimal(n / 10) + seq![d]);
        assert(s.drop_last() =~= decimal(n / 10));
        assert(s.last() == d);
        assert((n / 10) * 10 + n % 10 == n) by (nonlinear_arith);
        assert(numeral_value(s) == numeral_value(s.drop_last()) * 10 + ((s.last() as int) - 48));
        assert forall|i: int| 0 <= i < s.len() implies 48 <= (#[trigger] s[i] as int) <= 57 by {
            if i < s.len() - 1 {
                assert(s[i] == decimal(n / 10)[i]);
            }
        }
        assert(s[0] == decimal(n / 10)[0]);
    }
}

/// Appends the decimal digits of `n`.
fn push_decimal(r: &mut String, n: usize)
    ensures
        final(r)@ == old(r)@ + decimal(n as nat),
    decreases n,
{
    if n >= 10 {
        push_decimal(r, n / 10);
    }
    let d = (n % 10) as u8;
    push_char(r, (48 + d) as char);
}

/// `n` copies of `c`.
pub open spec fn repeat(c: char, n: nat) -> Seq<char> {
    Seq::new(n, |i: int| c)
}

/// The header of the printed route table.
pub open spec fn table_header() -> Seq<char> {
    pad_right(seq!['M', 'E', 'T', 'H', 'O', 'D'], 7) + seq![' '] + pad_right(seq!['P', 'A', 'T', 'H'], 40) + seq![' ']
        + pad_right(seq!['T', 'A', 'G'], 56) + seq![' '] + pad_right(seq!['A', 'U', 'T', 'H'], 6) + seq![' ']
        + seq!['M', 'I', 'D', 'D', 'L', 'E', 'W', 'A', 'R', 'E']
}

/// The last line of the printed route table.
pub open spec fn table_total(n: nat) -> Seq<char> {
    seq!['t', 'o', 't', 'a', 'l', ':', ' '] + decimal(n) + seq![' ', 'r', 'o', 'u', 't', 'e', 's']
}

/// The lines of the printed route table: header, a rule of 150 `-`, one
/// row per route, the rule again and the total.
pub open spec fn table_lines(routes: Seq<RouteView>) -> Seq<Seq<char>> {
    seq![table_header(), repeat('-', 150)] + routes.map_values(|v: RouteView| table_row(v)) + seq![
        repeat('-', 150),
        table_total(routes.len()),
    ]
}

fn rule_line() -> (r: String)
    ensures
        r@ == repeat('-', 150),
{
    let mut r = String::new();
    let mut i: usize = 0;
    while i < 150
        invariant
            i <= 150,
            r@ == repeat('-', i as nat),
        decreases 150 - i,
    {
        push_char(&mut r, '-');
        assert(r@ =~= repeat('-', (i + 1) as nat));
        i = i + 1;
    }
    r
}

/// The lines of the printed route table.
pub fn route_table_lines(table: &Vec<RouteInfo>) -> (r: Vec<String>)
    ensures
        strs(r@) == table_lines(route_views(table@)),
{
    let ghost routes = route_views(table@);
    let mut header = String::new();
    crate::route::push_padded(&mut header, "METHOD", 7);
    push_char(&mut header, ' ');
    crate::route::push_padded(&mut header, "PATH", 40);
    push_char(&mut header, ' ');
    crate::route::push_padded(&mut header, "TAG", 56);
    push_char(&mut header, ' ');
    crate::route::push_padded(&mut header, "AUTH", 6);
    push_char(&mut header, ' ');
    push_str(&mut header, "MIDDLEWARE");
    proof {
        reveal_strlit("METHOD");
        reveal_strlit("PATH");
        reveal_strlit("TAG");
        reveal_strlit("AUTH");
        reveal_strlit("MIDDLEWARE");
        assert("METHOD"@ =~= seq!['M', 'E', 'T', 'H', 'O', 'D']);
        assert("PATH"@ =~= seq!['P', 'A', 'T', 'H']);
        assert("TAG"@ =~= seq!['T', 'A', 'G']);
        assert("AUTH"@ =~= seq!['A', 'U', 'T', 'H']);
        assert("MIDDLEWARE"@ =~= seq!['M', 'I', 'D', 'D', 'L', 'E', 'W', 'A', 'R', 'E']);
        assert(header@ =~= table_header());
    }
    let mut r: Vec<String> = Vec::new();
    r.push(header);
    r.push(rule_line());
    let mut i: usize = 0;
    while i < table.len()
        invariant
            i <= table.len(),
            routes == route_views(table@),
            r.len() == i + 2,
            r@[0]@ == table_header(),
            r@[1]@ == repeat('-', 150),
            forall|j: int| 0 <= j < i ==> (#[trigger] r@[j + 2])@ == table_row(routes[j]),
        decreases table.len() - i,
    {
        r.push(table[i].to_row());
        i = i + 1;
    }
    r.push(rule_line());
    let mut total = String::new();
    push_str(&mut total, "total: ");
    push_decimal(&mut total, table.len());
    push_str(&mut total, " routes");
    proof {
        reveal_strlit("total: ");
        reveal_strlit(" routes");
        assert("total: "@ =~= seq!['t', 'o', 't', 'a', 'l', ':', ' ']);
        assert(" routes"@ =~= seq![' ', 'r', 'o', 'u', 't', 'e', 's']);
        assert(total@ =~= table_total(routes.len()));
    }
    r.push(total);
    proof {
        let lines = table_lines(routes);
        assert forall|j: int| 0 <= j < r@.len() implies #[trigger] strs(r@)[j] == lines[j] by {
            if 2 <= j < table.len() + 2 {
                assert(r@[j] == r@[(j - 2) + 2]);
            }
        }
        assert(strs(r@) =~= lines);
    }
    r
}

} // verus!
