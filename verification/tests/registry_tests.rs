use hirust_router::group::{add_group, GroupRegistry};
use hirust_router::registry::{
    build_plan, exist, is_supported_method, resources_by_path, route_table, route_table_lines, search, PlanError,
    Router, RouterConfig,
};
use hirust_router::route::{RouteEntry, RouteInfo};
use hirust_router::trie::Trie;

fn entry(method: &str, path: &str, tag: &str, module: &str, line: u32) -> RouteEntry {
    RouteEntry {
        method: method.to_string(),
        path: path.to_string(),
        tag: tag.to_string(),
        desc: String::new(),
        title: String::new(),
        front_path: String::new(),
        is_data_auth: None,
        auth: None,
        group: String::new(),
        middleware_names: Vec::new(),
        cancel_global_prefix: false,
        cancel_global_api_prefix: false,
        order: (line, module.to_string()),
        is_ws: false,
    }
}

fn api_config() -> RouterConfig {
    RouterConfig {
        global_prefix: "/api".to_string(),
        global_api_prefix: "/v1".to_string(),
        global_auth: false,
        service: "http".to_string(),
    }
}

fn demo_entries() -> Vec<RouteEntry> {
    let mut login = entry("post", "/login", "LoginController.Login", "demo::login", 20);
    login.desc = "login".to_string();
    let mut info = entry("GET", "/info", "LoginController.Info", "demo::login", 30);
    info.middleware_names = vec!["crate::auth::auth".to_string(), "crate::auth::mine".to_string()];
    info.auth = Some(false);
    let mut update = entry("PUT", "/user/{id}", "UserController.Update", "demo::user", 10);
    update.auth = Some(true);
    let mut list = entry("GET", "/list", "Admin.List", "demo::admin", 5);
    list.group = "/admin".to_string();
    let mut health = entry("GET", "/health", "Health", "demo::admin", 50);
    health.cancel_global_prefix = true;
    health.cancel_global_api_prefix = true;
    health.is_data_auth = Some(true);
    vec![login, info, update, list, health]
}

fn demo_groups() -> GroupRegistry<u8> {
    let mut g: GroupRegistry<u8> = GroupRegistry::new();
    add_group(&mut g, "/admin", None, &[1], Some(true)).unwrap();
    g
}

fn demo_router() -> Router {
    let entries = demo_entries();
    let mut groups = demo_groups();
    let plan = build_plan(&entries, &mut groups, &api_config()).unwrap();
    Router::from_plan(&plan)
}

#[test]
fn default_config() {
    let c = RouterConfig::default();
    assert_eq!(c.global_prefix, "");
    assert_eq!(c.global_api_prefix, "");
    assert!(!c.global_auth);
    assert_eq!(c.service, "http");
}

#[test]
fn supported_methods() {
    for m in ["GET", "POST", "PUT", "DELETE", "PATCH", "OPTIONS", "HEAD"] {
        assert!(is_supported_method(m));
    }
    assert!(!is_supported_method("get"));
    assert!(!is_supported_method("TRACE"));
    assert!(!is_supported_method(""));
}

#[test]
fn plan_lists_by_module_then_line() {
    let entries = demo_entries();
    let mut groups = demo_groups();
    let plan = build_plan(&entries, &mut groups, &api_config()).unwrap();
    let tags: Vec<&str> = plan.iter().map(|r| r.info.tag.as_str()).collect();
    assert_eq!(
        tags,
        vec!["Admin.List", "Health", "LoginController.Login", "LoginController.Info", "UserController.Update"]
    );
    let positions: Vec<usize> = plan.iter().map(|r| r.entry).collect();
    assert_eq!(positions, vec![3, 4, 0, 1, 2]);
}

#[test]
fn plan_joins_prefixes_and_resolves_flags() {
    let entries = demo_entries();
    let mut groups = demo_groups();
    let plan = build_plan(&entries, &mut groups, &api_config()).unwrap();
    let list = &plan[0].info;
    assert_eq!(list.method, "GET");
    // the global prefixes and the group prefix
    assert_eq!(list.group_prefix, "/api/v1/admin");
    assert_eq!(list.relative_path, "/list");
    assert_eq!(list.absolute_path, "/api/v1/admin/list");
    // inherited from the group
    assert!(list.auth);
    let health = &plan[1].info;
    assert_eq!(health.absolute_path, "/health");
    assert_eq!(health.group_prefix, "");
    assert!(health.is_data_auth);
    assert!(!health.auth);
    let login = &plan[2].info;
    // the method is upper-cased
    assert_eq!(login.method, "POST");
    assert_eq!(login.absolute_path, "/api/v1/login");
    assert_eq!(login.group_prefix, "/api/v1");
    assert_eq!(login.desc, "login");
    assert_eq!(login.service, "http");
    assert!(!login.is_data_auth);
    let info = &plan[3].info;
    assert_eq!(info.middleware_names, vec!["crate::auth::auth".to_string(), "crate::auth::mine".to_string()]);
    assert!(!info.auth);
    assert!(plan[4].info.auth);
}

#[test]
fn global_auth_is_the_default_flag() {
    let entries = vec![entry("GET", "/a", "A", "m", 1)];
    let mut groups: GroupRegistry<u8> = GroupRegistry::new();
    let mut config = RouterConfig::default();
    config.global_auth = true;
    let plan = build_plan(&entries, &mut groups, &config).unwrap();
    assert!(plan[0].info.auth);
    assert_eq!(plan[0].info.absolute_path, "/a");
}

#[test]
fn empty_path_becomes_root() {
    let entries = vec![entry("GET", "", "Root", "m", 1)];
    let mut groups: GroupRegistry<u8> = GroupRegistry::new();
    let plan = build_plan(&entries, &mut groups, &RouterConfig::default()).unwrap();
    assert_eq!(plan[0].info.absolute_path, "/");
}

#[test]
fn unsupported_method_rejected() {
    let entries = vec![entry("GET", "/a", "A", "m", 1), entry("fetch", "/b", "B", "m", 2)];
    let mut groups: GroupRegistry<u8> = GroupRegistry::new();
    let err = build_plan(&entries, &mut groups, &RouterConfig::default()).unwrap_err();
    assert!(matches!(err, PlanError::UnsupportedMethod { service, method } if service == "http" && method == "FETCH"));
}

#[test]
fn duplicate_tag_rejected() {
    let entries = vec![entry("GET", "/a", "Same", "m", 1), entry("POST", "/b", "Same", "m", 2)];
    let mut groups: GroupRegistry<u8> = GroupRegistry::new();
    let err = build_plan(&entries, &mut groups, &RouterConfig::default()).unwrap_err();
    assert!(matches!(err, PlanError::DuplicateTag(t) if t == "Same"));
}

#[test]
fn unknown_group_rejected() {
    let mut e = entry("GET", "/a", "A", "m", 1);
    e.group = "/ghost".to_string();
    let mut groups: GroupRegistry<u8> = GroupRegistry::new();
    let err = build_plan(&vec![e], &mut groups, &RouterConfig::default()).unwrap_err();
    assert!(matches!(err, PlanError::UnknownGroup { tag, group } if tag == "A" && group == "/ghost"));
}

#[test]
fn same_method_and_pattern_rejected() {
    let entries = vec![entry("GET", "/user/{id}", "A", "m", 1), entry("get", "/user/:uid", "B", "m", 2)];
    let mut groups: GroupRegistry<u8> = GroupRegistry::new();
    let err = build_plan(&entries, &mut groups, &RouterConfig::default()).unwrap_err();
    assert!(matches!(err, PlanError::AlreadyExist { method, path } if method == "GET" && path == "/user/:uid"));
    // another method on the same pattern is fine
    let entries = vec![entry("GET", "/user/{id}", "A", "m", 1), entry("PUT", "/user/{id}", "B", "m", 2)];
    assert!(build_plan(&entries, &mut groups, &RouterConfig::default()).is_ok());
}

#[test]
fn first_fault_in_listing_order_wins() {
    // listed first by module path although declared second
    let entries = vec![entry("GET", "/a", "A", "z::late", 1), entry("TRACE", "/b", "B", "a::early", 9)];
    let mut groups: GroupRegistry<u8> = GroupRegistry::new();
    let err = build_plan(&entries, &mut groups, &RouterConfig::default()).unwrap_err();
    assert!(matches!(err, PlanError::UnsupportedMethod { .. }));
}

#[test]
fn search_extracts_parameters() {
    let router = demo_router();
    let hit = search(&router, "put", "/api/v1/user/42").unwrap();
    assert_eq!(hit.route.absolute_path, "/api/v1/user/{id}");
    assert_eq!(hit.route.tag, "UserController.Update");
    assert!(hit.route.auth);
    assert_eq!(hit.params, vec![("id".to_string(), "42".to_string())]);
    assert!(search(&router, "GET", "/api/v1/user/42").is_none());
}

#[test]
fn search_finds_literal_routes_by_their_path() {
    let router = demo_router();
    for info in route_table(&router) {
        if !info.absolute_path.contains('{') {
            let hit = search(&router, &info.method, &info.absolute_path).unwrap();
            assert_eq!(hit.route.tag, info.tag);
            assert!(hit.params.is_empty());
        }
    }
}

#[test]
fn exist_answers_urls() {
    let router = demo_router();
    assert!(exist(&router, "GET", "/api/v1/info"));
    assert!(exist(&router, "get", "/api/v1/admin/list/"));
    assert!(exist(&router, "GET", "/health"));
    assert!(!exist(&router, "GET", "/api/v1/user/42"));
    assert!(!exist(&router, "POST", "/api/v1/info"));
}

#[test]
fn route_table_in_plan_order() {
    let router = demo_router();
    let table: Vec<RouteInfo> = route_table(&router);
    let paths: Vec<&str> = table.iter().map(|r| r.absolute_path.as_str()).collect();
    assert_eq!(paths, vec!["/api/v1/admin/list", "/health", "/api/v1/login", "/api/v1/info", "/api/v1/user/{id}"]);
}

#[test]
fn printed_route_table_lines() {
    let router = demo_router();
    let table = route_table(&router);
    let lines = route_table_lines(&table);
    assert_eq!(lines.len(), table.len() + 4);
    assert_eq!(lines[0], format!("{:<7} {:<40} {:<56} {:<6} MIDDLEWARE", "METHOD", "PATH", "TAG", "AUTH"));
    assert_eq!(lines[1], "-".repeat(150));
    assert_eq!(lines[2], table[0].to_row());
    assert_eq!(lines[lines.len() - 2], "-".repeat(150));
    assert_eq!(lines[lines.len() - 1], "total: 5 routes");
    assert_eq!(route_table_lines(&Vec::new())[2], "-".repeat(150));
    assert_eq!(route_table_lines(&Vec::new())[3], "total: 0 routes");
}

#[test]
fn resources_group_methods_by_path() {
    let entries = vec![
        entry("GET", "/b", "B1", "m", 1),
        entry("POST", "/a", "A1", "m", 2),
        entry("PUT", "/b", "B2", "m", 3),
        entry("DELETE", "/a", "A2", "m", 4),
    ];
    let mut groups: GroupRegistry<u8> = GroupRegistry::new();
    let plan = build_plan(&entries, &mut groups, &RouterConfig::default()).unwrap();
    let res = resources_by_path(&plan);
    assert_eq!(res.len(), 2);
    assert_eq!(res[0].0, "/a");
    assert_eq!(res[0].1, vec![1, 3]);
    assert_eq!(res[1].0, "/b");
    assert_eq!(res[1].1, vec![0, 2]);
}

#[test]
fn plan_sets_global_flag_and_freezes_groups() {
    let entries = vec![entry("GET", "/a", "A", "m", 1)];
    let mut groups: GroupRegistry<u8> = GroupRegistry::new();
    add_group(&mut groups, "", None, &[3], Some(true)).unwrap();
    let mut config = RouterConfig::default();
    config.global_auth = false;
    let plan = build_plan(&entries, &mut groups, &config).unwrap();
    // the root group with the empty prefix is in the snapshot now
    assert!(plan[0].info.auth);
    assert!(!hirust_router::group::global_auth(&groups));
}

#[test]
fn parameter_names_come_from_the_first_route() {
    let entries = vec![entry("GET", "/user/{id}/a", "A", "m", 1), entry("GET", "/user/{name}/b", "B", "m", 2)];
    let mut groups: GroupRegistry<u8> = GroupRegistry::new();
    let plan = build_plan(&entries, &mut groups, &RouterConfig::default()).unwrap();
    let router = Router::from_plan(&plan);
    let hit = search(&router, "GET", "/user/5/b").unwrap();
    assert_eq!(hit.route.tag, "B");
    assert_eq!(hit.params, vec![("id".to_string(), "5".to_string())]);
}

#[test]
fn search_before_any_route() {
    let mut groups: GroupRegistry<u8> = GroupRegistry::new();
    let plan = build_plan(&Vec::new(), &mut groups, &RouterConfig::default()).unwrap();
    let router = Router::from_plan(&plan);
    assert!(search(&router, "GET", "/").is_none());
    assert!(route_table(&router).is_empty());
}

#[test]
fn group_prefix_holds_the_global_prefix() {
    let entries = vec![entry("GET", "/x", "X", "m", 1)];
    let mut groups: GroupRegistry<u8> = GroupRegistry::new();
    let mut config = RouterConfig::default();
    config.global_prefix = "/api".to_string();
    let plan = build_plan(&entries, &mut groups, &config).unwrap();
    assert_eq!(plan[0].info.group_prefix, "/api");
    assert_eq!(plan[0].info.absolute_path, "/api/x");
}

#[test]
fn search_answers_as_a_rebuilt_trie() {
    let router = demo_router();
    let table = route_table(&router);
    let mut trie: Trie<usize> = Trie::new();
    for (i, r) in table.iter().enumerate() {
        trie.insert(&r.method, &r.absolute_path, i);
    }
    for (m, u) in [
        ("PUT", "/api/v1/user/42"),
        ("get", "/api/v1/info"),
        ("GET", "/health/"),
        ("GET", "/nothing"),
        ("POST", "/api/v1/login"),
        ("GET", "/api/v1/admin/list"),
    ] {
        let a = search(&router, m, u);
        let b = trie.search(m, u);
        assert_eq!(a.is_some(), b.is_some());
        if let (Some(a), Some(b)) = (a, b) {
            assert_eq!(a.route.tag, table[*b.value].tag);
            assert_eq!(a.params, b.params);
        }
    }
}

#[test]
fn no_resource_without_routes() {
    let mut groups: GroupRegistry<u8> = GroupRegistry::new();
    let plan = build_plan(&Vec::new(), &mut groups, &RouterConfig::default()).unwrap();
    assert!(resources_by_path(&plan).is_empty());
    let entries = vec![entry("GET", "/a", "A", "m", 1), entry("POST", "/a", "B", "m", 2)];
    let plan = build_plan(&entries, &mut groups, &RouterConfig::default()).unwrap();
    let res = resources_by_path(&plan);
    assert_eq!(res.len(), 1);
    assert_eq!(res[0].1, vec![0, 1]);
}
