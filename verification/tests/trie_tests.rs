use hirust_router::trie::{parse, split_path, Segment, Trie};

fn owned(params: &[(&str, &str)]) -> Vec<(String, String)> {
    params.iter().map(|(a, b)| (a.to_string(), b.to_string())).collect()
}

#[test]
fn search_with_params() {
    let mut trie = Trie::new();
    trie.insert("HEAD", "/y1/y2/y3/head_test/{id}/{name}", "two");
    trie.insert("HEAD", "/y1/y2/y3/head_test/{id}/{name}/tt", "three");

    let hit = trie.search("HEAD", "/y1/y2/y3/head_test/1/gg").unwrap();
    assert_eq!(*hit.value, "two");
    assert_eq!(
        hit.params,
        vec![("id".to_string(), "1".to_string()), ("name".to_string(), "gg".to_string())]
    );

    let hit = trie.search("HEAD", "/y1/y2/y3/head_test/1/gg/tt").unwrap();
    assert_eq!(*hit.value, "three");

    assert!(trie.search("HEAD", "/y1/y2/y3/head_test/1").is_none());
    assert!(trie.search("GET", "/y1/y2/y3/head_test/1/gg").is_none());
    assert!(trie.search("HEAD", "/y1/y2/y3/head_test/1/gg/tt/extra").is_none());
}

#[test]
fn colon_and_brace_equivalent() {
    let mut trie = Trie::new();
    trie.insert("GET", "/user/:id", 1);
    assert!(trie.has("GET", "/user/{id}"));
    assert!(trie.has("GET", "/user/:uid"), "同位置参数段共享节点（名字首个注册者生效）");
    let hit = trie.search("GET", "/user/42").unwrap();
    assert_eq!(hit.params, vec![("id".to_string(), "42".to_string())]);
}

#[test]
fn literal_preferred_over_param() {
    let mut trie = Trie::new();
    trie.insert("GET", "/user/list", "literal");
    trie.insert("GET", "/user/{id}", "param");
    assert_eq!(*trie.search("GET", "/user/list").unwrap().value, "literal");
    assert_eq!(*trie.search("GET", "/user/42").unwrap().value, "param");
}

#[test]
fn root_path_and_trailing_slash() {
    let mut trie = Trie::new();
    trie.insert("GET", "/", "root");
    assert!(trie.search("GET", "/").is_some());
    assert!(trie.search("GET", "").is_some());
    trie.insert("GET", "/ping", "ping");
    assert_eq!(*trie.search("GET", "/ping/").unwrap().value, "ping");
}

#[test]
fn method_is_upper_cased() {
    let mut trie = Trie::new();
    trie.insert("get", "/a", 7);
    assert!(trie.has("GET", "/a"));
    assert_eq!(*trie.search("Get", "/a").unwrap().value, 7);
    assert!(!trie.has("POST", "/a"));
}

#[test]
fn literal_falls_back_to_param_when_literal_branch_fails() {
    let mut trie = Trie::new();
    trie.insert("GET", "/user/list/all", "literal-deep");
    trie.insert("GET", "/user/{id}/profile", "param");
    // the literal child `list` exists but has no `profile` below it
    let hit = trie.search("GET", "/user/list/profile").unwrap();
    assert_eq!(*hit.value, "param");
    assert_eq!(hit.params, owned(&[("id", "list")]));
}

#[test]
fn first_parameter_name_wins() {
    let mut trie = Trie::new();
    trie.insert("GET", "/user/{id}/a", 1);
    trie.insert("GET", "/user/{name}/b", 2);
    let hit = trie.search("GET", "/user/5/b").unwrap();
    assert_eq!(*hit.value, 2);
    assert_eq!(hit.params, owned(&[("id", "5")]));
}

#[test]
fn has_compares_patterns_not_urls() {
    let mut trie = Trie::new();
    trie.insert("GET", "/user/{id}", 1);
    assert!(!trie.has("GET", "/user/42"));
    assert!(trie.has("GET", "user/{x}/"));
    assert!(!trie.has("GET", "/user"));
}

#[test]
fn brace_without_closing_is_a_parameter() {
    let mut trie = Trie::new();
    trie.insert("GET", "/a/{x", 1);
    let hit = trie.search("GET", "/a/9").unwrap();
    assert_eq!(hit.params, owned(&[("x", "9")]));
}

#[test]
fn parse_reads_segments() {
    let segs = parse("//a/:b/{c}//{d");
    assert_eq!(segs.len(), 4);
    assert!(matches!(&segs[0], Segment::Literal(s) if s == "a"));
    assert!(matches!(&segs[1], Segment::Param(s) if s == "b"));
    assert!(matches!(&segs[2], Segment::Param(s) if s == "c"));
    assert!(matches!(&segs[3], Segment::Param(s) if s == "d"));
    assert_eq!(split_path("/x//y/"), vec!["x".to_string(), "y".to_string()]);
    assert!(split_path("///").is_empty());
}
