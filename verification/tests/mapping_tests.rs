use hirust_router::handler::{handler_plan, is_http_request_type, ExpandError, FnInput, HandlerSig, ParamType};
use hirust_router::mapping::{normalize_path, ArgsError, Delim, MappingArgs, Tok};
use proc_macro2::{Delimiter, Spacing, TokenStream, TokenTree};

fn push_tokens(out: &mut Vec<Tok>, ts: TokenStream) {
    for tt in ts {
        match tt {
            TokenTree::Ident(i) => out.push(Tok::Ident(i.to_string())),
            TokenTree::Punct(p) => out.push(Tok::Punct(p.as_char(), p.spacing() == Spacing::Joint)),
            TokenTree::Literal(l) => out.push(Tok::Lit(l.to_string())),
            TokenTree::Group(g) => {
                let d = match g.delimiter() {
                    Delimiter::Parenthesis => Delim::Paren,
                    Delimiter::Brace => Delim::Brace,
                    Delimiter::Bracket => Delim::Bracket,
                    Delimiter::None => Delim::Invisible,
                };
                out.push(Tok::Open(d));
                push_tokens(out, g.stream());
                out.push(Tok::Close(d));
            },
        }
    }
}

fn toks(src: &str) -> Vec<Tok> {
    let ts: TokenStream = src.parse().unwrap();
    let mut out = Vec::new();
    push_tokens(&mut out, ts);
    out
}

fn parse(src: &str) -> Result<MappingArgs, ArgsError> {
    MappingArgs::parse(&toks(src))
}

fn typed(last: &str) -> FnInput {
    FnInput::Typed(ParamType { plain_path: true, last_ident: Some(last.to_string()) })
}

fn sig(name: &str, inputs: Vec<FnInput>) -> HandlerSig {
    HandlerSig { name: name.to_string(), is_async: true, has_generics: false, inputs }
}

#[test]
fn normalize_rewrites_colon_parameters() {
    assert_eq!(normalize_path("/user/:id"), "/user/{id}");
    assert_eq!(normalize_path("/user/{id}/x"), "/user/{id}/x");
    assert_eq!(normalize_path("a/:b"), "//a/{b}");
    assert_eq!(normalize_path("//a//b/"), "/a/b");
    assert_eq!(normalize_path(""), "/");
    assert_eq!(normalize_path("/"), "/");
}

#[test]
fn default_arguments() {
    let a = MappingArgs::new();
    assert_eq!(a.path, "");
    assert!(a.tag.is_none());
    assert!(a.auth.is_none());
    assert!(a.is_data_auth.is_none());
    assert!(!a.cancel_global_prefix);
    assert!(a.middleware.is_empty());
    let a = parse("").unwrap();
    assert_eq!(a.path, "");
    assert!(a.middleware.is_empty());
}

#[test]
fn parses_all_arguments() {
    let a = parse(
        r#"path = "/info", tag = "LoginController.Info", middleware = {crate::auth::auth, crate::auth::mine},
           desc = "user info", title = "t", front_path = "/login", is_data_auth = true, auth = false,
           group = "/admin", cancel_global_prefix = true, cancel_global_api_prefix = false,"#,
    )
    .unwrap();
    assert_eq!(a.path, "/info");
    assert_eq!(a.tag.as_deref(), Some("LoginController.Info"));
    assert_eq!(a.desc, "user info");
    assert_eq!(a.title, "t");
    assert_eq!(a.front_path, "/login");
    assert_eq!(a.is_data_auth, Some(true));
    assert_eq!(a.auth, Some(false));
    assert_eq!(a.group, "/admin");
    assert!(a.cancel_global_prefix);
    assert!(!a.cancel_global_api_prefix);
    assert_eq!(a.middleware.len(), 2);
    let names: Vec<String> = a.middleware.iter().map(|m| m.replace(' ', "")).collect();
    assert_eq!(names, vec!["crate::auth::auth".to_string(), "crate::auth::mine".to_string()]);
}

#[test]
fn string_escapes_are_resolved() {
    let a = parse(r#"desc = "a\"b\n""#).unwrap();
    assert_eq!(a.desc, "a\"b\n");
    let a = parse(r##"desc = r#"raw"#"##).unwrap();
    assert_eq!(a.desc, "raw");
}

#[test]
fn bare_middleware_path_and_accumulation() {
    let a = parse("middleware = m1, middleware = {a::m2,}, middleware = {}").unwrap();
    let names: Vec<String> = a.middleware.iter().map(|m| m.replace(' ', "")).collect();
    assert_eq!(names, vec!["m1".to_string(), "a::m2".to_string()]);
}

#[test]
fn later_arguments_replace_earlier() {
    let a = parse(r#"path = "/a", path = "/b""#).unwrap();
    assert_eq!(a.path, "/b");
}

#[test]
fn argument_errors() {
    assert!(matches!(parse(r#"verb = "x""#), Err(ArgsError::UnknownArgument(n)) if n == "verb"));
    assert!(matches!(parse(r#"type = "x""#), Err(ArgsError::Keyword(n)) if n == "type"));
    assert!(matches!(parse(r#""x""#), Err(ArgsError::ExpectedIdent)));
    assert!(matches!(parse(r#", path = "x""#), Err(ArgsError::ExpectedIdent)));
    assert!(matches!(parse(r#"path "x""#), Err(ArgsError::ExpectedEq)));
    assert!(matches!(parse("path"), Err(ArgsError::ExpectedEq)));
    assert!(matches!(parse("path = 1"), Err(ArgsError::ExpectedStr)));
    assert!(matches!(parse("auth = \"yes\""), Err(ArgsError::ExpectedBool)));
    assert!(matches!(parse(r#"path = "x" "y""#), Err(ArgsError::ExpectedComma)));
    assert!(matches!(parse("auth = true false"), Err(ArgsError::ExpectedComma)));
    assert!(matches!(parse("middleware = {a, 1}"), Err(ArgsError::ExpectedPath)));
    assert!(matches!(parse("middleware = {,a}"), Err(ArgsError::ExpectedPath)));
    assert!(matches!(parse("middleware = {a} b"), Err(ArgsError::ExpectedComma)));
    assert!(matches!(parse("middleware ="), Err(ArgsError::ExpectedPath)));
    // the first faulty argument gives the error
    assert!(matches!(parse(r#"path = 1, verb = "x""#), Err(ArgsError::ExpectedStr)));
}

#[test]
fn request_type_detection() {
    assert!(is_http_request_type(&ParamType { plain_path: true, last_ident: Some("HttpRequest".to_string()) }));
    assert!(!is_http_request_type(&ParamType { plain_path: false, last_ident: Some("HttpRequest".to_string()) }));
    assert!(!is_http_request_type(&ParamType { plain_path: true, last_ident: Some("Json".to_string()) }));
    assert!(!is_http_request_type(&ParamType { plain_path: true, last_ident: None }));
}

#[test]
fn plan_for_a_handler() {
    let args = parse(r#"path = "/user/:id", middleware = {a :: m1, b::m2}"#).unwrap();
    let plan = handler_plan("PUT", &args, &sig("update", vec![typed("HttpRequest"), typed("Json")])).unwrap();
    assert_eq!(plan.attach_name, "__hirust_attach_update");
    assert_eq!(plan.route_factory, "put");
    assert_eq!(plan.path, "/user/{id}");
    assert!(plan.tag.is_none());
    assert_eq!(plan.middleware_names, vec!["a::m1".to_string(), "b::m2".to_string()]);
    assert_eq!(plan.request_params, vec![true, false]);
}

#[test]
fn plan_defaults_path_to_root() {
    let args = parse(r#"tag = "T""#).unwrap();
    let plan = handler_plan("GET", &args, &sig("h", vec![])).unwrap();
    assert_eq!(plan.path, "/");
    assert_eq!(plan.tag.as_deref(), Some("T"));
    assert!(plan.request_params.is_empty());
}

#[test]
fn handler_checks() {
    let args = MappingArgs::new();
    let mut s = sig("h", vec![FnInput::Receiver]);
    s.is_async = false;
    s.has_generics = true;
    assert!(matches!(handler_plan("GET", &args, &s), Err(ExpandError::NotAsync { method_lower }) if method_lower == "get"));
    s.is_async = true;
    assert!(matches!(handler_plan("GET", &args, &s), Err(ExpandError::Generic)));
    s.has_generics = false;
    assert!(matches!(handler_plan("GET", &args, &s), Err(ExpandError::Receiver)));
}

#[test]
fn middleware_paths_keep_their_source_text() {
    let a = parse("middleware = {crate :: auth::check}").unwrap();
    assert_eq!(a.middleware, vec!["crate :: auth :: check ".to_string()]);
    let plan = handler_plan("GET", &a, &sig("h", vec![])).unwrap();
    assert_eq!(plan.middleware_names, vec!["crate::auth::check".to_string()]);
}

#[test]
fn missing_comma_after_a_middleware_path() {
    assert!(matches!(parse(r#"middleware = m::a tag = "x""#), Err(ArgsError::ExpectedComma)));
    assert!(matches!(parse("middleware = {m::a m::b}"), Err(ArgsError::ExpectedComma)));
    let a = parse(r#"middleware = m::a, tag = "x""#).unwrap();
    assert_eq!(a.tag.as_deref(), Some("x"));
    assert_eq!(a.middleware.len(), 1);
}

#[test]
fn normalizing_twice_changes_nothing() {
    for p in ["/a/:b/{c}", "/", "", "//x//:y/", "/user/:id"] {
        let once = normalize_path(p);
        assert_eq!(normalize_path(&once), once);
    }
    // a path without a leading `/` gains one more on the first pass
    assert_eq!(normalize_path("abc"), "//abc");
    assert_eq!(normalize_path("//abc"), "/abc");
}

#[test]
fn invisible_groups_read_as_their_contents() {
    let toks = vec![
        Tok::Ident("path".to_string()),
        Tok::Punct('=', false),
        Tok::Open(Delim::Invisible),
        Tok::Lit("\"/x\"".to_string()),
        Tok::Close(Delim::Invisible),
        Tok::Punct(',', false),
        Tok::Open(Delim::Invisible),
        Tok::Ident("auth".to_string()),
        Tok::Close(Delim::Invisible),
        Tok::Punct('=', false),
        Tok::Open(Delim::Invisible),
        Tok::Ident("true".to_string()),
        Tok::Close(Delim::Invisible),
    ];
    let a = MappingArgs::parse(&toks).unwrap();
    assert_eq!(a.path, "/x");
    assert_eq!(a.auth, Some(true));
}
