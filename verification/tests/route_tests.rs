use hirust_router::md5::md5_hex;
use hirust_router::route::{uni_md5, unique, RouteInfo};

fn info(method: &str, path: &str, tag: &str, auth: bool, ws: bool, mws: &[&str]) -> RouteInfo {
    RouteInfo {
        method: method.to_string(),
        group_prefix: String::new(),
        relative_path: path.to_string(),
        absolute_path: path.to_string(),
        tag: tag.to_string(),
        desc: String::new(),
        title: String::new(),
        front_path: String::new(),
        is_data_auth: false,
        auth,
        is_ws: ws,
        service: "http".to_string(),
        middleware_names: mws.iter().map(|s| s.to_string()).collect(),
    }
}

#[test]
fn md5_standard_vectors() {
    assert_eq!(md5_hex(b""), "d41d8cd98f00b204e9800998ecf8427e");
    assert_eq!(md5_hex(b"a"), "0cc175b9c0f1b6a831c399e269772661");
    assert_eq!(md5_hex(b"abc"), "900150983cd24fb0d6963f7d28e17f72");
    assert_eq!(md5_hex(b"message digest"), "f96b697d7cb7938d525a2f31aaf161d0");
    assert_eq!(md5_hex(b"abcdefghijklmnopqrstuvwxyz"), "c3fcd3d76192e4007dfb496cca67e13b");
    assert_eq!(
        md5_hex(b"ABCDEFGHIJKLMNOPQRSTUVWXYZabcdefghijklmnopqrstuvwxyz0123456789"),
        "d174ab98d277d9f5a5611c2c9f419d9f"
    );
    assert_eq!(
        md5_hex(b"12345678901234567890123456789012345678901234567890123456789012345678901234567890"),
        "57edf4a22be3c955ac49da2e2107b67a"
    );
}

#[test]
fn md5_block_boundaries() {
    // 55, 56 and 64 bytes straddle the padding boundary
    assert_eq!(md5_hex(&[b'a'; 55]), "ef1772b6dff9a122358552954ad0df65");
    assert_eq!(md5_hex(&[b'a'; 56]), "3b0c8ac703f828b04c6c197006d17218");
    assert_eq!(md5_hex(&[b'a'; 64]), "014842d480b571495a4a0363793f7367");
}

#[test]
fn unique_key_upper_cases_method() {
    assert_eq!(unique("get", "/api/v1/user/{id}"), "GET@/api/v1/user/{id}");
    assert_eq!(unique("PUT", "/"), "PUT@/");
}

#[test]
fn uni_md5_of_unique_key() {
    assert_eq!(uni_md5("get", "/a"), md5_hex(b"GET@/a"));
    assert_eq!(uni_md5("GET", "/a").len(), 32);
    assert_ne!(uni_md5("GET", "/a"), uni_md5("GET", "/b"));
}

#[test]
fn route_info_keys() {
    let r = info("POST", "/api/v1/login", "LoginController.Login", false, false, &[]);
    assert_eq!(r.unique(), "POST@/api/v1/login");
    assert_eq!(r.uni_md5(), md5_hex(b"POST@/api/v1/login"));
}

#[test]
fn row_layout() {
    let r = info("GET", "/api/v1/info", "LoginController.Info", true, false, &["a::m1", "b::m2"]);
    let row = r.to_row();
    let expected = format!(
        "{:<7} {:<40} {:<56} {:<8} {:<6} {}",
        "GET", "/api/v1/info", "LoginController.Info", "true", "", "a::m1,b::m2"
    );
    assert_eq!(row, expected);
    let ws = info("GET", "/ws", "Ws", false, true, &[]);
    assert!(ws.to_row().starts_with("GET(WS) /ws "));
    let expected_ws = format!("{:<7} {:<40} {:<56} {:<8} {:<6} {}", "GET(WS)", "/ws", "Ws", "false", "", "");
    assert_eq!(ws.to_row(), expected_ws);
}
