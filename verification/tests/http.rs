//! Just enough HTTP.

use blackwood::viewer::http::{
    asset_path, content_type_for, is_blank, parse_request, response_head, Request,
};

fn request(line: &str) -> Request {
    parse_request(line).expect("a request line")
}

#[test]
fn a_request_line_is_a_method_and_a_target() {
    let request = request("POST /api/node/remove?id=3&x=a=b&flag HTTP/1.1\r\n");
    assert_eq!(request.method, "POST");
    assert_eq!(request.path, "/api/node/remove");
    assert_eq!(
        request.query,
        vec![
            ("id".to_string(), "3".to_string()),
            ("x".to_string(), "a=b".to_string()),
        ],
        "a piece without an equals sign says nothing"
    );
}

#[test]
fn a_target_without_a_query_has_no_parameters() {
    let request = request("  GET\t/index.html");
    assert_eq!(request.method, "GET");
    assert_eq!(request.path, "/index.html");
    assert!(request.query.is_empty());
}

#[test]
fn half_a_request_line_is_none() {
    assert!(parse_request("").is_none());
    assert!(parse_request(" \r\n").is_none());
    assert!(parse_request("GET").is_none());
    assert!(parse_request("GET  \r\n").is_none());
}

#[test]
fn an_empty_query_is_no_parameters() {
    let request = request("GET /?&& x");
    assert_eq!(request.path, "/");
    assert!(request.query.is_empty());
}

#[test]
fn numbers_are_read_by_name() {
    let request = request("POST /?a=7&b=+12&c=256&d=x&e=&f=-1&g=18446744073709551615 x");
    assert_eq!(request.number::<u8>("a"), Ok(7));
    assert_eq!(request.number::<u8>("b"), Ok(12));
    assert_eq!(
        request.number::<u8>("c"),
        Err("parameter c is not a number".to_string()),
        "too large for a label"
    );
    assert_eq!(request.number::<u64>("c"), Ok(256));
    assert_eq!(
        request.number::<u8>("d"),
        Err("parameter d is not a number".to_string())
    );
    assert_eq!(
        request.number::<u8>("e"),
        Err("parameter e is not a number".to_string())
    );
    assert_eq!(
        request.number::<u64>("f"),
        Err("parameter f is not a number".to_string())
    );
    assert_eq!(request.number::<u64>("g"), Ok(u64::MAX));
    assert_eq!(
        request.number::<u8>("h"),
        Err("missing parameter h".to_string())
    );
    assert!(request.has("a") && !request.has("h"));
}

#[test]
fn a_number_too_large_for_anything_is_not_one() {
    let request = request("POST /?a=18446744073709551616&b=0000000000000000000000000000009&c=+ x");
    assert!(request.number::<u64>("a").is_err());
    assert_eq!(request.number::<u64>("b"), Ok(9));
    assert!(request.number::<u64>("c").is_err(), "a sign is not a number");
}

#[test]
fn the_last_setting_of_a_parameter_wins() {
    let request = request("POST /?a=1&a=2 x");
    assert_eq!(request.number::<u8>("a"), Ok(2));
}

#[test]
fn a_blank_line_ends_the_headers() {
    assert!(is_blank(""));
    assert!(is_blank("\r\n"));
    assert!(is_blank(" \t\u{a0}\u{2003}\u{3000}"));
    assert!(!is_blank("Host: x\r\n"));
}

#[test]
fn a_response_says_what_it_holds() {
    assert_eq!(
        response_head("200 OK", "text/plain", 120),
        "HTTP/1.1 200 OK\r\nContent-Type: text/plain\r\nContent-Length: 120\r\n\
         Cache-Control: no-store\r\nConnection: close\r\n\r\n"
    );
}

#[test]
fn a_path_names_a_file_below_the_root() {
    assert_eq!(asset_path("/"), Some("index.html".to_string()));
    assert_eq!(asset_path(""), Some("index.html".to_string()));
    assert_eq!(asset_path("//app/main.js"), Some("app/main.js".to_string()));
    assert_eq!(asset_path("/a..b/..."), Some("a..b/...".to_string()));
}

#[test]
fn a_path_that_climbs_is_refused() {
    assert_eq!(asset_path("/.."), None);
    assert_eq!(asset_path("/../secret"), None);
    assert_eq!(asset_path("/a/../b"), None);
    assert_eq!(asset_path("/a/.."), None);
}

#[test]
fn a_file_is_what_its_extension_says() {
    assert_eq!(content_type_for("index.html"), "text/html; charset=utf-8");
    assert_eq!(
        content_type_for("a/b.min.js"),
        "text/javascript; charset=utf-8"
    );
    assert_eq!(content_type_for("s.css"), "text/css; charset=utf-8");
    assert_eq!(content_type_for("i.svg"), "image/svg+xml");
    assert_eq!(content_type_for("m.wasm"), "application/wasm");
    assert_eq!(content_type_for("d.json"), "application/json");
    assert_eq!(content_type_for("f.ico"), "image/x-icon");
    assert_eq!(content_type_for("README"), "application/octet-stream");
    assert_eq!(content_type_for("odd."), "application/octet-stream");
    assert_eq!(content_type_for("x.HTML"), "application/octet-stream");
}
