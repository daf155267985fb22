use xiaozhongsi::site::{html_home, is_terminal, parse_request_line, reason, reply, route, TEXT_HOME};

#[test]
fn terminals_get_text_browsers_get_html() {
    assert!(is_terminal("curl/8.4.0"));
    assert!(is_terminal("Wget/1.21"));
    assert!(is_terminal(""));
    assert!(!is_terminal("Mozilla/5.0 (X11; Linux x86_64)"));
    let (status, ctype, body) = route("/", "curl/8.4.0");
    assert_eq!((status, ctype, body.as_str()), (200, "text/plain; charset=utf-8", TEXT_HOME));
    let (status, ctype, body) = route("/", "Mozilla/5.0");
    assert_eq!((status, ctype), (200, "text/html; charset=utf-8"));
    assert_eq!(body, html_home());
    assert!(body.contains("ssh xiaozhongsi.sh"));
}

#[test]
fn other_paths() {
    assert_eq!(route("/favicon.ico", "").0, 200);
    assert_eq!(route("/healthz", "").2, "{\"ok\":true}");
    assert_eq!(route("/nope", "").0, 404);
    assert_eq!(reason(404), "Not Found");
    assert_eq!(reason(405), "Method Not Allowed");
    assert_eq!(reason(200), "OK");
}

#[test]
fn request_line_drops_query() {
    assert_eq!(
        parse_request_line("GET /healthz?x=1 HTTP/1.1"),
        Some(("GET".to_string(), "/healthz".to_string()))
    );
    assert_eq!(parse_request_line("GET"), None);
    assert_eq!(parse_request_line("  HEAD   /  "), Some(("HEAD".to_string(), "/".to_string())));
}

#[test]
fn head_is_get_without_body() {
    let (get_head, get_body) = reply("GET / HTTP/1.1\r\nUser-Agent: curl/8\r\n\r\n").unwrap();
    let (head_head, head_body) = reply("HEAD / HTTP/1.1\r\nuser-agent: curl/8\r\n\r\n").unwrap();
    assert_eq!(get_head, head_head);
    assert_eq!(get_body, TEXT_HOME);
    assert_eq!(head_body, "");
    assert!(get_head.starts_with("HTTP/1.1 200 OK\r\ncontent-type: text/plain; charset=utf-8\r\ncontent-length: "));
    assert!(get_head.contains(&format!("content-length: {}\r\n", TEXT_HOME.len())));
    assert!(get_head.ends_with("cache-control: no-store\r\nconnection: close\r\n\r\n"));
}

#[test]
fn other_methods_are_refused() {
    let (head, body) = reply("POST / HTTP/1.1\r\n\r\n").unwrap();
    assert!(head.starts_with("HTTP/1.1 405 Method Not Allowed\r\n"));
    assert_eq!(body, "小鐘寺只受 GET 之禮\n");
    assert_eq!(reply(""), None);
    assert_eq!(reply("GET\r\n"), None);
}
