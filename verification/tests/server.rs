use live::server::{
    allowed, answer, asset_name, fixed_body, head_complete, parse_request, reason, response_head, round, route, sends_body,
    status_text, Page, Recent, HISTORY_LIMIT,
};

#[test]
fn routes_report_warmup_and_do_not_return_html_for_missing_assets() {
    assert_eq!(route("/api/status", false).status(), 503);
    assert_eq!(route("/missing.js", false).status(), 404);
    assert_eq!(route("/api/history?test=1", false), Page::History);
    assert_eq!(Recent::new().json(), "[]");
    assert_eq!(route("/", false), Page::Index);
    assert_eq!(route("/", false).content_type(), "text/html; charset=utf-8");
}

#[test]
fn routes_and_reasons() {
    assert_eq!(route("/api/status?x", true), Page::Status);
    assert_eq!(route("/index.html", true), Page::Index);
    assert_eq!(route("/style.css", true).content_type(), "text/css; charset=utf-8");
    assert_eq!(route("/app.js", true), Page::Script);
    assert_eq!(route("/favicon.ico", true).status(), 204);
    assert_eq!(route("", true), Page::NotFound);
    assert_eq!(Page::MethodNotAllowed.status(), 405);
    assert!(allowed("GET") && allowed("HEAD") && !allowed("POST") && !allowed("get"));
    assert_eq!(reason(200), "OK");
    assert_eq!(reason(503), "Service Unavailable");
}

#[test]
fn response_head_lists_the_headers() {
    let head = response_head(Page::NotFound, 10);
    assert!(head.starts_with("HTTP/1.1 404 Not Found\r\nContent-Type: text/plain; charset=utf-8\r\nContent-Length: 10\r\nCache-Control: no-store\r\n"));
    assert!(head.ends_with("Connection: close\r\n\r\n"));
}

#[test]
fn requests_are_read_up_to_the_blank_line() {
    assert!(head_complete(&b"GET / HTTP/1.1\r\nHost: x\r\n\r\n".to_vec()));
    assert!(!head_complete(&b"GET / HTTP/1.1\r\nHost: x\r\n".to_vec()));
    assert!(!head_complete(&b"\r\n\r".to_vec()));
    assert_eq!(
        parse_request("GET /api/history HTTP/1.1\r\nHost: x\r\n\r\n"),
        ("GET".to_string(), "/api/history".to_string())
    );
    assert_eq!(parse_request(""), (String::new(), String::new()));
    assert_eq!(parse_request("HEAD"), ("HEAD".to_string(), String::new()));
}

#[test]
fn recent_samples_are_bounded_to_an_hour() {
    let mut recent = Recent::new();
    for i in 0..(HISTORY_LIMIT + 5) {
        recent.push(format!("{i}"));
    }
    assert_eq!(recent.len(), HISTORY_LIMIT);
    let json = recent.json();
    assert!(json.starts_with("[5,6,"));
    assert!(json.ends_with(",725]"));
}

#[test]
fn slow_readings_are_taken_every_sixth_round() {
    assert_eq!(round(0), (true, 1));
    assert_eq!(round(1), (false, 2));
    assert_eq!(round(5), (false, 6));
    assert_eq!(round(6), (true, 7));
    assert_eq!(round(u64::MAX), (false, 0));
    let slow: Vec<u64> = (0..31).filter(|c| round(*c).0).collect();
    assert_eq!(slow, vec![0, 6, 12, 18, 24, 30]);
}

#[test]
fn status_document_holds_the_four_members_in_order() {
    assert_eq!(
        status_text(r#"{"cpu":null}"#, "{}", "[]", 1700000000),
        r#"{"metrics":{"cpu":null},"system":{},"services":[],"services_updated_at":1700000000}"#
    );
}

#[test]
fn other_methods_are_refused_and_head_gets_no_body() {
    assert_eq!(answer("POST", "/api/status", true), Page::MethodNotAllowed);
    assert_eq!(answer("HEAD", "/api/status", false), Page::Warmup);
    assert_eq!(answer("GET", "/api/history", true), Page::History);
    assert!(!sends_body("HEAD"));
    assert!(sends_body("GET"));
    assert!(sends_body("POST"));
}

#[test]
fn fixed_bodies_and_assets() {
    assert_eq!(
        fixed_body(Page::Warmup),
        Some(r#"{"error":"First sample is being collected"}"#.to_string())
    );
    assert_eq!(fixed_body(Page::NotFound), Some("Not found\n".to_string()));
    assert_eq!(fixed_body(Page::MethodNotAllowed), Some("Method not allowed\n".to_string()));
    assert_eq!(fixed_body(Page::Favicon), Some(String::new()));
    assert_eq!(fixed_body(Page::Status), None);
    assert_eq!(fixed_body(Page::History), None);
    assert_eq!(asset_name(Page::Index), Some("index.html"));
    assert_eq!(asset_name(Page::Style), Some("style.css"));
    assert_eq!(asset_name(Page::Script), Some("app.js"));
    assert_eq!(asset_name(Page::Status), None);
}

#[test]
fn recent_holds_the_last_pushes_over_many_rounds() {
    let mut recent = Recent::new();
    for n in 0..1000u32 {
        recent.push(n.to_string());
    }
    assert_eq!(recent.len(), HISTORY_LIMIT);
    let expected: Vec<String> = (279..1000u32).map(|n| n.to_string()).collect();
    assert_eq!(recent.json(), format!("[{}]", expected.join(",")));
}
