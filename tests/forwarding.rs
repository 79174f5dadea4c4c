use dataplane::auth::{
    auth_gate, auth_verdict, build_auth_request_headers, build_signin_location, copy_auth_response_headers,
    percent_encode, request_target, AuthGate, AuthVerdict,
};
use dataplane::forward::{
    attempt_budget, may_attempt, prepare_upstream, request_host, upstream_authority, ProxyError, RequestHead,
    Scheme, UpstreamVersion,
};
use dataplane::headers::{
    add_forward_headers, apply_header_rewrites, remove_hop_headers, HeaderField, HeaderList,
};
use dataplane::rules::{AuthConfigDex, BackendProtocol, HeaderRewriteMode, HeaderRewriteRule};

fn list(fields: &[(&str, &str)]) -> HeaderList {
    HeaderList {
        fields: fields
            .iter()
            .map(|(n, v)| HeaderField { name: n.to_string(), value: v.as_bytes().to_vec() })
            .collect(),
    }
}

fn values(h: &HeaderList, name: &str) -> Vec<String> {
    h.fields
        .iter()
        .filter(|f| f.name == name)
        .map(|f| String::from_utf8(f.value.clone()).unwrap())
        .collect()
}

fn dex(signin: Option<&str>, cookie: Option<&str>, url: Option<&str>) -> AuthConfigDex {
    AuthConfigDex {
        url: url.map(|s| s.to_string()),
        signin: signin.map(|s| s.to_string()),
        response_headers: vec!["x-user".to_string()],
        skip_paths: vec!["/public".to_string()],
        cookie_name: cookie.map(|s| s.to_string()),
    }
}

#[test]
fn hop_headers_are_stripped() {
    let mut h = list(&[
        ("connection", "close"),
        ("x-keep", "1"),
        ("keep-alive", "5"),
        ("transfer-encoding", "chunked"),
        ("te", "trailers"),
        ("upgrade", "h2c"),
        ("proxy-connection", "x"),
        ("proxy-authorization", "x"),
        ("proxy-authenticate", "x"),
        ("trailer", "x"),
    ]);
    remove_hop_headers(&mut h);
    assert_eq!(h.fields.len(), 1);
    assert_eq!(h.fields[0].name, "x-keep");
}

#[test]
fn forwarded_proto_follows_inbound_tls() {
    let mut h = list(&[("x-forwarded-proto", "ftp")]);
    add_forward_headers(&mut h, true, "a.example");
    assert_eq!(values(&h, "x-forwarded-proto"), vec!["https"]);
    assert_eq!(values(&h, "x-forwarded-host"), vec!["a.example"]);
    let mut h = list(&[("x-forwarded-host", "orig")]);
    add_forward_headers(&mut h, false, "a.example");
    assert_eq!(values(&h, "x-forwarded-proto"), vec!["http"]);
    assert_eq!(values(&h, "x-forwarded-host"), vec!["orig"]);
}

#[test]
fn rewrites_apply_in_order() {
    let mut h = list(&[("x-a", "1"), ("x-a", "2"), ("x-b", "b"), ("x-c", "c")]);
    let rules = vec![
        HeaderRewriteRule { name: "x-a".to_string(), value: Some("set".to_string()), mode: HeaderRewriteMode::Replace },
        HeaderRewriteRule { name: "x-b".to_string(), value: None, mode: HeaderRewriteMode::Remove },
        HeaderRewriteRule { name: "x-c".to_string(), value: Some("more".to_string()), mode: HeaderRewriteMode::Append },
        HeaderRewriteRule { name: "x-d".to_string(), value: Some("bad\u{1}".to_string()), mode: HeaderRewriteMode::Replace },
    ];
    apply_header_rewrites(&mut h, &rules);
    assert_eq!(values(&h, "x-a"), vec!["set"]);
    assert!(values(&h, "x-b").is_empty());
    assert_eq!(values(&h, "x-c"), vec!["c", "more"]);
    assert!(values(&h, "x-d").is_empty());
}

#[test]
fn host_comes_from_header_lowercased_without_dots() {
    let header = b"Example.COM.:8080".to_vec();
    assert_eq!(request_host(Some(&header), None).unwrap(), "example.com");
    let header = b" a.example ".to_vec();
    assert_eq!(request_host(Some(&header), Some("ignored")).unwrap(), "a.example");
}

#[test]
fn host_errors() {
    let empty = Vec::new();
    assert_eq!(request_host(Some(&empty), None), Err(ProxyError::InvalidHost));
    let bad = b"a b".to_vec();
    assert_eq!(request_host(Some(&bad), None), Err(ProxyError::InvalidHost));
    let ctl = vec![b'a', 0x01];
    assert_eq!(request_host(Some(&ctl), None), Err(ProxyError::InvalidHost));
    assert_eq!(request_host(None, None), Err(ProxyError::MissingHost));
    assert_eq!(request_host(None, Some("Uri.Host")).unwrap(), "Uri.Host");
}

#[test]
fn error_replies() {
    assert_eq!(ProxyError::InvalidHost.status(), 400);
    assert_eq!(ProxyError::InvalidHost.message(), "Invalid Host header");
    assert_eq!(ProxyError::MissingHost.message(), "Missing Host");
    assert_eq!(ProxyError::RouteNotFound.status(), 404);
    assert_eq!(ProxyError::RouteNotFound.message(), "route not found");
    assert_eq!(ProxyError::ClusterNotFound.status(), 404);
    assert_eq!(ProxyError::ClusterNotFound.message(), "cluster rules not found");
    assert_eq!(ProxyError::EndpointNotFound.status(), 502);
    assert_eq!(ProxyError::EndpointNotFound.message(), "endpoint not found");
    assert_eq!(ProxyError::Unauthorized.status(), 401);
    assert_eq!(ProxyError::AuthStatus(500).message(), "authorization service returned 500");
    assert_eq!(ProxyError::AuthStatus(500).status(), 502);
    assert_eq!(ProxyError::AuthUrlMissing.status(), 502);
    assert_eq!(ProxyError::AuthUrlInvalid.status(), 502);
    assert_eq!(ProxyError::AuthUnavailable.status(), 502);
    let up = ProxyError::UpstreamFailed("timeout".to_string());
    assert_eq!(up.status(), 502);
    assert_eq!(up.message(), "timeout");
}

#[test]
fn upstream_request_is_shaped() {
    let mut head = RequestHead {
        scheme: None,
        authority: None,
        path_and_query: None,
        version: UpstreamVersion::Http11,
        headers: list(&[("connection", "keep-alive"), ("host", "client"), ("x-other", "1")]),
    };
    prepare_upstream(&mut head, "a.example", "10.0.0.1", 8443, BackendProtocol::H2Ssl, true);
    assert_eq!(head.scheme, Some(Scheme::Https));
    assert_eq!(head.version, UpstreamVersion::Http2);
    assert_eq!(head.authority.as_deref(), Some("10.0.0.1:8443"));
    assert_eq!(head.path_and_query.as_deref(), Some("/"));
    assert!(values(&head.headers, "connection").is_empty());
    assert_eq!(values(&head.headers, "host"), vec!["a.example"]);
    assert_eq!(values(&head.headers, "x-forwarded-proto"), vec!["https"]);
    assert_eq!(values(&head.headers, "x-other"), vec!["1"]);
}

#[test]
fn default_ports_are_omitted() {
    assert_eq!(upstream_authority("10.0.0.1", 80, false), "10.0.0.1");
    assert_eq!(upstream_authority("10.0.0.1", 443, true), "10.0.0.1");
    assert_eq!(upstream_authority("10.0.0.1", 443, false), "10.0.0.1:443");
    assert_eq!(upstream_authority("b", 8080, true), "b:8080");
}

#[test]
fn retry_budget_and_body_rule() {
    assert_eq!(attempt_budget(3), 3);
    assert_eq!(attempt_budget(0), 1);
    assert_eq!(attempt_budget(-4), 1);
    let budget = attempt_budget(3);
    let reusable = (0..10).filter(|k| may_attempt(*k, budget, true)).count();
    let streaming = (0..10).filter(|k| may_attempt(*k, budget, false)).count();
    assert_eq!(reusable, 3);
    assert_eq!(streaming, 1);
}

#[test]
fn percent_encoding_uses_uppercase_hex() {
    assert_eq!(percent_encode("/secret"), "%2Fsecret");
    assert_eq!(percent_encode("a-b_c.d~e"), "a-b_c.d~e");
    assert_eq!(percent_encode("/a?b=c d"), "%2Fa%3Fb%3Dc%20d");
    assert_eq!(percent_encode("é"), "%C3%A9");
}

#[test]
fn signin_template_is_filled() {
    assert_eq!(
        build_signin_location("https://id/$host?r=$escaped_request_uri", "a", "/secret", false),
        "https://id/a?r=%2Fsecret"
    );
    assert_eq!(build_signin_location("$scheme://$host$host", "h", "/", true), "https://hh");
    assert_eq!(request_target(None), "/");
    assert_eq!(request_target(Some("/x?y")), "/x?y");
}

#[test]
fn missing_cookie_redirects_to_signin() {
    let auth = dex(Some("https://id/$host?r=$escaped_request_uri"), Some("session"), Some("http://auth/check"));
    match auth_gate(&auth, "/secret", None, "a", "/secret", false) {
        AuthGate::Redirect(loc) => assert_eq!(loc, "https://id/a?r=%2Fsecret"),
        other => panic!("unexpected {:?}", other),
    }
    let cookies = b"other=1; theme=dark".to_vec();
    assert!(matches!(auth_gate(&auth, "/secret", Some(&cookies), "a", "/secret", false), AuthGate::Redirect(_)));
    let cookies = b"session=abc".to_vec();
    match auth_gate(&auth, "/secret", Some(&cookies), "a", "/secret", false) {
        AuthGate::Check(url) => assert_eq!(url, "http://auth/check"),
        other => panic!("unexpected {:?}", other),
    }
    assert!(matches!(auth_gate(&auth, "/public/x", None, "a", "/public/x", false), AuthGate::Skip));
}

#[test]
fn auth_url_problems_fail() {
    let auth = dex(None, None, None);
    assert!(matches!(auth_gate(&auth, "/", None, "a", "/", false), AuthGate::Fail(ProxyError::AuthUrlMissing)));
    let auth = dex(None, None, Some("http://bad host/"));
    assert!(matches!(auth_gate(&auth, "/", None, "a", "/", false), AuthGate::Fail(ProxyError::AuthUrlInvalid)));
}

#[test]
fn auth_answers_are_interpreted() {
    let with_signin = dex(Some("https://id/?r=$escaped_request_uri"), None, Some("http://auth"));
    let without = dex(None, None, Some("http://auth"));
    assert!(matches!(auth_verdict(&with_signin, Some(204), "a", "/", false), AuthVerdict::Allow));
    match auth_verdict(&with_signin, Some(401), "a", "/x", false) {
        AuthVerdict::Redirect(loc) => assert_eq!(loc, "https://id/?r=%2Fx"),
        other => panic!("unexpected {:?}", other),
    }
    assert!(matches!(auth_verdict(&without, Some(403), "a", "/", false), AuthVerdict::Deny(ProxyError::Unauthorized)));
    assert!(matches!(auth_verdict(&without, Some(500), "a", "/", false), AuthVerdict::Deny(ProxyError::AuthStatus(500))));
    assert!(matches!(auth_verdict(&without, None, "a", "/", false), AuthVerdict::Deny(ProxyError::AuthUnavailable)));
}

#[test]
fn auth_subrequest_carries_context() {
    let orig = list(&[("cookie", "s=1"), ("cookie", "t=2"), ("authorization", "Bearer x"), ("x-other", "no")]);
    let h = build_auth_request_headers(&orig, "a.example", "/p?q=1", true);
    assert_eq!(values(&h, "cookie"), vec!["s=1"]);
    assert_eq!(values(&h, "authorization"), vec!["Bearer x"]);
    assert!(values(&h, "x-other").is_empty());
    assert_eq!(values(&h, "x-forwarded-proto"), vec!["https"]);
    assert_eq!(values(&h, "x-forwarded-host"), vec!["a.example"]);
    assert_eq!(values(&h, "x-forwarded-uri"), vec!["/p?q=1"]);
    assert_eq!(values(&h, "x-original-uri"), vec!["/p?q=1"]);
    assert_eq!(values(&h, "x-auth-request-redirect"), vec!["https://a.example/p?q=1"]);
}

#[test]
fn auth_answer_fields_are_copied() {
    let mut req = list(&[("x-user", "forged"), ("x-keep", "k")]);
    let answer = list(&[("x-user", "alice"), ("x-role", "admin")]);
    copy_auth_response_headers(&mut req, &answer, &vec!["X-User".to_string(), "x-missing".to_string(), "bad name".to_string()]);
    assert_eq!(values(&req, "x-user"), vec!["alice"]);
    assert_eq!(values(&req, "x-keep"), vec!["k"]);
    assert!(values(&req, "x-role").is_empty());
}

#[test]
fn idle_cap_scales_with_workers() {
    assert_eq!(dataplane::forward::idle_per_host(4), 4096);
    assert_eq!(dataplane::forward::idle_per_host(0), 0);
    assert_eq!(dataplane::forward::idle_per_host(usize::MAX), usize::MAX);
}

#[test]
fn rewrites_cannot_add_hop_headers_upstream() {
    let mut head = RequestHead {
        scheme: None,
        authority: None,
        path_and_query: Some("/p".to_string()),
        version: UpstreamVersion::Http11,
        headers: list(&[("upgrade", "h2c"), ("x-a", "1")]),
    };
    let rules = vec![
        HeaderRewriteRule { name: "connection".to_string(), value: Some("close".to_string()), mode: HeaderRewriteMode::Replace },
        HeaderRewriteRule { name: "te".to_string(), value: Some("trailers".to_string()), mode: HeaderRewriteMode::Append },
        HeaderRewriteRule { name: "x-b".to_string(), value: Some("2".to_string()), mode: HeaderRewriteMode::Replace },
    ];
    dataplane::forward::shape_upstream_request(&mut head, "a", "10.0.0.1", 80, BackendProtocol::H1, false, &rules);
    assert!(values(&head.headers, "connection").is_empty());
    assert!(values(&head.headers, "te").is_empty());
    assert!(values(&head.headers, "upgrade").is_empty());
    assert_eq!(values(&head.headers, "x-b"), vec!["2"]);
    assert_eq!(values(&head.headers, "x-a"), vec!["1"]);
    assert_eq!(head.path_and_query.as_deref(), Some("/p"));
    assert_eq!(head.authority.as_deref(), Some("10.0.0.1"));
}
