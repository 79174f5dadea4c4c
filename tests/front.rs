use dataplane::config::ServerConfig;
use dataplane::message::{Handle, HandleOutcome, Request, Response};
use dataplane::model::ServerTls;
use dataplane::routing::ActiveConnGuard;
use dataplane::sni::{certificate_material, KeyKind};
use std::sync::atomic::{AtomicUsize, Ordering};
use std::sync::Arc;

#[test]
fn request_is_parsed() {
    let data = b"GET /api HTTP/1.1\r\nHost: example.com:8080\r\nX-A: 1\r\nX-A: 2\r\nbroken\r\n\r\nbody!";
    let req = Request::parse_request(data).expect("request");
    assert_eq!(req.method, "GET");
    assert_eq!(req.path, "/api");
    assert_eq!(req.version, "HTTP/1.1");
    assert_eq!(req.header("Host").map(|s| s.as_str()), Some("example.com:8080"));
    assert_eq!(req.header("X-A").map(|s| s.as_str()), Some("2"));
    assert_eq!(req.headers.len(), 3);
    assert_eq!(req.body, b"body!".to_vec());
}

#[test]
fn incomplete_request_line_is_rejected() {
    assert!(Request::parse_request(b"GET /only\r\n\r\n").is_none());
    assert!(Request::parse_request(b"").is_none());
    let lossy = Request::parse_request(b"GET /\xff HTTP/1.0\r\n").expect("request");
    assert_eq!(lossy.path, "/\u{fffd}");
    assert!(lossy.body.is_empty());
}

#[test]
fn response_head_is_written() {
    let r = Response {
        method: "GET".to_string(),
        status_code: 200,
        reason_phrase: "OK".to_string(),
        body: b"hello".to_vec(),
        headers: vec![("X-A".to_string(), "1".to_string())],
    };
    assert_eq!(r.to_bytes(), b"HTTP/1.1 200 OK\r\nX-A: 1\r\nContent-Length: 5\r\n\r\n".to_vec());
}

#[test]
fn requests_are_dispatched() {
    let conf = "server {\n listen 80;\n server_name a;\n location /x {\n proxy_pass http://up;\n }\n}\n";
    let configs = ServerConfig::parse_config(conf).unwrap();
    let req = Request::parse_request(b"GET /x HTTP/1.1\r\nHost: a:80\r\n\r\n").unwrap();
    assert_eq!(Handle::decide(&configs, &req), HandleOutcome::Proxy("http://up".to_string()));
    let req = Request::parse_request(b"GET /y HTTP/1.1\r\nHost: a\r\n\r\n").unwrap();
    assert_eq!(Handle::decide(&configs, &req), HandleOutcome::NotFound);
    let req = Request::parse_request(b"GET /x HTTP/1.1\r\nHost: b\r\n\r\n").unwrap();
    assert_eq!(Handle::decide(&configs, &req), HandleOutcome::NotFound);
    let req = Request::parse_request(b"GET /x HTTP/1.1\r\n\r\n").unwrap();
    let outcome = Handle::decide(&configs, &req);
    assert_eq!(outcome, HandleOutcome::BadRequest);
    assert_eq!(outcome.reply(), Some("HTTP/1.1 400 Bad Request\r\nContent-Length: 0\r\n\r\n"));
}

#[test]
fn guard_counts_active_connections() {
    let counter = Arc::new(AtomicUsize::new(0));
    {
        let _g = ActiveConnGuard::new(Some(counter.clone()));
        assert_eq!(counter.load(Ordering::Relaxed), 1);
    }
    assert_eq!(counter.load(Ordering::Relaxed), 0);
    let _none = ActiveConnGuard::new(None);
}

#[test]
fn pem_material_is_recognized() {
    let generated = rcgen::generate_simple_self_signed(vec!["localhost".to_string()]).unwrap();
    let entry = ServerTls {
        sni: vec!["localhost".to_string()],
        cert_pem: generated.cert.pem().into_bytes(),
        key_pem: generated.key_pair.serialize_pem().into_bytes(),
    };
    let m = certificate_material(&entry).expect("material");
    assert_eq!(m.chain.len(), 1);
    assert_eq!(m.chain[0], generated.cert.der().to_vec());
    assert_eq!(m.key_kind, KeyKind::Pkcs8);
    assert_eq!(m.key, generated.key_pair.serialize_der());
    let no_key = ServerTls { sni: vec![], cert_pem: entry.cert_pem.clone(), key_pem: entry.cert_pem.clone() };
    assert!(certificate_material(&no_key).is_none());
    let no_cert = ServerTls { sni: vec![], cert_pem: b"garbage".to_vec(), key_pem: entry.key_pem.clone() };
    assert!(certificate_material(&no_cert).is_none());
}

#[test]
fn servers_are_grouped_by_port() {
    let conf = "server {\n listen 80;\n server_name a;\n}\nserver {\n listen 81;\n server_name b;\n}\nserver {\n listen 80;\n server_name c;\n}\n";
    let configs = ServerConfig::parse_config(conf).unwrap();
    let groups = dataplane::config::sort_server_config(configs);
    assert_eq!(groups.len(), 2);
    let g80 = groups.iter().find(|g| g.port == 80).unwrap();
    let hosts: Vec<&str> = g80.servers.iter().map(|s| s.host.as_str()).collect();
    assert_eq!(hosts, vec!["a", "c"]);
    let g81 = groups.iter().find(|g| g.port == 81).unwrap();
    assert_eq!(g81.servers.len(), 1);
}
