use dataplane::config::{parse_directive, parse_u16, ConfigError, Location, ServerBlock, ServerConfig};
use dataplane::control::{
    bytes_eq, check_material, classify_reload, file_name, next_backoff, notifier_for, Action, Event,
    MaterialError, MaterialFile, Notifier, Phase, Reconciler, Reload,
};
use dataplane::model::{ServerTls, Snapshot};
use dataplane::sni::{build_sni_map, SniMap};
use dataplane::text::lines;

#[test]
fn backoff_doubles_up_to_ten_seconds() {
    assert_eq!(next_backoff(500), 1000);
    assert_eq!(next_backoff(4000), 8000);
    assert_eq!(next_backoff(8000), 10000);
    assert_eq!(next_backoff(10000), 10000);
    assert_eq!(next_backoff(u64::MAX), 10000);
}

#[test]
fn reconciler_cycle() {
    let mut r = Reconciler::new();
    assert_eq!(r.step(Event::ConnectFailed), Action::Reconnect(500));
    assert_eq!(r.step(Event::ConnectFailed), Action::Reconnect(1000));
    assert_eq!(r.backoff_ms, 2000);
    assert_eq!(r.step(Event::Connected), Action::OpenWatch);
    assert_eq!(r.backoff_ms, 500);
    assert!(!r.ready);
    assert_eq!(r.step(Event::WatchOpened), Action::Receive);
    assert!(r.ready);
    assert_eq!(r.phase, Phase::Streaming);
    assert_eq!(r.step(Event::SnapshotReceived), Action::Apply);
    assert_eq!(r.step(Event::MaterialChanged), Action::Reconnect(500));
    assert!(r.ready);
    assert_eq!(r.step(Event::StreamEnded), Action::Reconnect(1000));
    assert!(r.ready);
    assert_eq!(r.step(Event::Cancelled), Action::Stop);
    assert_eq!(r.step(Event::Connected), Action::Stop);
}

#[test]
fn material_is_required() {
    let some = vec![1u8];
    let none = vec![];
    assert_eq!(check_material(&none, &some, &some), Err(MaterialError::CaMissing));
    assert_eq!(check_material(&some, &none, &some), Err(MaterialError::IdentityMissing));
    assert_eq!(check_material(&some, &some, &none), Err(MaterialError::IdentityMissing));
    assert_eq!(check_material(&some, &some, &some), Ok(()));
}

#[test]
fn reload_is_byte_comparison() {
    let held = b"abc".to_vec();
    assert_eq!(classify_reload(None, &held), Reload::ReadFailed);
    assert_eq!(classify_reload(Some(&vec![]), &held), Reload::Empty);
    assert_eq!(classify_reload(Some(&b"abc".to_vec()), &held), Reload::Unchanged);
    assert_eq!(classify_reload(Some(&b"abd".to_vec()), &held), Reload::Changed);
    assert!(bytes_eq(&held, &b"abc".to_vec()));
    assert!(!bytes_eq(&held, &b"ab".to_vec()));
    assert_eq!(notifier_for(MaterialFile::Ca), Notifier::Ca);
    assert_eq!(notifier_for(MaterialFile::ClientKey), Notifier::ClientPair);
    assert_eq!(file_name(MaterialFile::ClientCert), "tls.crt");
}

#[test]
fn sni_exact_then_wildcard_then_default() {
    let mut m = SniMap::new();
    m.insert(&"a.example".to_string(), 1);
    m.insert(&"*.example".to_string(), 2);
    assert_eq!(m.resolve(Some("x.example"), 0), 2);
    assert_eq!(m.resolve(Some("A.Example"), 0), 1);
    assert_eq!(m.resolve(Some("other.test"), 0), 0);
    assert_eq!(m.resolve(Some("example"), 0), 0);
    assert_eq!(m.resolve(None, 9), 9);
    assert_eq!(m.resolve(Some("x.example"), 0), m.resolve(Some("x.example"), 0));
}

#[test]
fn sni_map_from_snapshot_later_entries_win() {
    let entry = |hosts: &[&str]| ServerTls {
        sni: hosts.iter().map(|h| h.to_string()).collect(),
        cert_pem: vec![],
        key_pem: vec![],
    };
    let snap = Snapshot {
        version: "1".to_string(),
        routes: vec![],
        clusters: vec![],
        server_tls: vec![entry(&["a", "b"]), entry(&["c"]), entry(&["b"])],
    };
    let m = build_sni_map(&snap, &vec![Some(0), None, Some(2)]);
    assert_eq!(m.get("a"), Some(0));
    assert_eq!(m.get("b"), Some(2));
    assert_eq!(m.get("c"), None);
}

#[test]
fn lines_follow_str_lines() {
    let text = "a\r\nb\n\nc\r";
    let expected: Vec<String> = text.lines().map(|l| l.to_string()).collect();
    assert_eq!(lines(text), expected);
    assert!(lines("").is_empty());
    assert_eq!(lines("x\n"), vec!["x".to_string()]);
}

const CONF: &str = "server {\n    listen 8080;\n    server_name example.com;\n    location /api {\n        proxy_pass http://127.0.0.1:9000;\n    }\n    location / {\n        proxy_pass http://127.0.0.1:9001;\n    }\n}\nserver {\n    listen +81;\n    server_name other;\n}\n";

#[test]
fn server_and_location_blocks_are_extracted() {
    let servers = ServerBlock::extract_server_blocks(CONF);
    assert_eq!(servers.len(), 2);
    assert!(servers[0].starts_with("server {"));
    assert!(servers[0].ends_with('}'));
    let locations = Location::extract_location_blocks(&servers[0]);
    assert_eq!(locations.len(), 2);
    assert_eq!(Location::extract_location_path(&locations[0]).as_deref(), Some("/api"));
    assert_eq!(parse_directive(&locations[1], "proxy_pass").as_deref(), Some("http://127.0.0.1:9001"));
    assert_eq!(parse_directive(&servers[0], "listen").as_deref(), Some("8080"));
    assert_eq!(parse_directive(&servers[0], "missing"), None);
}

#[test]
fn configuration_is_parsed() {
    let configs = ServerConfig::parse_config(CONF).unwrap();
    assert_eq!(configs.len(), 2);
    assert_eq!(configs[0].host, "example.com");
    assert_eq!(configs[0].port, 8080);
    assert_eq!(configs[0].location("/api").unwrap().proxy_pass, "http://127.0.0.1:9000");
    assert!(configs[0].location("/none").is_none());
    assert_eq!(configs[1].port, 81);
    assert!(configs[1].paths.is_empty());
}

#[test]
fn configuration_errors() {
    assert_eq!(ServerConfig::parse_config("server {\n listen 80;\n}\n").unwrap_err(), ConfigError::ServerName);
    assert_eq!(ServerConfig::parse_config("server {\n server_name a;\n}\n").unwrap_err(), ConfigError::Port);
    assert_eq!(
        ServerConfig::parse_config("server {\n server_name a;\n listen 70000;\n}\n").unwrap_err(),
        ConfigError::PortNumber
    );
    assert_eq!(
        ServerConfig::parse_config("server {\n server_name a;\n listen 1;\n location /x {\n }\n}\n").unwrap_err(),
        ConfigError::ProxyPass
    );
    assert!(ServerConfig::parse_config("").unwrap().is_empty());
}

#[test]
fn ports_parse_like_u16() {
    for s in ["0", "65535", "+80", "65536", "", "+", "-1", "8o", "007"] {
        assert_eq!(parse_u16(s), s.parse::<u16>().ok(), "{}", s);
    }
}

#[test]
fn prefixed_directive_takes_rest_of_line() {
    let block = "  listen 8080;;\n server_name  a b ;";
    assert_eq!(ServerConfig::parse_directive(block, "listen").as_deref(), Some("8080"));
    assert_eq!(ServerConfig::parse_directive(block, "server_name").as_deref(), Some("a b "));
    assert_eq!(ServerConfig::parse_directive(block, "proxy"), None);
}
