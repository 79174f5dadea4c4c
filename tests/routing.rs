use dataplane::model::{AuthConfig, Cluster, Endpoint, HeaderRewrite, Route, Snapshot};
use dataplane::routing::{least_conn_index, round_robin_index, RouteTable};
use dataplane::rules::{AuthConfigDex, BackendProtocol, HeaderRewriteMode, LBPolicy, PathType};

fn route(host: &str, path: &str, path_type: &str, cluster: &str, priority: i32) -> Route {
    Route {
        host: host.to_string(),
        path: path.to_string(),
        path_type: path_type.to_string(),
        cluster: cluster.to_string(),
        priority,
    }
}

fn cluster(name: &str, policy: &str, endpoints: &[(&str, i32)]) -> Cluster {
    Cluster {
        name: name.to_string(),
        lb_policy: policy.to_string(),
        endpoints: endpoints
            .iter()
            .map(|(a, p)| Endpoint { address: a.to_string(), port: *p })
            .collect(),
        timeout_ms: 50,
        retries: 3,
        backend_protocol: "h1".to_string(),
        request_headers: vec![],
        backend_tls_insecure_skip_verify: false,
        auth: None,
    }
}

fn snapshot(routes: Vec<Route>, clusters: Vec<Cluster>) -> Snapshot {
    Snapshot { version: "v1".to_string(), routes, clusters, server_tls: vec![] }
}

#[test]
fn round_robin_alternates_endpoints() {
    let snap = snapshot(
        vec![route("a.example", "/", "Prefix", "c1", 0)],
        vec![cluster("c1", "RoundRobin", &[("10.0.0.1", 80), ("10.0.0.2", 80)])],
    );
    let table = RouteTable::new(&snap);
    let rule = table.choose_route("a.example", "/").expect("route");
    let mut seen = vec![];
    for _ in 0..4 {
        let sel = table.get_endpoint(&rule.cluster).expect("endpoint");
        assert!(sel.counter.is_some());
        seen.push(sel.endpoint.address);
    }
    assert_eq!(seen, vec!["10.0.0.1", "10.0.0.2", "10.0.0.1", "10.0.0.2"]);
}

#[test]
fn higher_priority_prefix_wins() {
    let snap = snapshot(
        vec![route("h", "/", "Prefix", "c_root", 1), route("h", "/api", "Prefix", "c_api", 10)],
        vec![],
    );
    let table = RouteTable::new(&snap);
    assert_eq!(table.choose_route("h", "/api/x").unwrap().cluster, "c_api");
    assert_eq!(table.choose_route("h", "/other").unwrap().cluster, "c_root");
}

#[test]
fn exact_beats_prefix_at_same_priority() {
    let snap = snapshot(
        vec![route("h", "/", "Prefix", "c_root", 0), route("h", "/health", "Exact", "c_h", 0)],
        vec![],
    );
    let table = RouteTable::new(&snap);
    assert_eq!(table.choose_route("h", "/health").unwrap().cluster, "c_h");
    assert_eq!(table.choose_route("h", "/healthz").unwrap().cluster, "c_root");
}

#[test]
fn exact_and_prefix_same_path_length_orders_exact_first() {
    let snap = snapshot(
        vec![route("h", "/abc", "Prefix", "p", 0), route("h", "/abc", "Exact", "e", 0)],
        vec![],
    );
    let table = RouteTable::new(&snap);
    assert_eq!(table.routes_by_host[0].rules[0].path_type, PathType::Exact);
    assert_eq!(table.choose_route("h", "/abc").unwrap().cluster, "e");
    assert_eq!(table.choose_route("h", "/abcd").unwrap().cluster, "p");
}

#[test]
fn wildcard_host_bucket_is_consulted() {
    let snap = snapshot(
        vec![route("", "/", "Prefix", "any", 0), route("A.Example", "/x", "Exact", "ax", 0)],
        vec![],
    );
    let table = RouteTable::new(&snap);
    assert_eq!(table.choose_route("a.example", "/x").unwrap().cluster, "ax");
    assert_eq!(table.choose_route("a.example", "/y").unwrap().cluster, "any");
    assert_eq!(table.choose_route("b.example", "/z").unwrap().cluster, "any");
}

#[test]
fn unknown_path_type_is_dropped_and_miss_is_none() {
    let snap = snapshot(vec![route("h", "/", "Regex", "c", 0)], vec![]);
    let table = RouteTable::new(&snap);
    assert!(table.choose_route("h", "/").is_none());
    assert!(table.routes_by_host.is_empty());
}

#[test]
fn equal_rank_keeps_configuration_order() {
    let snap = snapshot(
        vec![route("h", "/a", "Prefix", "first", 5), route("h", "/b", "Prefix", "second", 5)],
        vec![],
    );
    let table = RouteTable::new(&snap);
    let rules = &table.routes_by_host[0].rules;
    assert_eq!(rules[0].cluster, "first");
    assert_eq!(rules[1].cluster, "second");
}

#[test]
fn clusters_are_keyed_lowercase_and_later_wins() {
    let mut second = cluster("C1", "LeastConn", &[("10.0.0.9", 8080)]);
    second.backend_protocol = "h2-ssl".to_string();
    let snap = snapshot(
        vec![],
        vec![cluster("c1", "RoundRobin", &[("10.0.0.1", 80)]), second, cluster("bad", "Random", &[])],
    );
    let table = RouteTable::new(&snap);
    let rule = table.get_cluster_rules("c1").expect("cluster");
    assert_eq!(rule.lb_policy, LBPolicy::LeastConn);
    assert_eq!(rule.backend_protocol, BackendProtocol::H2Ssl);
    assert!(table.get_cluster_rules("C1").is_none());
    assert!(table.get_cluster_rules("bad").is_none());
}

#[test]
fn unknown_backend_protocol_means_h1() {
    let mut c = cluster("c", "RoundRobin", &[("h", 1)]);
    c.backend_protocol = "h3".to_string();
    let table = RouteTable::new(&snapshot(vec![], vec![c]));
    assert_eq!(table.get_cluster_rules("c").unwrap().backend_protocol, BackendProtocol::H1);
}

#[test]
fn empty_cluster_yields_no_endpoint() {
    let table = RouteTable::new(&snapshot(vec![], vec![cluster("c", "RoundRobin", &[])]));
    assert!(table.get_endpoint("c").is_none());
    assert!(table.get_endpoint("missing").is_none());
}

#[test]
fn least_conn_picks_idle_endpoint() {
    let table = RouteTable::new(&snapshot(
        vec![],
        vec![cluster("c", "LeastConn", &[("a", 1), ("b", 2)])],
    ));
    let first = table.get_endpoint("c").unwrap();
    first.counter.as_ref().unwrap().fetch_add(1, std::sync::atomic::Ordering::Relaxed);
    let second = table.get_endpoint("c").unwrap();
    assert_ne!(first.endpoint.address, second.endpoint.address);
    second.counter.as_ref().unwrap().fetch_add(2, std::sync::atomic::Ordering::Relaxed);
    let third = table.get_endpoint("c").unwrap();
    assert_eq!(third.endpoint.address, first.endpoint.address);
}

#[test]
fn round_robin_index_is_ticket_modulo() {
    assert_eq!(round_robin_index(0, 3), 0);
    assert_eq!(round_robin_index(7, 3), 1);
    let mut hits = [0usize; 3];
    for t in 5..15 {
        hits[round_robin_index(t, 3)] += 1;
    }
    for h in hits {
        assert!(h == 3 || h == 4);
    }
}

#[test]
fn least_conn_index_takes_first_minimum() {
    assert_eq!(least_conn_index(&vec![]), None);
    assert_eq!(least_conn_index(&vec![3, 1, 1, 2]), Some(1));
    assert_eq!(least_conn_index(&vec![0, 0]), Some(0));
}

#[test]
fn header_rewrites_are_decoded() {
    let mut c = cluster("c", "RoundRobin", &[("h", 1)]);
    c.request_headers = vec![
        HeaderRewrite { name: " X-Test ".to_string(), value: "v".to_string(), mode: "SET".to_string() },
        HeaderRewrite { name: "".to_string(), value: "v".to_string(), mode: "set".to_string() },
        HeaderRewrite { name: "x-gone".to_string(), value: "v".to_string(), mode: "Remove".to_string() },
        HeaderRewrite { name: "x-bad".to_string(), value: "v".to_string(), mode: "merge".to_string() },
        HeaderRewrite { name: "bad name".to_string(), value: "v".to_string(), mode: "append".to_string() },
    ];
    let table = RouteTable::new(&snapshot(vec![], vec![c]));
    let rules = &table.get_cluster_rules("c").unwrap().request_headers;
    assert_eq!(rules.len(), 2);
    assert_eq!(rules[0].name, "x-test");
    assert_eq!(rules[0].mode, HeaderRewriteMode::Replace);
    assert_eq!(rules[0].value.as_deref(), Some("v"));
    assert_eq!(rules[1].name, "x-gone");
    assert_eq!(rules[1].value, None);
}

#[test]
fn auth_config_is_normalized() {
    let pb = AuthConfig {
        url: " ".to_string(),
        signin: "https://id/$host".to_string(),
        response_headers: vec![" X-User ".to_string(), "x-user".to_string(), "".to_string(), "X-Email".to_string()],
        skip_paths: vec!["/public".to_string()],
        cookie_name: "session".to_string(),
    };
    let dex = AuthConfigDex::from_pb(&pb);
    assert_eq!(dex.url, None);
    assert_eq!(dex.signin.as_deref(), Some("https://id/$host"));
    assert_eq!(dex.response_headers, vec!["X-User".to_string(), "X-Email".to_string()]);
    assert_eq!(dex.skip_paths, vec!["/public".to_string()]);
    assert_eq!(dex.cookie_name.as_deref(), Some("session"));
}

#[test]
fn blank_auth_config_is_not_attached() {
    let mut c = cluster("c", "RoundRobin", &[("h", 1)]);
    c.auth = Some(AuthConfig {
        url: "".to_string(),
        signin: " ".to_string(),
        response_headers: vec![],
        skip_paths: vec![],
        cookie_name: "".to_string(),
    });
    let table = RouteTable::new(&snapshot(vec![], vec![c]));
    assert!(table.get_cluster_rules("c").unwrap().auth.is_none());
}
