//! The control-plane snapshot as plain values.
use vstd::prelude::*;

verus! {

/// An upstream address and port.
#[derive(Clone, Debug)]
pub struct Endpoint {
    pub address: String,
    pub port: i32,
}

/// One routing entry: host (empty for any host), path, how the path
/// matches ("Exact" or "Prefix"), target cluster and priority.
#[derive(Clone, Debug)]
pub struct Route {
    pub host: String,
    pub path: String,
    pub path_type: String,
    pub cluster: String,
    pub priority: i32,
}

/// A request-header rewrite as configured: mode is "set", "append" or
/// "remove", in any letter case.
#[derive(Clone, Debug)]
pub struct HeaderRewrite {
    pub name: String,
    pub value: String,
    pub mode: String,
}

/// Forward-auth settings of a cluster.
#[derive(Clone, Debug)]
pub struct AuthConfig {
    pub url: String,
    pub signin: String,
    pub response_headers: Vec<String>,
    pub skip_paths: Vec<String>,
    pub cookie_name: String,
}

/// A backend cluster as configured.
#[derive(Clone, Debug)]
pub struct Cluster {
    pub name: String,
    pub lb_policy: String,
    pub endpoints: Vec<Endpoint>,
    pub timeout_ms: i32,
    pub retries: i32,
    pub backend_protocol: String,
    pub request_headers: Vec<HeaderRewrite>,
    pub backend_tls_insecure_skip_verify: bool,
    pub auth: Option<AuthConfig>,
}

/// Certificate material served for a list of SNI host names.
#[derive(Clone, Debug)]
pub struct ServerTls {
    pub sni: Vec<String>,
    pub cert_pem: Vec<u8>,
    pub key_pem: Vec<u8>,
}

/// A versioned configuration pushed by the control plane.
#[derive(Clone, Debug)]
pub struct Snapshot {
    pub version: String,
    pub routes: Vec<Route>,
    pub clusters: Vec<Cluster>,
    pub server_tls: Vec<ServerTls>,
}

/// Address and port of an endpoint, as values.
pub struct EndpointModel {
    pub address: Seq<char>,
    pub port: i32,
}

impl Endpoint {
    pub open spec fn model(&self) -> EndpointModel {
        EndpointModel { address: self.address@, port: self.port }
    }

    /// A copy with the same address and port.
    pub fn duplicate(&self) -> (r: Endpoint)
        ensures
            r.model() == self.model(),
    {
        Endpoint { address: crate::text::copy_string(&self.address), port: self.port }
    }
}

pub open spec fn endpoint_models(s: Seq<Endpoint>) -> Seq<EndpointModel> {
    s.map_values(|e: Endpoint| e.model())
}

} // verus!
