//! Decisions of the forwarding pipeline: the client-visible host, the
//! shape of the upstream request, the retry budget and the error replies.
use vstd::prelude::*;
use crate::headers::{
    apply_header_rewrites, is_hop, rewritten,
    FieldModel, HeaderList, add_forward_headers, bytes_of, forwarded, is_valid_value, remove_hop_headers,
    value_bytes, value_ok, with_value, without_hops,
};
use crate::config::{strip_trailing, strip_trailing_range};
use crate::rules::{BackendProtocol, HeaderRewriteRule, RewriteModel, rewrite_models};
use crate::text::{decimal, decimal_string, lower, push_char, push_str, to_ascii_lowercase, trim, trimmed};

verus! {

/// What `http::uri::Authority` parses out of a text as its host, or
/// nothing when the text is not an authority.
pub uninterp spec fn authority_host_of(s: Seq<char>) -> Option<Seq<char>>;

/// Relies on `http::uri::Authority::try_from` and `Authority::host`: parses
/// an authority and gives its host component.
#[verifier::external_body]
pub(crate) fn parse_authority_host(s: &str) -> (r: Option<String>)
    ensures
        match r {
            Some(h) => authority_host_of(s@) == Some(h@),
            None => authority_host_of(s@) is None,
        },
{
    http::uri::Authority::try_from(s).ok().map(|a| a.host().to_string())
}

/// Why a request is answered by the proxy itself.
#[derive(Clone, Debug, PartialEq, Eq)]
pub enum ProxyError {
    InvalidHost,
    MissingHost,
    RouteNotFound,
    ClusterNotFound,
    EndpointNotFound,
    AuthUrlMissing,
    AuthUrlInvalid,
    AuthUnavailable,
    AuthStatus(u16),
    Unauthorized,
    UpstreamFailed(String),
}

impl ProxyError {
    pub open spec fn spec_status(&self) -> u16 {
        match self {
            ProxyError::InvalidHost | ProxyError::MissingHost => 400,
            ProxyError::RouteNotFound | ProxyError::ClusterNotFound => 404,
            ProxyError::Unauthorized => 401,
            _ => 502,
        }
    }

    /// HTTP status of the reply.
    pub fn status(&self) -> (r: u16)
        ensures
            r == self.spec_status(),
    {
        match self {
            ProxyError::InvalidHost | ProxyError::MissingHost => 400,
            ProxyError::RouteNotFound | ProxyError::ClusterNotFound => 404,
            ProxyError::Unauthorized => 401,
            _ => 502,
        }
    }

    pub open spec fn spec_message(&self) -> Seq<char> {
        match self {
            ProxyError::InvalidHost => "Invalid Host header"@,
            ProxyError::MissingHost => "Missing Host"@,
            ProxyError::RouteNotFound => "route not found"@,
            ProxyError::ClusterNotFound => "cluster rules not found"@,
            ProxyError::EndpointNotFound => "endpoint not found"@,
            ProxyError::AuthUrlMissing => "authorization URL not configured"@,
            ProxyError::AuthUrlInvalid => "invalid authorization URL"@,
            ProxyError::AuthUnavailable => "authorization subrequest failed"@,
            ProxyError::AuthStatus(code) => "authorization service returned "@ + decimal(*code as nat),
            ProxyError::Unauthorized => "unauthorized"@,
            ProxyError::UpstreamFailed(text) => text@,
        }
    }

    /// Body text of the reply.
    pub fn message(&self) -> (r: String)
        ensures
            r@ == self.spec_message(),
    {
        let mut s = String::new();
        match self {
            ProxyError::InvalidHost => push_str(&mut s, "Invalid Host header"),
            ProxyError::MissingHost => push_str(&mut s, "Missing Host"),
            ProxyError::RouteNotFound => push_str(&mut s, "route not found"),
            ProxyError::ClusterNotFound => push_str(&mut s, "cluster rules not found"),
            ProxyError::EndpointNotFound => push_str(&mut s, "endpoint not found"),
            ProxyError::AuthUrlMissing => push_str(&mut s, "authorization URL not configured"),
            ProxyError::AuthUrlInvalid => push_str(&mut s, "invalid authorization URL"),
            ProxyError::AuthUnavailable => push_str(&mut s, "authorization subrequest failed"),
            ProxyError::AuthStatus(code) => {
                push_str(&mut s, "authorization service returned ");
                let d = decimal_string(*code as u64);
                push_str(&mut s, d.as_str());
            },
            ProxyError::Unauthorized => push_str(&mut s, "unauthorized"),
            ProxyError::UpstreamFailed(text) => push_str(&mut s, text.as_str()),
        }
        assert(s@ =~= self.spec_message());
        s
    }
}

/// Bytes that `HeaderValue::to_str` accepts: visible ASCII and tab.
pub open spec fn visible_ascii(b: Seq<u8>) -> bool {
    forall|i: int| 0 <= i < b.len() ==> (32 <= #[trigger] b[i] && b[i] < 127) || b[i] == 9
}

pub open spec fn ascii_text(b: Seq<u8>) -> Seq<char> {
    b.map_values(|x: u8| x as char)
}

/// The client-visible host: from the `Host` header when present (its
/// authority's host, lowercased, trailing dots removed), else the host of
/// the request URI.
pub open spec fn host_of_request(header: Option<Seq<u8>>, uri_host: Option<Seq<char>>) -> Result<
    Seq<char>,
    ProxyError,
> {
    match header {
        Some(b) => if visible_ascii(b) && b.len() > 0 {
            match authority_host_of(trim(ascii_text(b))) {
                Some(h) => Ok(strip_trailing(lower(h), '.')),
                None => Err(ProxyError::InvalidHost),
            }
        } else {
            Err(ProxyError::InvalidHost)
        },
        None => match uri_host {
            Some(h) => Ok(h),
            None => Err(ProxyError::MissingHost),
        },
    }
}

pub fn is_visible_ascii(b: &Vec<u8>) -> (r: bool)
    ensures
        r == visible_ascii(b@),
{
    let mut i: usize = 0;
    while i < b.len()
        invariant
            i <= b@.len(),
            forall|j: int| 0 <= j < i ==> (32 <= #[trigger] b@[j] && b@[j] < 127) || b@[j] == 9,
        decreases b@.len() - i,
    {
        if !((32 <= b[i] && b[i] < 127) || b[i] == 9) {
            return false;
        }
        i += 1;
    }
    true
}

pub fn ascii_string(b: &Vec<u8>) -> (r: String)
    ensures
        r@ == ascii_text(b@),
{
    let mut s = String::new();
    let mut i: usize = 0;
    while i < b.len()
        invariant
            i <= b@.len(),
            s@ == ascii_text(b@.subrange(0, i as int)),
        decreases b@.len() - i,
    {
        push_char(&mut s, b[i] as char);
        i += 1;
        assert(s@ =~= ascii_text(b@.subrange(0, i as int)));
    }
    assert(b@.subrange(0, i as int) =~= b@);
    s
}

/// The client-visible host of a request, from the raw `Host` header value
/// and the host of the request URI.
pub fn request_host(host_header: Option<&Vec<u8>>, uri_host: Option<&str>) -> (r: Result<String, ProxyError>)
    ensures
        host_of_request(
            match host_header {
                Some(b) => Some(b@),
                None => None,
            },
            match uri_host {
                Some(h) => Some(h@),
                None => None,
            },
        ) == match r {
            Ok(h) => Ok(h@),
            Err(e) => Err::<Seq<char>, ProxyError>(e),
        },
{
    match host_header {
        Some(b) => {
            if !is_visible_ascii(b) || b.len() == 0 {
                return Err(ProxyError::InvalidHost);
            }
            let text = ascii_string(b);
            let t = trimmed(text.as_str());
            match parse_authority_host(t.as_str()) {
                Some(h) => {
                    let l = to_ascii_lowercase(h.as_str());
                    let v = crate::text::chars_of(l.as_str());
                    assert(v@.subrange(0, v@.len() as int) =~= v@);
                    Ok(strip_trailing_range(&v, 0, v.len(), '.'))
                },
                None => Err(ProxyError::InvalidHost),
            }
        },
        None => match uri_host {
            Some(h) => Ok(crate::text::str_to_string(h)),
            None => Err(ProxyError::MissingHost),
        },
    }
}

/// Whether the inbound leg of a request was TLS.
#[derive(Clone, Copy, Debug, PartialEq, Eq, Structural)]
pub struct FrontendTls(pub bool);

/// URI scheme of the upstream request.
#[derive(Clone, Copy, Debug, PartialEq, Eq, Structural)]
pub enum Scheme {
    Http,
    Https,
}

/// HTTP version of the upstream request.
#[derive(Clone, Copy, Debug, PartialEq, Eq, Structural)]
pub enum UpstreamVersion {
    Http11,
    Http2,
}

/// The parts of a request that forwarding rewrites.
#[derive(Clone, Debug)]
pub struct RequestHead {
    pub scheme: Option<Scheme>,
    pub authority: Option<String>,
    pub path_and_query: Option<String>,
    pub version: UpstreamVersion,
    pub headers: HeaderList,
}

pub struct HeadModel {
    pub scheme: Option<Scheme>,
    pub authority: Option<Seq<char>>,
    pub path_and_query: Option<Seq<char>>,
    pub version: UpstreamVersion,
    pub headers: Seq<FieldModel>,
}

impl RequestHead {
    pub open spec fn model(&self) -> HeadModel {
        HeadModel {
            scheme: self.scheme,
            authority: crate::rules::opt_view(self.authority),
            path_and_query: crate::rules::opt_view(self.path_and_query),
            version: self.version,
            headers: self.headers.model(),
        }
    }
}

/// `host:port`, or the host alone when the port is the scheme's default.
pub open spec fn authority_text(host: Seq<char>, port: u16, tls: bool) -> Seq<char> {
    if port == (if tls { 443u16 } else { 80u16 }) {
        host
    } else {
        host + seq![':'] + decimal(port as nat)
    }
}

pub fn upstream_authority(host: &str, port: u16, tls: bool) -> (r: String)
    ensures
        r@ == authority_text(host@, port, tls),
{
    let default_port: u16 = if tls {
        443
    } else {
        80
    };
    let mut s = crate::text::str_to_string(host);
    if port != default_port {
        push_char(&mut s, ':');
        let d = decimal_string(port as u64);
        push_str(&mut s, d.as_str());
    }
    s
}

/// The request as sent upstream: scheme and version from the backend
/// protocol, hop-by-hop fields removed, authority set to the endpoint when
/// it parses, path at least "/", `Host` kept as the client sent it, and
/// the forwarding fields added.
pub open spec fn prepared(
    head: HeadModel,
    original_host: Seq<char>,
    upstream_host: Seq<char>,
    upstream_port: u16,
    proto: BackendProtocol,
    frontend_is_tls: bool,
) -> HeadModel {
    let tls = proto.spec_is_tls();
    let auth = authority_text(upstream_host, upstream_port, tls);
    let h1 = without_hops(head.headers);
    let h2 = if value_ok(original_host) {
        with_value(h1, "host"@, value_bytes(original_host))
    } else {
        h1
    };
    HeadModel {
        scheme: Some(
            if tls {
                Scheme::Https
            } else {
                Scheme::Http
            },
        ),
        authority: if authority_host_of(auth) is Some {
            Some(auth)
        } else {
            head.authority
        },
        path_and_query: match head.path_and_query {
            Some(p) => Some(p),
            None => Some("/"@),
        },
        version: if proto.spec_is_h2() {
            UpstreamVersion::Http2
        } else {
            UpstreamVersion::Http11
        },
        headers: forwarded(h2, frontend_is_tls, original_host),
    }
}

pub fn prepare_upstream(
    head: &mut RequestHead,
    original_host: &str,
    upstream_host: &str,
    upstream_port: u16,
    proto: BackendProtocol,
    frontend_is_tls: bool,
)
    ensures
        final(head).model() == prepared(
            old(head).model(),
            original_host@,
            upstream_host@,
            upstream_port,
            proto,
            frontend_is_tls,
        ),
{
    let tls = proto.is_tls();
    head.scheme = Some(
        if tls {
            Scheme::Https
        } else {
            Scheme::Http
        },
    );
    head.version = if proto.is_h2() {
        UpstreamVersion::Http2
    } else {
        UpstreamVersion::Http11
    };
    remove_hop_headers(&mut head.headers);
    let auth = upstream_authority(upstream_host, upstream_port, tls);
    if parse_authority_host(auth.as_str()).is_some() {
        head.authority = Some(auth);
    }
    if head.path_and_query.is_none() {
        head.path_and_query = Some(crate::text::str_to_string("/"));
    }
    if is_valid_value(original_host) {
        head.headers.insert("host", bytes_of(original_host));
    }
    add_forward_headers(&mut head.headers, frontend_is_tls, original_host);
}

/// The request as sent upstream with the cluster's header rewrites: the
/// prepared request, the rewrites applied in order, and then the
/// hop-by-hop fields removed again, so that no rewrite can put one back.
pub open spec fn upstream_of(
    head: HeadModel,
    original_host: Seq<char>,
    upstream_host: Seq<char>,
    upstream_port: u16,
    proto: BackendProtocol,
    frontend_is_tls: bool,
    rewrites: Seq<RewriteModel>,
) -> HeadModel {
    let p = prepared(head, original_host, upstream_host, upstream_port, proto, frontend_is_tls);
    HeadModel {
        scheme: p.scheme,
        authority: p.authority,
        path_and_query: p.path_and_query,
        version: p.version,
        headers: without_hops(rewritten(p.headers, rewrites)),
    }
}

/// Shapes the whole upstream request: `prepare_upstream`, then the
/// rewrites, then hop-by-hop removal. No hop-by-hop field is left.
pub fn shape_upstream_request(
    head: &mut RequestHead,
    original_host: &str,
    upstream_host: &str,
    upstream_port: u16,
    proto: BackendProtocol,
    frontend_is_tls: bool,
    rewrites: &Vec<HeaderRewriteRule>,
)
    ensures
        final(head).model() == upstream_of(
            old(head).model(),
            original_host@,
            upstream_host@,
            upstream_port,
            proto,
            frontend_is_tls,
            rewrite_models(rewrites@),
        ),
        forall|i: int|
            0 <= i < final(head).headers.model().len() ==> !is_hop(
                #[trigger] final(head).headers.model()[i].name,
            ),
{
    prepare_upstream(head, original_host, upstream_host, upstream_port, proto, frontend_is_tls);
    apply_header_rewrites(&mut head.headers, rewrites);
    remove_hop_headers(&mut head.headers);
}

/// Attempts allowed for a cluster: its retry count, at least one.
pub fn attempt_budget(retries: i32) -> (r: usize)
    ensures
        r == if retries < 1 {
            1
        } else {
            retries as int
        },
{
    if retries < 1 {
        1
    } else {
        retries as usize
    }
}

pub open spec fn attempt_allowed(attempt: nat, budget: nat, body_reusable: bool) -> bool {
    attempt < budget && (attempt == 0 || body_reusable)
}

/// Whether attempt number `attempt` (from zero) may be sent after the
/// earlier ones failed: within the budget, and only the first one unless
/// the request body was already at its end.
pub fn may_attempt(attempt: usize, budget: usize, body_reusable: bool) -> (r: bool)
    ensures
        r == attempt_allowed(attempt as nat, budget as nat, body_reusable),
{
    attempt < budget && (attempt == 0 || body_reusable)
}

/// Against an upstream that always fails, a cluster with `retries` gets
/// exactly `max(retries, 1)` attempts for a request whose body has ended,
/// and exactly one otherwise.
pub proof fn law_attempt_count(retries: i32, body_reusable: bool, attempt: nat)
    ensures
        ({
            let budget: nat = if retries < 1 {
                1
            } else {
                retries as nat
            };
            let total: nat = if body_reusable {
                budget
            } else {
                1
            };
            attempt_allowed(attempt, budget, body_reusable) <==> attempt < total
        }),
{
}

/// Idle upstream connections kept per host, for each worker thread.
pub const IDLE_PER_HOST_PER_WORKER: usize = 1024;

/// Seconds an idle upstream connection is kept.
pub const IDLE_TIMEOUT_SECS: u64 = 60;

/// The idle-connection cap per host: 1024 for each worker, held at the
/// largest `usize`.
pub fn idle_per_host(workers: usize) -> (r: usize)
    ensures
        r == if workers * IDLE_PER_HOST_PER_WORKER > usize::MAX {
            usize::MAX as int
        } else {
            workers * IDLE_PER_HOST_PER_WORKER
        },
{
    if workers > usize::MAX / IDLE_PER_HOST_PER_WORKER {
        assert(workers * IDLE_PER_HOST_PER_WORKER > usize::MAX) by (nonlinear_arith)
            requires
                workers > usize::MAX / 1024,
        ;
        usize::MAX
    } else {
        assert(workers * IDLE_PER_HOST_PER_WORKER <= usize::MAX) by (nonlinear_arith)
            requires
                workers <= usize::MAX / 1024,
        ;
        workers * IDLE_PER_HOST_PER_WORKER
    }
}

} // verus!
