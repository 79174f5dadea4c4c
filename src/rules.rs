//! Per-cluster rules decoded from a snapshot: matching kinds, balancing
//! policies, backend protocols, header rewrites and forward-auth settings.
use vstd::prelude::*;
use crate::model::{AuthConfig, HeaderRewrite};
use crate::text::{is_blank, lower, str_eq, to_ascii_lowercase, trim, trimmed, copy_string};

verus! {

/// How a route's path is compared with a request path.
#[derive(Clone, Copy, Debug, PartialEq, Eq, Structural)]
pub enum PathType {
    Prefix,
    Exact,
}

pub open spec fn path_type_of(s: Seq<char>) -> Option<PathType> {
    if s == "Prefix"@ {
        Some(PathType::Prefix)
    } else if s == "Exact"@ {
        Some(PathType::Exact)
    } else {
        None
    }
}

impl PathType {
    pub fn parse(s: &str) -> (r: Option<PathType>)
        ensures
            r == path_type_of(s@),
    {
        if str_eq(s, "Prefix") {
            Some(PathType::Prefix)
        } else if str_eq(s, "Exact") {
            Some(PathType::Exact)
        } else {
            None
        }
    }
}

/// How an endpoint of a cluster is picked.
#[derive(Clone, Copy, Debug, PartialEq, Eq, Structural)]
pub enum LBPolicy {
    RoundRobin,
    LeastConn,
}

pub open spec fn lb_policy_of(s: Seq<char>) -> Option<LBPolicy> {
    if s == "RoundRobin"@ {
        Some(LBPolicy::RoundRobin)
    } else if s == "LeastConn"@ {
        Some(LBPolicy::LeastConn)
    } else {
        None
    }
}

impl LBPolicy {
    pub fn parse(s: &str) -> (r: Option<LBPolicy>)
        ensures
            r == lb_policy_of(s@),
    {
        if str_eq(s, "RoundRobin") {
            Some(LBPolicy::RoundRobin)
        } else if str_eq(s, "LeastConn") {
            Some(LBPolicy::LeastConn)
        } else {
            None
        }
    }
}

/// Protocol spoken to the upstream.
#[derive(Clone, Copy, Debug, PartialEq, Eq, Structural)]
pub enum BackendProtocol {
    H1,
    H2,
    H1Ssl,
    H2Ssl,
}

pub open spec fn backend_protocol_of(s: Seq<char>) -> Option<BackendProtocol> {
    if s == "h1"@ {
        Some(BackendProtocol::H1)
    } else if s == "h2"@ {
        Some(BackendProtocol::H2)
    } else if s == "h1-ssl"@ {
        Some(BackendProtocol::H1Ssl)
    } else if s == "h2-ssl"@ {
        Some(BackendProtocol::H2Ssl)
    } else {
        None
    }
}

impl BackendProtocol {
    pub fn parse(s: &str) -> (r: Option<BackendProtocol>)
        ensures
            r == backend_protocol_of(s@),
    {
        if str_eq(s, "h1") {
            Some(BackendProtocol::H1)
        } else if str_eq(s, "h2") {
            Some(BackendProtocol::H2)
        } else if str_eq(s, "h1-ssl") {
            Some(BackendProtocol::H1Ssl)
        } else if str_eq(s, "h2-ssl") {
            Some(BackendProtocol::H2Ssl)
        } else {
            None
        }
    }

    pub open spec fn spec_is_tls(self) -> bool {
        self == BackendProtocol::H1Ssl || self == BackendProtocol::H2Ssl
    }

    pub open spec fn spec_is_h2(self) -> bool {
        self == BackendProtocol::H2 || self == BackendProtocol::H2Ssl
    }

    /// Whether the upstream leg uses TLS.
    pub fn is_tls(&self) -> (r: bool)
        ensures
            r == self.spec_is_tls(),
    {
        *self == BackendProtocol::H1Ssl || *self == BackendProtocol::H2Ssl
    }

    /// Whether the upstream leg speaks HTTP/2.
    pub fn is_h2(&self) -> (r: bool)
        ensures
            r == self.spec_is_h2(),
    {
        *self == BackendProtocol::H2 || *self == BackendProtocol::H2Ssl
    }
}

/// What a header rewrite does.
#[derive(Clone, Copy, Debug, PartialEq, Eq, Structural)]
pub enum HeaderRewriteMode {
    Replace,
    Append,
    Remove,
}

/// The mode named by `s`, compared in ASCII lowercase.
pub open spec fn rewrite_mode_of(s: Seq<char>) -> Option<HeaderRewriteMode> {
    if lower(s) == "set"@ {
        Some(HeaderRewriteMode::Replace)
    } else if lower(s) == "append"@ {
        Some(HeaderRewriteMode::Append)
    } else if lower(s) == "remove"@ {
        Some(HeaderRewriteMode::Remove)
    } else {
        None
    }
}

impl HeaderRewriteMode {
    pub fn parse(mode: &str) -> (r: Option<HeaderRewriteMode>)
        ensures
            r == rewrite_mode_of(mode@),
    {
        let m = to_ascii_lowercase(mode);
        if str_eq(m.as_str(), "set") {
            Some(HeaderRewriteMode::Replace)
        } else if str_eq(m.as_str(), "append") {
            Some(HeaderRewriteMode::Append)
        } else if str_eq(m.as_str(), "remove") {
            Some(HeaderRewriteMode::Remove)
        } else {
            None
        }
    }
}

/// What `http::HeaderName::from_bytes` makes of a name: its lowercase
/// canonical form, or nothing for a name it rejects.
pub uninterp spec fn header_name_of(s: Seq<char>) -> Option<Seq<char>>;

/// Relies on `http::HeaderName::from_bytes`: validates a header name and
/// gives its canonical (lowercase) text.
#[verifier::external_body]
pub(crate) fn canonical_header_name(name: &str) -> (r: Option<String>)
    ensures
        match r {
            Some(n) => header_name_of(name@) == Some(n@),
            None => header_name_of(name@) is None,
        },
{
    http::HeaderName::from_bytes(name.as_bytes()).ok().map(|h| h.as_str().to_string())
}

/// A decoded header rewrite; `name` is in canonical form.
#[derive(Clone, Debug)]
pub struct HeaderRewriteRule {
    pub name: String,
    pub value: Option<String>,
    pub mode: HeaderRewriteMode,
}

pub struct RewriteModel {
    pub name: Seq<char>,
    pub value: Option<Seq<char>>,
    pub mode: HeaderRewriteMode,
}

pub open spec fn opt_view(o: Option<String>) -> Option<Seq<char>> {
    match o {
        Some(s) => Some(s@),
        None => None,
    }
}

impl HeaderRewriteRule {
    pub open spec fn model(&self) -> RewriteModel {
        RewriteModel { name: self.name@, value: opt_view(self.value), mode: self.mode }
    }
}

pub open spec fn rewrite_models(s: Seq<HeaderRewriteRule>) -> Seq<RewriteModel> {
    s.map_values(|r: HeaderRewriteRule| r.model())
}

/// The rule one configured rewrite gives, if it is kept: its trimmed name
/// is not empty, its mode is known and `http` accepts the name.
pub open spec fn rewrite_of(item: HeaderRewrite) -> Option<RewriteModel> {
    let name = trim(item.name@);
    if name.len() == 0 {
        None
    } else {
        match rewrite_mode_of(item.mode@) {
            None => None,
            Some(mode) => match header_name_of(name) {
                None => None,
                Some(canonical) => Some(
                    RewriteModel {
                        name: canonical,
                        value: if mode == HeaderRewriteMode::Remove {
                            None
                        } else {
                            Some(item.value@)
                        },
                        mode,
                    },
                ),
            },
        }
    }
}

/// The kept rules of a configured list, in order.
pub open spec fn rewrites_of(items: Seq<HeaderRewrite>) -> Seq<RewriteModel>
    decreases items.len(),
{
    if items.len() == 0 {
        Seq::empty()
    } else {
        let prev = rewrites_of(items.drop_last());
        match rewrite_of(items.last()) {
            Some(m) => prev.push(m),
            None => prev,
        }
    }
}

pub fn build_header_rewrite(item: &HeaderRewrite) -> (r: Option<HeaderRewriteRule>)
    ensures
        match r {
            Some(rule) => rewrite_of(*item) == Some(rule.model()),
            None => rewrite_of(*item) is None,
        },
{
    let name = trimmed(item.name.as_str());
    if name.as_str().is_empty() {
        return None;
    }
    let mode = match HeaderRewriteMode::parse(item.mode.as_str()) {
        Some(m) => m,
        None => {
            return None;
        },
    };
    let value = if mode == HeaderRewriteMode::Remove {
        None
    } else {
        Some(copy_string(&item.value))
    };
    match canonical_header_name(name.as_str()) {
        Some(canonical) => Some(HeaderRewriteRule { name: canonical, value, mode }),
        None => None,
    }
}

/// Decodes a cluster's configured rewrites, dropping those that are not
/// usable, in declaration order.
pub fn build_header_rewrites(items: &Vec<HeaderRewrite>) -> (r: Vec<HeaderRewriteRule>)
    ensures
        rewrite_models(r@) == rewrites_of(items@),
{
    let mut out: Vec<HeaderRewriteRule> = Vec::new();
    let mut i: usize = 0;
    while i < items.len()
        invariant
            i <= items@.len(),
            rewrite_models(out@) == rewrites_of(items@.subrange(0, i as int)),
        decreases items@.len() - i,
    {
        assert(items@.subrange(0, i + 1).drop_last() =~= items@.subrange(0, i as int));
        let ghost before = out@;
        match build_header_rewrite(&items[i]) {
            Some(rule) => {
                out.push(rule);
                assert(rewrite_models(out@) =~= rewrite_models(before).push(rule.model()));
            },
            None => {},
        }
        i += 1;
    }
    assert(items@.subrange(0, i as int) =~= items@);
    out
}

pub open spec fn string_views(s: Seq<String>) -> Seq<Seq<char>> {
    s.map_values(|x: String| x@)
}

/// Some entry of `list` equals `v` up to ASCII case.
pub open spec fn seen_ignoring_case(list: Seq<Seq<char>>, v: Seq<char>) -> bool {
    exists|k: int| 0 <= k < list.len() && lower(#[trigger] list[k]) == lower(v)
}

/// The list trimmed, without empty entries, and with only the first of
/// entries that are equal up to ASCII case, in order.
pub open spec fn normalize_list(items: Seq<Seq<char>>) -> Seq<Seq<char>>
    decreases items.len(),
{
    if items.len() == 0 {
        Seq::empty()
    } else {
        let prev = normalize_list(items.drop_last());
        let v = trim(items.last());
        if v.len() == 0 || seen_ignoring_case(prev, v) {
            prev
        } else {
            prev.push(v)
        }
    }
}

pub fn eq_ignore_ascii_case(a: &str, b: &str) -> (r: bool)
    ensures
        r == (lower(a@) == lower(b@)),
{
    let la = to_ascii_lowercase(a);
    let lb = to_ascii_lowercase(b);
    str_eq(la.as_str(), lb.as_str())
}

pub fn normalize_names(items: &Vec<String>) -> (r: Vec<String>)
    ensures
        string_views(r@) == normalize_list(string_views(items@)),
{
    let mut out: Vec<String> = Vec::new();
    let mut i: usize = 0;
    while i < items.len()
        invariant
            i <= items@.len(),
            string_views(out@) == normalize_list(string_views(items@.subrange(0, i as int))),
        decreases items@.len() - i,
    {
        let ghost pre = string_views(items@.subrange(0, i as int));
        assert(string_views(items@.subrange(0, i + 1)).drop_last() =~= pre);
        assert(string_views(items@.subrange(0, i + 1)).last() == items@[i as int]@);
        let v = trimmed(items[i].as_str());
        if !v.as_str().is_empty() {
            let mut seen = false;
            let mut k: usize = 0;
            while k < out.len()
                invariant
                    k <= out@.len(),
                    seen == exists|j: int| 0 <= j < k && lower(#[trigger] string_views(out@)[j]) == lower(v@),
                decreases out@.len() - k,
            {
                assert(string_views(out@)[k as int] == out@[k as int]@);
                if eq_ignore_ascii_case(out[k].as_str(), v.as_str()) {
                    seen = true;
                }
                k += 1;
            }
            assert(seen == seen_ignoring_case(string_views(out@), v@));
            if !seen {
                let ghost before = out@;
                out.push(v);
                assert(string_views(out@) =~= string_views(before).push(v@));
            }
        }
        i += 1;
    }
    assert(items@.subrange(0, i as int) =~= items@);
    out
}

/// Forward-auth settings ready for use: blank strings become `None`, the
/// lists are normalized.
#[derive(Clone, Debug)]
pub struct AuthConfigDex {
    pub url: Option<String>,
    pub signin: Option<String>,
    pub response_headers: Vec<String>,
    pub skip_paths: Vec<String>,
    pub cookie_name: Option<String>,
}

pub struct AuthModel {
    pub url: Option<Seq<char>>,
    pub signin: Option<Seq<char>>,
    pub response_headers: Seq<Seq<char>>,
    pub skip_paths: Seq<Seq<char>>,
    pub cookie_name: Option<Seq<char>>,
}

/// `None` for a blank setting, else the setting as given.
pub open spec fn unless_blank(s: Seq<char>) -> Option<Seq<char>> {
    if trim(s).len() == 0 {
        None
    } else {
        Some(s)
    }
}

pub open spec fn auth_model_of(pb: AuthConfig) -> AuthModel {
    AuthModel {
        url: unless_blank(pb.url@),
        signin: unless_blank(pb.signin@),
        response_headers: normalize_list(string_views(pb.response_headers@)),
        skip_paths: normalize_list(string_views(pb.skip_paths@)),
        cookie_name: unless_blank(pb.cookie_name@),
    }
}

/// Whether any forward-auth setting is given.
pub open spec fn auth_configured(pb: AuthConfig) -> bool {
    trim(pb.url@).len() != 0 || trim(pb.signin@).len() != 0 || pb.response_headers@.len() != 0
        || pb.skip_paths@.len() != 0 || trim(pb.cookie_name@).len() != 0
}

pub open spec fn auth_runtime_of(auth: Option<AuthConfig>) -> Option<AuthModel> {
    match auth {
        Some(pb) => if auth_configured(pb) {
            Some(auth_model_of(pb))
        } else {
            None
        },
        None => None,
    }
}

fn unless_blank_copy(s: &String) -> (r: Option<String>)
    ensures
        opt_view(r) == unless_blank(s@),
{
    if is_blank(s.as_str()) {
        None
    } else {
        Some(copy_string(s))
    }
}

impl AuthConfigDex {
    pub open spec fn model(&self) -> AuthModel {
        AuthModel {
            url: opt_view(self.url),
            signin: opt_view(self.signin),
            response_headers: string_views(self.response_headers@),
            skip_paths: string_views(self.skip_paths@),
            cookie_name: opt_view(self.cookie_name),
        }
    }

    pub fn from_pb(pb: &AuthConfig) -> (r: Self)
        ensures
            r.model() == auth_model_of(*pb),
    {
        AuthConfigDex {
            url: unless_blank_copy(&pb.url),
            signin: unless_blank_copy(&pb.signin),
            response_headers: normalize_names(&pb.response_headers),
            skip_paths: normalize_names(&pb.skip_paths),
            cookie_name: unless_blank_copy(&pb.cookie_name),
        }
    }
}

pub open spec fn opt_auth_model(a: Option<AuthConfigDex>) -> Option<AuthModel> {
    match a {
        Some(x) => Some(x.model()),
        None => None,
    }
}

/// Forward-auth for a cluster: none when nothing is configured.
pub fn build_auth_runtime(auth: &Option<AuthConfig>) -> (r: Option<AuthConfigDex>)
    ensures
        opt_auth_model(r) == auth_runtime_of(*auth),
{
    match auth {
        None => None,
        Some(pb) => {
            let has_any = !is_blank(pb.url.as_str()) || !is_blank(pb.signin.as_str())
                || pb.response_headers.len() != 0 || pb.skip_paths.len() != 0 || !is_blank(
                pb.cookie_name.as_str(),
            );
            if has_any {
                Some(AuthConfigDex::from_pb(pb))
            } else {
                None
            }
        },
    }
}

} // verus!
