//! Forward-auth: when a request must be checked, what the auth service is
//! sent, and what its answer means.
use vstd::prelude::*;
use crate::forward::{ProxyError, ascii_text, ascii_string, is_visible_ascii, visible_ascii};
use crate::headers::{
    FieldModel, HeaderList, bytes_of, first_value, is_valid_value, proto_value, value_bytes,
    value_ok, with_value,
};
use crate::rules::{AuthConfigDex, AuthModel, canonical_header_name, header_name_of, string_views};
use crate::text::{contains, is_prefix, occurs_in, push_char, push_str, replace, replace_all, starts_with};

verus! {

pub open spec fn unreserved(b: u8) -> bool {
    (65 <= b && b <= 90) || (97 <= b && b <= 122) || (48 <= b && b <= 57) || b == 45 || b == 46
        || b == 95 || b == 126
}

pub open spec fn hex_digit(d: u8) -> char {
    if d < 10 {
        ((d + 48) as u32) as char
    } else {
        ((d + 55) as u32) as char
    }
}

/// Unreserved bytes kept, every other byte written `%XX` in uppercase hex.
pub open spec fn percent_encoded(b: Seq<u8>) -> Seq<char>
    decreases b.len(),
{
    if b.len() == 0 {
        Seq::empty()
    } else {
        let prev = percent_encoded(b.drop_last());
        let x = b.last();
        if unreserved(x) {
            prev.push(x as char)
        } else {
            prev.push('%').push(hex_digit(x / 16)).push(hex_digit(x % 16))
        }
    }
}

fn hex_char(d: u8) -> (r: char)
    requires
        d < 16,
    ensures
        r == hex_digit(d),
{
    if d < 10 {
        (d + 48) as char
    } else {
        (d + 55) as char
    }
}

pub fn percent_encode(input: &str) -> (r: String)
    ensures
        r@ == percent_encoded(value_bytes(input@)),
{
    let b = bytes_of(input);
    let mut out = String::new();
    let mut i: usize = 0;
    while i < b.len()
        invariant
            i <= b@.len(),
            out@ == percent_encoded(b@.subrange(0, i as int)),
        decreases b@.len() - i,
    {
        assert(b@.subrange(0, i + 1).drop_last() =~= b@.subrange(0, i as int));
        let x = b[i];
        if (65 <= x && x <= 90) || (97 <= x && x <= 122) || (48 <= x && x <= 57) || x == 45 || x == 46
            || x == 95 || x == 126 {
            push_char(&mut out, x as char);
        } else {
            push_char(&mut out, '%');
            push_char(&mut out, hex_char(x / 16));
            push_char(&mut out, hex_char(x % 16));
        }
        i += 1;
    }
    assert(b@.subrange(0, i as int) =~= b@);
    out
}

pub open spec fn scheme_text(frontend_is_tls: bool) -> Seq<char> {
    if frontend_is_tls {
        "https"@
    } else {
        "http"@
    }
}

/// The request's path and query, "/" when it has none.
pub open spec fn target_of(path_and_query: Option<Seq<char>>) -> Seq<char> {
    match path_and_query {
        Some(p) => p,
        None => "/"@,
    }
}

/// The sign-in template with `$host`, `$escaped_request_uri` and
/// `$scheme` filled in, in that order.
pub open spec fn signin_location(tmpl: Seq<char>, host: Seq<char>, target: Seq<char>, frontend_is_tls: bool) -> Seq<char> {
    let a = replace_all(tmpl, "$host"@, host);
    let b = replace_all(a, "$escaped_request_uri"@, percent_encoded(value_bytes(target)));
    replace_all(b, "$scheme"@, scheme_text(frontend_is_tls))
}

pub fn request_target(path_and_query: Option<&str>) -> (r: String)
    ensures
        r@ == target_of(
            match path_and_query {
                Some(p) => Some(p@),
                None => None,
            },
        ),
{
    match path_and_query {
        Some(p) => crate::text::str_to_string(p),
        None => crate::text::str_to_string("/"),
    }
}

pub fn build_signin_location(signin_tmpl: &str, host: &str, target: &str, frontend_is_tls: bool) -> (r: String)
    ensures
        r@ == signin_location(signin_tmpl@, host@, target@, frontend_is_tls),
{
    proof {
        reveal_strlit("$host");
        reveal_strlit("$escaped_request_uri");
        reveal_strlit("$scheme");
    }
    let escaped = percent_encode(target);
    let a = replace(signin_tmpl, "$host", host);
    let b = replace(a.as_str(), "$escaped_request_uri", escaped.as_str());
    let scheme = if frontend_is_tls {
        "https"
    } else {
        "http"
    };
    replace(b.as_str(), "$scheme", scheme)
}

/// What to do with a request before it is forwarded.
#[derive(Clone, Debug)]
pub enum AuthGate {
    /// No check for this path.
    Skip,
    /// Send the client to the sign-in page.
    Redirect(String),
    /// Ask the auth service at this URL.
    Check(String),
    /// Answer with an error.
    Fail(ProxyError),
}

/// What `http::Uri` accepts as a URI.
pub uninterp spec fn uri_ok(s: Seq<char>) -> bool;

/// Relies on `http::Uri::from_str`: whether the text parses as a URI.
#[verifier::external_body]
pub(crate) fn parses_as_uri(s: &str) -> (r: bool)
    ensures
        r == uri_ok(s@),
{
    s.parse::<http::Uri>().is_ok()
}

pub open spec fn skip_match(prefixes: Seq<Seq<char>>, path: Seq<char>) -> bool {
    exists|i: int| 0 <= i < prefixes.len() && is_prefix(#[trigger] prefixes[i], path)
}

/// Before forwarding: paths under a skip prefix pass; with a cookie name set, a request
/// whose readable `Cookie` lacks `<name>=` (or has no `Cookie`) goes to
/// sign-in when a template exists; otherwise the auth URL is asked.
pub open spec fn gate_of(
    auth: AuthModel,
    path: Seq<char>,
    cookie: Option<Seq<u8>>,
    host: Seq<char>,
    target: Seq<char>,
    frontend_is_tls: bool,
) -> Option<Seq<char>> {
    if skip_match(auth.skip_paths, path) {
        None
    } else {
        match (auth.cookie_name, auth.signin) {
            (Some(n), Some(t)) => match cookie {
                Some(c) => if visible_ascii(c) && !occurs_in(n.push('='), ascii_text(c)) {
                    Some(signin_location(t, host, target, frontend_is_tls))
                } else {
                    None
                },
                None => Some(signin_location(t, host, target, frontend_is_tls)),
            },
            _ => None,
        }
    }
}

pub fn auth_gate(
    auth: &AuthConfigDex,
    path: &str,
    cookie: Option<&Vec<u8>>,
    host: &str,
    target: &str,
    frontend_is_tls: bool,
) -> (r: AuthGate)
    ensures
        ({
            let cookie_v = match cookie {
                Some(c) => Some(c@),
                None => None,
            };
            let redirect = gate_of(auth.model(), path@, cookie_v, host@, target@, frontend_is_tls);
            match r {
                AuthGate::Skip => skip_match(auth.model().skip_paths, path@),
                AuthGate::Redirect(loc) => !skip_match(auth.model().skip_paths, path@) && redirect
                    == Some(loc@),
                AuthGate::Check(url) => !skip_match(auth.model().skip_paths, path@) && redirect is None
                    && auth.model().url == Some(url@) && uri_ok(url@),
                AuthGate::Fail(e) => !skip_match(auth.model().skip_paths, path@) && redirect is None
                    && match auth.model().url {
                    Some(u) => !uri_ok(u) && e == ProxyError::AuthUrlInvalid,
                    None => e == ProxyError::AuthUrlMissing,
                },
            }
        }),
{
    let mut k: usize = 0;
    while k < auth.skip_paths.len()
        invariant
            k <= auth.skip_paths@.len(),
            forall|j: int| 0 <= j < k ==> !is_prefix(#[trigger] string_views(auth.skip_paths@)[j], path@),
        decreases auth.skip_paths@.len() - k,
    {
        assert(string_views(auth.skip_paths@)[k as int] == auth.skip_paths@[k as int]@);
        if starts_with(path, auth.skip_paths[k].as_str()) {
            return AuthGate::Skip;
        }
        k += 1;
    }
    match (&auth.cookie_name, &auth.signin) {
        (Some(n), Some(t)) => {
            let send_to_signin = match cookie {
                Some(c) => {
                    if is_visible_ascii(c) {
                        let text = ascii_string(c);
                        let mut needle = crate::text::copy_string(n);
                        push_char(&mut needle, '=');
                        !contains(text.as_str(), needle.as_str())
                    } else {
                        false
                    }
                },
                None => true,
            };
            if send_to_signin {
                return AuthGate::Redirect(build_signin_location(t.as_str(), host, target, frontend_is_tls));
            }
        },
        _ => {},
    }
    match &auth.url {
        Some(u) => {
            if parses_as_uri(u.as_str()) {
                AuthGate::Check(crate::text::copy_string(u))
            } else {
                AuthGate::Fail(ProxyError::AuthUrlInvalid)
            }
        },
        None => AuthGate::Fail(ProxyError::AuthUrlMissing),
    }
}

/// What the auth service's answer means for the request.
#[derive(Clone, Debug)]
pub enum AuthVerdict {
    Allow,
    Redirect(String),
    Deny(ProxyError),
}

/// 2xx allows; 401 and 403 send to sign-in when a template exists, else
/// deny as unauthorized; another status, or no answer, is a bad gateway.
pub fn auth_verdict(
    auth: &AuthConfigDex,
    status: Option<u16>,
    host: &str,
    target: &str,
    frontend_is_tls: bool,
) -> (r: AuthVerdict)
    ensures
        match status {
            None => r == AuthVerdict::Deny(ProxyError::AuthUnavailable),
            Some(s) => if 200 <= s && s < 300 {
                r == AuthVerdict::Allow
            } else if s == 401 || s == 403 {
                match auth.model().signin {
                    Some(t) => r matches AuthVerdict::Redirect(loc) && loc@ == signin_location(
                        t,
                        host@,
                        target@,
                        frontend_is_tls,
                    ),
                    None => r == AuthVerdict::Deny(ProxyError::Unauthorized),
                }
            } else {
                r == AuthVerdict::Deny(ProxyError::AuthStatus(s))
            },
        },
{
    match status {
        None => AuthVerdict::Deny(ProxyError::AuthUnavailable),
        Some(s) => {
            if 200 <= s && s < 300 {
                AuthVerdict::Allow
            } else if s == 401 || s == 403 {
                match &auth.signin {
                    Some(t) => AuthVerdict::Redirect(
                        build_signin_location(t.as_str(), host, target, frontend_is_tls),
                    ),
                    None => AuthVerdict::Deny(ProxyError::Unauthorized),
                }
            } else {
                AuthVerdict::Deny(ProxyError::AuthStatus(s))
            }
        },
    }
}

pub open spec fn redirect_url(host: Seq<char>, target: Seq<char>, frontend_is_tls: bool) -> Seq<char> {
    scheme_text(frontend_is_tls) + "://"@ + host + target
}

pub open spec fn set_if_valid(s: Seq<FieldModel>, n: Seq<char>, v: Seq<char>) -> Seq<FieldModel> {
    if value_ok(v) {
        with_value(s, n, value_bytes(v))
    } else {
        s
    }
}

pub open spec fn copy_first(s: Seq<FieldModel>, from: Seq<FieldModel>, n: Seq<char>) -> Seq<FieldModel> {
    match first_value(from, n) {
        Some(v) => with_value(s, n, v),
        None => s,
    }
}

/// Fields of the auth subrequest: the client's `Cookie` and
/// `Authorization`, and what the auth service needs to know of the
/// original request.
pub open spec fn auth_request_fields(
    orig: Seq<FieldModel>,
    host: Seq<char>,
    target: Seq<char>,
    frontend_is_tls: bool,
) -> Seq<FieldModel> {
    let s1 = copy_first(Seq::empty(), orig, "cookie"@);
    let s2 = copy_first(s1, orig, "authorization"@);
    let s3 = with_value(s2, "x-forwarded-proto"@, proto_value(frontend_is_tls));
    let s4 = set_if_valid(s3, "x-forwarded-host"@, host);
    let s5 = set_if_valid(s4, "x-forwarded-uri"@, target);
    let s6 = set_if_valid(s5, "x-original-uri"@, target);
    set_if_valid(s6, "x-auth-request-redirect"@, redirect_url(host, target, frontend_is_tls))
}

fn set_text_if_valid(h: &mut HeaderList, n: &str, v: &str)
    ensures
        final(h).model() == set_if_valid(old(h).model(), n@, v@),
{
    if is_valid_value(v) {
        h.insert(n, bytes_of(v));
    }
}

fn copy_first_value(h: &mut HeaderList, from: &HeaderList, n: &str)
    ensures
        final(h).model() == copy_first(old(h).model(), from.model(), n@),
{
    match from.get(n) {
        Some(v) => h.insert(n, v),
        None => {},
    }
}

pub fn build_auth_request_headers(
    original: &HeaderList,
    host: &str,
    target: &str,
    frontend_is_tls: bool,
) -> (r: HeaderList)
    ensures
        r.model() == auth_request_fields(original.model(), host@, target@, frontend_is_tls),
{
    let mut h = HeaderList::new();
    copy_first_value(&mut h, original, "cookie");
    copy_first_value(&mut h, original, "authorization");
    let proto = if frontend_is_tls {
        bytes_of("https")
    } else {
        bytes_of("http")
    };
    h.insert("x-forwarded-proto", proto);
    set_text_if_valid(&mut h, "x-forwarded-host", host);
    set_text_if_valid(&mut h, "x-forwarded-uri", target);
    set_text_if_valid(&mut h, "x-original-uri", target);
    let mut redirect = if frontend_is_tls {
        crate::text::str_to_string("https")
    } else {
        crate::text::str_to_string("http")
    };
    push_str(&mut redirect, "://");
    push_str(&mut redirect, host);
    push_str(&mut redirect, target);
    set_text_if_valid(&mut h, "x-auth-request-redirect", redirect.as_str());
    h
}

/// One configured name copied from the auth answer, when `http` accepts
/// the name and the answer has it.
pub open spec fn copy_step(s: Seq<FieldModel>, answer: Seq<FieldModel>, name: Seq<char>) -> Seq<FieldModel> {
    match header_name_of(name) {
        Some(n) => copy_first(s, answer, n),
        None => s,
    }
}

pub open spec fn copied(s: Seq<FieldModel>, answer: Seq<FieldModel>, names: Seq<Seq<char>>) -> Seq<FieldModel>
    decreases names.len(),
{
    if names.len() == 0 {
        s
    } else {
        copy_step(copied(s, answer, names.drop_last()), answer, names.last())
    }
}

/// Copies the configured fields of the auth answer into the request,
/// replacing what it had under those names.
pub fn copy_auth_response_headers(req: &mut HeaderList, answer: &HeaderList, names: &Vec<String>)
    ensures
        final(req).model() == copied(old(req).model(), answer.model(), string_views(names@)),
{
    let ghost s = req.model();
    let mut i: usize = 0;
    while i < names.len()
        invariant
            i <= names@.len(),
            req.model() == copied(s, answer.model(), string_views(names@.subrange(0, i as int))),
        decreases names@.len() - i,
    {
        let ghost pre = string_views(names@.subrange(0, i as int));
        assert(string_views(names@.subrange(0, i + 1)) =~= pre.push(names@[i as int]@));
        assert(pre.push(names@[i as int]@).drop_last() =~= pre);
        match canonical_header_name(names[i].as_str()) {
            Some(n) => copy_first_value(req, answer, n.as_str()),
            None => {},
        }
        i += 1;
    }
    assert(names@.subrange(0, i as int) =~= names@);
}

} // verus!
