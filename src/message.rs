//! Minimal HTTP/1.1 messages of the virtual-server front: request parsing,
//! response heads, and where a request goes.
use vstd::prelude::*;
use crate::config::{ServerConfig, after_first_token, first_token, last_value, path_models};
use crate::headers::{bytes_of, value_bytes};
use crate::text::{
    chars_of, decimal, decimal_string, lines, lines_of, push_str, str_eq, string_of_range, string_views_of,
    trim, trimmed,
};

verus! {

/// What `String::from_utf8_lossy` makes of bytes: invalid sequences become
/// U+FFFD.
pub uninterp spec fn lossy_text_of(b: Seq<u8>) -> Seq<char>;

/// Relies on `String::from_utf8_lossy`: decodes the bytes, replacing what
/// is not UTF-8.
#[verifier::external_body]
fn lossy_text(data: &[u8]) -> (r: String)
    ensures
        r@ == lossy_text_of(data@),
{
    String::from_utf8_lossy(data).into_owned()
}

/// First index where `p` occurs in `s`, or the length of `s`.
pub open spec fn find_index<T>(s: Seq<T>, p: Seq<T>) -> int
    decreases s.len(),
{
    if s.len() < p.len() {
        s.len() as int
    } else if s.subrange(0, p.len() as int) == p {
        0
    } else if s.len() == 0 {
        0
    } else {
        1 + find_index(s.drop_first(), p)
    }
}

proof fn lemma_find_index<T>(s: Seq<T>, p: Seq<T>, k: int)
    requires
        0 <= k <= s.len(),
        p.len() > 0,
        forall|q: int| 0 <= q < k && q + p.len() <= s.len() ==> #[trigger] s.subrange(q, q + p.len()) != p,
        k + p.len() > s.len() || s.subrange(k, k + p.len()) == p,
        k + p.len() > s.len() ==> k == s.len(),
    ensures
        find_index(s, p) == k,
    decreases k,
{
    if k > 0 {
        let t = s.drop_first();
        if s.len() >= p.len() {
            assert(s.subrange(0int, 0int + p.len()) != p);
            assert(s.subrange(0int, 0int + p.len()) =~= s.subrange(0, p.len() as int));
            assert forall|q: int| 0 <= q < k - 1 && q + p.len() <= t.len() implies #[trigger] t.subrange(
                q,
                q + p.len(),
            ) != p by {
                assert(t.subrange(q, q + p.len()) =~= s.subrange(q + 1, q + 1 + p.len()));
            }
            if k + p.len() <= s.len() {
                assert(t.subrange(k - 1, k - 1 + p.len()) =~= s.subrange(k, k + p.len()));
            }
            lemma_find_index(t, p, k - 1);
        }
    } else {
        if s.len() >= p.len() {
            assert(s.subrange(0, p.len() as int) == p);
        }
    }
}

/// Index of the first occurrence of `sep` in `v`, or the length of `v`.
fn find_separator(v: &Vec<char>, sep: &Vec<char>) -> (r: usize)
    requires
        sep@.len() > 0,
    ensures
        r == find_index(v@, sep@),
        r <= v@.len(),
{
    let n = v.len();
    let m = sep.len();
    let mut i: usize = 0;
    while i < n
        invariant
            i <= n == v@.len(),
            m == sep@.len() > 0,
            forall|q: int| 0 <= q < i && q + m <= n ==> #[trigger] v@.subrange(q, q + m) != sep@,
        decreases n - i,
    {
        if m <= n - i {
            if crate::text::matches_at(v, sep, i) {
                proof {
                    lemma_find_index(v@, sep@, i as int);
                }
                return i;
            }
        } else {
            proof {
                lemma_find_index(v@, sep@, n as int);
            }
            return n;
        }
        i += 1;
    }
    proof {
        lemma_find_index(v@, sep@, n as int);
    }
    n
}

/// Index of the first occurrence of `sep` in the bytes, or their count.
fn find_separator_bytes(v: &[u8], sep: &Vec<u8>) -> (r: usize)
    requires
        sep@.len() > 0,
    ensures
        r == find_index(v@, sep@),
        r <= v@.len(),
{
    let n = v.len();
    let m = sep.len();
    let mut i: usize = 0;
    while i < n
        invariant
            i <= n == v@.len(),
            m == sep@.len() > 0,
            forall|q: int| 0 <= q < i && q + m <= n ==> #[trigger] v@.subrange(q, q + m) != sep@,
        decreases n - i,
    {
        if m <= n - i {
            let mut j: usize = 0;
            while j < m && v[i + j] == sep[j]
                invariant
                    j <= m == sep@.len(),
                    i + m <= n == v@.len(),
                    v@.subrange(i as int, i + j) == sep@.subrange(0, j as int),
                decreases m - j,
            {
                j += 1;
                assert(v@.subrange(i as int, i + j) =~= v@.subrange(i as int, i + j - 1).push(v@[i + j - 1]));
                assert(sep@.subrange(0, j as int) =~= sep@.subrange(0, j - 1).push(sep@[j - 1]));
            }
            if j == m {
                assert(sep@.subrange(0, m as int) =~= sep@);
                proof {
                    lemma_find_index(v@, sep@, i as int);
                }
                return i;
            }
            assert(v@.subrange(i as int, i + m)[j as int] == v@[i + j]);
        } else {
            proof {
                lemma_find_index(v@, sep@, n as int);
            }
            return n;
        }
        i += 1;
    }
    proof {
        lemma_find_index(v@, sep@, n as int);
    }
    n
}

pub open spec fn blank_line() -> Seq<char> {
    seq!['\r', '\n', '\r', '\n']
}

pub open spec fn blank_line_bytes() -> Seq<u8> {
    seq![13u8, 10u8, 13u8, 10u8]
}

/// A parsed request of the virtual-server front.
#[derive(Clone, Debug)]
pub struct Request {
    pub method: String,
    pub path: String,
    pub version: String,
    pub headers: Vec<(String, String)>,
    pub body: Vec<u8>,
}

pub struct RequestModel {
    pub method: Seq<char>,
    pub path: Seq<char>,
    pub version: Seq<char>,
    pub headers: Seq<(Seq<char>, Seq<char>)>,
    pub body: Seq<u8>,
}

pub open spec fn pair_views(s: Seq<(String, String)>) -> Seq<(Seq<char>, Seq<char>)> {
    s.map_values(|e: (String, String)| (e.0@, e.1@))
}

impl Request {
    pub open spec fn model(&self) -> RequestModel {
        RequestModel {
            method: self.method@,
            path: self.path@,
            version: self.version@,
            headers: pair_views(self.headers@),
            body: self.body@,
        }
    }

    /// The value of header `name`: the last line that gave it.
    pub fn header(&self, name: &str) -> (r: Option<&String>)
        ensures
            match r {
                Some(v) => last_value(pair_views(self.headers@), name@) == Some(v@),
                None => last_value(pair_views(self.headers@), name@) is None,
            },
    {
        let ghost pm = pair_views(self.headers@);
        let mut i: usize = self.headers.len();
        assert(pm.subrange(0, i as int) =~= pm);
        while i > 0
            invariant
                i <= self.headers@.len(),
                pm == pair_views(self.headers@),
                last_value(pm, name@) == last_value(pm.subrange(0, i as int), name@),
            decreases i,
        {
            assert(pm.subrange(0, i as int).drop_last() =~= pm.subrange(0, i - 1));
            assert(pm.subrange(0, i as int).last() == pm[i - 1]);
            if str_eq(self.headers[i - 1].0.as_str(), name) {
                return Some(&self.headers[i - 1].1);
            }
            i -= 1;
        }
        None
    }
}

/// A header line as (name, value), split at its first colon and trimmed.
pub open spec fn header_line(l: Seq<char>) -> Option<(Seq<char>, Seq<char>)> {
    let c = find_index(l, seq![':']);
    if c < l.len() {
        Some((trim(l.subrange(0, c)), trim(l.subrange(c + 1, l.len() as int))))
    } else {
        None
    }
}

pub open spec fn header_lines(ls: Seq<Seq<char>>) -> Seq<(Seq<char>, Seq<char>)>
    decreases ls.len(),
{
    if ls.len() == 0 {
        Seq::empty()
    } else {
        match header_line(ls.last()) {
            Some(h) => header_lines(ls.drop_last()).push(h),
            None => header_lines(ls.drop_last()),
        }
    }
}

/// The request in `data`: a request line of method, target and version,
/// header lines up to the first blank line, and the bytes after it.
pub open spec fn request_of(data: Seq<u8>) -> Option<RequestModel> {
    let text = lossy_text_of(data);
    let head = text.subrange(0, find_index(text, blank_line()));
    let ls = lines_of(head);
    if ls.len() == 0 {
        None
    } else {
        let l0 = ls[0];
        let r1 = after_first_token(l0);
        let r2 = after_first_token(r1);
        match (first_token(l0), first_token(r1), first_token(r2)) {
            (Some(m), Some(p), Some(v)) => {
                let b = find_index(data, blank_line_bytes());
                Some(
                    RequestModel {
                        method: m,
                        path: p,
                        version: v,
                        headers: header_lines(ls.drop_first()),
                        body: if b < data.len() {
                            data.subrange(b + 4, data.len() as int)
                        } else {
                            Seq::empty()
                        },
                    },
                )
            },
            _ => None,
        }
    }
}

fn parse_header_line(l: &String) -> (r: Option<(String, String)>)
    ensures
        match r {
            Some(h) => header_line(l@) == Some((h.0@, h.1@)),
            None => header_line(l@) is None,
        },
{
    let v = chars_of(l.as_str());
    let mut colon: Vec<char> = Vec::new();
    colon.push(':');
    assert(colon@ =~= seq![':']);
    let c = find_separator(&v, &colon);
    if c < v.len() {
        let k = string_of_range(&v, 0, c);
        let val = string_of_range(&v, c + 1, v.len());
        Some((trimmed(k.as_str()), trimmed(val.as_str())))
    } else {
        None
    }
}

impl Request {
    pub fn parse_request(data: &[u8]) -> (r: Option<Request>)
        ensures
            match r {
                Some(req) => request_of(data@) == Some(req.model()),
                None => request_of(data@) is None,
            },
    {
        let text = lossy_text(data);
        let v = chars_of(text.as_str());
        let mut sep: Vec<char> = Vec::new();
        sep.push('\r');
        sep.push('\n');
        sep.push('\r');
        sep.push('\n');
        assert(sep@ =~= blank_line());
        let h = find_separator(&v, &sep);
        let head = string_of_range(&v, 0, h);
        let ls = lines(head.as_str());
        if ls.len() == 0 {
            return None;
        }
        let l0 = chars_of(ls[0].as_str());
        assert(l0@.subrange(0, l0@.len() as int) =~= l0@);
        let (a, b) = match crate::config::next_token(&l0, 0) {
            Some(t) => t,
            None => {
                return None;
            },
        };
        let (c, d) = match crate::config::next_token(&l0, b) {
            Some(t) => t,
            None => {
                return None;
            },
        };
        let (e, f) = match crate::config::next_token(&l0, d) {
            Some(t) => t,
            None => {
                return None;
            },
        };
        let ghost all = string_views_of(ls@);
        let ghost rest = all.drop_first();
        let mut headers: Vec<(String, String)> = Vec::new();
        let mut i: usize = 1;
        assert(rest.subrange(0, 0) =~= Seq::<Seq<char>>::empty());
        assert(pair_views(headers@) =~= Seq::<(Seq<char>, Seq<char>)>::empty());
        while i < ls.len()
            invariant
                1 <= i <= ls@.len(),
                all == string_views_of(ls@),
                rest == all.drop_first(),
                pair_views(headers@) == header_lines(rest.subrange(0, i - 1)),
            decreases ls@.len() - i,
        {
            assert(rest.subrange(0, i as int).drop_last() =~= rest.subrange(0, i - 1));
            assert(rest.subrange(0, i as int).last() == ls@[i as int]@);
            match parse_header_line(&ls[i]) {
                Some(hd) => {
                    let ghost before = headers@;
                    headers.push(hd);
                    assert(pair_views(headers@) =~= pair_views(before).push((hd.0@, hd.1@)));
                },
                None => {},
            }
            i += 1;
        }
        assert(rest.subrange(0, i - 1) =~= rest);
        let mut bsep: Vec<u8> = Vec::new();
        bsep.push(13);
        bsep.push(10);
        bsep.push(13);
        bsep.push(10);
        assert(bsep@ =~= blank_line_bytes());
        let bi = find_separator_bytes(data, &bsep);
        let mut body: Vec<u8> = Vec::new();
        if bi < data.len() {
            proof {
                assert(bi + 4 <= data@.len()) by {
                    if bi + 4 > data@.len() {
                        lemma_find_index_short(data@, blank_line_bytes());
                    }
                };
            }
            let mut k: usize = bi + 4;
            while k < data.len()
                invariant
                    bi + 4 <= k <= data@.len(),
                    body@ == data@.subrange(bi + 4, k as int),
                decreases data@.len() - k,
            {
                body.push(data[k]);
                k += 1;
                assert(body@ =~= data@.subrange(bi + 4, k as int));
            }
        } else {
            assert(body@ =~= Seq::<u8>::empty());
        }
        Some(
            Request {
                method: string_of_range(&l0, a, b),
                path: string_of_range(&l0, c, d),
                version: string_of_range(&l0, e, f),
                headers,
                body,
            },
        )
    }
}

proof fn lemma_find_index_short<T>(s: Seq<T>, p: Seq<T>)
    ensures
        find_index(s, p) < s.len() ==> find_index(s, p) + p.len() <= s.len(),
    decreases s.len(),
{
    if s.len() >= p.len() && s.subrange(0, p.len() as int) != p && s.len() > 0 {
        lemma_find_index_short(s.drop_first(), p);
    }
}

/// A response head of the virtual-server front.
#[derive(Clone, Debug)]
pub struct Response {
    pub method: String,
    pub status_code: u16,
    pub reason_phrase: String,
    pub body: Vec<u8>,
    pub headers: Vec<(String, String)>,
}

pub open spec fn header_block(h: Seq<(Seq<char>, Seq<char>)>) -> Seq<char>
    decreases h.len(),
{
    if h.len() == 0 {
        Seq::empty()
    } else {
        header_block(h.drop_last()) + h.last().0 + seq![':', ' '] + h.last().1 + seq!['\r', '\n']
    }
}

/// Status line, header lines, `Content-Length` of the body, blank line.
pub open spec fn response_head(r: Response) -> Seq<char> {
    "HTTP/1.1 "@ + decimal(r.status_code as nat) + seq![' '] + r.reason_phrase@ + seq!['\r', '\n']
        + header_block(pair_views(r.headers@)) + "Content-Length: "@ + decimal(r.body@.len())
        + seq!['\r', '\n'] + seq!['\r', '\n']
}

impl Response {
    /// The head of the response as bytes; the body is sent after it.
    pub fn to_bytes(&self) -> (r: Vec<u8>)
        ensures
            r@ == value_bytes(response_head(*self)),
    {
        let mut s = crate::text::str_to_string("HTTP/1.1 ");
        let code = decimal_string(self.status_code as u64);
        push_str(&mut s, code.as_str());
        push_str(&mut s, " ");
        push_str(&mut s, self.reason_phrase.as_str());
        push_str(&mut s, "\r\n");
        proof {
            reveal_strlit(" ");
            reveal_strlit("\r\n");
            reveal_strlit(": ");
            reveal_strlit("HTTP/1.1 ");
            reveal_strlit("Content-Length: ");
            assert(" "@ =~= seq![' ']);
            assert(": "@ =~= seq![':', ' ']);
            assert("\r\n"@ =~= seq!['\r', '\n']);
        }
        let ghost start = s@;
        let mut i: usize = 0;
        assert(pair_views(self.headers@.subrange(0, 0)) =~= Seq::<(Seq<char>, Seq<char>)>::empty());
        assert(s@ =~= start + header_block(pair_views(self.headers@.subrange(0, 0))));
        while i < self.headers.len()
            invariant
                i <= self.headers@.len(),
                ": "@ == seq![':', ' '],
                "\r\n"@ == seq!['\r', '\n'],
                s@ == start + header_block(pair_views(self.headers@.subrange(0, i as int))),
            decreases self.headers@.len() - i,
        {
            let ghost pre = pair_views(self.headers@.subrange(0, i as int));
            assert(pair_views(self.headers@.subrange(0, i + 1)) =~= pre.push(
                (self.headers@[i as int].0@, self.headers@[i as int].1@),
            ));
            assert(pre.push((self.headers@[i as int].0@, self.headers@[i as int].1@)).drop_last() =~= pre);
            push_str(&mut s, self.headers[i].0.as_str());
            push_str(&mut s, ": ");
            push_str(&mut s, self.headers[i].1.as_str());
            push_str(&mut s, "\r\n");
            i += 1;
            assert(s@ =~= start + header_block(pair_views(self.headers@.subrange(0, i as int))));
        }
        assert(self.headers@.subrange(0, i as int) =~= self.headers@);
        push_str(&mut s, "Content-Length: ");
        let len = decimal_string(self.body.len() as u64);
        push_str(&mut s, len.as_str());
        push_str(&mut s, "\r\n");
        push_str(&mut s, "\r\n");
        assert(s@ =~= response_head(*self));
        bytes_of(s.as_str())
    }
}

/// What the front does with a request.
#[derive(Clone, Debug, PartialEq, Eq)]
pub enum HandleOutcome {
    /// No `Host` header.
    BadRequest,
    /// No server for the host, or no location for the path.
    NotFound,
    /// Forward to this upstream.
    Proxy(String),
}

impl HandleOutcome {
    /// The reply written for an outcome that ends the exchange.
    pub fn reply(&self) -> (r: Option<&'static str>)
        ensures
            match self {
                HandleOutcome::BadRequest => r == Some("HTTP/1.1 400 Bad Request\r\nContent-Length: 0\r\n\r\n"),
                HandleOutcome::NotFound => r == Some("HTTP/1.1 404 Not Found\r\nContent-Length: 0\r\n\r\n"),
                HandleOutcome::Proxy(_) => r is None,
            },
    {
        match self {
            HandleOutcome::BadRequest => Some("HTTP/1.1 400 Bad Request\r\nContent-Length: 0\r\n\r\n"),
            HandleOutcome::NotFound => Some("HTTP/1.1 404 Not Found\r\nContent-Length: 0\r\n\r\n"),
            HandleOutcome::Proxy(_) => None,
        }
    }
}

/// Dispatch of requests to virtual servers.
pub struct Handle {}

/// The host part of a `Host` value: what precedes the first colon.
pub open spec fn host_part(h: Seq<char>) -> Seq<char> {
    h.subrange(0, find_index(h, seq![':']))
}

/// The last server configured for `host`.
pub open spec fn server_for(configs: Seq<ServerConfig>, host: Seq<char>) -> Option<ServerConfig>
    decreases configs.len(),
{
    if configs.len() == 0 {
        None
    } else if configs.last().host@ == host {
        Some(configs.last())
    } else {
        server_for(configs.drop_last(), host)
    }
}

/// The upstream for a request, or the status that answers it: 400
/// without `Host`, 404 without a server for the host or a location for
/// the path.
pub open spec fn dispatch_of(configs: Seq<ServerConfig>, request: RequestModel) -> Result<Seq<char>, u16> {
    match last_value(request.headers, "Host"@) {
        None => Err(400u16),
        Some(h) => match server_for(configs, host_part(h)) {
            None => Err(404u16),
            Some(c) => match last_value(path_models(c.paths@), request.path) {
                Some(pass) => Ok(pass),
                None => Err(404u16),
            },
        },
    }
}

impl Handle {
    /// The last server configured for `host`, among servers sharing a port.
    pub fn find_server<'a>(configs: &'a Vec<ServerConfig>, host: &str) -> (r: Option<&'a ServerConfig>)
        ensures
            match r {
                Some(c) => server_for(configs@, host@) == Some(*c),
                None => server_for(configs@, host@) is None,
            },
    {
        let mut i: usize = configs.len();
        assert(configs@.subrange(0, i as int) =~= configs@);
        while i > 0
            invariant
                i <= configs@.len(),
                server_for(configs@, host@) == server_for(configs@.subrange(0, i as int), host@),
            decreases i,
        {
            assert(configs@.subrange(0, i as int).drop_last() =~= configs@.subrange(0, i - 1));
            if str_eq(configs[i - 1].host.as_str(), host) {
                return Some(&configs[i - 1]);
            }
            i -= 1;
        }
        None
    }

    /// Where a request goes: its `Host` (up to a colon) picks the server,
    /// its path picks the location.
    pub fn decide(configs: &Vec<ServerConfig>, request: &Request) -> (r: HandleOutcome)
        ensures
            dispatch_of(configs@, request.model()) == match r {
                HandleOutcome::Proxy(p) => Ok(p@),
                HandleOutcome::BadRequest => Err(400u16),
                HandleOutcome::NotFound => Err(404u16),
            },
    {
        let host_value = match request.header("Host") {
            Some(h) => h,
            None => {
                return HandleOutcome::BadRequest;
            },
        };
        let v = chars_of(host_value.as_str());
        let mut colon: Vec<char> = Vec::new();
        colon.push(':');
        assert(colon@ =~= seq![':']);
        let c = find_separator(&v, &colon);
        let host = string_of_range(&v, 0, c);
        let server = match Handle::find_server(configs, host.as_str()) {
            Some(s) => s,
            None => {
                return HandleOutcome::NotFound;
            },
        };
        match server.location(request.path.as_str()) {
            Some(l) => HandleOutcome::Proxy(crate::text::copy_string(&l.proxy_pass)),
            None => HandleOutcome::NotFound,
        }
    }
}

} // verus!
