//! The virtual-server configuration file: `server { ... }` blocks with
//! `server_name`, `listen` and `location <path> { proxy_pass ...; }`.
use vstd::prelude::*;
use crate::text::{
    chars_of, count_char, count_of, is_prefix, is_whitespace, is_ws, lines, lines_of, push_char, push_str,
    starts_with, str_eq, string_of_range, string_views_of, trim, trim_start, trimmed,
};

verus! {

/// Number of leading characters that are not white space.
pub open spec fn token_len(s: Seq<char>) -> nat
    decreases s.len(),
{
    if s.len() > 0 && !is_ws(s[0]) {
        1 + token_len(s.drop_first())
    } else {
        0
    }
}

/// The first white-space separated word.
pub open spec fn first_token(s: Seq<char>) -> Option<Seq<char>> {
    let t = trim_start(s);
    if t.len() == 0 {
        None
    } else {
        Some(t.subrange(0, token_len(t) as int))
    }
}

/// What follows the first word.
pub open spec fn after_first_token(s: Seq<char>) -> Seq<char> {
    let t = trim_start(s);
    t.subrange(token_len(t) as int, t.len() as int)
}

pub open spec fn second_token(s: Seq<char>) -> Option<Seq<char>> {
    first_token(after_first_token(s))
}

proof fn lemma_token_len_bound(s: Seq<char>)
    ensures
        token_len(s) <= s.len(),
    decreases s.len(),
{
    if s.len() > 0 && !is_ws(s[0]) {
        lemma_token_len_bound(s.drop_first());
    }
}

/// Bounds of the next word in `v` at or after `from`.
pub(crate) fn next_token(v: &Vec<char>, from: usize) -> (r: Option<(usize, usize)>)
    requires
        from <= v@.len(),
    ensures
        match r {
            Some((a, b)) => from <= a < b <= v@.len() && first_token(v@.subrange(from as int, v@.len() as int))
                == Some(v@.subrange(a as int, b as int)) && after_first_token(
                v@.subrange(from as int, v@.len() as int),
            ) == v@.subrange(b as int, v@.len() as int),
            None => first_token(v@.subrange(from as int, v@.len() as int)) is None,
        },
{
    let n = v.len();
    let ghost s = v@.subrange(from as int, n as int);
    let mut a: usize = from;
    assert(v@.subrange(a as int, n as int) =~= s);
    while a < n && is_whitespace(v[a])
        invariant
            from <= a <= n == v@.len(),
            trim_start(s) == trim_start(v@.subrange(a as int, n as int)),
        decreases n - a,
    {
        assert(v@.subrange(a as int, n as int).drop_first() =~= v@.subrange(a + 1, n as int));
        a += 1;
    }
    let ghost t = v@.subrange(a as int, n as int);
    assert(trim_start(t) == t);
    if a == n {
        return None;
    }
    let mut b: usize = a;
    assert(v@.subrange(b as int, n as int) =~= t);
    while b < n && !is_whitespace(v[b])
        invariant
            a <= b <= n == v@.len(),
            t == v@.subrange(a as int, n as int),
            token_len(t) == (b - a) + token_len(v@.subrange(b as int, n as int)),
        decreases n - b,
    {
        assert(v@.subrange(b as int, n as int).drop_first() =~= v@.subrange(b + 1, n as int));
        b += 1;
    }
    assert(token_len(v@.subrange(b as int, n as int)) == 0);
    assert(t.subrange(0, (b - a) as int) =~= v@.subrange(a as int, b as int));
    assert(t.subrange((b - a) as int, t.len() as int) =~= v@.subrange(b as int, n as int));
    Some((a, b))
}

/// The text without trailing `c` characters.
pub open spec fn strip_trailing(s: Seq<char>, c: char) -> Seq<char>
    decreases s.len(),
{
    if s.len() > 0 && s.last() == c {
        strip_trailing(s.drop_last(), c)
    } else {
        s
    }
}

pub(crate) fn strip_trailing_range(v: &Vec<char>, from: usize, to: usize, c: char) -> (r: String)
    requires
        from <= to <= v@.len(),
    ensures
        r@ == strip_trailing(v@.subrange(from as int, to as int), c),
{
    let mut e = to;
    while e > from && v[e - 1] == c
        invariant
            from <= e <= to <= v@.len(),
            strip_trailing(v@.subrange(from as int, to as int), c) == strip_trailing(
                v@.subrange(from as int, e as int),
                c,
            ),
        decreases e,
    {
        assert(v@.subrange(from as int, e as int).drop_last() =~= v@.subrange(from as int, e - 1));
        e -= 1;
    }
    string_of_range(v, from, e)
}

/// The value of `directive` in the first line whose first two words are
/// the directive and a value; trailing semicolons are dropped.
pub open spec fn directive_in(ls: Seq<Seq<char>>, directive: Seq<char>) -> Option<Seq<char>>
    decreases ls.len(),
{
    if ls.len() == 0 {
        None
    } else {
        let t = trim(ls[0]);
        match (first_token(t), second_token(t)) {
            (Some(k), Some(v)) => if k == directive {
                Some(strip_trailing(v, ';'))
            } else {
                directive_in(ls.drop_first(), directive)
            },
            _ => directive_in(ls.drop_first(), directive),
        }
    }
}

/// The value of a directive in a block of configuration text.
pub fn parse_directive(block: &str, directive: &str) -> (r: Option<String>)
    ensures
        match r {
            Some(v) => directive_in(lines_of(block@), directive@) == Some(v@),
            None => directive_in(lines_of(block@), directive@) is None,
        },
{
    let ls = lines(block);
    let ghost all = string_views_of(ls@);
    let mut i: usize = 0;
    assert(all.subrange(0, all.len() as int) =~= all);
    while i < ls.len()
        invariant
            i <= ls@.len(),
            all == string_views_of(ls@),
            all == lines_of(block@),
            directive_in(all, directive@) == directive_in(all.subrange(i as int, all.len() as int), directive@),
        decreases ls@.len() - i,
    {
        let ghost rest = all.subrange(i as int, all.len() as int);
        assert(rest[0] == ls@[i as int]@);
        assert(rest.drop_first() =~= all.subrange(i + 1, all.len() as int));
        let t = trimmed(ls[i].as_str());
        let v = chars_of(t.as_str());
        match next_token(&v, 0) {
            Some((a, b)) => {
                assert(v@.subrange(0, v@.len() as int) =~= v@);
                match next_token(&v, b) {
                    Some((c, d)) => {
                        let key = string_of_range(&v, a, b);
                        if str_eq(key.as_str(), directive) {
                            return Some(strip_trailing_range(&v, c, d, ';'));
                        }
                    },
                    None => {},
                }
            },
            None => {
                assert(v@.subrange(0, v@.len() as int) =~= v@);
            },
        }
        i += 1;
    }
    None
}

/// Where a scan of blocks stands after some lines.
pub struct ScanState {
    pub blocks: Seq<Seq<char>>,
    pub inside: bool,
    pub depth: nat,
    pub current: Seq<char>,
}

/// A line that opens a block: it starts with the keyword and holds `{`.
pub open spec fn opens_block(t: Seq<char>, keyword: Seq<char>) -> bool {
    is_prefix(keyword, t) && count_char(t, '{') > 0
}

/// `a + b`, held at the largest `usize`.
pub open spec fn sat_add(a: nat, b: nat) -> nat {
    if a + b > usize::MAX {
        usize::MAX as nat
    } else {
        a + b
    }
}

/// One line of a scan: a block runs from its opening line until the
/// braces balance; a closing brace beyond the open ones also ends it.
pub open spec fn scan_step(st: ScanState, line: Seq<char>, keyword: Seq<char>) -> ScanState {
    let t = trim(line);
    if !st.inside && opens_block(t, keyword) {
        ScanState {
            blocks: st.blocks,
            inside: true,
            depth: sat_add(st.depth, count_char(t, '{')),
            current: st.current + line + seq!['\n'],
        }
    } else if st.inside {
        let up = sat_add(st.depth, count_char(t, '{'));
        let d: nat = if count_char(t, '}') > up {
            0
        } else {
            (up - count_char(t, '}')) as nat
        };
        let cur = st.current + line + seq!['\n'];
        if d == 0 {
            ScanState { blocks: st.blocks.push(trim(cur)), inside: false, depth: 0, current: Seq::empty() }
        } else {
            ScanState { blocks: st.blocks, inside: true, depth: d, current: cur }
        }
    } else {
        st
    }
}

pub open spec fn scan(ls: Seq<Seq<char>>, keyword: Seq<char>) -> ScanState
    decreases ls.len(),
{
    if ls.len() == 0 {
        ScanState { blocks: Seq::empty(), inside: false, depth: 0, current: Seq::empty() }
    } else {
        scan_step(scan(ls.drop_last(), keyword), ls.last(), keyword)
    }
}

/// The complete blocks of `text` that open with `keyword`, each trimmed.
pub open spec fn blocks_of(text: Seq<char>, keyword: Seq<char>) -> Seq<Seq<char>> {
    scan(lines_of(text), keyword).blocks
}

proof fn lemma_count_bound(s: Seq<char>, c: char)
    ensures
        count_char(s, c) <= s.len(),
    decreases s.len(),
{
    if s.len() > 0 {
        lemma_count_bound(s.drop_last(), c);
    }
}

fn extract_blocks(input: &str, keyword: &str) -> (r: Vec<String>)
    ensures
        string_views_of(r@) == blocks_of(input@, keyword@),
{
    let ls = lines(input);
    let ghost all = string_views_of(ls@);
    let mut blocks: Vec<String> = Vec::new();
    let mut inside = false;
    let mut depth: usize = 0;
    let mut current = String::new();
    let mut i: usize = 0;
    while i < ls.len()
        invariant
            i <= ls@.len(),
            all == string_views_of(ls@),
            all == lines_of(input@),
            ({
                let st = scan(all.subrange(0, i as int), keyword@);
                &&& string_views_of(blocks@) == st.blocks
                &&& inside == st.inside
                &&& depth == st.depth
                &&& current@ == st.current
            }),
        decreases ls@.len() - i,
    {
        let ghost pre = all.subrange(0, i as int);
        assert(all.subrange(0, i + 1).drop_last() =~= pre);
        assert(all.subrange(0, i + 1).last() == ls@[i as int]@);
        let line = &ls[i];
        let t = trimmed(line.as_str());
        let tv = chars_of(t.as_str());
        let opens = count_of(&tv, '{');
        let closes = count_of(&tv, '}');
        if !inside && starts_with(t.as_str(), keyword) && opens > 0 {
            inside = true;
            depth = if opens > usize::MAX - depth {
                usize::MAX
            } else {
                depth + opens
            };
            push_str(&mut current, line.as_str());
            push_char(&mut current, '\n');
            assert(current@ =~= scan(pre, keyword@).current + ls@[i as int]@ + seq!['\n']);
        } else if inside {
            let up = if opens > usize::MAX - depth {
                usize::MAX
            } else {
                depth + opens
            };
            depth = if closes > up {
                0
            } else {
                up - closes
            };
            push_str(&mut current, line.as_str());
            push_char(&mut current, '\n');
            assert(current@ =~= scan(pre, keyword@).current + ls@[i as int]@ + seq!['\n']);
            if depth == 0 {
                let ghost before = blocks@;
                let b = trimmed(current.as_str());
                blocks.push(b);
                assert(string_views_of(blocks@) =~= string_views_of(before).push(b@));
                assert(b@ == trim(scan(pre, keyword@).current + ls@[i as int]@ + seq!['\n']));
                assert(string_views_of(blocks@) == scan(pre, keyword@).blocks.push(
                    trim(scan(pre, keyword@).current + ls@[i as int]@ + seq!['\n']),
                ));
                current = String::new();
                inside = false;
            }
        }
        proof {
            let st = scan(all.subrange(0, i + 1), keyword@);
            assert(st == scan_step(scan(pre, keyword@), ls@[i as int]@, keyword@));
            assert(string_views_of(blocks@) == st.blocks);
            assert(inside == st.inside);
            assert(depth == st.depth);
            assert(current@ == st.current);
        }
        i += 1;
    }
    assert(all.subrange(0, i as int) =~= all);
    blocks
}

/// A block of the configuration text.
#[derive(Clone, Debug)]
pub struct ServerBlock {
    pub block: Vec<String>,
}

impl ServerBlock {
    /// The `server ... {` blocks of a configuration text, each trimmed.
    pub fn extract_server_blocks(input: &str) -> (r: Vec<String>)
        ensures
            string_views_of(r@) == blocks_of(input@, "server"@),
    {
        extract_blocks(input, "server")
    }
}

/// Where requests for a path go.
#[derive(Clone, Debug)]
pub struct Location {
    pub proxy_pass: String,
}

/// The path of the first `location` line that names one.
pub open spec fn location_path_in(ls: Seq<Seq<char>>) -> Option<Seq<char>>
    decreases ls.len(),
{
    if ls.len() == 0 {
        None
    } else {
        let t = trim(ls[0]);
        if is_prefix("location "@, t) && second_token(t) is Some {
            second_token(t)
        } else {
            location_path_in(ls.drop_first())
        }
    }
}

impl Location {
    /// The `location ... {` blocks inside a server block, each trimmed.
    pub fn extract_location_blocks(server_block: &str) -> (r: Vec<String>)
        ensures
            string_views_of(r@) == blocks_of(server_block@, "location "@),
    {
        extract_blocks(server_block, "location ")
    }

    /// The path named by a location block.
    pub fn extract_location_path(location_block: &str) -> (r: Option<String>)
        ensures
            match r {
                Some(p) => location_path_in(lines_of(location_block@)) == Some(p@),
                None => location_path_in(lines_of(location_block@)) is None,
            },
    {
        let ls = lines(location_block);
        let ghost all = string_views_of(ls@);
        let mut i: usize = 0;
        assert(all.subrange(0, all.len() as int) =~= all);
        while i < ls.len()
            invariant
                i <= ls@.len(),
                all == string_views_of(ls@),
                all == lines_of(location_block@),
                location_path_in(all) == location_path_in(all.subrange(i as int, all.len() as int)),
            decreases ls@.len() - i,
        {
            let ghost rest = all.subrange(i as int, all.len() as int);
            assert(rest[0] == ls@[i as int]@);
            assert(rest.drop_first() =~= all.subrange(i + 1, all.len() as int));
            let t = trimmed(ls[i].as_str());
            if starts_with(t.as_str(), "location ") {
                let v = chars_of(t.as_str());
                assert(v@.subrange(0, v@.len() as int) =~= v@);
                match next_token(&v, 0) {
                    Some((_a, b)) => {
                        match next_token(&v, b) {
                            Some((c, d)) => {
                                return Some(string_of_range(&v, c, d));
                            },
                            None => {},
                        }
                    },
                    None => {},
                }
            }
            i += 1;
        }
        None
    }
}

pub open spec fn all_digits(s: Seq<char>) -> bool {
    forall|i: int| 0 <= i < s.len() ==> '0' <= #[trigger] s[i] && s[i] <= '9'
}

pub open spec fn digits_value(s: Seq<char>) -> nat
    decreases s.len(),
{
    if s.len() == 0 {
        0
    } else {
        digits_value(s.drop_last()) * 10 + ((s.last() as u32) - 48) as nat
    }
}

/// What `u16::from_str` accepts: an optional `+`, then one or more
/// decimal digits whose value fits.
pub open spec fn u16_of(s: Seq<char>) -> Option<u16> {
    let d = if s.len() > 0 && s[0] == '+' {
        s.drop_first()
    } else {
        s
    };
    if d.len() > 0 && all_digits(d) && digits_value(d) <= 65535 {
        Some(digits_value(d) as u16)
    } else {
        None
    }
}

proof fn lemma_digits_grow(d: Seq<char>, i: int, k: int)
    requires
        0 <= i <= k <= d.len(),
        all_digits(d),
    ensures
        digits_value(d.subrange(0, i)) <= digits_value(d.subrange(0, k)),
    decreases k - i,
{
    if i < k {
        lemma_digits_grow(d, i, k - 1);
        assert(d.subrange(0, k).drop_last() =~= d.subrange(0, k - 1));
    }
}

fn digits_only(v: &Vec<char>, from: usize) -> (r: bool)
    requires
        from <= v@.len(),
    ensures
        r == all_digits(v@.subrange(from as int, v@.len() as int)),
{
    let mut i: usize = from;
    while i < v.len()
        invariant
            from <= i <= v@.len(),
            forall|q: int| from <= q < i ==> '0' <= #[trigger] v@[q] && v@[q] <= '9',
        decreases v@.len() - i,
    {
        if !('0' <= v[i] && v[i] <= '9') {
            assert(v@.subrange(from as int, v@.len() as int)[i - from] == v@[i as int]);
            return false;
        }
        i += 1;
    }
    assert forall|q: int| 0 <= q < v@.len() - from implies '0' <= #[trigger] v@.subrange(
        from as int,
        v@.len() as int,
    )[q] && v@.subrange(from as int, v@.len() as int)[q] <= '9' by {
        assert(v@.subrange(from as int, v@.len() as int)[q] == v@[from + q]);
    }
    true
}

pub fn parse_u16(s: &str) -> (r: Option<u16>)
    ensures
        r == u16_of(s@),
{
    let v = chars_of(s);
    let n = v.len();
    let start: usize = if n > 0 && v[0] == '+' {
        1
    } else {
        0
    };
    let ghost d = v@.subrange(start as int, n as int);
    assert(d =~= (if s@.len() > 0 && s@[0] == '+' {
        s@.drop_first()
    } else {
        s@
    }));
    if start == n || !digits_only(&v, start) {
        return None;
    }
    let mut val: u32 = 0;
    let mut i: usize = start;
    while i < n
        invariant
            start <= i <= n == v@.len(),
            d == v@.subrange(start as int, n as int),
            d == (if s@.len() > 0 && s@[0] == '+' {
                s@.drop_first()
            } else {
                s@
            }),
            all_digits(d),
            val == digits_value(d.subrange(0, i - start)),
            val <= 65535,
        decreases n - i,
    {
        assert(d.subrange(0, i + 1 - start).drop_last() =~= d.subrange(0, i - start));
        assert(d[i - start] == v@[i as int]);
        let next = val * 10 + ((v[i] as u32) - 48);
        assert(next == digits_value(d.subrange(0, i + 1 - start)));
        i += 1;
        if next > 65535 {
            proof {
                assert(d.subrange(0, d.len() as int) =~= d);
                lemma_digits_grow(d, i - start, d.len() as int);
            }
            return None;
        }
        val = next;
    }
    assert(d.subrange(0, n - start) =~= d);
    Some(val as u16)
}

/// A virtual server: its name, its port, and the location of each path.
#[derive(Clone, Debug)]
pub struct ServerConfig {
    pub host: String,
    pub port: u16,
    pub paths: Vec<(String, Location)>,
}

/// Why a configuration text is rejected.
#[derive(Clone, Copy, Debug, PartialEq, Eq, Structural)]
pub enum ConfigError {
    /// A server block has no `server_name`.
    ServerName,
    /// A server block has no `listen`.
    Port,
    /// The `listen` value is not a port number.
    PortNumber,
    /// A location block names no path.
    LocationPath,
    /// A location block has no `proxy_pass`.
    ProxyPass,
}

pub struct ServerModel {
    pub host: Seq<char>,
    pub port: u16,
    pub paths: Seq<(Seq<char>, Seq<char>)>,
}

impl ServerConfig {
    pub open spec fn model(&self) -> ServerModel {
        ServerModel {
            host: self.host@,
            port: self.port,
            paths: self.paths@.map_values(|e: (String, Location)| (e.0@, e.1.proxy_pass@)),
        }
    }
}

/// A location block as (path, upstream).
pub open spec fn location_of(block: Seq<char>) -> Result<(Seq<char>, Seq<char>), ConfigError> {
    match location_path_in(lines_of(block)) {
        None => Err(ConfigError::LocationPath),
        Some(path) => match directive_in(lines_of(block), "proxy_pass"@) {
            None => Err(ConfigError::ProxyPass),
            Some(pass) => Ok((path, pass)),
        },
    }
}

/// The location blocks in order, or the first error.
pub open spec fn locations_of(blocks: Seq<Seq<char>>) -> Result<Seq<(Seq<char>, Seq<char>)>, ConfigError>
    decreases blocks.len(),
{
    if blocks.len() == 0 {
        Ok(Seq::empty())
    } else {
        match locations_of(blocks.drop_last()) {
            Err(e) => Err(e),
            Ok(prev) => match location_of(blocks.last()) {
                Ok(l) => Ok(prev.push(l)),
                Err(e) => Err(e),
            },
        }
    }
}

/// A server block: name, port, then its locations.
pub open spec fn server_of(block: Seq<char>) -> Result<ServerModel, ConfigError> {
    match directive_in(lines_of(block), "server_name"@) {
        None => Err(ConfigError::ServerName),
        Some(host) => match directive_in(lines_of(block), "listen"@) {
            None => Err(ConfigError::Port),
            Some(p) => match u16_of(trim(p)) {
                None => Err(ConfigError::PortNumber),
                Some(port) => match locations_of(blocks_of(block, "location "@)) {
                    Err(e) => Err(e),
                    Ok(paths) => Ok(ServerModel { host, port, paths }),
                },
            },
        },
    }
}

pub open spec fn servers_of(blocks: Seq<Seq<char>>) -> Result<Seq<ServerModel>, ConfigError>
    decreases blocks.len(),
{
    if blocks.len() == 0 {
        Ok(Seq::empty())
    } else {
        match servers_of(blocks.drop_last()) {
            Err(e) => Err(e),
            Ok(prev) => match server_of(blocks.last()) {
                Ok(m) => Ok(prev.push(m)),
                Err(e) => Err(e),
            },
        }
    }
}

proof fn lemma_locations_err(blocks: Seq<Seq<char>>, i: int, e: ConfigError)
    requires
        0 <= i <= blocks.len(),
        locations_of(blocks.subrange(0, i)) == Err::<Seq<(Seq<char>, Seq<char>)>, ConfigError>(e),
    ensures
        locations_of(blocks) == Err::<Seq<(Seq<char>, Seq<char>)>, ConfigError>(e),
    decreases blocks.len() - i,
{
    if i < blocks.len() {
        assert(blocks.subrange(0, i + 1).drop_last() =~= blocks.subrange(0, i));
        lemma_locations_err(blocks, i + 1, e);
    } else {
        assert(blocks.subrange(0, i) =~= blocks);
    }
}

proof fn lemma_servers_err(blocks: Seq<Seq<char>>, i: int, e: ConfigError)
    requires
        0 <= i <= blocks.len(),
        servers_of(blocks.subrange(0, i)) == Err::<Seq<ServerModel>, ConfigError>(e),
    ensures
        servers_of(blocks) == Err::<Seq<ServerModel>, ConfigError>(e),
    decreases blocks.len() - i,
{
    if i < blocks.len() {
        assert(blocks.subrange(0, i + 1).drop_last() =~= blocks.subrange(0, i));
        lemma_servers_err(blocks, i + 1, e);
    } else {
        assert(blocks.subrange(0, i) =~= blocks);
    }
}

pub open spec fn path_models(s: Seq<(String, Location)>) -> Seq<(Seq<char>, Seq<char>)> {
    s.map_values(|e: (String, Location)| (e.0@, e.1.proxy_pass@))
}

pub open spec fn server_models(s: Seq<ServerConfig>) -> Seq<ServerModel> {
    s.map_values(|c: ServerConfig| c.model())
}

fn parse_location(block: &String) -> (r: Result<(String, Location), ConfigError>)
    ensures
        match r {
            Ok(l) => location_of(block@) == Ok::<(Seq<char>, Seq<char>), ConfigError>((l.0@, l.1.proxy_pass@)),
            Err(e) => location_of(block@) == Err::<(Seq<char>, Seq<char>), ConfigError>(e),
        },
{
    let path = match Location::extract_location_path(block.as_str()) {
        Some(p) => p,
        None => {
            return Err(ConfigError::LocationPath);
        },
    };
    match parse_directive(block.as_str(), "proxy_pass") {
        Some(pass) => Ok((path, Location { proxy_pass: pass })),
        None => Err(ConfigError::ProxyPass),
    }
}

fn parse_server(block: &String) -> (r: Result<ServerConfig, ConfigError>)
    ensures
        match r {
            Ok(c) => server_of(block@) == Ok::<ServerModel, ConfigError>(c.model()),
            Err(e) => server_of(block@) == Err::<ServerModel, ConfigError>(e),
        },
{
    let host = match parse_directive(block.as_str(), "server_name") {
        Some(h) => h,
        None => {
            return Err(ConfigError::ServerName);
        },
    };
    let port_text = match parse_directive(block.as_str(), "listen") {
        Some(p) => p,
        None => {
            return Err(ConfigError::Port);
        },
    };
    let t = trimmed(port_text.as_str());
    let port = match parse_u16(t.as_str()) {
        Some(p) => p,
        None => {
            return Err(ConfigError::PortNumber);
        },
    };
    let raw = Location::extract_location_blocks(block.as_str());
    let ghost lbs = string_views_of(raw@);
    let mut paths: Vec<(String, Location)> = Vec::new();
    let mut i: usize = 0;
    assert(lbs.subrange(0, 0) =~= Seq::<Seq<char>>::empty());
    assert(path_models(paths@) =~= Seq::<(Seq<char>, Seq<char>)>::empty());
    while i < raw.len()
        invariant
            i <= raw@.len(),
            directive_in(lines_of(block@), "server_name"@) == Some(host@),
            directive_in(lines_of(block@), "listen"@) == Some(port_text@),
            u16_of(trim(port_text@)) == Some(port),
            lbs == string_views_of(raw@),
            lbs == blocks_of(block@, "location "@),
            locations_of(lbs.subrange(0, i as int)) == Ok::<Seq<(Seq<char>, Seq<char>)>, ConfigError>(
                path_models(paths@),
            ),
        decreases raw@.len() - i,
    {
        assert(lbs.subrange(0, i + 1).drop_last() =~= lbs.subrange(0, i as int));
        assert(lbs.subrange(0, i + 1).last() == raw@[i as int]@);
        match parse_location(&raw[i]) {
            Ok(l) => {
                let ghost before = paths@;
                paths.push(l);
                assert(path_models(paths@) =~= path_models(before).push((l.0@, l.1.proxy_pass@)));
            },
            Err(e) => {
                proof {
                    lemma_locations_err(lbs, i + 1, e);
                }
                return Err(e);
            },
        }
        i += 1;
    }
    assert(lbs.subrange(0, i as int) =~= lbs);
    Ok(ServerConfig { host, port, paths })
}

impl ServerConfig {
    /// The virtual servers of a configuration text, in order, or the first
    /// error met.
    pub fn parse_config(raw: &str) -> (r: Result<Vec<ServerConfig>, ConfigError>)
        ensures
            match r {
                Ok(v) => servers_of(blocks_of(raw@, "server"@)) == Ok::<Seq<ServerModel>, ConfigError>(
                    server_models(v@),
                ),
                Err(e) => servers_of(blocks_of(raw@, "server"@)) == Err::<Seq<ServerModel>, ConfigError>(e),
            },
    {
        let raw_blocks = ServerBlock::extract_server_blocks(raw);
        let ghost bs = string_views_of(raw_blocks@);
        let mut out: Vec<ServerConfig> = Vec::new();
        let mut i: usize = 0;
        assert(bs.subrange(0, 0) =~= Seq::<Seq<char>>::empty());
        assert(server_models(out@) =~= Seq::<ServerModel>::empty());
        while i < raw_blocks.len()
            invariant
                i <= raw_blocks@.len(),
                bs == string_views_of(raw_blocks@),
                bs == blocks_of(raw@, "server"@),
                servers_of(bs.subrange(0, i as int)) == Ok::<Seq<ServerModel>, ConfigError>(
                    server_models(out@),
                ),
            decreases raw_blocks@.len() - i,
        {
            assert(bs.subrange(0, i + 1).drop_last() =~= bs.subrange(0, i as int));
            assert(bs.subrange(0, i + 1).last() == raw_blocks@[i as int]@);
            match parse_server(&raw_blocks[i]) {
                Ok(c) => {
                    let ghost before = out@;
                    out.push(c);
                    assert(server_models(out@) =~= server_models(before).push(c.model()));
                },
                Err(e) => {
                    proof {
                        lemma_servers_err(bs, i + 1, e);
                    }
                    return Err(e);
                },
            }
            i += 1;
        }
        assert(bs.subrange(0, i as int) =~= bs);
        Ok(out)
    }

    /// The location for `path`: the last one configured for it.
    pub fn location(&self, path: &str) -> (r: Option<&Location>)
        ensures
            match r {
                Some(l) => last_value(path_models(self.paths@), path@) == Some(l.proxy_pass@),
                None => last_value(path_models(self.paths@), path@) is None,
            },
    {
        let ghost pm = path_models(self.paths@);
        let mut i: usize = self.paths.len();
        assert(pm.subrange(0, i as int) =~= pm);
        while i > 0
            invariant
                i <= self.paths@.len(),
                pm == path_models(self.paths@),
                last_value(pm, path@) == last_value(pm.subrange(0, i as int), path@),
            decreases i,
        {
            assert(pm.subrange(0, i as int).drop_last() =~= pm.subrange(0, i - 1));
            assert(pm.subrange(0, i as int).last() == pm[i - 1]);
            if str_eq(self.paths[i - 1].0.as_str(), path) {
                return Some(&self.paths[i - 1].1);
            }
            i -= 1;
        }
        None
    }

    /// The value after `directive` on the first line that starts with it,
    /// trimmed and without trailing semicolons.
    pub fn parse_directive(block: &str, directive: &str) -> (r: Option<String>)
        ensures
            match r {
                Some(v) => prefixed_directive_in(lines_of(block@), directive@) == Some(v@),
                None => prefixed_directive_in(lines_of(block@), directive@) is None,
            },
    {
        let ls = lines(block);
        let ghost all = string_views_of(ls@);
        let dv = chars_of(directive);
        let mut i: usize = 0;
        assert(all.subrange(0, all.len() as int) =~= all);
        while i < ls.len()
            invariant
                i <= ls@.len(),
                dv@ == directive@,
                all == string_views_of(ls@),
                all == lines_of(block@),
                prefixed_directive_in(all, directive@) == prefixed_directive_in(
                    all.subrange(i as int, all.len() as int),
                    directive@,
                ),
            decreases ls@.len() - i,
        {
            let ghost rest = all.subrange(i as int, all.len() as int);
            assert(rest[0] == ls@[i as int]@);
            assert(rest.drop_first() =~= all.subrange(i + 1, all.len() as int));
            let t = trimmed(ls[i].as_str());
            if starts_with(t.as_str(), directive) {
                let v = chars_of(t.as_str());
                let after = string_of_range(&v, dv.len(), v.len());
                let a = trimmed(after.as_str());
                let av = chars_of(a.as_str());
                assert(av@.subrange(0, av@.len() as int) =~= av@);
                return Some(strip_trailing_range(&av, 0, av.len(), ';'));
            }
            i += 1;
        }
        None
    }
}

/// The value of the first line that starts with `directive`: the rest of
/// the line, trimmed, without trailing semicolons.
pub open spec fn prefixed_directive_in(ls: Seq<Seq<char>>, directive: Seq<char>) -> Option<Seq<char>>
    decreases ls.len(),
{
    if ls.len() == 0 {
        None
    } else {
        let t = trim(ls[0]);
        if is_prefix(directive, t) {
            let rest = trim(t.subrange(directive.len() as int, t.len() as int));
            Some(strip_trailing(rest, ';'))
        } else {
            prefixed_directive_in(ls.drop_first(), directive)
        }
    }
}

/// The value of the last pair whose key is `k`.
pub open spec fn last_value(s: Seq<(Seq<char>, Seq<char>)>, k: Seq<char>) -> Option<Seq<char>>
    decreases s.len(),
{
    if s.len() == 0 {
        None
    } else if s.last().0 == k {
        Some(s.last().1)
    } else {
        last_value(s.drop_last(), k)
    }
}

/// The servers that listen on one port, in configuration order.
#[derive(Clone, Debug)]
pub struct PortGroup {
    pub port: u16,
    pub servers: Vec<ServerConfig>,
}

pub open spec fn on_port(s: Seq<ServerConfig>, port: u16) -> Seq<ServerConfig> {
    s.filter(|c: ServerConfig| c.port == port)
}

pub open spec fn has_port(groups: Seq<PortGroup>, port: u16) -> bool {
    exists|j: int| 0 <= j < groups.len() && (#[trigger] groups[j]).port == port
}

proof fn lemma_on_port_prepend(c: ServerConfig, s: Seq<ServerConfig>, port: u16)
    ensures
        on_port(seq![c] + s, port) == if c.port == port {
            seq![c] + on_port(s, port)
        } else {
            on_port(s, port)
        },
{
    let p = |x: ServerConfig| x.port == port;
    Seq::filter_distributes_over_add(seq![c], s, p);
    Seq::<ServerConfig>::empty().lemma_filter_push(c, p);
    assert(Seq::<ServerConfig>::empty().push(c) =~= seq![c]);
    assert(Seq::<ServerConfig>::empty().filter(p) =~= Seq::<ServerConfig>::empty()) by {
        reveal(Seq::filter);
    }
    assert(Seq::<ServerConfig>::empty().push(c) =~= seq![c]);
}

/// Servers grouped by port, to run one listener per port.
pub fn sort_server_config(list: Vec<ServerConfig>) -> (r: Vec<PortGroup>)
    ensures
        forall|a: int, b: int|
            0 <= a < r@.len() && 0 <= b < r@.len() && a != b ==> (#[trigger] r@[a]).port != (#[trigger] r@[b]).port,
        forall|port: u16|
            has_port(r@, port) <==> exists|i: int| 0 <= i < list@.len() && (#[trigger] list@[i]).port == port,
        forall|j: int| 0 <= j < r@.len() ==> (#[trigger] r@[j]).servers@ == on_port(list@, r@[j].port),
{
    let ghost all = list@;
    let mut rest = list;
    let mut groups: Vec<PortGroup> = Vec::new();
    while rest.len() > 0
        invariant
            rest@.len() <= all.len(),
            rest@ == all.subrange(0, rest@.len() as int),
            forall|a: int, b: int|
                0 <= a < groups@.len() && 0 <= b < groups@.len() && a != b ==> (#[trigger] groups@[a]).port
                    != (#[trigger] groups@[b]).port,
            forall|port: u16|
                has_port(groups@, port) <==> exists|i: int|
                    rest@.len() <= i < all.len() && (#[trigger] all[i]).port == port,
            forall|j: int|
                0 <= j < groups@.len() ==> (#[trigger] groups@[j]).servers@ == on_port(
                    all.subrange(rest@.len() as int, all.len() as int),
                    groups@[j].port,
                ),
        decreases rest@.len(),
    {
        let k = rest.len();
        let c = rest.pop().unwrap();
        let ghost suffix = all.subrange(k as int, all.len() as int);
        assert(all.subrange((k - 1) as int, all.len() as int) =~= seq![c] + suffix);
        assert(rest@ =~= all.subrange(0, (k - 1) as int));
        let mut idx: usize = 0;
        while idx < groups.len() && groups[idx].port != c.port
            invariant
                idx <= groups@.len(),
                forall|j: int| 0 <= j < idx ==> (#[trigger] groups@[j]).port != c.port,
            decreases groups@.len() - idx,
        {
            idx += 1;
        }
        let ghost before = groups@;
        if idx < groups.len() {
            let mut g = groups.remove(idx);
            g.servers.insert(0, c);
            proof {
                lemma_on_port_prepend(c, suffix, c.port);
                assert(g.servers@ =~= seq![c] + before[idx as int].servers@);
            }
            groups.insert(idx, g);
            assert(groups@ =~= before.update(idx as int, g));
            proof {
                assert forall|j: int| 0 <= j < groups@.len() implies (#[trigger] groups@[j]).servers@ == on_port(
                    all.subrange((k - 1) as int, all.len() as int),
                    groups@[j].port,
                ) by {
                    lemma_on_port_prepend(c, suffix, groups@[j].port);
                }
                assert forall|port: u16| has_port(groups@, port) <==> exists|i: int|
                    (k - 1) <= i < all.len() && (#[trigger] all[i]).port == port by {
                    if has_port(groups@, port) {
                        let j = choose|j: int| 0 <= j < groups@.len() && (#[trigger] groups@[j]).port == port;
                        assert(before[j].port == port);
                    }
                    if has_port(before, port) {
                        let j = choose|j: int| 0 <= j < before.len() && (#[trigger] before[j]).port == port;
                        assert(groups@[j].port == port);
                    }
                    if port == c.port {
                        assert(all[k - 1] == c);
                    }
                }
            }
        } else {
            let mut servers: Vec<ServerConfig> = Vec::new();
            let port = c.port;
            servers.push(c);
            proof {
                lemma_on_port_prepend(c, suffix, c.port);
                assert(!has_port(before, c.port));
                assert(on_port(suffix, c.port).len() == 0) by {
                    assert forall|i: int| 0 <= i < suffix.len() implies (#[trigger] suffix[i]).port != c.port by {
                        assert(suffix[i] == all[k + i]);
                    }
                    if on_port(suffix, c.port).len() > 0 {
                        suffix.lemma_filter_contains_rev(|x: ServerConfig| x.port == c.port, on_port(suffix, c.port)[0]);
                        suffix.lemma_filter_pred(|x: ServerConfig| x.port == c.port, 0);
                    }
                }
                assert(servers@ =~= seq![c] + on_port(suffix, c.port));
            }
            groups.push(PortGroup { port, servers });
            proof {
                assert forall|j: int| 0 <= j < groups@.len() implies (#[trigger] groups@[j]).servers@ == on_port(
                    all.subrange((k - 1) as int, all.len() as int),
                    groups@[j].port,
                ) by {
                    lemma_on_port_prepend(c, suffix, groups@[j].port);
                    if j < before.len() {
                        assert(groups@[j] == before[j]);
                    }
                }
                assert forall|port: u16| has_port(groups@, port) <==> exists|i: int|
                    (k - 1) <= i < all.len() && (#[trigger] all[i]).port == port by {
                    if has_port(groups@, port) {
                        let j = choose|j: int| 0 <= j < groups@.len() && (#[trigger] groups@[j]).port == port;
                        if j < before.len() {
                            assert(before[j].port == port);
                        } else {
                            assert(all[k - 1] == c);
                        }
                    }
                    if has_port(before, port) {
                        let j = choose|j: int| 0 <= j < before.len() && (#[trigger] before[j]).port == port;
                        assert(groups@[j].port == port);
                    }
                    if port == c.port {
                        assert(groups@[before.len() as int].port == port);
                    }
                }
            }
        }
    }
    assert(all.subrange(0, all.len() as int) =~= all);
    groups
}

} // verus!
