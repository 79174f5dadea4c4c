//! The route table: host buckets of ranked routes, cluster rules, and
//! endpoint selection by round robin or least connections.
use vstd::prelude::*;
use vstd::utf8::encode_utf8;
use vstd::arithmetic::div_mod::{lemma_fundamental_div_mod, lemma_fundamental_div_mod_converse};
use std::sync::Arc;
use std::sync::atomic::{AtomicUsize, Ordering};
use crate::model::{Cluster, Endpoint, EndpointModel, Route, Snapshot, endpoint_models};
use crate::rules::{
    AuthConfigDex, BackendProtocol, HeaderRewriteRule, LBPolicy, PathType, backend_protocol_of,
    build_auth_runtime, build_header_rewrites, lb_policy_of, opt_auth_model, path_type_of,
    rewrite_models, rewrites_of, auth_runtime_of, AuthModel, RewriteModel,
};
use crate::text::{copy_string, is_prefix, lower, starts_with, str_eq, to_ascii_lowercase};

verus! {

/// A route inside a host bucket.
#[derive(Clone, Debug)]
pub struct RouteRule {
    pub path: String,
    pub path_type: PathType,
    pub cluster: String,
    pub priority: i32,
}

pub struct RuleModel {
    pub path: Seq<char>,
    pub path_type: PathType,
    pub cluster: Seq<char>,
    pub priority: i32,
}

impl RouteRule {
    pub open spec fn model(&self) -> RuleModel {
        RuleModel {
            path: self.path@,
            path_type: self.path_type,
            cluster: self.cluster@,
            priority: self.priority,
        }
    }
}

pub open spec fn rule_models(s: Seq<RouteRule>) -> Seq<RuleModel> {
    s.map_values(|r: RouteRule| r.model())
}

/// Length of the UTF-8 encoding, which `str::len` gives.
pub open spec fn byte_len(s: Seq<char>) -> nat {
    encode_utf8(s).len()
}

/// `a` is tried before `b`: higher priority first, then the longer path,
/// then Exact before Prefix.
pub open spec fn ranks_before(a: RuleModel, b: RuleModel) -> bool {
    a.priority > b.priority || (a.priority == b.priority && byte_len(a.path) > byte_len(b.path)) || (
    a.priority == b.priority && byte_len(a.path) == byte_len(b.path) && a.path_type
        == PathType::Exact && b.path_type == PathType::Prefix)
}

/// `x` placed before the first entry that it ranks before.
pub open spec fn insert_ranked(s: Seq<RuleModel>, x: RuleModel) -> Seq<RuleModel>
    decreases s.len(),
{
    if s.len() == 0 {
        seq![x]
    } else if ranks_before(x, s[0]) {
        seq![x] + s
    } else {
        seq![s[0]] + insert_ranked(s.drop_first(), x)
    }
}

/// Stable sort by rank: entries that rank alike keep their order.
pub open spec fn rank_sort(s: Seq<RuleModel>) -> Seq<RuleModel>
    decreases s.len(),
{
    if s.len() == 0 {
        s
    } else {
        insert_ranked(rank_sort(s.drop_last()), s.last())
    }
}

/// The route entry as a rule, when its path type is known.
pub open spec fn rule_of_route(r: Route) -> Option<RuleModel> {
    match path_type_of(r.path_type@) {
        Some(pt) => Some(
            RuleModel { path: r.path@, path_type: pt, cluster: r.cluster@, priority: r.priority },
        ),
        None => None,
    }
}

/// The rules for lowercase host `h`, in the order of the routes.
pub open spec fn host_models(routes: Seq<Route>, h: Seq<char>) -> Seq<RuleModel>
    decreases routes.len(),
{
    if routes.len() == 0 {
        Seq::empty()
    } else {
        let prev = host_models(routes.drop_last(), h);
        match rule_of_route(routes.last()) {
            Some(m) => if lower(routes.last().host@) == h {
                prev.push(m)
            } else {
                prev
            },
            None => prev,
        }
    }
}

/// The bucket that a table built from `routes` holds for host `h`.
pub open spec fn bucket_of(routes: Seq<Route>, h: Seq<char>) -> Option<Seq<RuleModel>> {
    if host_models(routes, h).len() > 0 {
        Some(rank_sort(host_models(routes, h)))
    } else {
        None
    }
}

pub open spec fn path_matches(m: RuleModel, path: Seq<char>) -> bool {
    if m.path_type == PathType::Exact {
        m.path == path
    } else {
        is_prefix(m.path, path)
    }
}

/// Index of the first rule of `s` that matches `path`.
pub open spec fn first_match(s: Seq<RuleModel>, path: Seq<char>) -> Option<int>
    decreases s.len(),
{
    if s.len() == 0 {
        None
    } else if path_matches(s[0], path) {
        Some(0)
    } else {
        match first_match(s.drop_first(), path) {
            Some(i) => Some(i + 1),
            None => None,
        }
    }
}

/// The rule picked in bucket `b`, if any.
pub open spec fn pick_in(b: Option<Seq<RuleModel>>, path: Seq<char>) -> Option<RuleModel> {
    match b {
        Some(s) => match first_match(s, path) {
            Some(i) => Some(s[i]),
            None => None,
        },
        None => None,
    }
}

/// The host's bucket decides; when it has no match, the wildcard bucket.
pub open spec fn route_choice(
    host_bucket: Option<Seq<RuleModel>>,
    wildcard_bucket: Option<Seq<RuleModel>>,
    path: Seq<char>,
) -> Option<RuleModel> {
    match pick_in(host_bucket, path) {
        Some(m) => Some(m),
        None => pick_in(wildcard_bucket, path),
    }
}

proof fn lemma_insert_at(s: Seq<RuleModel>, x: RuleModel, p: int)
    requires
        0 <= p <= s.len(),
        forall|q: int| 0 <= q < p ==> !ranks_before(x, #[trigger] s[q]),
        p == s.len() || ranks_before(x, s[p]),
    ensures
        insert_ranked(s, x) == s.insert(p, x),
    decreases p,
{
    if s.len() == 0 {
        assert(s.insert(p, x) =~= seq![x]);
    } else if p == 0 {
        assert(s.insert(p, x) =~= seq![x] + s);
    } else {
        let t = s.drop_first();
        assert forall|q: int| 0 <= q < p - 1 implies !ranks_before(x, #[trigger] t[q]) by {
            assert(t[q] == s[q + 1]);
        }
        if p < s.len() {
            assert(t[p - 1] == s[p]);
        }
        lemma_insert_at(t, x, p - 1);
        assert(s.insert(p, x) =~= seq![s[0]] + t.insert(p - 1, x));
    }
}

pub fn rule_ranks_before(a: &RouteRule, b: &RouteRule) -> (r: bool)
    ensures
        r == ranks_before(a.model(), b.model()),
{
    let la = a.path.as_str().as_bytes().len();
    let lb = b.path.as_str().as_bytes().len();
    a.priority > b.priority || (a.priority == b.priority && la > lb) || (a.priority == b.priority
        && la == lb && a.path_type == PathType::Exact && b.path_type == PathType::Prefix)
}

/// Inserts `x` before the first rule that it ranks before.
pub fn insert_rule(v: &mut Vec<RouteRule>, x: RouteRule)
    ensures
        rule_models(final(v)@) == insert_ranked(rule_models(old(v)@), x.model()),
{
    let mut p: usize = 0;
    while p < v.len() && !rule_ranks_before(&x, &v[p])
        invariant
            p <= v@.len(),
            forall|q: int| 0 <= q < p ==> !ranks_before(x.model(), #[trigger] rule_models(v@)[q]),
        decreases v@.len() - p,
    {
        p += 1;
    }
    let ghost old_models = rule_models(v@);
    proof {
        lemma_insert_at(old_models, x.model(), p as int);
    }
    v.insert(p, x);
    assert(rule_models(v@) =~= old_models.insert(p as int, x.model()));
}

pub fn rule_matches(r: &RouteRule, path: &str) -> (b: bool)
    ensures
        b == path_matches(r.model(), path@),
{
    match r.path_type {
        PathType::Exact => str_eq(r.path.as_str(), path),
        PathType::Prefix => starts_with(path, r.path.as_str()),
    }
}

/// The rules configured for one host, ranked.
#[derive(Debug)]
pub struct HostRoutes {
    pub host: String,
    pub rules: Vec<RouteRule>,
}

pub open spec fn has_host(v: Seq<HostRoutes>, h: Seq<char>) -> bool {
    exists|i: int| 0 <= i < v.len() && (#[trigger] v[i]).host@ == h
}

pub open spec fn hosts_unique(v: Seq<HostRoutes>) -> bool {
    forall|i: int, j: int|
        0 <= i < v.len() && 0 <= j < v.len() && i != j ==> (#[trigger] v[i]).host@ != (#[trigger] v[j]).host@
}

/// The ranked rules that `v` holds for host `h`.
pub open spec fn bucket_in(v: Seq<HostRoutes>, h: Seq<char>) -> Option<Seq<RuleModel>> {
    if has_host(v, h) {
        let i = choose|i: int| 0 <= i < v.len() && (#[trigger] v[i]).host@ == h;
        Some(rule_models(v[i].rules@))
    } else {
        None
    }
}

pub fn find_host(v: &Vec<HostRoutes>, h: &str) -> (r: Option<usize>)
    ensures
        match r {
            Some(i) => i < v@.len() && v@[i as int].host@ == h@,
            None => !has_host(v@, h@),
        },
{
    let mut i: usize = 0;
    while i < v.len()
        invariant
            i <= v@.len(),
            forall|j: int| 0 <= j < i ==> (#[trigger] v@[j]).host@ != h@,
        decreases v@.len() - i,
    {
        if str_eq(v[i].host.as_str(), h) {
            return Some(i);
        }
        i += 1;
    }
    None
}

/// Identity of an endpoint's connection counter within its cluster.
#[derive(Clone, Debug, PartialEq, Eq, Hash)]
pub struct EndpointKey {
    pub address: String,
    pub port: i32,
    pub index: usize,
}

impl EndpointKey {
    pub fn from_endpoint(index: usize, endpoint: &Endpoint) -> (r: Self)
        ensures
            r.address@ == endpoint.address@,
            r.port == endpoint.port,
            r.index == index,
    {
        EndpointKey { address: copy_string(&endpoint.address), port: endpoint.port, index }
    }
}

#[verifier::external_type_specification]
#[verifier::external_body]
#[verifier::reject_recursive_types(K)]
#[verifier::reject_recursive_types(V)]
#[verifier::reject_recursive_types(S)]
pub struct ExDashMap<K, V, S>(dashmap::DashMap<K, V, S>);

/// The endpoint indices that a counter map holds.
pub uninterp spec fn counter_slots(m: dashmap::DashMap<usize, Arc<AtomicUsize>>) -> Set<usize>;

/// Relies on `DashMap::with_capacity`: a new map is empty.
#[verifier::external_body]
fn new_counter_map(capacity: usize) -> (r: dashmap::DashMap<usize, Arc<AtomicUsize>>)
    ensures
        counter_slots(r) == Set::<usize>::empty(),
{
    dashmap::DashMap::with_capacity(capacity)
}

/// Relies on `DashMap::insert`: afterwards the map holds `key`.
#[verifier::external_body]
fn add_counter(m: &mut dashmap::DashMap<usize, Arc<AtomicUsize>>, key: usize, counter: Arc<AtomicUsize>)
    ensures
        counter_slots(*final(m)) == counter_slots(*old(m)).insert(key),
{
    m.insert(key, counter);
}

/// Relies on `DashMap::iter`: every entry once, each as its key and another
/// handle to its counter, in the map's own order.
#[verifier::external_body]
fn counter_entries(m: &dashmap::DashMap<usize, Arc<AtomicUsize>>) -> (r: Vec<(usize, Arc<AtomicUsize>)>)
    ensures
        forall|i: int| 0 <= i < r@.len() ==> counter_slots(*m).contains(#[trigger] r@[i].0),
        forall|k: usize| counter_slots(*m).contains(k) ==> exists|i: int| 0 <= i < r@.len() && #[trigger] r@[i].0 == k,
        forall|i: int, j: int| 0 <= i < j < r@.len() ==> #[trigger] r@[i].0 != #[trigger] r@[j].0,
{
    m.iter().map(|e| (*e.key(), Arc::clone(e.value()))).collect()
}

/// Relies on `DashMap::get`: the counter under `key`, present exactly when
/// the map holds the key.
#[verifier::external_body]
fn counter_for(m: &dashmap::DashMap<usize, Arc<AtomicUsize>>, key: usize) -> (r: Option<Arc<AtomicUsize>>)
    ensures
        r is Some <==> counter_slots(*m).contains(key),
{
    m.get(&key).map(|e| Arc::clone(e.value()))
}

/// One counter for each endpoint index, no other.
pub open spec fn counters_cover(m: dashmap::DashMap<usize, Arc<AtomicUsize>>, n: nat) -> bool {
    forall|k: usize| #[trigger] counter_slots(m).contains(k) <==> k < n
}

/// A fresh counter, at zero, for each endpoint index.
pub fn build_counter_map(endpoints: &Vec<Endpoint>) -> (r: dashmap::DashMap<usize, Arc<AtomicUsize>>)
    ensures
        counters_cover(r, endpoints@.len()),
{
    let mut m = new_counter_map(endpoints.len());
    let mut i: usize = 0;
    while i < endpoints.len()
        invariant
            i <= endpoints@.len(),
            counters_cover(m, i as nat),
        decreases endpoints@.len() - i,
    {
        add_counter(&mut m, i, Arc::new(AtomicUsize::new(0)));
        i += 1;
    }
    m
}

pub fn copy_endpoints(v: &Vec<Endpoint>) -> (r: Vec<Endpoint>)
    ensures
        endpoint_models(r@) == endpoint_models(v@),
{
    let mut out: Vec<Endpoint> = Vec::new();
    let mut i: usize = 0;
    while i < v.len()
        invariant
            i <= v@.len(),
            endpoint_models(out@) == endpoint_models(v@.subrange(0, i as int)),
        decreases v@.len() - i,
    {
        let ghost prev = out@;
        let e = v[i].duplicate();
        out.push(e);
        assert(endpoint_models(out@) =~= endpoint_models(prev).push(v@[i as int].model()));
        assert(endpoint_models(v@.subrange(0, i + 1)) =~= endpoint_models(
            v@.subrange(0, i as int),
        ).push(v@[i as int].model()));
        i += 1;
    }
    assert(v@.subrange(0, i as int) =~= v@);
    out
}

/// A cluster ready for routing, with its balancing state.
#[derive(Debug)]
pub struct ClusterRule {
    pub name: String,
    pub lb_policy: LBPolicy,
    pub endpoints: Vec<Endpoint>,
    pub timeout_ms: i32,
    pub retries: i32,
    pub backend_protocol: BackendProtocol,
    pub request_headers: Vec<HeaderRewriteRule>,
    pub backend_tls_insecure_skip_verify: bool,
    pub rr_cursor: AtomicUsize,
    pub counters: dashmap::DashMap<usize, Arc<AtomicUsize>>,
    pub auth: Option<AuthConfigDex>,
}

pub struct ClusterModel {
    pub name: Seq<char>,
    pub lb_policy: LBPolicy,
    pub endpoints: Seq<EndpointModel>,
    pub timeout_ms: i32,
    pub retries: i32,
    pub backend_protocol: BackendProtocol,
    pub request_headers: Seq<RewriteModel>,
    pub backend_tls_insecure_skip_verify: bool,
    pub auth: Option<AuthModel>,
}

impl ClusterRule {
    pub open spec fn model(&self) -> ClusterModel {
        ClusterModel {
            name: self.name@,
            lb_policy: self.lb_policy,
            endpoints: endpoint_models(self.endpoints@),
            timeout_ms: self.timeout_ms,
            retries: self.retries,
            backend_protocol: self.backend_protocol,
            request_headers: rewrite_models(self.request_headers@),
            backend_tls_insecure_skip_verify: self.backend_tls_insecure_skip_verify,
            auth: opt_auth_model(self.auth),
        }
    }

    pub open spec fn wf(&self) -> bool {
        counters_cover(self.counters, self.endpoints@.len())
    }
}

/// The rule a configured cluster gives, when its policy is known; an
/// unknown backend protocol means HTTP/1.1.
pub open spec fn cluster_rule_of(c: Cluster) -> Option<ClusterModel> {
    match lb_policy_of(c.lb_policy@) {
        Some(lb) => Some(
            ClusterModel {
                name: lower(c.name@),
                lb_policy: lb,
                endpoints: endpoint_models(c.endpoints@),
                timeout_ms: c.timeout_ms,
                retries: c.retries,
                backend_protocol: match backend_protocol_of(c.backend_protocol@) {
                    Some(bp) => bp,
                    None => BackendProtocol::H1,
                },
                request_headers: rewrites_of(c.request_headers@),
                backend_tls_insecure_skip_verify: c.backend_tls_insecure_skip_verify,
                auth: auth_runtime_of(c.auth),
            },
        ),
        None => None,
    }
}

pub fn build_cluster_rule(c: &Cluster) -> (r: Option<ClusterRule>)
    ensures
        match r {
            Some(x) => cluster_rule_of(*c) == Some(x.model()) && x.wf(),
            None => cluster_rule_of(*c) is None,
        },
{
    let lb = match LBPolicy::parse(c.lb_policy.as_str()) {
        Some(lb) => lb,
        None => {
            return None;
        },
    };
    let bp = match BackendProtocol::parse(c.backend_protocol.as_str()) {
        Some(bp) => bp,
        None => BackendProtocol::H1,
    };
    let endpoints = copy_endpoints(&c.endpoints);
    let counters = build_counter_map(&c.endpoints);
    proof {
        assert(endpoint_models(endpoints@).len() == endpoints@.len());
        assert(endpoint_models(c.endpoints@).len() == c.endpoints@.len());
    }
    Some(
        ClusterRule {
            name: to_ascii_lowercase(c.name.as_str()),
            lb_policy: lb,
            endpoints,
            timeout_ms: c.timeout_ms,
            retries: c.retries,
            backend_protocol: bp,
            request_headers: build_header_rewrites(&c.request_headers),
            backend_tls_insecure_skip_verify: c.backend_tls_insecure_skip_verify,
            rr_cursor: AtomicUsize::new(0),
            counters,
            auth: build_auth_runtime(&c.auth),
        },
    )
}

/// A cluster rule under its lowercase name.
#[derive(Debug)]
pub struct ClusterEntry {
    pub name: String,
    pub rule: ClusterRule,
}

pub open spec fn has_cluster(v: Seq<ClusterEntry>, n: Seq<char>) -> bool {
    exists|i: int| 0 <= i < v.len() && (#[trigger] v[i]).name@ == n
}

pub open spec fn names_unique(v: Seq<ClusterEntry>) -> bool {
    forall|i: int, j: int|
        0 <= i < v.len() && 0 <= j < v.len() && i != j ==> (#[trigger] v[i]).name@ != (#[trigger] v[j]).name@
}

/// The rule that `v` holds under name `n`.
pub open spec fn cluster_in(v: Seq<ClusterEntry>, n: Seq<char>) -> Option<ClusterModel> {
    if has_cluster(v, n) {
        let i = choose|i: int| 0 <= i < v.len() && (#[trigger] v[i]).name@ == n;
        Some(v[i].rule.model())
    } else {
        None
    }
}

/// The rule of the last configured cluster whose lowercase name is `n`:
/// a later definition replaces an earlier one.
pub open spec fn last_cluster(s: Seq<Cluster>, n: Seq<char>) -> Option<ClusterModel>
    decreases s.len(),
{
    if s.len() == 0 {
        None
    } else {
        match cluster_rule_of(s.last()) {
            Some(m) => if lower(s.last().name@) == n {
                Some(m)
            } else {
                last_cluster(s.drop_last(), n)
            },
            None => last_cluster(s.drop_last(), n),
        }
    }
}

pub fn find_cluster(v: &Vec<ClusterEntry>, n: &str) -> (r: Option<usize>)
    ensures
        match r {
            Some(i) => i < v@.len() && v@[i as int].name@ == n@,
            None => !has_cluster(v@, n@),
        },
{
    let mut i: usize = 0;
    while i < v.len()
        invariant
            i <= v@.len(),
            forall|j: int| 0 <= j < i ==> (#[trigger] v@[j]).name@ != n@,
        decreases v@.len() - i,
    {
        if str_eq(v[i].name.as_str(), n) {
            return Some(i);
        }
        i += 1;
    }
    None
}

proof fn lemma_cluster_in_update(v: Seq<ClusterEntry>, idx: int, e: ClusterEntry, n: Seq<char>)
    requires
        names_unique(v),
        0 <= idx < v.len(),
        e.name@ == v[idx].name@,
    ensures
        names_unique(v.update(idx, e)),
        cluster_in(v.update(idx, e), n) == if n == e.name@ {
            Some(e.rule.model())
        } else {
            cluster_in(v, n)
        },
{
    let w = v.update(idx, e);
    assert forall|i: int| 0 <= i < v.len() implies (#[trigger] w[i]).name@ == v[i].name@ by {}
    if has_cluster(w, n) {
        let i = choose|i: int| 0 <= i < w.len() && (#[trigger] w[i]).name@ == n;
        assert(v[i].name@ == n);
        if n == e.name@ {
            assert(i == idx);
        } else {
            let j = choose|j: int| 0 <= j < v.len() && (#[trigger] v[j]).name@ == n;
            assert(i == j);
        }
    } else {
        assert forall|i: int| 0 <= i < v.len() implies (#[trigger] v[i]).name@ != n by {
            assert(w[i].name@ != n);
        }
    }
}

proof fn lemma_cluster_in_push(v: Seq<ClusterEntry>, e: ClusterEntry, n: Seq<char>)
    requires
        names_unique(v),
        !has_cluster(v, e.name@),
    ensures
        names_unique(v.push(e)),
        cluster_in(v.push(e), n) == if n == e.name@ {
            Some(e.rule.model())
        } else {
            cluster_in(v, n)
        },
{
    let w = v.push(e);
    assert forall|i: int| 0 <= i < v.len() implies (#[trigger] w[i]) == v[i] by {}
    assert(w[v.len() as int] == e);
    if has_cluster(w, n) {
        let i = choose|i: int| 0 <= i < w.len() && (#[trigger] w[i]).name@ == n;
        if n == e.name@ {
            assert(i == v.len());
        } else {
            assert(v[i].name@ == n);
            let j = choose|j: int| 0 <= j < v.len() && (#[trigger] v[j]).name@ == n;
            assert(i == j);
        }
    } else {
        assert forall|i: int| 0 <= i < v.len() implies (#[trigger] v[i]).name@ != n by {
            assert(w[i].name@ != n);
        }
    }
}

pub open spec fn clusters_wf(v: Seq<ClusterEntry>) -> bool {
    forall|i: int| 0 <= i < v.len() ==> (#[trigger] v[i]).rule.wf()
}

/// Cluster rules keyed by lowercase name; a later definition replaces an
/// earlier one.
pub fn build_clusters(clusters: &Vec<Cluster>) -> (r: Vec<ClusterEntry>)
    ensures
        names_unique(r@),
        clusters_wf(r@),
        forall|n: Seq<char>| cluster_in(r@, n) == last_cluster(clusters@, n),
{
    let mut out: Vec<ClusterEntry> = Vec::new();
    let mut i: usize = 0;
    while i < clusters.len()
        invariant
            i <= clusters@.len(),
            names_unique(out@),
            clusters_wf(out@),
            forall|n: Seq<char>| cluster_in(out@, n) == last_cluster(clusters@.subrange(0, i as int), n),
        decreases clusters@.len() - i,
    {
        let ghost pre = clusters@.subrange(0, i as int);
        assert(clusters@.subrange(0, i + 1).drop_last() =~= pre);
        assert(clusters@.subrange(0, i + 1).last() == clusters@[i as int]);
        let c = &clusters[i];
        match build_cluster_rule(c) {
            Some(rule) => {
                let name = to_ascii_lowercase(c.name.as_str());
                let ghost prev = out@;
                let entry = ClusterEntry { name, rule };
                match find_cluster(&out, entry.name.as_str()) {
                    Some(idx) => {
                        proof {
                            assert forall|n: Seq<char>| #[trigger] cluster_in(prev.update(idx as int, entry), n)
                                == last_cluster(clusters@.subrange(0, i + 1), n) by {
                                lemma_cluster_in_update(prev, idx as int, entry, n);
                            }
                            lemma_cluster_in_update(prev, idx as int, entry, Seq::empty());
                        }
                        out.remove(idx);
                        out.insert(idx, entry);
                        assert(out@ =~= prev.update(idx as int, entry));
                    },
                    None => {
                        proof {
                            assert forall|n: Seq<char>| #[trigger] cluster_in(prev.push(entry), n)
                                == last_cluster(clusters@.subrange(0, i + 1), n) by {
                                lemma_cluster_in_push(prev, entry, n);
                            }
                            lemma_cluster_in_push(prev, entry, Seq::empty());
                        }
                        out.push(entry);
                    },
                }
            },
            None => {},
        }
        i += 1;
    }
    assert(clusters@.subrange(0, i as int) =~= clusters@);
    out
}

pub open spec fn string_seq_has(keys: Seq<String>, h: Seq<char>) -> bool {
    exists|j: int| 0 <= j < keys.len() && (#[trigger] keys[j])@ == h
}

pub fn has_string(keys: &Vec<String>, h: &String) -> (r: bool)
    ensures
        r == string_seq_has(keys@, h@),
{
    let mut k: usize = 0;
    while k < keys.len()
        invariant
            k <= keys@.len(),
            forall|j: int| 0 <= j < k ==> (#[trigger] keys@[j])@ != h@,
        decreases keys@.len() - k,
    {
        if str_eq(keys[k].as_str(), h.as_str()) {
            return true;
        }
        k += 1;
    }
    false
}

pub fn lowered_hosts(routes: &Vec<Route>) -> (r: Vec<String>)
    ensures
        r@.len() == routes@.len(),
        forall|j: int| 0 <= j < r@.len() ==> (#[trigger] r@[j])@ == lower(routes@[j].host@),
{
    let mut out: Vec<String> = Vec::new();
    let mut i: usize = 0;
    while i < routes.len()
        invariant
            i <= routes@.len(),
            out@.len() == i,
            forall|j: int| 0 <= j < i ==> (#[trigger] out@[j])@ == lower(routes@[j].host@),
        decreases routes@.len() - i,
    {
        out.push(to_ascii_lowercase(routes[i].host.as_str()));
        i += 1;
    }
    out
}

/// The lowercase hosts that have at least one rule, each once.
fn host_keys(routes: &Vec<Route>, lowered: &Vec<String>) -> (r: Vec<String>)
    requires
        lowered@.len() == routes@.len(),
        forall|j: int| 0 <= j < lowered@.len() ==> (#[trigger] lowered@[j])@ == lower(routes@[j].host@),
    ensures
        forall|a: int, b: int|
            0 <= a < r@.len() && 0 <= b < r@.len() && a != b ==> (#[trigger] r@[a])@ != (#[trigger] r@[b])@,
        forall|h: Seq<char>| string_seq_has(r@, h) <==> host_models(routes@, h).len() > 0,
{
    let mut keys: Vec<String> = Vec::new();
    let mut i: usize = 0;
    while i < routes.len()
        invariant
            i <= routes@.len(),
            lowered@.len() == routes@.len(),
            forall|j: int| 0 <= j < lowered@.len() ==> (#[trigger] lowered@[j])@ == lower(routes@[j].host@),
            forall|a: int, b: int|
                0 <= a < keys@.len() && 0 <= b < keys@.len() && a != b ==> (#[trigger] keys@[a])@
                    != (#[trigger] keys@[b])@,
            forall|h: Seq<char>|
                string_seq_has(keys@, h) <==> host_models(routes@.subrange(0, i as int), h).len() > 0,
        decreases routes@.len() - i,
    {
        assert(routes@.subrange(0, i + 1).drop_last() =~= routes@.subrange(0, i as int));
        assert(routes@.subrange(0, i + 1).last() == routes@[i as int]);
        let ghost kb = keys@;
        let valid = PathType::parse(routes[i].path_type.as_str()).is_some();
        if valid {
            let found = has_string(&keys, &lowered[i]);
            if !found {
                let ghost prev = keys@;
                keys.push(copy_string(&lowered[i]));
                proof {
                    assert forall|h: Seq<char>| string_seq_has(keys@, h) <==> (string_seq_has(prev, h) || h
                        == lowered@[i as int]@) by {
                        if string_seq_has(keys@, h) {
                            let j = choose|j: int| 0 <= j < keys@.len() && (#[trigger] keys@[j])@ == h;
                            if j < prev.len() {
                                assert(prev[j] == keys@[j]);
                            }
                        }
                        if string_seq_has(prev, h) {
                            let j = choose|j: int| 0 <= j < prev.len() && (#[trigger] prev[j])@ == h;
                            assert(keys@[j] == prev[j]);
                        }
                        if h == lowered@[i as int]@ {
                            assert(keys@[prev.len() as int]@ == h);
                        }
                    }
                }
            } else {
                assert(string_seq_has(keys@, lowered@[i as int]@));
            }
        }
        proof {
            let pre = routes@.subrange(0, i as int);
            let post = routes@.subrange(0, i + 1);
            assert forall|h: Seq<char>| string_seq_has(keys@, h) <==> host_models(post, h).len() > 0 by {
                assert(post.drop_last() =~= pre);
                assert(post.last() == routes@[i as int]);
                if valid && h == lowered@[i as int]@ {
                    assert(host_models(post, h).len() > 0);
                    assert(string_seq_has(keys@, h));
                } else {
                    assert(host_models(post, h) == host_models(pre, h));
                    assert(string_seq_has(kb, h) <==> host_models(pre, h).len() > 0);
                    assert(string_seq_has(keys@, h) <==> string_seq_has(kb, h));
                }
            }
        }
        i += 1;
    }
    assert(routes@.subrange(0, i as int) =~= routes@);
    keys
}

fn rule_from_route(r: &Route, pt: PathType) -> (x: RouteRule)
    requires
        path_type_of(r.path_type@) == Some(pt),
    ensures
        rule_of_route(*r) == Some(x.model()),
{
    RouteRule {
        path: copy_string(&r.path),
        path_type: pt,
        cluster: copy_string(&r.cluster),
        priority: r.priority,
    }
}

/// The ranked rules of one lowercase host.
fn bucket_rules(routes: &Vec<Route>, lowered: &Vec<String>, host: &String) -> (r: Vec<RouteRule>)
    requires
        lowered@.len() == routes@.len(),
        forall|j: int| 0 <= j < lowered@.len() ==> (#[trigger] lowered@[j])@ == lower(routes@[j].host@),
    ensures
        rule_models(r@) == rank_sort(host_models(routes@, host@)),
{
    let mut rules: Vec<RouteRule> = Vec::new();
    let mut i: usize = 0;
    while i < routes.len()
        invariant
            i <= routes@.len(),
            lowered@.len() == routes@.len(),
            forall|j: int| 0 <= j < lowered@.len() ==> (#[trigger] lowered@[j])@ == lower(routes@[j].host@),
            rule_models(rules@) == rank_sort(host_models(routes@.subrange(0, i as int), host@)),
        decreases routes@.len() - i,
    {
        let ghost pre = routes@.subrange(0, i as int);
        assert(routes@.subrange(0, i + 1).drop_last() =~= pre);
        assert(routes@.subrange(0, i + 1).last() == routes@[i as int]);
        match PathType::parse(routes[i].path_type.as_str()) {
            Some(pt) => {
                if str_eq(lowered[i].as_str(), host.as_str()) {
                    let x = rule_from_route(&routes[i], pt);
                    let ghost hm = host_models(pre, host@);
                    assert(hm.push(x.model()).drop_last() =~= hm);
                    insert_rule(&mut rules, x);
                }
            },
            None => {},
        }
        i += 1;
    }
    assert(routes@.subrange(0, i as int) =~= routes@);
    rules
}

/// Host buckets of ranked rules for the given routes.
pub fn build_buckets(routes: &Vec<Route>) -> (r: Vec<HostRoutes>)
    ensures
        hosts_unique(r@),
        forall|h: Seq<char>| bucket_in(r@, h) == bucket_of(routes@, h),
{
    let lowered = lowered_hosts(routes);
    let keys = host_keys(routes, &lowered);
    let mut out: Vec<HostRoutes> = Vec::new();
    let mut k: usize = 0;
    while k < keys.len()
        invariant
            k <= keys@.len(),
            out@.len() == k,
            lowered@.len() == routes@.len(),
            forall|j: int| 0 <= j < lowered@.len() ==> (#[trigger] lowered@[j])@ == lower(routes@[j].host@),
            forall|a: int, b: int|
                0 <= a < keys@.len() && 0 <= b < keys@.len() && a != b ==> (#[trigger] keys@[a])@
                    != (#[trigger] keys@[b])@,
            forall|h: Seq<char>| string_seq_has(keys@, h) <==> host_models(routes@, h).len() > 0,
            forall|j: int|
                0 <= j < k ==> (#[trigger] out@[j]).host@ == keys@[j]@ && rule_models(out@[j].rules@)
                    == rank_sort(host_models(routes@, keys@[j]@)),
        decreases keys@.len() - k,
    {
        let rules = bucket_rules(routes, &lowered, &keys[k]);
        out.push(HostRoutes { host: copy_string(&keys[k]), rules });
        k += 1;
    }
    proof {
        assert forall|a: int, b: int|
            0 <= a < out@.len() && 0 <= b < out@.len() && a != b implies (#[trigger] out@[a]).host@
            != (#[trigger] out@[b]).host@ by {
            assert(keys@[a]@ != keys@[b]@);
        }
        assert forall|h: Seq<char>| bucket_in(out@, h) == bucket_of(routes@, h) by {
            if has_host(out@, h) {
                let i = choose|i: int| 0 <= i < out@.len() && (#[trigger] out@[i]).host@ == h;
                assert(keys@[i]@ == h);
                assert(string_seq_has(keys@, h));
            } else {
                if string_seq_has(keys@, h) {
                    let j = choose|j: int| 0 <= j < keys@.len() && (#[trigger] keys@[j])@ == h;
                    assert(out@[j].host@ == h);
                }
            }
        }
    }
    out
}

/// Relies on `Arc::clone`: another handle to the same counter.
#[verifier::external_body]
fn share_counter(c: &Arc<AtomicUsize>) -> Arc<AtomicUsize> {
    Arc::clone(c)
}

/// `e` is one of the endpoints. Which one the policy picks depends on the
/// round-robin cursor or the connection counters, shared atomics whose
/// values are read at the time of the call: `round_robin_index` and
/// `least_conn_index` state the choice for given values.
pub open spec fn is_endpoint_of(endpoints: Seq<EndpointModel>, e: EndpointModel) -> bool {
    exists|i: int| 0 <= i < endpoints.len() && e == #[trigger] endpoints[i]
}

/// The endpoint picked for a request, with its active-connection counter.
#[derive(Debug)]
pub struct SelectedEndpoint {
    pub endpoint: Endpoint,
    pub counter: Option<Arc<AtomicUsize>>,
}

/// Round robin: the ticket drawn from the cluster's cursor, modulo the
/// number of endpoints.
pub fn round_robin_index(ticket: usize, len: usize) -> (r: usize)
    requires
        len > 0,
    ensures
        r == ticket % len,
        r < len,
{
    ticket % len
}

/// `i` is the first index of a minimal load.
pub open spec fn first_min(loads: Seq<usize>, i: int) -> bool {
    &&& 0 <= i < loads.len()
    &&& forall|j: int| 0 <= j < loads.len() ==> loads[i] <= #[trigger] loads[j]
    &&& forall|j: int| 0 <= j < i ==> #[trigger] loads[j] > loads[i]
}

/// Least connections: the first endpoint whose load is minimal.
pub fn least_conn_index(loads: &Vec<usize>) -> (r: Option<usize>)
    ensures
        match r {
            Some(i) => first_min(loads@, i as int),
            None => loads@.len() == 0,
        },
{
    if loads.len() == 0 {
        return None;
    }
    let mut best: usize = 0;
    let mut i: usize = 1;
    while i < loads.len()
        invariant
            1 <= i <= loads@.len(),
            best < i,
            forall|j: int| 0 <= j < i ==> loads@[best as int] <= #[trigger] loads@[j],
            forall|j: int| 0 <= j < best ==> #[trigger] loads@[j] > loads@[best as int],
        decreases loads@.len() - i,
    {
        if loads[i] < loads[best] {
            best = i;
        }
        i += 1;
    }
    Some(best)
}

/// The immutable routing index built from one snapshot.
#[derive(Debug)]
pub struct RouteTable {
    pub version: String,
    pub routes_by_host: Vec<HostRoutes>,
    pub clusters: Vec<ClusterEntry>,
}

impl Default for RouteTable {
    fn default() -> (r: Self)
        ensures
            r.wf(),
            forall|h: Seq<char>| r.bucket(h) is None,
            forall|n: Seq<char>| r.cluster(n) is None,
    {
        RouteTable::empty()
    }
}

impl RouteTable {
    pub open spec fn wf(&self) -> bool {
        &&& hosts_unique(self.routes_by_host@)
        &&& names_unique(self.clusters@)
        &&& clusters_wf(self.clusters@)
    }

    /// The ranked rules for host `h`.
    pub open spec fn bucket(&self, h: Seq<char>) -> Option<Seq<RuleModel>> {
        bucket_in(self.routes_by_host@, h)
    }

    /// The rule of the cluster named `n`.
    pub open spec fn cluster(&self, n: Seq<char>) -> Option<ClusterModel> {
        cluster_in(self.clusters@, n)
    }

    /// A table with no routes and no clusters.
    pub fn empty() -> (r: Self)
        ensures
            r.wf(),
            forall|h: Seq<char>| r.bucket(h) is None,
            forall|n: Seq<char>| r.cluster(n) is None,
    {
        RouteTable { version: String::new(), routes_by_host: Vec::new(), clusters: Vec::new() }
    }

    /// Builds the table: routes bucketed by lowercase host and ranked,
    /// clusters keyed by lowercase name.
    pub fn new(snapshot: &Snapshot) -> (r: Self)
        ensures
            r.wf(),
            r.version@ == snapshot.version@,
            forall|h: Seq<char>| r.bucket(h) == bucket_of(snapshot.routes@, h),
            forall|n: Seq<char>| r.cluster(n) == last_cluster(snapshot.clusters@, n),
    {
        let clusters = build_clusters(&snapshot.clusters);
        let routes_by_host = build_buckets(&snapshot.routes);
        RouteTable { version: copy_string(&snapshot.version), routes_by_host, clusters }
    }

    /// Index of the first rule of `rules` that matches `path`.
    pub fn match_in_bucket(rules: &Vec<RouteRule>, path: &str) -> (r: Option<usize>)
        ensures
            match r {
                Some(i) => i < rules@.len() && first_match(rule_models(rules@), path@) == Some(i as int),
                None => first_match(rule_models(rules@), path@) is None,
            },
    {
        let ghost s = rule_models(rules@);
        assert(s.subrange(0, s.len() as int) =~= s);
        let mut i: usize = 0;
        while i < rules.len()
            invariant
                i <= rules@.len(),
                s == rule_models(rules@),
                first_match(s, path@) == match first_match(s.subrange(i as int, s.len() as int), path@) {
                    Some(k) => Some(k + i),
                    None => None,
                },
            decreases rules@.len() - i,
        {
            let ghost rest = s.subrange(i as int, s.len() as int);
            assert(rest[0] == rules@[i as int].model());
            assert(rest.drop_first() =~= s.subrange(i + 1, s.len() as int));
            if rule_matches(&rules[i], path) {
                return Some(i);
            }
            i += 1;
        }
        None
    }

    /// The rule for `host` and `path`: the first match in the host's
    /// bucket, else the first match in the wildcard (empty host) bucket.
    pub fn choose_route<'a>(&'a self, host: &str, path: &str) -> (r: Option<&'a RouteRule>)
        requires
            self.wf(),
        ensures
            match r {
                Some(x) => route_choice(self.bucket(host@), self.bucket(Seq::empty()), path@) == Some(
                    x.model(),
                ),
                None => route_choice(self.bucket(host@), self.bucket(Seq::empty()), path@) is None,
            },
    {
        let ghost v = self.routes_by_host@;
        let mut picked: Option<&'a RouteRule> = None;
        match find_host(&self.routes_by_host, host) {
            Some(b) => {
                proof {
                    let i = choose|i: int| 0 <= i < v.len() && (#[trigger] v[i]).host@ == host@;
                    assert(i == b);
                }
                match Self::match_in_bucket(&self.routes_by_host[b].rules, path) {
                    Some(i) => {
                        picked = Some(&self.routes_by_host[b].rules[i]);
                    },
                    None => {},
                }
            },
            None => {},
        }
        if picked.is_some() {
            return picked;
        }
        proof {
            reveal_strlit("");
            assert(""@ =~= Seq::<char>::empty());
        }
        match find_host(&self.routes_by_host, "") {
            Some(b) => {
                proof {
                    let i = choose|i: int| 0 <= i < v.len() && (#[trigger] v[i]).host@ == Seq::<char>::empty();
                    assert(i == b);
                }
                match Self::match_in_bucket(&self.routes_by_host[b].rules, path) {
                    Some(i) => Some(&self.routes_by_host[b].rules[i]),
                    None => None,
                }
            },
            None => None,
        }
    }

    /// The rule of the cluster named exactly `cluster_name`.
    pub fn get_cluster_rules<'a>(&'a self, cluster_name: &str) -> (r: Option<&'a ClusterRule>)
        requires
            self.wf(),
        ensures
            match r {
                Some(x) => self.cluster(cluster_name@) == Some(x.model()) && x.wf(),
                None => self.cluster(cluster_name@) is None,
            },
    {
        let ghost v = self.clusters@;
        match find_cluster(&self.clusters, cluster_name) {
            Some(i) => {
                proof {
                    let j = choose|j: int| 0 <= j < v.len() && (#[trigger] v[j]).name@ == cluster_name@;
                    assert(i == j);
                }
                Some(&self.clusters[i].rule)
            },
            None => None,
        }
    }

    /// Another handle to the counter of endpoint `idx`.
    pub fn counter_for_index(cluster: &ClusterRule, idx: usize) -> (r: Option<Arc<AtomicUsize>>)
        requires
            cluster.wf(),
        ensures
            r is Some <==> idx < cluster.endpoints@.len(),
    {
        counter_for(&cluster.counters, idx)
    }

    fn round_robin(cluster: &ClusterRule) -> (r: Option<SelectedEndpoint>)
        requires
            cluster.wf(),
        ensures
            match r {
                Some(sel) => sel.counter is Some && is_endpoint_of(
                    endpoint_models(cluster.endpoints@),
                    sel.endpoint.model(),
                ),
                None => cluster.endpoints@.len() == 0,
            },
    {
        let len = cluster.endpoints.len();
        if len == 0 {
            return None;
        }
        let ticket = cluster.rr_cursor.fetch_add(1, Ordering::Relaxed);
        let idx = round_robin_index(ticket, len);
        let endpoint = cluster.endpoints[idx].duplicate();
        let counter = Self::counter_for_index(cluster, idx);
        proof {
            let em = endpoint_models(cluster.endpoints@);
            assert(em[idx as int] == endpoint.model());
        }
        Some(SelectedEndpoint { endpoint, counter })
    }

    fn least_conn(cluster: &ClusterRule) -> (r: Option<SelectedEndpoint>)
        requires
            cluster.wf(),
        ensures
            match r {
                Some(sel) => sel.counter is Some && is_endpoint_of(
                    endpoint_models(cluster.endpoints@),
                    sel.endpoint.model(),
                ),
                None => cluster.endpoints@.len() == 0,
            },
    {
        let len = cluster.endpoints.len();
        if len == 0 {
            return None;
        }
        let entries = counter_entries(&cluster.counters);
        let mut loads: Vec<usize> = Vec::new();
        let mut i: usize = 0;
        while i < entries.len()
            invariant
                i <= entries@.len(),
                loads@.len() == i,
            decreases entries@.len() - i,
        {
            loads.push(entries[i].1.load(Ordering::Relaxed));
            i += 1;
        }
        match least_conn_index(&loads) {
            Some(idx) => {
                let k = entries[idx].0;
                assert(counter_slots(cluster.counters).contains(k));
                let endpoint = cluster.endpoints[k].duplicate();
                let counter = Some(share_counter(&entries[idx].1));
                proof {
                    let em = endpoint_models(cluster.endpoints@);
                    assert(em[k as int] == endpoint.model());
                }
                Some(SelectedEndpoint { endpoint, counter })
            },
            None => Self::round_robin(cluster),
        }
    }

    /// An endpoint of the named cluster, by the cluster's policy; none when
    /// the cluster is unknown or has no endpoints.
    pub fn get_endpoint(&self, cluster_name: &str) -> (r: Option<SelectedEndpoint>)
        requires
            self.wf(),
        ensures
            match r {
                Some(sel) => sel.counter is Some && match self.cluster(cluster_name@) {
                    Some(c) => c.endpoints.len() > 0 && is_endpoint_of(c.endpoints, sel.endpoint.model()),
                    None => false,
                },
                None => match self.cluster(cluster_name@) {
                    Some(c) => c.endpoints.len() == 0,
                    None => true,
                },
            },
    {
        let cluster = match self.get_cluster_rules(cluster_name) {
            Some(c) => c,
            None => {
                return None;
            },
        };
        let r = match cluster.lb_policy {
            LBPolicy::RoundRobin => Self::round_robin(cluster),
            LBPolicy::LeastConn => Self::least_conn(cluster),
        };
        r
    }
}

/// No entry ranks before an earlier one.
pub open spec fn ranked(s: Seq<RuleModel>) -> bool {
    forall|i: int, j: int| 0 <= i < j < s.len() ==> !ranks_before(#[trigger] s[j], #[trigger] s[i])
}

proof fn lemma_insert_elements(s: Seq<RuleModel>, x: RuleModel)
    ensures
        insert_ranked(s, x).len() == s.len() + 1,
        forall|k: int|
            0 <= k < insert_ranked(s, x).len() ==> #[trigger] insert_ranked(s, x)[k] == x || exists|j: int|
                0 <= j < s.len() && insert_ranked(s, x)[k] == #[trigger] s[j],
    decreases s.len(),
{
    if s.len() > 0 && !ranks_before(x, s[0]) {
        let t = s.drop_first();
        lemma_insert_elements(t, x);
        let r = insert_ranked(s, x);
        assert forall|k: int| 0 <= k < r.len() implies #[trigger] r[k] == x || exists|j: int|
            0 <= j < s.len() && r[k] == #[trigger] s[j] by {
            if k == 0 {
                assert(r[0] == s[0]);
            } else {
                assert(r[k] == insert_ranked(t, x)[k - 1]);
                if insert_ranked(t, x)[k - 1] != x {
                    let j = choose|j: int| 0 <= j < t.len() && insert_ranked(t, x)[k - 1] == #[trigger] t[j];
                    assert(t[j] == s[j + 1]);
                }
            }
        }
    } else if s.len() > 0 {
        let r = insert_ranked(s, x);
        assert forall|k: int| 0 <= k < r.len() implies #[trigger] r[k] == x || exists|j: int|
            0 <= j < s.len() && r[k] == #[trigger] s[j] by {
            if k > 0 {
                assert(r[k] == s[k - 1]);
            }
        }
    }
}

proof fn lemma_insert_keeps_ranked(s: Seq<RuleModel>, x: RuleModel)
    requires
        ranked(s),
    ensures
        ranked(insert_ranked(s, x)),
    decreases s.len(),
{
    if s.len() == 0 {
    } else if ranks_before(x, s[0]) {
        let r = insert_ranked(s, x);
        assert forall|i: int, j: int| 0 <= i < j < r.len() implies !ranks_before(
            #[trigger] r[j],
            #[trigger] r[i],
        ) by {
            assert(r[j] == s[j - 1]);
            if i > 0 {
                assert(r[i] == s[i - 1]);
            } else if j - 1 > 0 {
                assert(!ranks_before(s[j - 1], s[0]));
            }
        }
    } else {
        let t = s.drop_first();
        assert forall|i: int, j: int| 0 <= i < j < t.len() implies !ranks_before(
            #[trigger] t[j],
            #[trigger] t[i],
        ) by {
            assert(t[i] == s[i + 1] && t[j] == s[j + 1]);
        }
        lemma_insert_keeps_ranked(t, x);
        lemma_insert_elements(t, x);
        let r = insert_ranked(s, x);
        let rt = insert_ranked(t, x);
        assert forall|i: int, j: int| 0 <= i < j < r.len() implies !ranks_before(
            #[trigger] r[j],
            #[trigger] r[i],
        ) by {
            assert(r[j] == rt[j - 1]);
            if i > 0 {
                assert(r[i] == rt[i - 1]);
            } else {
                assert(r[0] == s[0]);
                if rt[j - 1] != x {
                    let k = choose|k: int| 0 <= k < t.len() && rt[j - 1] == #[trigger] t[k];
                    assert(t[k] == s[k + 1]);
                }
            }
        }
    }
}

proof fn lemma_rank_sort_ranked(s: Seq<RuleModel>)
    ensures
        ranked(rank_sort(s)),
    decreases s.len(),
{
    if s.len() > 0 {
        lemma_rank_sort_ranked(s.drop_last());
        lemma_insert_keeps_ranked(rank_sort(s.drop_last()), s.last());
    }
}

proof fn lemma_first_match(s: Seq<RuleModel>, path: Seq<char>)
    ensures
        match first_match(s, path) {
            Some(i) => 0 <= i < s.len() && path_matches(s[i], path) && forall|j: int|
                0 <= j < i ==> !path_matches(#[trigger] s[j], path),
            None => forall|j: int| 0 <= j < s.len() ==> !path_matches(#[trigger] s[j], path),
        },
    decreases s.len(),
{
    if s.len() > 0 && !path_matches(s[0], path) {
        let t = s.drop_first();
        lemma_first_match(t, path);
        match first_match(t, path) {
            Some(i) => {
                assert forall|j: int| 0 <= j < i + 1 implies !path_matches(#[trigger] s[j], path) by {
                    if j > 0 {
                        assert(s[j] == t[j - 1]);
                    }
                }
            },
            None => {
                assert forall|j: int| 0 <= j < s.len() implies !path_matches(#[trigger] s[j], path) by {
                    if j > 0 {
                        assert(s[j] == t[j - 1]);
                    }
                }
            },
        }
    }
}

/// Of the rules that a host's bucket holds for a path, the one chosen is
/// first in rank: no other matching rule has higher priority, or equal
/// priority and a longer path, or both equal and Exact against Prefix.
pub proof fn law_choice_ranks_first(routes: Seq<Route>, h: Seq<char>, path: Seq<char>)
    ensures
        match bucket_of(routes, h) {
            Some(b) => match first_match(b, path) {
                Some(i) => path_matches(b[i], path) && forall|j: int|
                    0 <= j < b.len() && path_matches(#[trigger] b[j], path) ==> !ranks_before(b[j], b[i]),
                None => forall|j: int| 0 <= j < b.len() ==> !path_matches(#[trigger] b[j], path),
            },
            None => true,
        },
{
    let s = rank_sort(host_models(routes, h));
    lemma_rank_sort_ranked(host_models(routes, h));
    lemma_first_match(s, path);
}

/// Holds one active connection on an endpoint's counter for as long as it
/// lives.
#[derive(Debug)]
pub struct ActiveConnGuard {
    pub counter: Option<Arc<AtomicUsize>>,
}

impl ActiveConnGuard {
    pub fn new(counter: Option<Arc<AtomicUsize>>) -> (r: Self)
        ensures
            r.counter == counter,
    {
        match &counter {
            Some(c) => {
                c.fetch_add(1, Ordering::Relaxed);
            },
            None => {},
        }
        ActiveConnGuard { counter }
    }
}

/// Relies on `AtomicUsize::fetch_sub`: takes one from the counter; it
/// neither panics nor touches anything else.
#[verifier::external_body]
fn release_one(c: &AtomicUsize)
    opens_invariants none
    no_unwind
{
    c.fetch_sub(1, Ordering::Relaxed);
}

impl Drop for ActiveConnGuard {
    fn drop(&mut self)
        opens_invariants none
        no_unwind
    {
        match &self.counter {
            Some(c) => {
                release_one(c);
            },
            None => {},
        }
    }
}

/// How many of the tickets `start .. start + n` pick endpoint `i` of `k`.
pub open spec fn rr_hits(start: nat, n: nat, k: nat, i: nat) -> nat
    decreases n,
{
    if n == 0 {
        0
    } else {
        rr_hits(start, (n - 1) as nat, k, i) + if (start + n - 1) % (k as int) == i as int {
            1nat
        } else {
            0nat
        }
    }
}

/// Tickets below `m` that pick endpoint `i` of `k`.
spec fn below(m: nat, k: nat, i: nat) -> int {
    (m + k - 1 - i) / (k as int)
}

proof fn lemma_below_step(m: nat, k: nat, i: nat)
    requires
        0 <= i < k,
    ensures
        below((m + 1) as nat, k, i) == below(m, k, i) + if (m as int) % (k as int) == i as int {
            1int
        } else {
            0int
        },
{
    let x: int = m + k - 1 - i;
    let kk = k as int;
    lemma_fundamental_div_mod(x, kk);
    lemma_fundamental_div_mod(m as int, kk);
    let q = x / kk;
    let r = x % kk;
    let qm = (m as int) / kk;
    let rm = (m as int) % kk;
    assert(x == q * kk + r) by (nonlinear_arith)
        requires
            x == kk * q + r,
    ;
    if r + 1 < kk {
        lemma_fundamental_div_mod_converse(x + 1, kk, q, r + 1);
        assert(rm != i) by (nonlinear_arith)
            requires
                x == q * kk + r,
                m == kk * qm + rm,
                x == m + kk - 1 - i,
                r + 1 < kk,
                0 <= r,
                0 <= rm < kk,
                0 <= i < kk,
        ;
    } else {
        assert(x + 1 == (q + 1) * kk + 0) by (nonlinear_arith)
            requires
                x == q * kk + r,
                r + 1 == kk,
        ;
        lemma_fundamental_div_mod_converse(x + 1, kk, q + 1, 0);
        assert(rm == i) by (nonlinear_arith)
            requires
                x == q * kk + r,
                m == kk * qm + rm,
                x == m + kk - 1 - i,
                r + 1 == kk,
                0 <= rm < kk,
                0 <= i < kk,
        ;
    }
}

proof fn lemma_hits_below(start: nat, n: nat, k: nat, i: nat)
    requires
        0 <= i < k,
    ensures
        rr_hits(start, n, k, i) as int == below((start + n) as nat, k, i) - below(start, k, i),
    decreases n,
{
    if n > 0 {
        lemma_hits_below(start, (n - 1) as nat, k, i);
        lemma_below_step((start + n - 1) as nat, k, i);
    }
}

/// Round robin spreads `n` consecutive tickets over `k` endpoints evenly:
/// each endpoint gets `n / k` of them, or one more.
pub proof fn law_round_robin_balanced(start: nat, n: nat, k: nat, i: nat)
    requires
        0 <= i < k,
    ensures
        (n as int) / (k as int) <= rr_hits(start, n, k, i) as int <= (n + k - 1) / (k as int),
{
    lemma_hits_below(start, n, k, i);
    let kk = k as int;
    let a: int = start + k - 1 - i;
    lemma_fundamental_div_mod(a, kk);
    lemma_fundamental_div_mod(n as int, kk);
    let qa = a / kk;
    let ra = a % kk;
    let qn = (n as int) / kk;
    let rn = (n as int) % kk;
    assert(a + n == (qa + qn) * kk + (ra + rn)) by (nonlinear_arith)
        requires
            a == kk * qa + ra,
            n == kk * qn + rn,
    ;
    if rn == 0 {
        lemma_fundamental_div_mod_converse(n + k - 1, kk, qn, kk - 1);
    } else {
        assert(n + k - 1 == (qn + 1) * kk + (rn - 1)) by (nonlinear_arith)
            requires
                n == kk * qn + rn,
                kk == k,
        ;
        lemma_fundamental_div_mod_converse(n + k - 1, kk, qn + 1, rn - 1);
    }
    if ra + rn < kk {
        lemma_fundamental_div_mod_converse(a + n, kk, qa + qn, ra + rn);
    } else {
        assert(a + n == (qa + qn + 1) * kk + (ra + rn - kk)) by (nonlinear_arith)
            requires
                a + n == (qa + qn) * kk + (ra + rn),
        ;
        lemma_fundamental_div_mod_converse(a + n, kk, qa + qn + 1, ra + rn - kk);
    }
    assert(below((start + n) as nat, k, i) == (a + n) / kk);
    assert(below(start, k, i) == a / kk);
}

} // verus!
