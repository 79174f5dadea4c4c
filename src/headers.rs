//! An ordered multimap of HTTP header fields and the rewrites applied to
//! requests on their way upstream.
use vstd::prelude::*;
use vstd::string::StrSliceExecFns;
use vstd::utf8::encode_utf8;
use crate::rules::{HeaderRewriteMode, HeaderRewriteRule, RewriteModel, rewrite_models};
use crate::text::{copy_string, str_eq};

verus! {

/// One header field; the name is in lowercase canonical form.
#[derive(Clone, Debug)]
pub struct HeaderField {
    pub name: String,
    pub value: Vec<u8>,
}

pub struct FieldModel {
    pub name: Seq<char>,
    pub value: Seq<u8>,
}

impl HeaderField {
    pub open spec fn model(&self) -> FieldModel {
        FieldModel { name: self.name@, value: self.value@ }
    }
}

/// Header fields in order; a name may occur more than once.
#[derive(Clone, Debug)]
pub struct HeaderList {
    pub fields: Vec<HeaderField>,
}

pub open spec fn field_models(s: Seq<HeaderField>) -> Seq<FieldModel> {
    s.map_values(|f: HeaderField| f.model())
}

/// The fields without those named `n`.
pub open spec fn without(s: Seq<FieldModel>, n: Seq<char>) -> Seq<FieldModel> {
    s.filter(|f: FieldModel| f.name != n)
}

/// Replacing every value of `n` by one value, as `HeaderMap::insert` does.
pub open spec fn with_value(s: Seq<FieldModel>, n: Seq<char>, v: Seq<u8>) -> Seq<FieldModel> {
    without(s, n).push(FieldModel { name: n, value: v })
}

pub open spec fn has_name(s: Seq<FieldModel>, n: Seq<char>) -> bool {
    exists|i: int| 0 <= i < s.len() && (#[trigger] s[i]).name == n
}

/// The first value of `n`, as `HeaderMap::get` gives it.
pub open spec fn first_value(s: Seq<FieldModel>, n: Seq<char>) -> Option<Seq<u8>>
    decreases s.len(),
{
    if s.len() == 0 {
        None
    } else if s[0].name == n {
        Some(s[0].value)
    } else {
        first_value(s.drop_first(), n)
    }
}

/// What `HeaderValue::from_str` accepts: no control character but tab,
/// and no DEL.
pub open spec fn value_ok(s: Seq<char>) -> bool {
    forall|i: int| 0 <= i < s.len() ==> (#[trigger] s[i] >= ' ' && s[i] != '\u{7f}') || s[i] == '\t'
}

/// The bytes of a text value.
pub open spec fn value_bytes(s: Seq<char>) -> Seq<u8> {
    encode_utf8(s)
}

pub fn is_valid_value(s: &str) -> (r: bool)
    ensures
        r == value_ok(s@),
{
    let v = crate::text::chars_of(s);
    let mut i: usize = 0;
    while i < v.len()
        invariant
            i <= v@.len(),
            v@ == s@,
            forall|j: int| 0 <= j < i ==> (#[trigger] v@[j] >= ' ' && v@[j] != '\u{7f}') || v@[j] == '\t',
        decreases v@.len() - i,
    {
        let c = v[i];
        if !((c >= ' ' && c != '\u{7f}') || c == '\t') {
            return false;
        }
        i += 1;
    }
    true
}

pub fn bytes_of(s: &str) -> (r: Vec<u8>)
    ensures
        r@ == value_bytes(s@),
{
    s.as_bytes_vec()
}

pub fn copy_bytes(v: &Vec<u8>) -> (r: Vec<u8>)
    ensures
        r@ == v@,
{
    let mut out: Vec<u8> = Vec::new();
    let mut i: usize = 0;
    while i < v.len()
        invariant
            i <= v@.len(),
            out@ == v@.subrange(0, i as int),
        decreases v@.len() - i,
    {
        out.push(v[i]);
        i += 1;
        assert(out@ =~= v@.subrange(0, i as int));
    }
    assert(v@.subrange(0, i as int) =~= v@);
    out
}

/// The names that must not cross a proxy (RFC 7230, section 6.1).
pub open spec fn is_hop(n: Seq<char>) -> bool {
    n == "connection"@ || n == "proxy-authenticate"@ || n == "proxy-authorization"@ || n == "te"@
        || n == "trailer"@ || n == "transfer-encoding"@ || n == "upgrade"@ || n
        == "proxy-connection"@ || n == "keep-alive"@
}

pub fn is_hop_header(n: &str) -> (r: bool)
    ensures
        r == is_hop(n@),
{
    str_eq(n, "connection") || str_eq(n, "proxy-authenticate") || str_eq(n, "proxy-authorization")
        || str_eq(n, "te") || str_eq(n, "trailer") || str_eq(n, "transfer-encoding") || str_eq(
        n,
        "upgrade",
    ) || str_eq(n, "proxy-connection") || str_eq(n, "keep-alive")
}

pub open spec fn without_hops(s: Seq<FieldModel>) -> Seq<FieldModel> {
    s.filter(|f: FieldModel| !is_hop(f.name))
}

impl HeaderList {
    pub open spec fn model(&self) -> Seq<FieldModel> {
        field_models(self.fields@)
    }

    pub fn new() -> (r: Self)
        ensures
            r.model() == Seq::<FieldModel>::empty(),
    {
        HeaderList { fields: Vec::new() }
    }

    /// Whether a field named `n` is present.
    pub fn contains(&self, n: &str) -> (r: bool)
        ensures
            r == has_name(self.model(), n@),
    {
        let mut i: usize = 0;
        while i < self.fields.len()
            invariant
                i <= self.fields@.len(),
                forall|j: int| 0 <= j < i ==> (#[trigger] self.model()[j]).name != n@,
            decreases self.fields@.len() - i,
        {
            if str_eq(self.fields[i].name.as_str(), n) {
                assert(self.model()[i as int].name == n@);
                return true;
            }
            i += 1;
        }
        false
    }

    /// A copy of the first value of `n`.
    pub fn get(&self, n: &str) -> (r: Option<Vec<u8>>)
        ensures
            match r {
                Some(v) => first_value(self.model(), n@) == Some(v@),
                None => first_value(self.model(), n@) is None,
            },
    {
        let ghost s = self.model();
        let mut i: usize = 0;
        assert(s.subrange(0, s.len() as int) =~= s);
        while i < self.fields.len()
            invariant
                i <= self.fields@.len(),
                s == self.model(),
                first_value(s, n@) == first_value(s.subrange(i as int, s.len() as int), n@),
            decreases self.fields@.len() - i,
        {
            let ghost rest = s.subrange(i as int, s.len() as int);
            assert(rest.drop_first() =~= s.subrange(i + 1, s.len() as int));
            assert(rest[0] == self.fields@[i as int].model());
            if str_eq(self.fields[i].name.as_str(), n) {
                return Some(copy_bytes(&self.fields[i].value));
            }
            i += 1;
        }
        None
    }

    /// Removes every field named `n`.
    pub fn remove(&mut self, n: &str)
        ensures
            final(self).model() == without(old(self).model(), n@),
    {
        let ghost s = old(self).model();
        let mut kept: Vec<HeaderField> = Vec::new();
        let mut i: usize = 0;
        let len = self.fields.len();
        while i < len
            invariant
                i <= len == self.fields@.len(),
                field_models(self.fields@) == s,
                field_models(kept@) == without(s.subrange(0, i as int), n@),
            decreases len - i,
        {
            let ghost pre = s.subrange(0, i as int);
            assert(s.subrange(0, i + 1) =~= pre.push(s[i as int]));
            proof {
                pre.lemma_filter_push(s[i as int], |f: FieldModel| f.name != n@);
            }
            let f = self.fields[i].clone_field();
            if !str_eq(f.name.as_str(), n) {
                let ghost before = kept@;
                kept.push(f);
                assert(field_models(kept@) =~= field_models(before).push(f.model()));
            }
            i += 1;
        }
        assert(s.subrange(0, len as int) =~= s);
        self.fields = kept;
    }

    /// Sets `n` to the single value `v`.
    pub fn insert(&mut self, n: &str, v: Vec<u8>)
        ensures
            final(self).model() == with_value(old(self).model(), n@, v@),
    {
        self.remove(n);
        let ghost before = self.fields@;
        self.fields.push(HeaderField { name: crate::text::str_to_string(n), value: v });
        assert(field_models(self.fields@) =~= field_models(before).push(FieldModel { name: n@, value: v@ }));
    }

    /// Adds a value for `n` after the existing ones.
    pub fn append(&mut self, n: &str, v: Vec<u8>)
        ensures
            final(self).model() == old(self).model().push(FieldModel { name: n@, value: v@ }),
    {
        let ghost before = self.fields@;
        self.fields.push(HeaderField { name: crate::text::str_to_string(n), value: v });
        assert(field_models(self.fields@) =~= field_models(before).push(FieldModel { name: n@, value: v@ }));
    }
}

impl HeaderField {
    pub fn clone_field(&self) -> (r: HeaderField)
        ensures
            r.model() == self.model(),
    {
        HeaderField { name: copy_string(&self.name), value: copy_bytes(&self.value) }
    }
}

proof fn lemma_first_value_push(t: Seq<FieldModel>, x: FieldModel, n: Seq<char>)
    ensures
        first_value(t.push(x), n) == match first_value(t, n) {
            Some(v) => Some(v),
            None => if x.name == n {
                Some(x.value)
            } else {
                None
            },
        },
    decreases t.len(),
{
    if t.len() > 0 {
        assert(t.push(x)[0] == t[0]);
        assert(t.push(x).drop_first() =~= t.drop_first().push(x));
        lemma_first_value_push(t.drop_first(), x, n);
    } else {
        assert(t.push(x)[0] == x);
        assert(t.push(x).drop_first() =~= Seq::<FieldModel>::empty());
        assert(first_value(Seq::<FieldModel>::empty(), n) is None);
        assert(first_value(t, n) is None);
    }
}

proof fn lemma_first_value_without(s: Seq<FieldModel>, m: Seq<char>, n: Seq<char>)
    requires
        m != n,
    ensures
        first_value(without(s, m), n) == first_value(s, n),
    decreases s.len(),
{
    if s.len() == 0 {
        assert(without(s, m) =~= s);
    } else {
        let t = s.drop_last();
        let x = s.last();
        assert(t.push(x) =~= s);
        t.lemma_filter_push(x, |f: FieldModel| f.name != m);
        lemma_first_value_without(t, m, n);
        lemma_first_value_push(t, x, n);
        if x.name != m {
            lemma_first_value_push(without(t, m), x, n);
        }
    }
}

proof fn lemma_first_value_with(s: Seq<FieldModel>, n: Seq<char>, v: Seq<u8>)
    ensures
        first_value(with_value(s, n, v), n) == Some(v),
    decreases s.len(),
{
    let w = without(s, n);
    assert forall|i: int| 0 <= i < w.len() implies (#[trigger] w[i]).name != n by {
        s.lemma_filter_pred(|f: FieldModel| f.name != n, i);
    }
    lemma_first_value_absent(w, n);
    lemma_first_value_push(w, FieldModel { name: n, value: v }, n);
}

proof fn lemma_first_value_absent(s: Seq<FieldModel>, n: Seq<char>)
    requires
        forall|i: int| 0 <= i < s.len() ==> (#[trigger] s[i]).name != n,
    ensures
        first_value(s, n) is None,
    decreases s.len(),
{
    if s.len() > 0 {
        let t = s.drop_first();
        assert forall|i: int| 0 <= i < t.len() implies (#[trigger] t[i]).name != n by {
            assert(t[i] == s[i + 1]);
        }
        lemma_first_value_absent(t, n);
    }
}

/// Removes the hop-by-hop fields.
pub fn remove_hop_headers(h: &mut HeaderList)
    ensures
        final(h).model() == without_hops(old(h).model()),
        forall|i: int|
            0 <= i < final(h).model().len() ==> !is_hop(#[trigger] final(h).model()[i].name),
{
    let ghost s = old(h).model();
    let mut kept: Vec<HeaderField> = Vec::new();
    let mut i: usize = 0;
    let len = h.fields.len();
    while i < len
        invariant
            i <= len == h.fields@.len(),
            field_models(h.fields@) == s,
            field_models(kept@) == without_hops(s.subrange(0, i as int)),
        decreases len - i,
    {
        let ghost pre = s.subrange(0, i as int);
        assert(s.subrange(0, i + 1) =~= pre.push(s[i as int]));
        proof {
            pre.lemma_filter_push(s[i as int], |f: FieldModel| !is_hop(f.name));
        }
        let f = h.fields[i].clone_field();
        if !is_hop_header(f.name.as_str()) {
            let ghost before = kept@;
            kept.push(f);
            assert(field_models(kept@) =~= field_models(before).push(f.model()));
        }
        i += 1;
    }
    assert(s.subrange(0, len as int) =~= s);
    h.fields = kept;
    proof {
        assert forall|i: int| 0 <= i < h.model().len() implies !is_hop(#[trigger] h.model()[i].name) by {
            s.lemma_filter_pred(|f: FieldModel| !is_hop(f.name), i);
        }
    }
}

pub open spec fn proto_value(frontend_is_tls: bool) -> Seq<u8> {
    if frontend_is_tls {
        value_bytes("https"@)
    } else {
        value_bytes("http"@)
    }
}

/// `X-Forwarded-Proto` from the inbound leg; `X-Forwarded-Host` when it is
/// absent and the host is a valid value.
pub open spec fn forwarded(s: Seq<FieldModel>, frontend_is_tls: bool, host: Seq<char>) -> Seq<
    FieldModel,
> {
    let s1 = with_value(s, "x-forwarded-proto"@, proto_value(frontend_is_tls));
    if !has_name(s1, "x-forwarded-host"@) && value_ok(host) {
        with_value(s1, "x-forwarded-host"@, value_bytes(host))
    } else {
        s1
    }
}

pub fn add_forward_headers(h: &mut HeaderList, frontend_is_tls: bool, original_host: &str)
    ensures
        final(h).model() == forwarded(old(h).model(), frontend_is_tls, original_host@),
{
    let proto = if frontend_is_tls {
        bytes_of("https")
    } else {
        bytes_of("http")
    };
    h.insert("x-forwarded-proto", proto);
    if !h.contains("x-forwarded-host") && is_valid_value(original_host) {
        h.insert("x-forwarded-host", bytes_of(original_host));
    }
}

/// `X-Forwarded-Proto` says "https" exactly when the inbound leg was TLS.
pub proof fn law_forwarded_proto(s: Seq<FieldModel>, frontend_is_tls: bool, host: Seq<char>)
    ensures
        first_value(forwarded(s, frontend_is_tls, host), "x-forwarded-proto"@) == Some(
            proto_value(frontend_is_tls),
        ),
{
    let s1 = with_value(s, "x-forwarded-proto"@, proto_value(frontend_is_tls));
    lemma_first_value_with(s, "x-forwarded-proto"@, proto_value(frontend_is_tls));
    if !has_name(s1, "x-forwarded-host"@) && value_ok(host) {
        reveal_strlit("x-forwarded-proto");
        reveal_strlit("x-forwarded-host");
        assert("x-forwarded-proto"@.len() != "x-forwarded-host"@.len());
        lemma_first_value_without(s1, "x-forwarded-host"@, "x-forwarded-proto"@);
        lemma_first_value_push(
            without(s1, "x-forwarded-host"@),
            FieldModel { name: "x-forwarded-host"@, value: value_bytes(host) },
            "x-forwarded-proto"@,
        );
    }
}

/// One rewrite applied: Remove deletes the name, Replace sets it, Append
/// adds a value; a missing or invalid value leaves the fields as they are.
pub open spec fn rewrite_step(s: Seq<FieldModel>, r: RewriteModel) -> Seq<FieldModel> {
    match r.mode {
        HeaderRewriteMode::Remove => without(s, r.name),
        _ => match r.value {
            None => s,
            Some(v) => if !value_ok(v) {
                s
            } else if r.mode == HeaderRewriteMode::Replace {
                with_value(s, r.name, value_bytes(v))
            } else {
                s.push(FieldModel { name: r.name, value: value_bytes(v) })
            },
        },
    }
}

/// The rewrites applied in declaration order.
pub open spec fn rewritten(s: Seq<FieldModel>, rs: Seq<RewriteModel>) -> Seq<FieldModel>
    decreases rs.len(),
{
    if rs.len() == 0 {
        s
    } else {
        rewrite_step(rewritten(s, rs.drop_last()), rs.last())
    }
}

pub fn apply_header_rewrite(h: &mut HeaderList, rule: &HeaderRewriteRule)
    ensures
        final(h).model() == rewrite_step(old(h).model(), rule.model()),
{
    match rule.mode {
        HeaderRewriteMode::Remove => {
            h.remove(rule.name.as_str());
        },
        _ => {
            match &rule.value {
                None => {},
                Some(value) => {
                    if is_valid_value(value.as_str()) {
                        if rule.mode == HeaderRewriteMode::Replace {
                            h.insert(rule.name.as_str(), bytes_of(value.as_str()));
                        } else {
                            h.append(rule.name.as_str(), bytes_of(value.as_str()));
                        }
                    }
                },
            }
        },
    }
}

pub fn apply_header_rewrites(h: &mut HeaderList, rewrites: &Vec<HeaderRewriteRule>)
    ensures
        final(h).model() == rewritten(old(h).model(), rewrite_models(rewrites@)),
{
    let ghost s = h.model();
    let mut i: usize = 0;
    while i < rewrites.len()
        invariant
            i <= rewrites@.len(),
            h.model() == rewritten(s, rewrite_models(rewrites@.subrange(0, i as int))),
        decreases rewrites@.len() - i,
    {
        let ghost pre = rewrite_models(rewrites@.subrange(0, i as int));
        assert(rewrite_models(rewrites@.subrange(0, i + 1)) =~= pre.push(rewrites@[i as int].model()));
        assert(pre.push(rewrites@[i as int].model()).drop_last() =~= pre);
        apply_header_rewrite(h, &rewrites[i]);
        i += 1;
    }
    assert(rewrites@.subrange(0, i as int) =~= rewrites@);
}

} // verus!
