//! Server certificates by SNI host name: which PEM material is usable, the
//! host map built from a snapshot, and lookup with wildcard and default.
use vstd::prelude::*;
use crate::model::{ServerTls, Snapshot};
use crate::rules::string_views;
use crate::text::{chars_of, lower, str_eq, string_of_range, to_ascii_lowercase};

verus! {

/// One section of a PEM file.
#[derive(Clone, Debug)]
pub enum PemBlock {
    Certificate(Vec<u8>),
    Pkcs1Key(Vec<u8>),
    Pkcs8Key(Vec<u8>),
    Sec1Key(Vec<u8>),
    /// A section of another kind.
    Other,
    /// A section that could not be decoded.
    Unreadable,
}

pub enum PemModel {
    Certificate(Seq<u8>),
    Pkcs1Key(Seq<u8>),
    Pkcs8Key(Seq<u8>),
    Sec1Key(Seq<u8>),
    Other,
    Unreadable,
}

impl PemBlock {
    pub open spec fn model(&self) -> PemModel {
        match self {
            PemBlock::Certificate(d) => PemModel::Certificate(d@),
            PemBlock::Pkcs1Key(d) => PemModel::Pkcs1Key(d@),
            PemBlock::Pkcs8Key(d) => PemModel::Pkcs8Key(d@),
            PemBlock::Sec1Key(d) => PemModel::Sec1Key(d@),
            PemBlock::Other => PemModel::Other,
            PemBlock::Unreadable => PemModel::Unreadable,
        }
    }
}

pub open spec fn pem_models(s: Seq<PemBlock>) -> Seq<PemModel> {
    s.map_values(|b: PemBlock| b.model())
}

/// The sections that `rustls_pemfile::read_all` finds in a PEM text.
pub uninterp spec fn pem_sections_of(pem: Seq<u8>) -> Seq<PemModel>;

/// Relies on `rustls_pemfile::read_all`: the sections of a PEM text, in
/// order, each one converted to a `PemBlock`.
#[verifier::external_body]
fn pem_sections(pem: &Vec<u8>) -> (r: Vec<PemBlock>)
    ensures
        pem_models(r@) == pem_sections_of(pem@),
{
    let mut cursor = std::io::Cursor::new(pem.as_slice());
    rustls_pemfile::read_all(&mut cursor).map(|item| match item {
        Ok(rustls_pemfile::Item::X509Certificate(c)) => PemBlock::Certificate(c.to_vec()),
        Ok(rustls_pemfile::Item::Pkcs1Key(k)) => PemBlock::Pkcs1Key(k.secret_pkcs1_der().to_vec()),
        Ok(rustls_pemfile::Item::Pkcs8Key(k)) => PemBlock::Pkcs8Key(k.secret_pkcs8_der().to_vec()),
        Ok(rustls_pemfile::Item::Sec1Key(k)) => PemBlock::Sec1Key(k.secret_sec1_der().to_vec()),
        Ok(_) => PemBlock::Other,
        Err(_) => PemBlock::Unreadable,
    }).collect()
}

/// The kind of a private key.
#[derive(Clone, Copy, Debug, PartialEq, Eq, Structural)]
pub enum KeyKind {
    Pkcs1,
    Pkcs8,
    Sec1,
}

/// A certificate chain with its private key, as DER.
#[derive(Clone, Debug)]
pub struct CertMaterial {
    pub chain: Vec<Vec<u8>>,
    pub key_kind: KeyKind,
    pub key: Vec<u8>,
}

/// The certificates among the sections, in order.
pub open spec fn certificates_in(s: Seq<PemModel>) -> Seq<Seq<u8>>
    decreases s.len(),
{
    if s.len() == 0 {
        Seq::empty()
    } else {
        match s.last() {
            PemModel::Certificate(d) => certificates_in(s.drop_last()).push(d),
            _ => certificates_in(s.drop_last()),
        }
    }
}

/// The key in the first section of the key text, when it is one.
pub open spec fn first_key_in(s: Seq<PemModel>) -> Option<(KeyKind, Seq<u8>)> {
    if s.len() == 0 {
        None
    } else {
        match s[0] {
            PemModel::Pkcs1Key(d) => Some((KeyKind::Pkcs1, d)),
            PemModel::Pkcs8Key(d) => Some((KeyKind::Pkcs8, d)),
            PemModel::Sec1Key(d) => Some((KeyKind::Sec1, d)),
            _ => None,
        }
    }
}

pub open spec fn byte_views(s: Seq<Vec<u8>>) -> Seq<Seq<u8>> {
    s.map_values(|v: Vec<u8>| v@)
}

pub open spec fn material_of(entry: ServerTls) -> Option<(Seq<Seq<u8>>, KeyKind, Seq<u8>)> {
    let chain = certificates_in(pem_sections_of(entry.cert_pem@));
    if chain.len() == 0 {
        None
    } else {
        match first_key_in(pem_sections_of(entry.key_pem@)) {
            Some((kind, key)) => Some((chain, kind, key)),
            None => None,
        }
    }
}

/// The usable material of an entry: at least one certificate in its
/// certificate text, and a private key as the first section of its key
/// text.
pub fn certificate_material(entry: &ServerTls) -> (r: Option<CertMaterial>)
    ensures
        match r {
            Some(m) => material_of(*entry) == Some((byte_views(m.chain@), m.key_kind, m.key@)),
            None => material_of(*entry) is None,
        },
{
    let sections = pem_sections(&entry.cert_pem);
    let mut chain: Vec<Vec<u8>> = Vec::new();
    let mut i: usize = 0;
    while i < sections.len()
        invariant
            i <= sections@.len(),
            byte_views(chain@) == certificates_in(pem_models(sections@.subrange(0, i as int))),
        decreases sections@.len() - i,
    {
        let ghost pre = pem_models(sections@.subrange(0, i as int));
        assert(pem_models(sections@.subrange(0, i + 1)) =~= pre.push(sections@[i as int].model()));
        assert(pre.push(sections@[i as int].model()).drop_last() =~= pre);
        match &sections[i] {
            PemBlock::Certificate(d) => {
                let ghost before = chain@;
                chain.push(crate::headers::copy_bytes(d));
                assert(byte_views(chain@) =~= byte_views(before).push(d@));
            },
            _ => {},
        }
        i += 1;
    }
    assert(sections@.subrange(0, i as int) =~= sections@);
    if chain.len() == 0 {
        return None;
    }
    let keys = pem_sections(&entry.key_pem);
    if keys.len() == 0 {
        return None;
    }
    assert(pem_models(keys@)[0] == keys@[0].model());
    match &keys[0] {
        PemBlock::Pkcs1Key(d) => Some(
            CertMaterial { chain, key_kind: KeyKind::Pkcs1, key: crate::headers::copy_bytes(d) },
        ),
        PemBlock::Pkcs8Key(d) => Some(
            CertMaterial { chain, key_kind: KeyKind::Pkcs8, key: crate::headers::copy_bytes(d) },
        ),
        PemBlock::Sec1Key(d) => Some(
            CertMaterial { chain, key_kind: KeyKind::Sec1, key: crate::headers::copy_bytes(d) },
        ),
        _ => None,
    }
}

/// Host names mapped to certificate numbers.
#[derive(Clone, Debug)]
pub struct SniMap {
    pub entries: Vec<(String, usize)>,
}

/// The certificate number that `entries` holds for `host`: the last entry
/// for it.
pub open spec fn key_in(entries: Seq<(String, usize)>, host: Seq<char>) -> Option<usize>
    decreases entries.len(),
{
    if entries.len() == 0 {
        None
    } else if entries.last().0@ == host {
        Some(entries.last().1)
    } else {
        key_in(entries.drop_last(), host)
    }
}

/// The certificate a name gets: an exact entry, else the wildcard for
/// what follows the first dot, else none.
pub open spec fn sni_choice(entries: Seq<(String, usize)>, name: Seq<char>) -> Option<usize> {
    match key_in(entries, name) {
        Some(k) => Some(k),
        None => {
            if exists|p: int| 0 <= p < name.len() && name[p] == '.' {
                let p = choose|p: int|
                    0 <= p < name.len() && name[p] == '.' && forall|q: int| 0 <= q < p ==> name[q] != '.';
                key_in(entries, seq!['*', '.'] + name.subrange(p + 1, name.len() as int))
            } else {
                None
            }
        },
    }
}

/// The host map of a snapshot: each host of an entry that became
/// certificate number `keys[i]`, later entries replacing earlier ones.
pub open spec fn sni_entries_of(tls: Seq<ServerTls>, keys: Seq<Option<usize>>) -> Seq<(Seq<char>, usize)>
    decreases tls.len(),
{
    if tls.len() == 0 || keys.len() < tls.len() {
        Seq::empty()
    } else {
        let prev = sni_entries_of(tls.drop_last(), keys);
        match keys[tls.len() - 1] {
            Some(k) => prev + string_views(tls.last().sni@).map_values(|h: Seq<char>| (h, k)),
            None => prev,
        }
    }
}

impl SniMap {
    pub fn new() -> (r: Self)
        ensures
            r.entries@.len() == 0,
    {
        SniMap { entries: Vec::new() }
    }

    /// Maps `host` to certificate `key`, replacing an earlier mapping.
    pub fn insert(&mut self, host: &String, key: usize)
        ensures
            forall|h: Seq<char>| key_in(final(self).entries@, h) == if h == host@ {
                Some(key)
            } else {
                key_in(old(self).entries@, h)
            },
    {
        let ghost before = self.entries@;
        self.entries.push((crate::text::copy_string(host), key));
        assert(self.entries@.drop_last() =~= before);
    }

    /// The certificate number held for `host` exactly.
    pub fn get(&self, host: &str) -> (r: Option<usize>)
        ensures
            r == key_in(self.entries@, host@),
    {
        let mut i: usize = self.entries.len();
        assert(self.entries@.subrange(0, i as int) =~= self.entries@);
        while i > 0
            invariant
                i <= self.entries@.len(),
                key_in(self.entries@, host@) == key_in(self.entries@.subrange(0, i as int), host@),
            decreases i,
        {
            let ghost pre = self.entries@.subrange(0, i as int);
            assert(pre.drop_last() =~= self.entries@.subrange(0, i - 1));
            if str_eq(self.entries[i - 1].0.as_str(), host) {
                return Some(self.entries[i - 1].1);
            }
            i -= 1;
        }
        None
    }

    /// The certificate for a TLS client hello: the name is lowercased, then
    /// looked up exactly, then as `*.<rest after first dot>`; `default`
    /// when neither is held or no name was sent. Always some certificate.
    pub fn resolve(&self, server_name: Option<&str>, default: usize) -> (r: usize)
        ensures
            r == match server_name {
                Some(n) => match sni_choice(self.entries@, lower(n@)) {
                    Some(k) => k,
                    None => default,
                },
                None => default,
            },
    {
        let n = match server_name {
            Some(n) => n,
            None => {
                return default;
            },
        };
        let name = to_ascii_lowercase(n);
        if let Some(k) = self.get(name.as_str()) {
            return k;
        }
        let v = chars_of(name.as_str());
        let mut p: usize = 0;
        while p < v.len() && v[p] != '.'
            invariant
                p <= v@.len(),
                forall|q: int| 0 <= q < p ==> v@[q] != '.',
            decreases v@.len() - p,
        {
            p += 1;
        }
        if p == v.len() {
            return default;
        }
        let ghost gp = choose|p: int| 0 <= p < v@.len() && v@[p] == '.' && forall|q: int| 0 <= q < p ==> v@[q] != '.';
        proof {
            if gp < p {
                assert(v@[gp] == '.');
            }
            if p < gp {
                assert(v@[p as int] != '.');
            }
        }
        let mut star = crate::text::str_to_string("*.");
        let rest = string_of_range(&v, p + 1, v.len());
        crate::text::push_str(&mut star, rest.as_str());
        proof {
            reveal_strlit("*.");
            assert(star@ =~= seq!['*', '.'] + v@.subrange(p + 1, v@.len() as int));
        }
        match self.get(star.as_str()) {
            Some(k) => k,
            None => default,
        }
    }
}

/// The host map of a snapshot, given which entries became certificates.
pub fn build_sni_map(snapshot: &Snapshot, keys: &Vec<Option<usize>>) -> (r: SniMap)
    requires
        keys@.len() == snapshot.server_tls@.len(),
    ensures
        r.entries@.map_values(|e: (String, usize)| (e.0@, e.1)) == sni_entries_of(snapshot.server_tls@, keys@),
{
    let mut map = SniMap::new();
    let mut i: usize = 0;
    while i < snapshot.server_tls.len()
        invariant
            i <= snapshot.server_tls@.len() == keys@.len(),
            map.entries@.map_values(|e: (String, usize)| (e.0@, e.1)) == sni_entries_of(
                snapshot.server_tls@.subrange(0, i as int),
                keys@,
            ),
        decreases snapshot.server_tls@.len() - i,
    {
        let ghost pre = snapshot.server_tls@.subrange(0, i as int);
        assert(snapshot.server_tls@.subrange(0, i + 1).drop_last() =~= pre);
        match keys[i] {
            Some(k) => {
                let hosts = &snapshot.server_tls[i].sni;
                let ghost start = map.entries@.map_values(|e: (String, usize)| (e.0@, e.1));
                let mut j: usize = 0;
                while j < hosts.len()
                    invariant
                        j <= hosts@.len(),
                        map.entries@.map_values(|e: (String, usize)| (e.0@, e.1)) == start + string_views(
                            hosts@.subrange(0, j as int),
                        ).map_values(|h: Seq<char>| (h, k)),
                    decreases hosts@.len() - j,
                {
                    let ghost b = map.entries@;
                    let ghost sv = string_views(hosts@.subrange(0, j as int));
                    assert(string_views(hosts@.subrange(0, j + 1)) =~= sv.push(hosts@[j as int]@));
                    assert(sv.push(hosts@[j as int]@).map_values(|h: Seq<char>| (h, k)) =~= sv.map_values(
                        |h: Seq<char>| (h, k),
                    ).push((hosts@[j as int]@, k)));
                    map.entries.push((crate::text::copy_string(&hosts[j]), k));
                    assert(map.entries@.map_values(|e: (String, usize)| (e.0@, e.1)) =~= b.map_values(
                        |e: (String, usize)| (e.0@, e.1),
                    ).push((hosts@[j as int]@, k)));
                    assert(map.entries@.map_values(|e: (String, usize)| (e.0@, e.1)) =~= start
                        + string_views(hosts@.subrange(0, j + 1)).map_values(|h: Seq<char>| (h, k)));
                    j += 1;
                }
                assert(hosts@.subrange(0, j as int) =~= hosts@);
            },
            None => {},
        }
        i += 1;
    }
    assert(snapshot.server_tls@.subrange(0, i as int) =~= snapshot.server_tls@);
    map
}

} // verus!
