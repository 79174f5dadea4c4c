//! Character-level string operations with exact specifications.
use vstd::prelude::*;
use vstd::std_specs::iter::IteratorSpec;

verus! {

/// Unicode `White_Space`, the set that `char::is_whitespace` tests.
pub open spec fn is_ws(c: char) -> bool {
    ('\u{9}' <= c && c <= '\u{d}') || c == ' ' || c == '\u{85}' || c == '\u{a0}'
        || c == '\u{1680}' || ('\u{2000}' <= c && c <= '\u{200a}') || c == '\u{2028}'
        || c == '\u{2029}' || c == '\u{202f}' || c == '\u{205f}' || c == '\u{3000}'
}

pub open spec fn lower_char(c: char) -> char {
    if 'A' <= c && c <= 'Z' {
        ((c as u32) + 32) as char
    } else {
        c
    }
}

/// ASCII lowercase of a character sequence; other characters are kept.
pub open spec fn lower(s: Seq<char>) -> Seq<char> {
    s.map_values(|c: char| lower_char(c))
}

pub open spec fn is_prefix(p: Seq<char>, s: Seq<char>) -> bool {
    p.len() <= s.len() && s.subrange(0, p.len() as int) == p
}

/// `needle` occurs somewhere in `s`.
pub open spec fn occurs_in(needle: Seq<char>, s: Seq<char>) -> bool {
    exists|i: int| 0 <= i <= s.len() - needle.len() && #[trigger] s.subrange(i, i + needle.len()) == needle
}

pub open spec fn trim_start(s: Seq<char>) -> Seq<char>
    decreases s.len(),
{
    if s.len() > 0 && is_ws(s[0]) {
        trim_start(s.drop_first())
    } else {
        s
    }
}

pub open spec fn trim_end(s: Seq<char>) -> Seq<char>
    decreases s.len(),
{
    if s.len() > 0 && is_ws(s.last()) {
        trim_end(s.drop_last())
    } else {
        s
    }
}

/// What `str::trim` leaves: leading and trailing white space removed.
pub open spec fn trim(s: Seq<char>) -> Seq<char> {
    trim_end(trim_start(s))
}

/// Number of occurrences of `c` in `s`.
pub open spec fn count_char(s: Seq<char>, c: char) -> nat
    decreases s.len(),
{
    if s.len() == 0 {
        0
    } else {
        count_char(s.drop_last(), c) + if s.last() == c { 1nat } else { 0nat }
    }
}

pub fn chars_of(s: &str) -> (r: Vec<char>)
    ensures
        r@ == s@,
{
    let mut it = s.chars();
    let mut out: Vec<char> = Vec::new();
    loop
        invariant
            out@ + it.remaining() == s@,
            it.obeys_prophetic_iter_laws(),
            it.decrease() is Some,
        ensures
            out@ == s@,
        decreases it.decrease()->0,
    {
        match it.next() {
            Some(c) => {
                out.push(c);
            },
            None => {
                assert(out@ + it.remaining() =~= out@);
                break;
            },
        }
    }
    out
}

/// Relies on `String::push`: the character is appended.
#[verifier::external_body]
pub fn push_char(s: &mut String, c: char)
    ensures
        final(s)@ == old(s)@.push(c),
{
    s.push(c)
}

/// The characters `v[from..to]` as a string.
pub fn string_of_range(v: &Vec<char>, from: usize, to: usize) -> (r: String)
    requires
        from <= to <= v@.len(),
    ensures
        r@ == v@.subrange(from as int, to as int),
{
    let mut s = String::new();
    let mut i: usize = from;
    while i < to
        invariant
            from <= i <= to <= v@.len(),
            s@ == v@.subrange(from as int, i as int),
        decreases to - i,
    {
        push_char(&mut s, v[i]);
        i += 1;
        assert(s@ =~= v@.subrange(from as int, i as int));
    }
    s
}

pub fn string_of(v: &Vec<char>) -> (r: String)
    ensures
        r@ == v@,
{
    let r = string_of_range(v, 0, v.len());
    assert(v@.subrange(0, v@.len() as int) =~= v@);
    r
}

pub fn copy_string(s: &String) -> (r: String)
    ensures
        r@ == s@,
{
    let v = chars_of(s.as_str());
    string_of(&v)
}

pub fn str_to_string(s: &str) -> (r: String)
    ensures
        r@ == s@,
{
    let v = chars_of(s);
    string_of(&v)
}

pub fn is_whitespace(c: char) -> (r: bool)
    ensures
        r == is_ws(c),
{
    ('\u{9}' <= c && c <= '\u{d}') || c == ' ' || c == '\u{85}' || c == '\u{a0}' || c == '\u{1680}'
        || ('\u{2000}' <= c && c <= '\u{200a}') || c == '\u{2028}' || c == '\u{2029}' || c
        == '\u{202f}' || c == '\u{205f}' || c == '\u{3000}'
}

pub fn lower_ascii_char(c: char) -> (r: char)
    ensures
        r == lower_char(c),
{
    if 'A' <= c && c <= 'Z' {
        ((c as u8) + 32) as char
    } else {
        c
    }
}

/// ASCII lowercase copy, as `str::to_ascii_lowercase` makes it.
pub fn to_ascii_lowercase(s: &str) -> (r: String)
    ensures
        r@ == lower(s@),
{
    let v = chars_of(s);
    let mut out = String::new();
    let mut i: usize = 0;
    while i < v.len()
        invariant
            i <= v@.len(),
            v@ == s@,
            out@ == lower(v@.subrange(0, i as int)),
        decreases v@.len() - i,
    {
        let c = lower_ascii_char(v[i]);
        push_char(&mut out, c);
        i += 1;
        assert(lower(v@.subrange(0, i as int)) =~= lower(v@.subrange(0, (i - 1) as int)).push(c));
    }
    assert(v@.subrange(0, v@.len() as int) =~= v@);
    out
}

/// Whether two character sequences are equal.
pub fn chars_equal(a: &Vec<char>, b: &Vec<char>) -> (r: bool)
    ensures
        r == (a@ == b@),
{
    if a.len() != b.len() {
        return false;
    }
    let mut i: usize = 0;
    while i < a.len()
        invariant
            i <= a@.len() == b@.len(),
            a@.subrange(0, i as int) == b@.subrange(0, i as int),
        decreases a@.len() - i,
    {
        if a[i] != b[i] {
            assert(a@[i as int] != b@[i as int]);
            return false;
        }
        i += 1;
        assert(a@.subrange(0, i as int) =~= a@.subrange(0, (i - 1) as int).push(a@[i - 1]));
        assert(b@.subrange(0, i as int) =~= b@.subrange(0, (i - 1) as int).push(b@[i - 1]));
    }
    assert(a@ =~= a@.subrange(0, i as int));
    assert(b@ =~= b@.subrange(0, i as int));
    true
}

pub fn str_eq(a: &str, b: &str) -> (r: bool)
    ensures
        r == (a@ == b@),
{
    let va = chars_of(a);
    let vb = chars_of(b);
    chars_equal(&va, &vb)
}

/// Whether `p` occurs in `s` at position `at`.
pub fn matches_at(s: &Vec<char>, p: &Vec<char>, at: usize) -> (r: bool)
    requires
        at <= s@.len(),
    ensures
        r == (at + p@.len() <= s@.len() && s@.subrange(at as int, at + p@.len()) == p@),
{
    let slen = s.len();
    if p.len() > slen - at {
        return false;
    }
    let mut i: usize = 0;
    while i < p.len()
        invariant
            slen == s@.len(),
            at + p@.len() <= s@.len(),
            i <= p@.len(),
            s@.subrange(at as int, at + i) == p@.subrange(0, i as int),
        decreases p@.len() - i,
    {
        if s[at + i] != p[i] {
            assert(s@.subrange(at as int, at + p@.len())[i as int] != p@[i as int]);
            return false;
        }
        i += 1;
        assert(s@.subrange(at as int, at + i) =~= s@.subrange(at as int, at + i - 1).push(s@[at + i - 1]));
        assert(p@.subrange(0, i as int) =~= p@.subrange(0, i - 1).push(p@[i - 1]));
    }
    assert(p@ =~= p@.subrange(0, i as int));
    true
}

pub fn starts_with(s: &str, p: &str) -> (r: bool)
    ensures
        r == is_prefix(p@, s@),
{
    let vs = chars_of(s);
    let vp = chars_of(p);
    matches_at(&vs, &vp, 0)
}

/// Whether `needle` occurs in `s`, as `str::contains` with a string pattern.
pub fn contains(s: &str, needle: &str) -> (r: bool)
    ensures
        r == occurs_in(needle@, s@),
{
    let vs = chars_of(s);
    let vn = chars_of(needle);
    if vn.len() > vs.len() {
        return false;
    }
    let last = vs.len() - vn.len();
    let mut i: usize = 0;
    while i < last || i == last
        invariant
            i <= last + 1,
            last == vs@.len() - vn@.len(),
            vs@ == s@,
            vn@ == needle@,
            forall|j: int| 0 <= j < i ==> #[trigger] vs@.subrange(j, j + vn@.len()) != vn@,
        decreases last + 1 - i,
    {
        if matches_at(&vs, &vn, i) {
            return true;
        }
        if i == last {
            return false;
        }
        i += 1;
    }
    false
}

/// Count of `c` in `s`, as `str::matches(c).count()` gives it.
pub fn count_of(s: &Vec<char>, c: char) -> (r: usize)
    ensures
        r == count_char(s@, c),
{
    let mut n: usize = 0;
    let mut i: usize = 0;
    while i < s.len()
        invariant
            i <= s@.len(),
            n == count_char(s@.subrange(0, i as int), c),
            n <= i,
        decreases s@.len() - i,
    {
        assert(s@.subrange(0, i + 1).drop_last() =~= s@.subrange(0, i as int));
        if s[i] == c {
            n += 1;
        }
        i += 1;
    }
    assert(s@.subrange(0, i as int) =~= s@);
    n
}

/// Bounds of `trim(v)` within `v`.
pub fn trim_bounds(v: &Vec<char>) -> (r: (usize, usize))
    ensures
        r.0 <= r.1 <= v@.len(),
        v@.subrange(r.0 as int, r.1 as int) == trim(v@),
{
    let n = v.len();
    let mut i: usize = 0;
    assert(v@.subrange(0, n as int) =~= v@);
    while i < n && is_whitespace(v[i])
        invariant
            n == v@.len(),
            i <= n,
            trim_start(v@) == trim_start(v@.subrange(i as int, n as int)),
        decreases n - i,
    {
        assert(v@.subrange(i as int, n as int).drop_first() =~= v@.subrange(i + 1, n as int));
        i += 1;
    }
    let ghost ts = v@.subrange(i as int, n as int);
    assert(trim_start(ts) == ts);
    let mut j: usize = n;
    while j > i && is_whitespace(v[j - 1])
        invariant
            n == v@.len(),
            i <= j <= n,
            trim_end(ts) == trim_end(v@.subrange(i as int, j as int)),
        decreases j,
    {
        assert(v@.subrange(i as int, j as int).drop_last() =~= v@.subrange(i as int, j - 1));
        j -= 1;
    }
    (i, j)
}

/// Copy of `s` without leading and trailing white space.
pub fn trimmed(s: &str) -> (r: String)
    ensures
        r@ == trim(s@),
{
    let v = chars_of(s);
    let (a, b) = trim_bounds(&v);
    string_of_range(&v, a, b)
}

/// Whether `trim(s)` is empty, as `s.trim().is_empty()` tests it.
pub fn is_blank(s: &str) -> (r: bool)
    ensures
        r == (trim(s@).len() == 0),
{
    let v = chars_of(s);
    let (a, b) = trim_bounds(&v);
    a == b
}

/// Every non-overlapping occurrence of `pat`, from the left, replaced by
/// `rep`, as `str::replace` does.
pub open spec fn replace_all(s: Seq<char>, pat: Seq<char>, rep: Seq<char>) -> Seq<char>
    decreases s.len(),
{
    if pat.len() == 0 || s.len() < pat.len() {
        s
    } else if s.subrange(0, pat.len() as int) == pat {
        rep + replace_all(s.subrange(pat.len() as int, s.len() as int), pat, rep)
    } else {
        seq![s[0]] + replace_all(s.subrange(1, s.len() as int), pat, rep)
    }
}

/// Appends the characters of `t`.
pub fn push_str(s: &mut String, t: &str)
    ensures
        final(s)@ == old(s)@ + t@,
{
    let v = chars_of(t);
    let mut i: usize = 0;
    let ghost start = s@;
    while i < v.len()
        invariant
            i <= v@.len(),
            v@ == t@,
            s@ == start + v@.subrange(0, i as int),
        decreases v@.len() - i,
    {
        push_char(s, v[i]);
        i += 1;
        assert(s@ =~= start + v@.subrange(0, i as int));
    }
    assert(v@.subrange(0, i as int) =~= v@);
}

pub fn replace(s: &str, pat: &str, rep: &str) -> (r: String)
    requires
        pat@.len() > 0,
    ensures
        r@ == replace_all(s@, pat@, rep@),
{
    let v = chars_of(s);
    let p = chars_of(pat);
    let n = v.len();
    let plen = p.len();
    let mut out = String::new();
    let mut i: usize = 0;
    assert(v@.subrange(0, n as int) =~= v@);
    while i < n
        invariant
            i <= n == v@.len(),
            v@ == s@,
            p@ == pat@,
            plen == p@.len() > 0,
            out@ + replace_all(v@.subrange(i as int, n as int), pat@, rep@) == replace_all(v@, pat@, rep@),
        decreases n - i,
    {
        let ghost rest = v@.subrange(i as int, n as int);
        if plen <= n - i && matches_at(&v, &p, i) {
            assert(rest.subrange(0, plen as int) =~= v@.subrange(i as int, i + plen));
            assert(rest.subrange(plen as int, rest.len() as int) =~= v@.subrange(i + plen, n as int));
            let ghost before = out@;
            push_str(&mut out, rep);
            assert(before + (rep@ + replace_all(v@.subrange(i + plen, n as int), pat@, rep@)) =~= out@
                + replace_all(v@.subrange(i + plen, n as int), pat@, rep@));
            i += plen;
        } else {
            if plen <= n - i {
                assert(rest.subrange(0, plen as int) =~= v@.subrange(i as int, i + plen));
                assert(rest.subrange(1, rest.len() as int) =~= v@.subrange(i + 1, n as int));
                let ghost before = out@;
                push_char(&mut out, v[i]);
                assert(before + (seq![v@[i as int]] + replace_all(v@.subrange(i + 1, n as int), pat@, rep@))
                    =~= out@ + replace_all(v@.subrange(i + 1, n as int), pat@, rep@));
                i += 1;
            } else {
                let ghost before = out@;
                assert(replace_all(rest, pat@, rep@) == rest);
                let tail = string_of_range(&v, i, n);
                push_str(&mut out, tail.as_str());
                i = n;
                assert(v@.subrange(i as int, n as int).len() == 0);
                assert(replace_all(v@.subrange(i as int, n as int), pat@, rep@) =~= Seq::<char>::empty());
                assert(out@ =~= out@ + Seq::<char>::empty());
            }
        }
    }
    assert(v@.subrange(i as int, n as int) =~= Seq::<char>::empty());
    assert(replace_all(Seq::<char>::empty(), pat@, rep@) == Seq::<char>::empty());
    assert(out@ + Seq::<char>::empty() =~= out@);
    out
}

pub open spec fn digit_char(d: nat) -> char {
    ((d + 48) as u32) as char
}

/// Decimal digits of `n`, without leading zeros.
pub open spec fn decimal(n: nat) -> Seq<char>
    decreases n,
{
    if n < 10 {
        seq![digit_char(n)]
    } else {
        decimal(n / 10).push(digit_char(n % 10))
    }
}

pub fn decimal_string(n: u64) -> (r: String)
    ensures
        r@ == decimal(n as nat),
    decreases n,
{
    if n < 10 {
        let mut s = String::new();
        push_char(&mut s, ((n as u8) + 48) as char);
        assert(s@ =~= seq![digit_char(n as nat)]);
        s
    } else {
        let mut s = decimal_string(n / 10);
        push_char(&mut s, ((n % 10) as u8 + 48) as char);
        s
    }
}

/// Index of the first line feed, or the length when there is none.
pub open spec fn nl_index(s: Seq<char>) -> int
    decreases s.len(),
{
    if s.len() == 0 {
        0
    } else if s[0] == '\n' {
        0
    } else {
        1 + nl_index(s.drop_first())
    }
}

pub open spec fn strip_cr(l: Seq<char>) -> Seq<char> {
    if l.len() > 0 && l.last() == '\r' {
        l.drop_last()
    } else {
        l
    }
}

/// The lines of a text as `str::lines` gives them: split after each line
/// feed, which is removed with a carriage return before it; no empty line
/// after a final line feed.
pub open spec fn lines_of(s: Seq<char>) -> Seq<Seq<char>>
    decreases s.len(),
{
    if s.len() == 0 {
        Seq::empty()
    } else {
        let i = nl_index(s);
        if 0 <= i < s.len() {
            seq![strip_cr(s.subrange(0, i))] + lines_of(s.subrange(i + 1, s.len() as int))
        } else {
            seq![s]
        }
    }
}

proof fn lemma_nl_index(s: Seq<char>, k: int)
    requires
        0 <= k <= s.len(),
        forall|q: int| 0 <= q < k ==> s[q] != '\n',
        k == s.len() || s[k] == '\n',
    ensures
        nl_index(s) == k,
    decreases k,
{
    if k > 0 {
        let t = s.drop_first();
        assert forall|q: int| 0 <= q < k - 1 implies t[q] != '\n' by {
            assert(t[q] == s[q + 1]);
        }
        if k < s.len() {
            assert(t[k - 1] == s[k]);
        }
        lemma_nl_index(t, k - 1);
    }
}

pub open spec fn string_views_of(s: Seq<String>) -> Seq<Seq<char>> {
    s.map_values(|x: String| x@)
}

fn strip_cr_range(v: &Vec<char>, from: usize, to: usize) -> (r: String)
    requires
        from <= to <= v@.len(),
    ensures
        r@ == strip_cr(v@.subrange(from as int, to as int)),
{
    if to > from && v[to - 1] == '\r' {
        assert(v@.subrange(from as int, to as int).drop_last() =~= v@.subrange(from as int, to - 1));
        string_of_range(v, from, to - 1)
    } else {
        string_of_range(v, from, to)
    }
}

/// The lines of `s`.
pub fn lines(s: &str) -> (r: Vec<String>)
    ensures
        string_views_of(r@) == lines_of(s@),
{
    let v = chars_of(s);
    let n = v.len();
    let mut out: Vec<String> = Vec::new();
    let mut start: usize = 0;
    let mut i: usize = 0;
    assert(v@.subrange(0, n as int) =~= v@);
    while i < n
        invariant
            start <= i <= n == v@.len(),
            v@ == s@,
            forall|q: int| start <= q < i ==> v@[q] != '\n',
            string_views_of(out@) + lines_of(v@.subrange(start as int, n as int)) == lines_of(v@),
        decreases n - i,
    {
        if v[i] == '\n' {
            let ghost rest = v@.subrange(start as int, n as int);
            proof {
                assert forall|q: int| 0 <= q < i - start implies rest[q] != '\n' by {
                    assert(rest[q] == v@[start + q]);
                }
                assert(rest[i - start] == v@[i as int]);
                lemma_nl_index(rest, i - start);
                assert(rest.subrange(0, i - start) =~= v@.subrange(start as int, i as int));
                assert(rest.subrange(i - start + 1, rest.len() as int) =~= v@.subrange(i + 1, n as int));
            }
            let line = strip_cr_range(&v, start, i);
            let ghost before = out@;
            out.push(line);
            assert(string_views_of(out@) =~= string_views_of(before).push(line@));
            assert(string_views_of(out@) + lines_of(v@.subrange(i + 1, n as int)) =~= string_views_of(before)
                + (seq![line@] + lines_of(v@.subrange(i + 1, n as int))));
            start = i + 1;
        }
        i += 1;
    }
    if start < n {
        let ghost rest = v@.subrange(start as int, n as int);
        proof {
            assert forall|q: int| 0 <= q < rest.len() implies rest[q] != '\n' by {
                assert(rest[q] == v@[start + q]);
            }
            lemma_nl_index(rest, rest.len() as int);
        }
        let line = string_of_range(&v, start, n);
        let ghost before = out@;
        out.push(line);
        assert(string_views_of(out@) =~= string_views_of(before) + seq![line@]);
    } else {
        assert(v@.subrange(start as int, n as int) =~= Seq::<char>::empty());
        assert(string_views_of(out@) + Seq::<Seq<char>>::empty() =~= string_views_of(out@));
    }
    out
}

} // verus!
