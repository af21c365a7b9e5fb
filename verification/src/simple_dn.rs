//! A type representing a simple Distinguished Name.
//!
//! E.g. "CN=Tea,OU=Leaves,OU=Are,DC=Great,DC=Org"
//!
//! The LDAP spec formally allows almost anything in a DN, but these
//! features are rarely used.  This simple DN representation covers the
//! common cases: a non-empty comma-separated list of single-valued
//! relative distinguished names, each an alphanumeric key, an equals
//! sign, and a value free of the characters `+`, `=` and `,`.

use core::cmp::Ordering;

use vstd::prelude::*;
use vstd::string::StrSliceExecFns;
use vstd::string::StringExecFns;

verus! {

/// A single relative distinguished name: one key-value pair like
/// "OU=Matcha" in the DN "CN=Whisk,OU=Matcha,DC=Tea".
#[derive(Debug, PartialEq)]
struct SimpleRDN {
    /// Common examples include: CN, OU, DC.
    key: String,
    value: String,
}

impl SimpleRDN {
    fn clone_rdn(&self) -> (r: Self)
        ensures
            r.key@ == self.key@,
            r.value@ == self.value@,
    {
        SimpleRDN { key: self.key.clone(), value: self.value.clone() }
    }
}

/// True of the characters allowed in an RDN key.
pub open spec fn is_key_char(c: char) -> bool {
    ('a' <= c && c <= 'z') || ('A' <= c && c <= 'Z') || ('0' <= c && c <= '9')
}

/// True of the characters allowed in an RDN value.
pub open spec fn is_value_char(c: char) -> bool {
    c != '+' && c != '=' && c != ','
}

/// A well-formed relative distinguished name: a non-empty alphanumeric
/// key and a non-empty value without `+`, `=` or `,`.
pub open spec fn wf_rdn(r: (Seq<char>, Seq<char>)) -> bool {
    &&& r.0.len() >= 1
    &&& forall|i: int| 0 <= i < r.0.len() ==> is_key_char(#[trigger] r.0[i])
    &&& r.1.len() >= 1
    &&& forall|i: int| 0 <= i < r.1.len() ==> is_value_char(#[trigger] r.1[i])
}

/// A well-formed distinguished name: a non-empty list of well-formed RDNs.
pub open spec fn wf_dn(rdns: Seq<(Seq<char>, Seq<char>)>) -> bool {
    &&& rdns.len() >= 1
    &&& forall|i: int| 0 <= i < rdns.len() ==> wf_rdn(#[trigger] rdns[i])
}

/// The print form of one RDN: `key=value`.
pub open spec fn spec_display_rdn(r: (Seq<char>, Seq<char>)) -> Seq<char> {
    r.0 + "="@ + r.1
}

/// The print form of a DN: its RDNs interspersed with commas.
pub open spec fn spec_display_dn(rdns: Seq<(Seq<char>, Seq<char>)>) -> Seq<char>
    decreases rdns.len(),
{
    if rdns.len() == 0 {
        Seq::<char>::empty()
    } else if rdns.len() == 1 {
        spec_display_rdn(rdns[0])
    } else {
        spec_display_rdn(rdns[0]) + ","@ + spec_display_dn(rdns.drop_first())
    }
}

/// Splitting the print form after any leading group of RDNs.
proof fn lemma_display_dn_concat(a: Seq<(Seq<char>, Seq<char>)>, b: Seq<(Seq<char>, Seq<char>)>)
    requires
        a.len() >= 1,
        b.len() >= 1,
    ensures
        spec_display_dn(a + b) == spec_display_dn(a) + ","@ + spec_display_dn(b),
    decreases a.len(),
{
    if a.len() == 1 {
        assert((a + b).drop_first() =~= b);
        assert((a + b)[0] == a[0]);
        assert(spec_display_dn(a + b) == spec_display_rdn(a[0]) + ","@ + spec_display_dn(b));
    } else {
        assert((a + b).drop_first() =~= a.drop_first() + b);
        lemma_display_dn_concat(a.drop_first(), b);
        assert(spec_display_dn(a + b) =~= spec_display_dn(a) + ","@ + spec_display_dn(b));
    }
}

/// The smallest index at which `key` occurs as an RDN key, if any.
pub open spec fn find_key(rdns: Seq<(Seq<char>, Seq<char>)>, key: Seq<char>) -> Option<int>
    decreases rdns.len(),
{
    if rdns.len() == 0 {
        None
    } else if rdns[0].0 == key {
        Some(0)
    } else {
        match find_key(rdns.drop_first(), key) {
            None => None,
            Some(i) => Some(i + 1),
        }
    }
}

proof fn lemma_find_key_at(rdns: Seq<(Seq<char>, Seq<char>)>, key: Seq<char>, i: int)
    requires
        0 <= i < rdns.len(),
        rdns[i].0 == key,
        forall|k: int| 0 <= k < i ==> #[trigger] rdns[k].0 != key,
    ensures
        find_key(rdns, key) == Some(i),
    decreases rdns.len(),
{
    if i > 0 {
        lemma_find_key_at(rdns.drop_first(), key, i - 1);
    }
}

proof fn lemma_find_key_none(rdns: Seq<(Seq<char>, Seq<char>)>, key: Seq<char>)
    requires
        forall|k: int| 0 <= k < rdns.len() ==> #[trigger] rdns[k].0 != key,
    ensures
        find_key(rdns, key) is None,
    decreases rdns.len(),
{
    if rdns.len() > 0 {
        lemma_find_key_none(rdns.drop_first(), key);
    }
}

/// Where a found key sits in the list.
pub proof fn lemma_find_key_bounds(rdns: Seq<(Seq<char>, Seq<char>)>, key: Seq<char>)
    ensures
        match find_key(rdns, key) {
            Some(i) => 0 <= i < rdns.len() && rdns[i].0 == key,
            None => forall|k: int| 0 <= k < rdns.len() ==> #[trigger] rdns[k].0 != key,
        },
    decreases rdns.len(),
{
    if rdns.len() > 0 {
        lemma_find_key_bounds(rdns.drop_first(), key);
        if rdns[0].0 != key {
            if find_key(rdns.drop_first(), key) is Some {
                let i = find_key(rdns.drop_first(), key)->0;
                assert(rdns.drop_first()[i] == rdns[i + 1]);
            } else {
                assert forall|k: int| 0 <= k < rdns.len() implies #[trigger] rdns[k].0 != key by {
                    if k > 0 {
                        assert(rdns.drop_first()[k - 1] == rdns[k]);
                    }
                }
            }
        }
    }
}

/// The smallest index at which `c` occurs in `s`, if any.
pub open spec fn find_char(s: Seq<char>, c: char) -> Option<int>
    decreases s.len(),
{
    if s.len() == 0 {
        None
    } else if s[0] == c {
        Some(0)
    } else {
        match find_char(s.drop_first(), c) {
            None => None,
            Some(i) => Some(i + 1),
        }
    }
}

proof fn lemma_find_char_at(s: Seq<char>, c: char, i: int)
    requires
        0 <= i < s.len(),
        s[i] == c,
        forall|k: int| 0 <= k < i ==> s[k] != c,
    ensures
        find_char(s, c) == Some(i),
    decreases s.len(),
{
    if i > 0 {
        lemma_find_char_at(s.drop_first(), c, i - 1);
    }
}

proof fn lemma_find_char_none(s: Seq<char>, c: char)
    requires
        forall|k: int| 0 <= k < s.len() ==> s[k] != c,
    ensures
        find_char(s, c) is None,
    decreases s.len(),
{
    if s.len() > 0 {
        lemma_find_char_none(s.drop_first(), c);
    }
}

/// Where a found character sits in the string.
pub proof fn lemma_find_char_bounds(s: Seq<char>, c: char)
    ensures
        match find_char(s, c) {
            Some(i) => 0 <= i < s.len() && s[i] == c && forall|k: int| 0 <= k < i ==> s[k] != c,
            None => forall|k: int| 0 <= k < s.len() ==> s[k] != c,
        },
    decreases s.len(),
{
    if s.len() > 0 {
        lemma_find_char_bounds(s.drop_first(), c);
        if s[0] != c {
            if find_char(s.drop_first(), c) is Some {
                let i = find_char(s.drop_first(), c)->0;
                assert forall|k: int| 0 <= k < i + 1 implies s[k] != c by {
                    if k > 0 {
                        assert(s.drop_first()[k - 1] == s[k]);
                    }
                }
            } else {
                assert forall|k: int| 0 <= k < s.len() implies s[k] != c by {
                    if k > 0 {
                        assert(s.drop_first()[k - 1] == s[k]);
                    }
                }
            }
        }
    }
}

/// True when every character of `s` may appear in an RDN key.
pub open spec fn all_key_chars(s: Seq<char>) -> bool {
    forall|i: int| 0 <= i < s.len() ==> is_key_char(#[trigger] s[i])
}

/// True when every character of `s` may appear in an RDN value.
pub open spec fn all_value_chars(s: Seq<char>) -> bool {
    forall|i: int| 0 <= i < s.len() ==> is_value_char(#[trigger] s[i])
}

/// The parse of one RDN segment: the text before the first `=` is the
/// key, the text after it is the value, and both must be non-empty and
/// made of the allowed characters.
pub open spec fn spec_parse_rdn(seg: Seq<char>) -> Option<(Seq<char>, Seq<char>)> {
    match find_char(seg, '=') {
        None => None,
        Some(i) => {
            let key = seg.take(i);
            let value = seg.skip(i + 1);
            if key.len() >= 1 && all_key_chars(key) && value.len() >= 1 && all_value_chars(value) {
                Some((key, value))
            } else {
                None
            }
        },
    }
}

/// The parse of a whole DN: the comma-separated RDN segments, each of
/// which must parse.  Commas cannot occur inside a segment, so the
/// split is unambiguous.
pub open spec fn spec_parse_dn(s: Seq<char>) -> Option<Seq<(Seq<char>, Seq<char>)>>
    decreases s.len(),
{
    match find_char(s, ',') {
        None => match spec_parse_rdn(s) {
            None => None,
            Some(r) => Some(seq![r]),
        },
        Some(i) => {
            if 0 <= i < s.len() {
                match spec_parse_rdn(s.take(i)) {
                    None => None,
                    Some(r) => match spec_parse_dn(s.skip(i + 1)) {
                        None => None,
                        Some(rest) => Some(seq![r] + rest),
                    },
                }
            } else {
                None
            }
        },
    }
}

/// A segment that parses as an RDN prints back to itself.
proof fn lemma_parse_rdn_sound(seg: Seq<char>)
    requires
        spec_parse_rdn(seg) is Some,
    ensures
        wf_rdn(spec_parse_rdn(seg)->0),
        spec_display_rdn(spec_parse_rdn(seg)->0) == seg,
{
    reveal_strlit("=");
    lemma_find_char_bounds(seg, '=');
    let i = find_char(seg, '=')->0;
    let r = spec_parse_rdn(seg)->0;
    assert(spec_display_rdn(r) =~= seg);
}

/// A string that parses as a DN prints back to itself, and the parse
/// is well-formed.
pub proof fn lemma_parse_sound(s: Seq<char>)
    requires
        spec_parse_dn(s) is Some,
    ensures
        wf_dn(spec_parse_dn(s)->0),
        spec_display_dn(spec_parse_dn(s)->0) == s,
    decreases s.len(),
{
    reveal_strlit(",");
    lemma_find_char_bounds(s, ',');
    let rdns = spec_parse_dn(s)->0;
    match find_char(s, ',') {
        None => {
            lemma_parse_rdn_sound(s);
            assert(rdns =~= seq![spec_parse_rdn(s)->0]);
            assert(spec_display_dn(rdns) == s);
        },
        Some(i) => {
            let seg = s.take(i);
            lemma_parse_rdn_sound(seg);
            let r = spec_parse_rdn(seg)->0;
            let rest = spec_parse_dn(s.skip(i + 1))->0;
            lemma_parse_sound(s.skip(i + 1));
            assert(rdns =~= seq![r] + rest);
            lemma_display_dn_concat(seq![r], rest);
            assert(spec_display_dn(seq![r]) == spec_display_rdn(r));
            assert(spec_display_dn(rdns) =~= s);
        },
    }
}

/// The print form of a well-formed RDN parses back to it.
proof fn lemma_display_rdn_parse(r: (Seq<char>, Seq<char>))
    requires
        wf_rdn(r),
    ensures
        spec_parse_rdn(spec_display_rdn(r)) == Some(r),
{
    reveal_strlit("=");
    let seg = spec_display_rdn(r);
    let i = r.0.len() as int;
    assert(seg[i] == '=');
    assert forall|k: int| 0 <= k < i implies seg[k] != '=' by {
        assert(seg[k] == r.0[k]);
        assert(is_key_char(r.0[k]));
    }
    lemma_find_char_at(seg, '=', i);
    assert(seg.take(i) =~= r.0);
    assert(seg.skip(i + 1) =~= r.1);
}

/// Round trip: the print form of a well-formed DN parses back to
/// exactly the same RDN list.
pub proof fn lemma_display_parse(rdns: Seq<(Seq<char>, Seq<char>)>)
    requires
        wf_dn(rdns),
    ensures
        spec_parse_dn(spec_display_dn(rdns)) == Some(rdns),
    decreases rdns.len(),
{
    reveal_strlit(",");
    reveal_strlit("=");
    let s = spec_display_dn(rdns);
    if rdns.len() == 1 {
        assert(s == spec_display_rdn(rdns[0]));
        assert forall|k: int| 0 <= k < s.len() implies s[k] != ',' by {
            let r = rdns[0];
            let i = r.0.len() as int;
            if k < i {
                assert(s[k] == r.0[k]);
                assert(is_key_char(r.0[k]));
            } else if k == i {
                assert(s[k] == '=');
            } else {
                assert(s[k] == r.1[k - i - 1]);
                assert(is_value_char(r.1[k - i - 1]));
            }
        }
        lemma_find_char_none(s, ',');
        lemma_display_rdn_parse(rdns[0]);
        assert(spec_parse_dn(s) == Some(seq![rdns[0]]));
        assert(seq![rdns[0]] =~= rdns);
    } else {
        let head = spec_display_rdn(rdns[0]);
        let rest = rdns.drop_first();
        let tail = spec_display_dn(rest);
        assert(s == head + ","@ + tail);
        let i = head.len() as int;
        assert(s[i] == ',');
        assert forall|k: int| 0 <= k < i implies s[k] != ',' by {
            let r = rdns[0];
            let e = r.0.len() as int;
            assert(s[k] == head[k]);
            if k < e {
                assert(head[k] == r.0[k]);
                assert(is_key_char(r.0[k]));
            } else if k == e {
                assert(head[k] == '=');
            } else {
                assert(head[k] == r.1[k - e - 1]);
                assert(is_value_char(r.1[k - e - 1]));
            }
        }
        lemma_find_char_at(s, ',', i);
        assert(s.take(i) =~= head);
        lemma_display_rdn_parse(rdns[0]);
        assert(s.skip(i + 1) =~= tail);
        lemma_display_parse(rest);
        assert(spec_parse_dn(s) == Some(seq![rdns[0]] + rest));
        assert(seq![rdns[0]] + rest =~= rdns);
    }
}

/// Character-wise string equality.
pub(crate) fn str_eq(a: &str, b: &str) -> (r: bool)
    ensures
        r == (a@ == b@),
{
    let alen = a.unicode_len();
    let blen = b.unicode_len();
    if alen != blen {
        return false;
    }
    let mut i: usize = 0;
    while i < alen
        invariant
            alen == a@.len(),
            blen == b@.len(),
            alen == blen,
            i <= alen,
            forall|k: int| 0 <= k < i ==> a@[k] == b@[k],
        decreases alen - i,
    {
        if a.get_char(i) != b.get_char(i) {
            return false;
        }
        i = i + 1;
    }
    proof {
        assert(a@ =~= b@);
    }
    true
}

fn key_char(c: char) -> (b: bool)
    ensures
        b == is_key_char(c),
{
    ('a' <= c && c <= 'z') || ('A' <= c && c <= 'Z') || ('0' <= c && c <= '9')
}

fn value_char(c: char) -> (b: bool)
    ensures
        b == is_value_char(c),
{
    c != '+' && c != '=' && c != ','
}

/// The position of the first comma at or after `start`, if any.
fn scan_comma(s: &str, start: usize) -> (r: Option<usize>)
    requires
        start <= s@.len(),
    ensures
        match r {
            Some(j) => start <= j < s@.len() && s@[j as int] == ',' && forall|k: int|
                start <= k < j ==> s@[k] != ',',
            None => forall|k: int| start <= k < s@.len() ==> s@[k] != ',',
        },
{
    let n = s.unicode_len();
    let mut j: usize = start;
    while j < n
        invariant
            start <= j <= n,
            n == s@.len(),
            forall|k: int| start <= k < j ==> s@[k] != ',',
        decreases n - j,
    {
        if s.get_char(j) == ',' {
            return Some(j);
        }
        j = j + 1;
    }
    None
}

/// Parses the characters `start..end` of `s` as one RDN segment.
fn parse_rdn_segment(s: &str, start: usize, end: usize) -> (r: Option<SimpleRDN>)
    requires
        start <= end <= s@.len(),
    ensures
        match r {
            Some(rdn) => spec_parse_rdn(s@.subrange(start as int, end as int)) == Some(
                (rdn.key@, rdn.value@),
            ),
            None => spec_parse_rdn(s@.subrange(start as int, end as int)) is None,
        },
{
    let ghost seg = s@.subrange(start as int, end as int);
    let mut j: usize = start;
    while j < end
        invariant
            start <= j <= end <= s@.len(),
            seg == s@.subrange(start as int, end as int),
            forall|k: int| start <= k < j ==> s@[k] != '=',
        decreases end - j,
    {
        if s.get_char(j) == '=' {
            proof {
                assert forall|k: int| 0 <= k < j - start implies seg[k] != '=' by {
                    assert(seg[k] == s@[start + k]);
                }
                assert(seg[j - start] == s@[j as int]);
                lemma_find_char_at(seg, '=', j - start);
            }
            if j == start {
                return None;
            }
            let mut k: usize = start;
            while k < j
                invariant
                    start <= k <= j < end <= s@.len(),
                    seg == s@.subrange(start as int, end as int),
                    find_char(seg, '=') == Some(j - start),
                    forall|m: int| start <= m < k ==> is_key_char(#[trigger] s@[m]),
                decreases j - k,
            {
                if !key_char(s.get_char(k)) {
                    proof {
                        assert(seg.take(j - start)[k - start] == s@[k as int]);
                    }
                    return None;
                }
                k = k + 1;
            }
            if j + 1 == end {
                return None;
            }
            let mut m: usize = j + 1;
            while m < end
                invariant
                    j + 1 <= m <= end <= s@.len(),
                    start <= j,
                    seg == s@.subrange(start as int, end as int),
                    find_char(seg, '=') == Some(j - start),
                    forall|t: int| j + 1 <= t < m ==> is_value_char(#[trigger] s@[t]),
                decreases end - m,
            {
                if !value_char(s.get_char(m)) {
                    proof {
                        assert(seg.skip(j - start + 1)[m - j - 1] == s@[m as int]);
                    }
                    return None;
                }
                m = m + 1;
            }
            let key = s.substring_char(start, j).to_owned();
            let value = s.substring_char(j + 1, end).to_owned();
            proof {
                assert(seg.take(j - start) =~= s@.subrange(start as int, j as int));
                assert(seg.skip(j - start + 1) =~= s@.subrange(j + 1, end as int));
                assert forall|t: int| 0 <= t < key@.len() implies is_key_char(
                    #[trigger] key@[t],
                ) by {
                    assert(key@[t] == s@[start + t]);
                }
                assert forall|t: int| 0 <= t < value@.len() implies is_value_char(
                    #[trigger] value@[t],
                ) by {
                    assert(value@[t] == s@[j + 1 + t]);
                }
            }
            return Some(SimpleRDN { key, value });
        }
        j = j + 1;
    }
    proof {
        assert forall|k: int| 0 <= k < seg.len() implies seg[k] != '=' by {
            assert(seg[k] == s@[start + k]);
        }
        lemma_find_char_none(seg, '=');
    }
    None
}

/// The view of a list of RDNs.
spec fn rdns_view(v: Seq<SimpleRDN>) -> Seq<(Seq<char>, Seq<char>)> {
    Seq::new(v.len(), |i: int| (v[i].key@, v[i].value@))
}

/// LDAP Distinguished Name.
///
/// Only deals with the common DNs of the form
/// "CN=Tea,OU=Leaves,OU=Are,DC=Great,DC=Org".
///
/// Multivalued relative DNs and unprintable characters are not supported,
/// and neither is the empty DN.
#[derive(Debug, PartialEq)]
pub struct SimpleDN {
    /// The relative distinguished names of this DN, in print order:
    /// the leftmost element gets index 0.  Never empty.
    rdns: Vec<SimpleRDN>,
}

impl View for SimpleDN {
    type V = Seq<(Seq<char>, Seq<char>)>;

    closed spec fn view(&self) -> Seq<(Seq<char>, Seq<char>)> {
        rdns_view(self.rdns@)
    }
}

impl Clone for SimpleDN {
    fn clone(&self) -> (r: Self)
        ensures
            r@ == self@,
    {
        let mut rdns: Vec<SimpleRDN> = Vec::new();
        let mut i: usize = 0;
        while i < self.rdns.len()
            invariant
                i <= self.rdns.len(),
                rdns@.len() == i,
                forall|k: int|
                    0 <= k < i ==> (#[trigger] rdns@[k].key@, rdns@[k].value@) == self@[k],
            decreases self.rdns.len() - i,
        {
            rdns.push(self.rdns[i].clone_rdn());
            i = i + 1;
        }
        let r = SimpleDN { rdns };
        proof {
            assert(r@ =~= self@);
        }
        r
    }
}

impl SimpleDN {
    /// Well-formedness: the structural invariant every `SimpleDN` keeps.
    pub open spec fn wf(&self) -> bool {
        wf_dn(self@)
    }

    /// Parses the print form of a DN, e.g. "CN=hong,OU=cha,DC=tea".
    ///
    /// Succeeds exactly on the strings this type can represent, and the
    /// parsed DN prints back to the input.
    pub fn parse(s: &str) -> (r: Result<SimpleDN, SimpleDnParseError>)
        ensures
            match r {
                Ok(dn) => {
                    &&& spec_parse_dn(s@) == Some(dn@)
                    &&& dn.wf()
                    &&& spec_display_dn(dn@) == s@
                },
                Err(_) => spec_parse_dn(s@) is None,
            },
    {
        let n = s.unicode_len();
        let mut rdns: Vec<SimpleRDN> = Vec::new();
        let mut start: usize = 0;
        proof {
            assert(s@.skip(0) =~= s@);
            if spec_parse_dn(s@) is Some {
                assert(rdns_view(rdns@) + spec_parse_dn(s@)->0 =~= spec_parse_dn(s@)->0);
            }
        }
        loop
            invariant
                n == s@.len(),
                start <= n,
                match spec_parse_dn(s@.skip(start as int)) {
                    Some(rest) => spec_parse_dn(s@) == Some(rdns_view(rdns@) + rest),
                    None => spec_parse_dn(s@) is None,
                },
            decreases n - start,
        {
            let ghost suf = s@.skip(start as int);
            let scan = scan_comma(s, start);
            let found = scan.is_some();
            let end = match scan {
                Some(j) => j,
                None => n,
            };
            proof {
                if found {
                    assert forall|k: int| 0 <= k < end - start implies suf[k] != ',' by {
                        assert(suf[k] == s@[start + k]);
                    }
                    assert(suf[end - start] == s@[end as int]);
                    lemma_find_char_at(suf, ',', end - start);
                } else {
                    assert(end == n);
                    assert forall|k: int| 0 <= k < suf.len() implies suf[k] != ',' by {
                        assert(suf[k] == s@[start + k]);
                    }
                    lemma_find_char_none(suf, ',');
                }
            }
            let seg_rdn = parse_rdn_segment(s, start, end);
            match seg_rdn {
                None => {
                    proof {
                        if found {
                            assert(suf.take(end - start) =~= s@.subrange(
                                start as int,
                                end as int,
                            ));
                        } else {
                            assert(suf =~= s@.subrange(start as int, end as int));
                        }
                        assert(spec_parse_dn(suf) is None);
                    }
                    let mut errors: Vec<String> = Vec::new();
                    errors.push(String::from_str("not a simple DN"));
                    return Err(SimpleDnParseError { errors });
                },
                Some(rdn) => {
                    let ghost rv = (rdn.key@, rdn.value@);
                    let ghost old_rdns = rdns@;
                    rdns.push(rdn);
                    proof {
                        assert(rdns_view(rdns@) =~= rdns_view(old_rdns).push(rv));
                    }
                    if !found {
                        proof {
                            assert(suf =~= s@.subrange(start as int, end as int));
                            assert(spec_parse_dn(suf) == Some(seq![rv]));
                            assert(rdns_view(old_rdns) + seq![rv] =~= rdns_view(rdns@));
                            assert(spec_parse_dn(s@) == Some(rdns_view(rdns@)));
                        }
                        let dn = SimpleDN { rdns };
                        proof {
                            lemma_parse_sound(s@);
                        }
                        return Ok(dn);
                    }
                    proof {
                        assert(suf.take(end - start) =~= s@.subrange(start as int, end as int));
                        assert(suf.skip(end - start + 1) =~= s@.skip(end + 1));
                        match spec_parse_dn(s@.skip(end + 1)) {
                            Some(rest) => {
                                assert(spec_parse_dn(suf) == Some(seq![rv] + rest));
                                assert(rdns_view(old_rdns) + (seq![rv] + rest) =~= rdns_view(
                                    rdns@,
                                ) + rest);
                            },
                            None => {
                                assert(spec_parse_dn(suf) is None);
                            },
                        }
                    }
                    start = end + 1;
                },
            }
        }
    }

    /// The print form of this DN, e.g. "CN=hong,OU=cha,DC=tea".
    pub fn to_string(&self) -> (r: String)
        requires
            self@.len() >= 1,
        ensures
            r@ == spec_display_dn(self@),
    {
        let mut s = String::new();
        let mut i: usize = 0;
        while i < self.rdns.len()
            invariant
                1 <= self.rdns.len(),
                i <= self.rdns.len(),
                self@.len() == self.rdns@.len(),
                s@ == spec_display_dn(self@.take(i as int)),
            decreases self.rdns.len() - i,
        {
            if i > 0 {
                s.append(",");
            }
            s.append(self.rdns[i].key.as_str());
            s.append("=");
            s.append(self.rdns[i].value.as_str());
            proof {
                let pre = self@.take(i as int);
                let cur = self@.take(i + 1);
                assert(cur =~= pre + seq![self@[i as int]]);
                if i == 0 {
                    assert(cur =~= seq![self@[0]]);
                    assert(spec_display_dn(cur) == spec_display_rdn(self@[0]));
                    assert(s@ =~= spec_display_dn(cur));
                } else {
                    lemma_display_dn_concat(pre, seq![self@[i as int]]);
                    assert(spec_display_dn(seq![self@[i as int]]) == spec_display_rdn(
                        self@[i as int],
                    ));
                    assert(s@ =~= spec_display_dn(cur));
                }
            }
            i = i + 1;
        }
        proof {
            assert(self@.take(self@.len() as int) =~= self@);
        }
        s
    }

    /// Get the value of the first occurrence of the argument RDN key.
    ///
    /// E.g. getting "OU" from "CN=Teas,OU=Are,OU=Really,DC=Awesome"
    /// results in "Are".
    pub fn get(&self, key: &str) -> (r: Option<&str>)
        ensures
            match find_key(self@, key@) {
                Some(i) => r matches Some(v) && v@ == self@[i].1,
                None => r is None,
            },
    {
        let mut i: usize = 0;
        while i < self.rdns.len()
            invariant
                i <= self.rdns.len(),
                self@.len() == self.rdns@.len(),
                forall|k: int| 0 <= k < i ==> #[trigger] self@[k].0 != key@,
            decreases self.rdns.len() - i,
        {
            if str_eq(self.rdns[i].key.as_str(), key) {
                proof {
                    lemma_find_key_at(self@, key@, i as int);
                }
                return Some(self.rdns[i].value.as_str());
            }
            i = i + 1;
        }
        proof {
            lemma_find_key_none(self@, key@);
        }
        None
    }

    /// Like `get()` but returns all the RDNs starting from the asked key.
    pub fn get_starting_from(&self, key: &str) -> (r: Option<SimpleDN>)
        ensures
            match find_key(self@, key@) {
                Some(i) => r matches Some(d) && d@ == self@.skip(i),
                None => r is None,
            },
    {
        let mut i: usize = 0;
        while i < self.rdns.len()
            invariant
                i <= self.rdns.len(),
                self@.len() == self.rdns@.len(),
                forall|k: int| 0 <= k < i ==> #[trigger] self@[k].0 != key@,
            decreases self.rdns.len() - i,
        {
            if str_eq(self.rdns[i].key.as_str(), key) {
                proof {
                    lemma_find_key_at(self@, key@, i as int);
                }
                let mut rdns: Vec<SimpleRDN> = Vec::new();
                let mut j: usize = i;
                while j < self.rdns.len()
                    invariant
                        i <= j <= self.rdns.len(),
                        self@.len() == self.rdns@.len(),
                        rdns@.len() == j - i,
                        forall|k: int|
                            0 <= k < j - i ==> (
                            #[trigger] rdns@[k].key@,
                            rdns@[k].value@,
                            ) == self@[i + k],
                    decreases self.rdns.len() - j,
                {
                    rdns.push(self.rdns[j].clone_rdn());
                    j = j + 1;
                }
                let d = SimpleDN { rdns };
                proof {
                    assert(d@ =~= self@.skip(i as int));
                }
                return Some(d);
            }
            i = i + 1;
        }
        proof {
            lemma_find_key_none(self@, key@);
        }
        None
    }

    /// Get the type of this DN: the kind of object it denominates,
    /// i.e. the key of the first RDN.
    ///
    /// E.g. the type of "OU=Tea,DC=Drinker" is "OU".
    pub fn get_type(&self) -> (r: &str)
        requires
            self@.len() >= 1,
        ensures
            r@ == self@[0].0,
    {
        self.rdns[0].key.as_str()
    }

    /// Get the parent DN of this one, if there is one.
    ///
    /// E.g. the parent of "OU=Puerh,DC=Tea" is "DC=Tea".
    pub fn parent(&self) -> (r: Option<SimpleDN>)
        ensures
            self@.len() >= 2 ==> (r matches Some(d) && d@ == self@.drop_first()),
            self@.len() < 2 ==> r is None,
    {
        if self.rdns.len() < 2 {
            return None;
        }
        let mut rdns: Vec<SimpleRDN> = Vec::new();
        let mut j: usize = 1;
        while j < self.rdns.len()
            invariant
                1 <= j <= self.rdns.len(),
                self@.len() == self.rdns@.len(),
                rdns@.len() == j - 1,
                forall|k: int|
                    0 <= k < j - 1 ==> (#[trigger] rdns@[k].key@, rdns@[k].value@) == self@[1 + k],
            decreases self.rdns.len() - j,
        {
            rdns.push(self.rdns[j].clone_rdn());
            j = j + 1;
        }
        let d = SimpleDN { rdns };
        proof {
            assert(d@ =~= self@.drop_first());
        }
        Some(d)
    }
}


/// True when `x` is a proper suffix of `y`: the DN `y` names an
/// object below the object `x` names.
pub open spec fn is_strict_suffix(x: Seq<(Seq<char>, Seq<char>)>, y: Seq<(Seq<char>, Seq<char>)>) -> bool {
    x.len() < y.len() && x == y.skip(y.len() - x.len())
}

/// Partial ordering of DNs by ancestry: a DN is greater than every
/// DN under it; unrelated DNs are incomparable.
pub open spec fn spec_dn_cmp(a: Seq<(Seq<char>, Seq<char>)>, b: Seq<(Seq<char>, Seq<char>)>) -> Option<Ordering> {
    if a == b {
        Some(Ordering::Equal)
    } else if is_strict_suffix(b, a) {
        Some(Ordering::Less)
    } else if is_strict_suffix(a, b) {
        Some(Ordering::Greater)
    } else {
        None
    }
}

impl vstd::std_specs::cmp::PartialOrdSpecImpl for SimpleDN {
    open spec fn obeys_partial_cmp_spec() -> bool {
        true
    }

    open spec fn partial_cmp_spec(&self, other: &Self) -> Option<Ordering> {
        spec_dn_cmp(self@, other@)
    }
}

/// Partial ordering by DN ancestry: a DN being greater than another
/// means it is an ancestor of the other.
impl PartialOrd for SimpleDN {
    fn partial_cmp(&self, other: &Self) -> (r: Option<Ordering>) {
        let n = self.rdns.len();
        let m = other.rdns.len();
        let common = if n < m {
            n
        } else {
            m
        };
        let mut i: usize = 0;
        while i < common
            invariant
                n == self@.len(),
                m == other@.len(),
                common == if n < m {
                    n as int
                } else {
                    m as int
                },
                i <= common,
                forall|k: int| 0 <= k < i ==> #[trigger] self@[n - 1 - k] == other@[m - 1 - k],
            decreases common - i,
        {
            let a = &self.rdns[n - 1 - i];
            let b = &other.rdns[m - 1 - i];
            if !(str_eq(a.key.as_str(), b.key.as_str()) && str_eq(
                a.value.as_str(),
                b.value.as_str(),
            )) {
                proof {
                    let j = i as int;
                    assert(self@[n - 1 - j] != other@[m - 1 - j]);
                    if self@ == other@ {
                        assert(self@[n - 1 - j] == other@[n - 1 - j]);
                        assert(false);
                    }
                    if is_strict_suffix(other@, self@) {
                        assert(other@[m - 1 - j] == self@.skip(n - m)[m - 1 - j]);
                        assert(self@.skip(n - m)[m - 1 - j] == self@[n - 1 - j]);
                        assert(false);
                    }
                    if is_strict_suffix(self@, other@) {
                        assert(self@[n - 1 - j] == other@.skip(m - n)[n - 1 - j]);
                        assert(other@.skip(m - n)[n - 1 - j] == other@[m - 1 - j]);
                        assert(false);
                    }
                }
                return None;
            }
            i = i + 1;
        }
        if n == m {
            proof {
                assert forall|idx: int| 0 <= idx < n implies self@[idx] == other@[idx] by {
                    let k = n - 1 - idx;
                    assert(self@[n - 1 - k] == other@[m - 1 - k]);
                }
                assert(self@ =~= other@);
            }
            Some(Ordering::Equal)
        } else if n > m {
            proof {
                assert forall|idx: int| 0 <= idx < m implies other@[idx] == self@.skip(
                    n - m,
                )[idx] by {
                    let k = m - 1 - idx;
                    assert(self@[n - 1 - k] == other@[m - 1 - k]);
                }
                assert(other@ =~= self@.skip(n - m));
            }
            Some(Ordering::Less)
        } else {
            proof {
                assert forall|idx: int| 0 <= idx < n implies self@[idx] == other@.skip(
                    m - n,
                )[idx] by {
                    let k = n - 1 - idx;
                    assert(self@[n - 1 - k] == other@[m - 1 - k]);
                }
                assert(self@ =~= other@.skip(m - n));
            }
            Some(Ordering::Greater)
        }
    }
}

/// The error of a failed DN parse.
#[derive(Debug)]
pub struct SimpleDnParseError {
    // Stored as plain strings to keep the error self-contained.
    errors: Vec<String>,
}

} // verus!
