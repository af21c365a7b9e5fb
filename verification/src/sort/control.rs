//! The binary codec for the Server-Side-Sort controls.
//!
//! The request control's value is a BER SEQUENCE of per-key SEQUENCEs,
//! each holding an OCTET STRING attribute name, an optional context-[0]
//! ordering rule, and a context-[1] BOOLEAN reverse flag.  The response
//! control's value is a SEQUENCE of an ENUMERATED result code and an
//! optional context-[0] attribute name.  Both byte formats are defined
//! exactly by the spec functions here, and the executable encoder and
//! decoder are proved against them.

use vstd::prelude::*;
use vstd::string::StrSliceExecFns;
use vstd::utf8::*;

use crate::sort::adapter::SortBy;
use crate::Error;
use vstd::slice::slice_subrange;
use vstd::slice::slice_index_get;
use vstd::string::StringExecFns;

verus! {

/// Minimal big-endian byte representation of a number; empty for zero.
pub open spec fn spec_be_bytes(n: nat) -> Seq<u8>
    decreases n,
{
    if n == 0 {
        Seq::<u8>::empty()
    } else {
        spec_be_bytes(n / 256) + seq![(n % 256) as u8]
    }
}

/// The number a big-endian byte string stands for.
pub open spec fn spec_be_val(b: Seq<u8>) -> nat
    decreases b.len(),
{
    if b.len() == 0 {
        0
    } else {
        spec_be_val(b.drop_last()) * 256 + b.last() as nat
    }
}

/// BER definite-length octets: one byte below 128, else a count byte
/// with the high bit set followed by the minimal big-endian length.
pub open spec fn spec_len_octets(n: nat) -> Seq<u8> {
    if n < 128 {
        seq![n as u8]
    } else {
        seq![(0x80 + spec_be_bytes(n).len()) as u8] + spec_be_bytes(n)
    }
}

/// One BER tag-length-value element.
pub open spec fn spec_tlv(tag: u8, content: Seq<u8>) -> Seq<u8> {
    seq![tag] + spec_len_octets(content.len()) + content
}

/// An individual sort key: one piece of the request control specifying
/// one sort criterion.
#[derive(Debug, Clone)]
pub struct SortKey {
    /// Name of the attribute to sort by.
    pub attribute_type: String,
    /// A matching-rule identifier, passed through opaquely.
    pub ordering_rule: Option<String>,
    /// Should the ordering be reversed?
    pub reverse_order: bool,
}

impl View for SortKey {
    type V = (Seq<char>, Option<Seq<char>>, bool);

    open spec fn view(&self) -> (Seq<char>, Option<Seq<char>>, bool) {
        (
            self.attribute_type@,
            match self.ordering_rule {
                Some(r) => Some(r@),
                None => None,
            },
            self.reverse_order,
        )
    }
}

impl SortKey {
    /// Builds the sort key a `SortBy` directive stands for; the
    /// ordering rule is not exposed at that level.
    pub fn from(value: SortBy) -> (r: Self)
        ensures
            r@ == (value.attribute@, None::<Seq<char>>, value.reverse),
    {
        SortKey { attribute_type: value.attribute, ordering_rule: None, reverse_order: value.reverse }
    }
}

/// The encoding of one sort key's SEQUENCE content.
pub open spec fn spec_key_content(k: (Seq<char>, Option<Seq<char>>, bool)) -> Seq<u8> {
    spec_tlv(0x04, encode_utf8(k.0)) + (match k.1 {
        Some(r) => spec_tlv(0x80, encode_utf8(r)),
        None => Seq::<u8>::empty(),
    }) + spec_tlv(0x81, seq![if k.2 { 0xffu8 } else { 0x00u8 }])
}

/// The encoding of one sort key.
pub open spec fn spec_encode_sort_key(k: (Seq<char>, Option<Seq<char>>, bool)) -> Seq<u8> {
    spec_tlv(0x30, spec_key_content(k))
}

/// The concatenated encodings of a list of sort keys.
pub open spec fn spec_keys_content(keys: Seq<(Seq<char>, Option<Seq<char>>, bool)>) -> Seq<u8>
    decreases keys.len(),
{
    if keys.len() == 0 {
        Seq::<u8>::empty()
    } else {
        spec_keys_content(keys.drop_last()) + spec_encode_sort_key(keys.last())
    }
}

/// The request control's whole value: a SEQUENCE of the key encodings.
pub open spec fn spec_encode_sort_request(keys: Seq<(Seq<char>, Option<Seq<char>>, bool)>) -> Seq<
    u8,
> {
    spec_tlv(0x30, spec_keys_content(keys))
}

proof fn lemma_be_bytes_len(n: nat)
    requires
        n < 0x1_0000_0000_0000_0000,
    ensures
        spec_be_bytes(n).len() <= 8,
{
    let n1 = n / 256;
    let n2 = n1 / 256;
    let n3 = n2 / 256;
    let n4 = n3 / 256;
    let n5 = n4 / 256;
    let n6 = n5 / 256;
    let n7 = n6 / 256;
    let n8 = n7 / 256;
    assert(n8 == 0);
    assert(spec_be_bytes(n8).len() == 0);
    assert(spec_be_bytes(n7).len() <= 1);
    assert(spec_be_bytes(n6).len() <= 2);
    assert(spec_be_bytes(n5).len() <= 3);
    assert(spec_be_bytes(n4).len() <= 4);
    assert(spec_be_bytes(n3).len() <= 5);
    assert(spec_be_bytes(n2).len() <= 6);
    assert(spec_be_bytes(n1).len() <= 7);
    assert(spec_be_bytes(n).len() <= 8);
}

/// Appends the minimal big-endian bytes of `n`.
fn push_be_bytes(out: &mut Vec<u8>, n: usize)
    ensures
        final(out)@ == old(out)@ + spec_be_bytes(n as nat),
    decreases n,
{
    if n == 0 {
        proof {
            assert(final(out)@ =~= old(out)@ + spec_be_bytes(0));
        }
    } else {
        push_be_bytes(out, n / 256);
        out.push((n % 256) as u8);
        proof {
            assert(final(out)@ =~= old(out)@ + spec_be_bytes(n as nat));
        }
    }
}

/// Appends the BER definite-length octets for a content of `n` bytes.
fn push_len(out: &mut Vec<u8>, n: usize)
    ensures
        final(out)@ == old(out)@ + spec_len_octets(n as nat),
{
    if n < 128 {
        out.push(n as u8);
        proof {
            assert(final(out)@ =~= old(out)@ + spec_len_octets(n as nat));
        }
    } else {
        let mut be: Vec<u8> = Vec::new();
        push_be_bytes(&mut be, n);
        proof {
            lemma_be_bytes_len(n as nat);
        }
        out.push(0x80u8 + (be.len() as u8));
        out.append(&mut be);
        proof {
            assert(final(out)@ =~= old(out)@ + spec_len_octets(n as nat));
        }
    }
}

/// Appends the tag and length octets of one TLV element; the content
/// itself follows separately.
fn push_tlv_header(out: &mut Vec<u8>, tag: u8, content_len: usize)
    ensures
        final(out)@ == old(out)@ + seq![tag] + spec_len_octets(content_len as nat),
{
    out.push(tag);
    push_len(out, content_len);
    proof {
        assert(final(out)@ =~= old(out)@ + seq![tag] + spec_len_octets(content_len as nat));
    }
}

/// Appends the encoding of one sort key.
fn push_sort_key(out: &mut Vec<u8>, k: &SortKey)
    ensures
        final(out)@ == old(out)@ + spec_encode_sort_key(k@),
{
    let mut content: Vec<u8> = Vec::new();
    let mut ab = k.attribute_type.as_str().as_bytes_vec();
    push_tlv_header(&mut content, 0x04, ab.len());
    content.append(&mut ab);
    proof {
        assert(content@ =~= spec_tlv(0x04, encode_utf8(k@.0)));
    }
    match &k.ordering_rule {
        Some(rule) => {
            let mut rb = rule.as_str().as_bytes_vec();
            push_tlv_header(&mut content, 0x80, rb.len());
            content.append(&mut rb);
            proof {
                assert(content@ =~= spec_tlv(0x04, encode_utf8(k@.0)) + spec_tlv(
                    0x80,
                    encode_utf8(k@.1->0),
                ));
            }
        },
        None => {},
    }
    let ghost mid = content@;
    push_tlv_header(&mut content, 0x81, 1);
    if k.reverse_order {
        content.push(0xffu8);
    } else {
        content.push(0x00u8);
    }
    proof {
        assert(content@ =~= mid + spec_tlv(0x81, seq![if k@.2 { 0xffu8 } else { 0x00u8 }]));
        assert(content@ =~= spec_key_content(k@));
    }
    push_tlv_header(out, 0x30, content.len());
    out.append(&mut content);
    proof {
        assert(final(out)@ =~= old(out)@ + spec_encode_sort_key(k@));
    }
}

/// Encodes a sort key list as the request control's value.
pub fn encode_sort_request(keys: &Vec<SortKey>) -> (r: Vec<u8>)
    ensures
        r@ == spec_encode_sort_request(keys_view(keys@)),
{
    let mut content: Vec<u8> = Vec::new();
    let mut i: usize = 0;
    proof {
        assert(content@ =~= spec_keys_content(keys_view(keys@).take(0)));
    }
    while i < keys.len()
        invariant
            i <= keys.len(),
            content@ == spec_keys_content(keys_view(keys@).take(i as int)),
        decreases keys.len() - i,
    {
        push_sort_key(&mut content, &keys[i]);
        proof {
            assert(keys_view(keys@).take(i + 1).drop_last() =~= keys_view(keys@).take(i as int));
            assert(keys_view(keys@).take(i + 1).last() == keys@[i as int]@);
        }
        i = i + 1;
    }
    proof {
        assert(keys_view(keys@).take(keys@.len() as int) =~= keys_view(keys@));
    }
    let mut out: Vec<u8> = Vec::new();
    push_tlv_header(&mut out, 0x30, content.len());
    out.append(&mut content);
    proof {
        assert(out@ =~= spec_encode_sort_request(keys_view(keys@)));
    }
    out
}

/// Powers of 256, for bounding big-endian values.
pub open spec fn pow256(n: nat) -> nat
    decreases n,
{
    if n == 0 {
        1
    } else {
        256 * pow256((n - 1) as nat)
    }
}

proof fn lemma_be_val_bound(b: Seq<u8>)
    ensures
        spec_be_val(b) < pow256(b.len()),
    decreases b.len(),
{
    if b.len() > 0 {
        lemma_be_val_bound(b.drop_last());
    }
}

proof fn lemma_be_val_extend_ge(b: Seq<u8>, lo: int, j: int, hi: int)
    requires
        0 <= lo <= j <= hi <= b.len(),
    ensures
        spec_be_val(b.subrange(lo, hi)) >= spec_be_val(b.subrange(lo, j)),
    decreases hi - j,
{
    if j < hi {
        lemma_be_val_extend_ge(b, lo, j + 1, hi);
        assert(b.subrange(lo, j + 1).drop_last() =~= b.subrange(lo, j));
        assert(spec_be_val(b.subrange(lo, j + 1)) == spec_be_val(b.subrange(lo, j)) * 256 + b[j]);
    }
}

/// The BER definite length read at position `i`: the length itself and
/// the position just after the length octets.  Indefinite lengths are
/// refused.
pub open spec fn spec_parse_len(b: Seq<u8>, i: int) -> Option<(nat, int)> {
    if !(0 <= i < b.len()) {
        None
    } else if b[i] < 128 {
        Some((b[i] as nat, i + 1))
    } else if b[i] == 128 {
        None
    } else {
        let cnt = b[i] - 128;
        if i + 1 + cnt <= b.len() {
            Some((spec_be_val(b.subrange(i + 1, i + 1 + cnt)), i + 1 + cnt))
        } else {
            None
        }
    }
}

/// The TLV element read at position `i`: its tag byte, its content, and
/// the position just after it.  Fails on truncated input.
pub open spec fn spec_parse_tlv(b: Seq<u8>, i: int) -> Option<(u8, Seq<u8>, int)> {
    if !(0 <= i < b.len()) {
        None
    } else {
        match spec_parse_len(b, i + 1) {
            None => None,
            Some((l, cs)) => {
                if cs + l <= b.len() {
                    Some((b[i], b.subrange(cs, cs + l), cs + l))
                } else {
                    None
                }
            },
        }
    }
}

/// Reads one TLV element at position `i`, returning its tag, the range
/// of its content, and the position just after it.
fn parse_tlv(b: &[u8], i: usize) -> (r: Option<(u8, usize, usize, usize)>)
    requires
        i <= b@.len(),
    ensures
        match r {
            Some(t) => {
                &&& spec_parse_tlv(b@, i as int) == Some(
                    (t.0, b@.subrange(t.1 as int, t.1 + t.2), t.3 as int),
                )
                &&& i < t.1
                &&& t.1 + t.2 == t.3
                &&& t.3 <= b@.len()
            },
            None => spec_parse_tlv(b@, i as int) is None,
        },
{
    if i >= b.len() {
        return None;
    }
    let tag = b[i];
    if i + 1 >= b.len() {
        return None;
    }
    let l0 = b[i + 1];
    if l0 < 128 {
        let cl = l0 as usize;
        let cs = i + 2;
        if cl > b.len() - cs {
            return None;
        }
        Some((tag, cs, cl, cs + cl))
    } else if l0 == 128 {
        None
    } else {
        let cnt = (l0 - 128) as usize;
        if cnt > b.len() - (i + 2) {
            return None;
        }
        let cs = i + 2 + cnt;
        let mut acc: u128 = 0;
        let mut k: usize = i + 2;
        proof {
            assert(b@.subrange(i + 2, i + 2) =~= Seq::<u8>::empty());
        }
        while k < cs
            invariant
                i + 2 <= k <= cs <= b@.len(),
                i + 1 < b@.len(),
                b@[i as int] == tag,
                b@[i + 1] == l0,
                128 < l0,
                cs == i + 2 + (l0 - 128),
                acc as nat == spec_be_val(b@.subrange(i + 2, k as int)),
                acc <= b@.len() as u128,
            decreases cs - k,
        {
            let byte = b[k];
            let newacc = acc * 256 + byte as u128;
            proof {
                assert(b@.subrange(i + 2, k + 1).drop_last() =~= b@.subrange(i + 2, k as int));
            }
            if newacc > b.len() as u128 {
                proof {
                    lemma_be_val_extend_ge(b@, i + 2, k + 1, cs as int);
                }
                return None;
            }
            acc = newacc;
            k = k + 1;
        }
        let cl = acc as usize;
        if cl > b.len() - cs {
            return None;
        }
        Some((tag, cs, cl, cs + cl))
    }
}

/// Reads a big-endian value of at most 8 bytes.
fn be_val_u128(b: &[u8], lo: usize, hi: usize) -> (r: u128)
    requires
        lo <= hi <= b@.len(),
        hi - lo <= 8,
    ensures
        r as nat == spec_be_val(b@.subrange(lo as int, hi as int)),
{
    proof {
        assert(pow256(0) == 1);
        assert(pow256(1) == 0x100);
        assert(pow256(2) == 0x10000);
        assert(pow256(3) == 0x1000000);
        assert(pow256(4) == 0x100000000);
        assert(pow256(5) == 0x10000000000);
        assert(pow256(6) == 0x1000000000000);
        assert(pow256(7) == 0x100000000000000);
        assert(pow256(8) == 0x10000000000000000);
        assert(b@.subrange(lo as int, lo as int) =~= Seq::<u8>::empty());
    }
    let mut acc: u128 = 0;
    let mut k: usize = lo;
    while k < hi
        invariant
            lo <= k <= hi <= b@.len(),
            hi - lo <= 8,
            acc as nat == spec_be_val(b@.subrange(lo as int, k as int)),
            (acc as nat) < pow256((k - lo) as nat),
            pow256(8) == 0x10000000000000000,
        decreases hi - k,
    {
        proof {
            assert(b@.subrange(lo as int, k + 1).drop_last() =~= b@.subrange(lo as int, k as int));
            lemma_be_val_bound(b@.subrange(lo as int, k as int));
            assert(pow256(((k + 1) - lo) as nat) == 256 * pow256((k - lo) as nat));
            assert(pow256((k - lo) as nat) <= pow256(8)) by {
                lemma_pow256_le((k - lo) as nat, 8);
            }
        }
        acc = acc * 256 + b[k] as u128;
        k = k + 1;
    }
    acc
}

proof fn lemma_pow256_le(a: nat, c: nat)
    requires
        a <= c,
    ensures
        pow256(a) <= pow256(c),
    decreases c,
{
    if a < c {
        lemma_pow256_le(a, (c - 1) as nat);
        assert(pow256(c) == 256 * pow256((c - 1) as nat));
    }
}

/// Potential results of a server-side sort, RFC 2891 section 1.2.
#[derive(Debug, Clone, Copy, PartialEq, Eq, Structural)]
pub enum SortResult {
    /// Results are sorted.
    Success,
    /// Server internal failure.
    OperationsError,
    /// Time limit reached before sorting was completed.
    TimeLimitExceeded,
    /// Refused to return sorted results via an insecure protocol.
    StrongAuthRequired,
    /// Too many matching entries for the server to sort.
    AdminLimitExceeded,
    /// Unrecognized attribute type in a sort key.
    NoSuchAttribute,
    /// Unrecognized or inappropriate matching rule in a sort key.
    InappropriateMatching,
    /// Refused to return sorted results to this client.
    InsufficientAccessRights,
    /// Too busy to process.
    Busy,
    /// Unable to sort.
    UnwillingToPerform,
    Other,
}

/// The code each sort result is sent as on the wire.
pub open spec fn spec_sort_result_code(r: SortResult) -> nat {
    match r {
        SortResult::Success => 0,
        SortResult::OperationsError => 1,
        SortResult::TimeLimitExceeded => 3,
        SortResult::StrongAuthRequired => 8,
        SortResult::AdminLimitExceeded => 11,
        SortResult::NoSuchAttribute => 16,
        SortResult::InappropriateMatching => 18,
        SortResult::InsufficientAccessRights => 50,
        SortResult::Busy => 51,
        SortResult::UnwillingToPerform => 53,
        SortResult::Other => 80,
    }
}

/// The sort result a wire code stands for, if any.
pub open spec fn spec_sort_result_of_code(c: nat) -> Option<SortResult> {
    if c == 0 {
        Some(SortResult::Success)
    } else if c == 1 {
        Some(SortResult::OperationsError)
    } else if c == 3 {
        Some(SortResult::TimeLimitExceeded)
    } else if c == 8 {
        Some(SortResult::StrongAuthRequired)
    } else if c == 11 {
        Some(SortResult::AdminLimitExceeded)
    } else if c == 16 {
        Some(SortResult::NoSuchAttribute)
    } else if c == 18 {
        Some(SortResult::InappropriateMatching)
    } else if c == 50 {
        Some(SortResult::InsufficientAccessRights)
    } else if c == 51 {
        Some(SortResult::Busy)
    } else if c == 53 {
        Some(SortResult::UnwillingToPerform)
    } else if c == 80 {
        Some(SortResult::Other)
    } else {
        None
    }
}

fn sort_result_of_code(c: u128) -> (r: Option<SortResult>)
    ensures
        r == spec_sort_result_of_code(c as nat),
{
    if c == 0 {
        Some(SortResult::Success)
    } else if c == 1 {
        Some(SortResult::OperationsError)
    } else if c == 3 {
        Some(SortResult::TimeLimitExceeded)
    } else if c == 8 {
        Some(SortResult::StrongAuthRequired)
    } else if c == 11 {
        Some(SortResult::AdminLimitExceeded)
    } else if c == 16 {
        Some(SortResult::NoSuchAttribute)
    } else if c == 18 {
        Some(SortResult::InappropriateMatching)
    } else if c == 50 {
        Some(SortResult::InsufficientAccessRights)
    } else if c == 51 {
        Some(SortResult::Busy)
    } else if c == 53 {
        Some(SortResult::UnwillingToPerform)
    } else if c == 80 {
        Some(SortResult::Other)
    } else {
        None
    }
}

/// The response control decoded: a SEQUENCE holding an ENUMERATED
/// result code and, when the code is not success, an optional
/// context-[0] attribute name.  On success everything after the code
/// is ignored, as RFC 2891 asks of clients.
pub open spec fn spec_decode_sort_response(b: Seq<u8>) -> Option<(SortResult, Option<Seq<char>>)> {
    match spec_parse_tlv(b, 0) {
        None => None,
        Some((tag, content, _next)) => {
            if tag != 0x30 {
                None
            } else {
                match spec_parse_tlv(content, 0) {
                    None => None,
                    Some((t1, c1, n1)) => {
                        if t1 != 0x0a || c1.len() == 0 || c1.len() > 8 {
                            None
                        } else {
                            match spec_sort_result_of_code(spec_be_val(c1)) {
                                None => None,
                                Some(res) => {
                                    if res is Success {
                                        Some((res, None))
                                    } else if n1 == content.len() {
                                        Some((res, None))
                                    } else {
                                        match spec_parse_tlv(content, n1) {
                                            None => None,
                                            Some((t2, c2, _n2)) => {
                                                if t2 == 0x80 {
                                                    if valid_utf8(c2) {
                                                        Some((res, Some(decode_utf8(c2))))
                                                    } else {
                                                        None
                                                    }
                                                } else {
                                                    Some((res, None))
                                                }
                                            },
                                        }
                                    }
                                },
                            }
                        }
                    },
                }
            }
        },
    }
}

/// The response control for Server Side Sort.
#[derive(Debug, Clone, PartialEq, Eq)]
pub struct ServerSideSortResponse {
    pub sort_result: SortResult,
    /// The first offending sort attribute, when the server named one.
    /// Per RFC 2891 the client ignores this field on success.
    pub attribute_type: Option<String>,
}

impl View for ServerSideSortResponse {
    type V = (SortResult, Option<Seq<char>>);

    open spec fn view(&self) -> (SortResult, Option<Seq<char>>) {
        (
            self.sort_result,
            match self.attribute_type {
                Some(a) => Some(a@),
                None => None,
            },
        )
    }
}

/// Relies on std::str::from_utf8: it succeeds exactly on valid UTF-8
/// and yields the characters those bytes encode, as vstd's UTF-8
/// specification states them.
#[verifier::external_body]
fn bytes_to_string(b: &[u8]) -> (r: Option<String>)
    ensures
        r is Some <==> valid_utf8(b@),
        r matches Some(s) ==> s@ == decode_utf8(b@),
{
    match core::str::from_utf8(b) {
        Ok(s) => Some(s.to_owned()),
        Err(_) => None,
    }
}

fn malformed() -> (e: Error)
    ensures
        e is MalformedControl,
{
    Error::MalformedControl(String::from_str("could not decode the sort response control"))
}

/// Decodes a response control's value.
///
/// Malformed input (truncation, wrong tags, an unknown result code,
/// non-UTF-8 attribute text) is a `MalformedControl` error, distinct
/// from any legitimate failure code the server may send.
pub fn decode_sort_response(val: &[u8]) -> (r: Result<ServerSideSortResponse, Error>)
    ensures
        match r {
            Ok(resp) => spec_decode_sort_response(val@) == Some(resp@),
            Err(e) => spec_decode_sort_response(val@) is None && e is MalformedControl,
        },
{
    let outer = parse_tlv(val, 0);
    match outer {
        None => Err(malformed()),
        Some((tag, cs, cl, _next)) => {
            if tag != 0x30 {
                return Err(malformed());
            }
            let content = slice_subrange(val, cs, cs + cl);
            let first = parse_tlv(content, 0);
            match first {
                None => Err(malformed()),
                Some((t1, cs1, cl1, n1)) => {
                    if t1 != 0x0a || cl1 == 0 || cl1 > 8 {
                        return Err(malformed());
                    }
                    let code = be_val_u128(content, cs1, cs1 + cl1);
                    match sort_result_of_code(code) {
                        None => Err(malformed()),
                        Some(res) => {
                            if res == SortResult::Success {
                                return Ok(
                                    ServerSideSortResponse {
                                        sort_result: res,
                                        attribute_type: None,
                                    },
                                );
                            }
                            if n1 == content.len() {
                                return Ok(
                                    ServerSideSortResponse {
                                        sort_result: res,
                                        attribute_type: None,
                                    },
                                );
                            }
                            let second = parse_tlv(content, n1);
                            match second {
                                None => Err(malformed()),
                                Some((t2, cs2, cl2, _n2)) => {
                                    if t2 == 0x80 {
                                        let ab = slice_subrange(content, cs2, cs2 + cl2);
                                        match bytes_to_string(ab) {
                                            Some(a) => Ok(
                                                ServerSideSortResponse {
                                                    sort_result: res,
                                                    attribute_type: Some(a),
                                                },
                                            ),
                                            None => Err(malformed()),
                                        }
                                    } else {
                                        Ok(
                                            ServerSideSortResponse {
                                                sort_result: res,
                                                attribute_type: None,
                                            },
                                        )
                                    }
                                },
                            }
                        },
                    }
                },
            }
        },
    }
}


/// One sort key decoded from a key SEQUENCE's content: the attribute,
/// the optional ordering rule, and the reverse flag, which must fill
/// the content exactly.
pub open spec fn spec_decode_sort_key(c: Seq<u8>) -> Option<(Seq<char>, Option<Seq<char>>, bool)> {
    match spec_parse_tlv(c, 0) {
        None => None,
        Some((t1, a, n1)) => {
            if t1 != 0x04 || !valid_utf8(a) {
                None
            } else {
                match spec_parse_tlv(c, n1) {
                    None => None,
                    Some((t2, c2, n2)) => {
                        if t2 == 0x80 {
                            if !valid_utf8(c2) {
                                None
                            } else {
                                match spec_parse_tlv(c, n2) {
                                    None => None,
                                    Some((t3, c3, n3)) => {
                                        if t3 == 0x81 && c3.len() == 1 && n3 == c.len() {
                                            Some(
                                                (decode_utf8(a), Some(decode_utf8(c2)), c3[0] != 0),
                                            )
                                        } else {
                                            None
                                        }
                                    },
                                }
                            }
                        } else if t2 == 0x81 && c2.len() == 1 && n2 == c.len() {
                            Some((decode_utf8(a), None, c2[0] != 0))
                        } else {
                            None
                        }
                    },
                }
            }
        },
    }
}

/// The sort keys decoded from position `i` of a key-list content.
pub open spec fn spec_decode_keys(c: Seq<u8>, i: int) -> Option<
    Seq<(Seq<char>, Option<Seq<char>>, bool)>,
>
    decreases c.len() - i,
{
    if i == c.len() {
        Some(Seq::<(Seq<char>, Option<Seq<char>>, bool)>::empty())
    } else {
        match spec_parse_tlv(c, i) {
            None => None,
            Some((t, kc, next)) => {
                if t != 0x30 {
                    None
                } else if !(i < next <= c.len()) {
                    None
                } else {
                    match spec_decode_sort_key(kc) {
                        None => None,
                        Some(k) => match spec_decode_keys(c, next) {
                            None => None,
                            Some(rest) => Some(seq![k] + rest),
                        },
                    }
                }
            },
        }
    }
}

/// A request control's value decoded back into its sort keys.
pub open spec fn spec_decode_sort_request(b: Seq<u8>) -> Option<
    Seq<(Seq<char>, Option<Seq<char>>, bool)>,
> {
    match spec_parse_tlv(b, 0) {
        None => None,
        Some((t, c, _next)) => {
            if t == 0x30 {
                spec_decode_keys(c, 0)
            } else {
                None
            }
        },
    }
}

/// The views of a list of sort keys.
pub open spec fn keys_view(ks: Seq<SortKey>) -> Seq<(Seq<char>, Option<Seq<char>>, bool)> {
    Seq::new(ks.len(), |i: int| ks[i]@)
}

/// Decodes one key SEQUENCE's content.
fn decode_one_key(c: &[u8]) -> (r: Option<SortKey>)
    ensures
        match r {
            Some(k) => spec_decode_sort_key(c@) == Some(k@),
            None => spec_decode_sort_key(c@) is None,
        },
{
    match parse_tlv(c, 0) {
        None => None,
        Some((t1, a_s, a_l, n1)) => {
            if t1 != 0x04 {
                return None;
            }
            let ab = slice_subrange(c, a_s, a_s + a_l);
            match bytes_to_string(ab) {
                None => None,
                Some(attr) => {
                    match parse_tlv(c, n1) {
                        None => None,
                        Some((t2, c2s, c2l, n2)) => {
                            if t2 == 0x80 {
                                let rb = slice_subrange(c, c2s, c2s + c2l);
                                match bytes_to_string(rb) {
                                    None => None,
                                    Some(rule) => {
                                        match parse_tlv(c, n2) {
                                            None => None,
                                            Some((t3, c3s, c3l, n3)) => {
                                                if t3 == 0x81 && c3l == 1 && n3 == c.len() {
                                                    let rev = *slice_index_get(c, c3s) != 0;
                                                    Some(
                                                        SortKey {
                                                            attribute_type: attr,
                                                            ordering_rule: Some(rule),
                                                            reverse_order: rev,
                                                        },
                                                    )
                                                } else {
                                                    None
                                                }
                                            },
                                        }
                                    },
                                }
                            } else if t2 == 0x81 && c2l == 1 && n2 == c.len() {
                                let rev = *slice_index_get(c, c2s) != 0;
                                Some(
                                    SortKey {
                                        attribute_type: attr,
                                        ordering_rule: None,
                                        reverse_order: rev,
                                    },
                                )
                            } else {
                                None
                            }
                        },
                    }
                },
            }
        },
    }
}

/// Decodes a request control's value back into its sort key list, as a
/// server reading the control would.
pub fn decode_sort_request(val: &[u8]) -> (r: Result<Vec<SortKey>, Error>)
    ensures
        match r {
            Ok(keys) => spec_decode_sort_request(val@) == Some(keys_view(keys@)),
            Err(e) => spec_decode_sort_request(val@) is None && e is MalformedControl,
        },
{
    let outer = parse_tlv(val, 0);
    match outer {
        None => Err(malformed()),
        Some((tag, cs, cl, _next)) => {
            if tag != 0x30 {
                return Err(malformed());
            }
            let content = slice_subrange(val, cs, cs + cl);
            let mut keys: Vec<SortKey> = Vec::new();
            let mut pos: usize = 0;
            proof {
                if spec_decode_keys(content@, 0) is Some {
                    assert(keys_view(keys@) + spec_decode_keys(content@, 0)->0 =~= spec_decode_keys(
                        content@,
                        0,
                    )->0);
                }
            }
            loop
                invariant
                    pos <= content@.len(),
                    content@ == val@.subrange(cs as int, cs + cl),
                    spec_decode_sort_request(val@) == spec_decode_keys(content@, 0),
                    match spec_decode_keys(content@, pos as int) {
                        Some(rest) => spec_decode_keys(content@, 0) == Some(
                            keys_view(keys@) + rest,
                        ),
                        None => spec_decode_keys(content@, 0) is None,
                    },
                decreases content@.len() - pos,
            {
                if pos == content.len() {
                    proof {
                        assert(keys_view(keys@) + spec_decode_keys(content@, pos as int)->0
                            =~= keys_view(keys@));
                    }
                    return Ok(keys);
                }
                match parse_tlv(content, pos) {
                    None => {
                        return Err(malformed());
                    },
                    Some((t, kcs, kcl, next)) => {
                        if t != 0x30 {
                            return Err(malformed());
                        }
                        let kc = slice_subrange(content, kcs, kcs + kcl);
                        match decode_one_key(kc) {
                            None => {
                                return Err(malformed());
                            },
                            Some(k) => {
                                let ghost kv = k@;
                                let ghost old_keys = keys@;
                                keys.push(k);
                                proof {
                                    assert(keys_view(keys@) =~= keys_view(old_keys).push(kv));
                                    match spec_decode_keys(content@, next as int) {
                                        Some(rest) => {
                                            assert(keys_view(old_keys) + (seq![kv] + rest)
                                                =~= keys_view(keys@) + rest);
                                        },
                                        None => {},
                                    }
                                }
                                pos = next;
                            },
                        }
                    },
                }
            }
        },
    }
}


proof fn lemma_be_val_of_be_bytes(n: nat)
    ensures
        spec_be_val(spec_be_bytes(n)) == n,
    decreases n,
{
    if n > 0 {
        lemma_be_val_of_be_bytes(n / 256);
        assert(spec_be_bytes(n).drop_last() =~= spec_be_bytes(n / 256));
    }
}

/// Parsing reads back exactly the TLV element the encoder wrote,
/// wherever it stands in a larger buffer.
proof fn lemma_parse_tlv_encoding(b: Seq<u8>, i: int, tag: u8, content: Seq<u8>)
    requires
        0 <= i,
        content.len() < 0x1_0000_0000_0000_0000,
        i + spec_tlv(tag, content).len() <= b.len(),
        b.subrange(i, i + spec_tlv(tag, content).len()) == spec_tlv(tag, content),
    ensures
        spec_parse_tlv(b, i) == Some((tag, content, i + spec_tlv(tag, content).len())),
{
    let tlv = spec_tlv(tag, content);
    let lo = spec_len_octets(content.len());
    let tlvlen = tlv.len() as int;
    assert(tlv.len() == 1 + lo.len() + content.len());
    assert forall|k: int| 0 <= k < tlvlen implies b[i + k] == tlv[k] by {
        assert(b.subrange(i, i + tlvlen)[k] == b[i + k]);
    }
    assert(b[i + 0] == tlv[0]);
    assert(b[i] == tag);
    if content.len() < 128 {
        assert(lo =~= seq![content.len() as u8]);
        assert(b[i + 1] == tlv[1]);
        assert(tlv[1] == content.len() as u8);
        assert(spec_parse_len(b, i + 1) == Some((content.len(), i + 2)));
        assert(b.subrange(i + 2, i + 2 + content.len()) =~= content) by {
            assert forall|t: int|
                0 <= t < content.len() implies b.subrange(i + 2, i + 2 + content.len())[t]
                == content[t] by {
                assert(b[i + (2 + t)] == tlv[2 + t]);
                assert(b.subrange(i + 2, i + 2 + content.len())[t] == b[i + 2 + t]);
                assert(tlv[2 + t] == content[t]);
            }
        }
    } else {
        let be = spec_be_bytes(content.len());
        lemma_be_bytes_len(content.len());
        assert(be.len() >= 1);
        assert(lo =~= seq![(0x80 + be.len()) as u8] + be);
        assert(b[i + 1] == tlv[1]);
        assert(tlv[1] == (0x80 + be.len()) as u8);
        assert(b[i + 1] > 128);
        let cnt = (b[i + 1] - 128) as int;
        assert(cnt == be.len());
        assert(b.subrange(i + 2, i + 2 + cnt) =~= be) by {
            assert forall|t: int|
                0 <= t < cnt implies b.subrange(i + 2, i + 2 + cnt)[t] == be[t] by {
                assert(b[i + (2 + t)] == tlv[2 + t]);
                assert(b.subrange(i + 2, i + 2 + cnt)[t] == b[i + 2 + t]);
                assert(tlv[2 + t] == be[t]);
            }
        }
        lemma_be_val_of_be_bytes(content.len());
        assert(spec_parse_len(b, i + 1) == Some((content.len(), i + 2 + cnt)));
        assert(b.subrange(i + 2 + cnt, i + 2 + cnt + content.len()) =~= content) by {
            assert forall|t: int|
                0 <= t < content.len() implies b.subrange(
                i + 2 + cnt,
                i + 2 + cnt + content.len(),
            )[t] == content[t] by {
                assert(b[i + (2 + cnt + t)] == tlv[2 + cnt + t]);
                assert(b.subrange(i + 2 + cnt, i + 2 + cnt + content.len())[t] == b[i + 2 + cnt
                    + t]);
                assert(tlv[2 + cnt + t] == content[t]);
            }
        }
    }
}

/// Decoding reads back exactly the sort key whose content the
/// encoder wrote.
proof fn lemma_decode_key_encoding(k: (Seq<char>, Option<Seq<char>>, bool))
    requires
        spec_key_content(k).len() < 0x1_0000_0000_0000_0000,
    ensures
        spec_decode_sort_key(spec_key_content(k)) == Some(k),
{
    broadcast use vstd::utf8::encode_utf8_valid_utf8, vstd::utf8::encode_utf8_decode_utf8;

    let kc = spec_key_content(k);
    let a = encode_utf8(k.0);
    let atlv = spec_tlv(0x04, a);
    let rev = seq![if k.2 { 0xffu8 } else { 0x00u8 }];
    let rtlv = spec_tlv(0x81, rev);
    assert(a.len() <= atlv.len());
    match k.1 {
        None => {
            assert(kc =~= atlv + rtlv);
            assert(kc.subrange(0, atlv.len() as int) =~= atlv);
            lemma_parse_tlv_encoding(kc, 0, 0x04, a);
            let n1 = atlv.len() as int;
            assert(kc.subrange(n1, n1 + rtlv.len()) =~= rtlv);
            lemma_parse_tlv_encoding(kc, n1, 0x81, rev);
            assert(n1 + rtlv.len() == kc.len());
            assert(rev[0] != 0 <==> k.2);
            assert(spec_decode_sort_key(kc) == Some((decode_utf8(a), None::<Seq<char>>, k.2)));
        },
        Some(rule) => {
            let u = encode_utf8(rule);
            let utlv = spec_tlv(0x80, u);
            assert(u.len() <= utlv.len());
            assert(kc =~= atlv + utlv + rtlv);
            assert(kc.subrange(0, atlv.len() as int) =~= atlv);
            lemma_parse_tlv_encoding(kc, 0, 0x04, a);
            let n1 = atlv.len() as int;
            assert(kc.subrange(n1, n1 + utlv.len()) =~= utlv);
            lemma_parse_tlv_encoding(kc, n1, 0x80, u);
            let n2 = n1 + utlv.len() as int;
            assert(kc.subrange(n2, n2 + rtlv.len()) =~= rtlv);
            lemma_parse_tlv_encoding(kc, n2, 0x81, rev);
            assert(n2 + rtlv.len() == kc.len());
            assert(rev[0] != 0 <==> k.2);
            assert(spec_decode_sort_key(kc) == Some((decode_utf8(a), Some(decode_utf8(u)), k.2)));
        },
    }
}

/// The concatenated key encodings, decomposed at the front.
proof fn lemma_keys_content_first(kvs: Seq<(Seq<char>, Option<Seq<char>>, bool)>)
    requires
        kvs.len() >= 1,
    ensures
        spec_keys_content(kvs) == spec_encode_sort_key(kvs[0]) + spec_keys_content(
            kvs.drop_first(),
        ),
    decreases kvs.len(),
{
    if kvs.len() == 1 {
        assert(kvs.drop_last() =~= Seq::<(Seq<char>, Option<Seq<char>>, bool)>::empty());
        assert(kvs.drop_first() =~= Seq::<(Seq<char>, Option<Seq<char>>, bool)>::empty());
        assert(spec_keys_content(kvs) =~= spec_encode_sort_key(kvs[0]) + spec_keys_content(
            kvs.drop_first(),
        ));
    } else {
        lemma_keys_content_first(kvs.drop_last());
        assert(kvs.drop_last()[0] == kvs[0]);
        assert(kvs.drop_last().drop_first() =~= kvs.drop_first().drop_last());
        assert(kvs.drop_first().last() == kvs.last());
        assert(spec_keys_content(kvs) =~= spec_encode_sort_key(kvs[0]) + spec_keys_content(
            kvs.drop_first(),
        ));
    }
}

proof fn lemma_decode_keys_encoding(
    c: Seq<u8>,
    i: int,
    kvs: Seq<(Seq<char>, Option<Seq<char>>, bool)>,
)
    requires
        c.len() < 0x1_0000_0000_0000_0000,
        0 <= i <= c.len(),
        c.subrange(i, c.len() as int) == spec_keys_content(kvs),
    ensures
        spec_decode_keys(c, i) == Some(kvs),
    decreases kvs.len(),
{
    if kvs.len() == 0 {
        assert(spec_keys_content(kvs).len() == 0);
        assert(i == c.len());
        assert(kvs =~= Seq::<(Seq<char>, Option<Seq<char>>, bool)>::empty());
    } else {
        lemma_keys_content_first(kvs);
        let kc = spec_key_content(kvs[0]);
        let ktlv = spec_encode_sort_key(kvs[0]);
        assert(ktlv == spec_tlv(0x30, kc));
        assert(kc.len() <= ktlv.len());
        assert(ktlv.len() <= spec_keys_content(kvs).len());
        assert forall|t: int| 0 <= t < ktlv.len() implies c[i + t] == ktlv[t] by {
            assert(c.subrange(i, c.len() as int)[t] == c[i + t]);
            assert(spec_keys_content(kvs)[t] == ktlv[t]);
        }
        assert(c.subrange(i, i + ktlv.len()) =~= ktlv);
        lemma_parse_tlv_encoding(c, i, 0x30, kc);
        let next = i + ktlv.len() as int;
        lemma_decode_key_encoding(kvs[0]);
        assert(c.subrange(next, c.len() as int) =~= spec_keys_content(kvs.drop_first())) by {
            assert forall|t: int|
                0 <= t < c.len() - next implies c.subrange(next, c.len() as int)[t]
                == spec_keys_content(kvs.drop_first())[t] by {
                assert(c.subrange(i, c.len() as int)[ktlv.len() + t] == c[next + t]);
                assert(spec_keys_content(kvs)[ktlv.len() + t] == spec_keys_content(
                    kvs.drop_first(),
                )[t]);
            }
        }
        lemma_decode_keys_encoding(c, next, kvs.drop_first());
        assert(seq![kvs[0]] + kvs.drop_first() =~= kvs);
    }
}

/// Round trip: a request control's value decodes, on the server's
/// side, to exactly the sort keys it was encoded from — same count,
/// same attribute order, same rules and flags.
pub proof fn lemma_sort_request_round_trip(kvs: Seq<(Seq<char>, Option<Seq<char>>, bool)>)
    requires
        spec_encode_sort_request(kvs).len() < 0x1_0000_0000_0000_0000,
    ensures
        spec_decode_sort_request(spec_encode_sort_request(kvs)) == Some(kvs),
{
    let b = spec_encode_sort_request(kvs);
    let content = spec_keys_content(kvs);
    assert(content.len() <= b.len());
    assert(b.subrange(0, b.len() as int) =~= b);
    lemma_parse_tlv_encoding(b, 0, 0x30, content);
    assert(content.subrange(0, content.len() as int) =~= content);
    lemma_decode_keys_encoding(content, 0, kvs);
}

} // verus!
