//! The adapter pipeline: protocol-extension adapters composed, in
//! order, onto one logical search.
//!
//! Adapters rewrite the outgoing request in chain order, and at most
//! one paging adapter and one sort adapter may stand in a chain; a
//! duplicate, or a clash with a pre-attached control, is a
//! construction error found before any request is dispatched.  The
//! paged-results driver below is the decision core of RFC 2696 paging:
//! it shows that the caller-visible entry sequence is unbroken by page
//! boundaries and counts exactly the continuation requests paging
//! needs.

use vstd::prelude::*;
use vstd::arithmetic::div_mod::lemma_fundamental_div_mod_converse;
use vstd::string::StringExecFns;

use crate::simple_dn::str_eq;
use crate::sort::adapter::{
    request_keys, DuplicateSortAttributes, ServerSideSort, SortBy,
};
use crate::sort::control::spec_encode_sort_request;
use crate::sort::SERVER_SIDE_SORT_REQUEST_OID;
use crate::{Attr, Control, Entry, Error};

verus! {

/// OID of the RFC 2696 paged-results control.
pub const PAGED_RESULTS_OID: &'static str = "1.2.840.113556.1.4.319";

/// One adapter of a chain.
pub enum AdapterConf {
    /// Forward search entries only, dropping referrals and
    /// intermediate messages.
    EntriesOnly,
    /// Fetch results page by page, transparently to the caller.
    PagedResults { page_size: u32 },
    /// Have the server sort the results.
    Sort(ServerSideSort),
}

/// What one adapter attaches to the outgoing request: OID, criticality
/// and value of each control, in order.  The paged control's value is
/// rebuilt by the transport on every page from the current cookie, so
/// it carries no fixed value here.
pub open spec fn spec_adapter_controls(a: AdapterConf) -> Seq<(Seq<char>, bool, Option<Seq<u8>>)> {
    match a {
        AdapterConf::EntriesOnly => Seq::<(Seq<char>, bool, Option<Seq<u8>>)>::empty(),
        AdapterConf::PagedResults { page_size } => seq![
            (PAGED_RESULTS_OID@, false, None::<Seq<u8>>),
        ],
        AdapterConf::Sort(s) => seq![
            (
                SERVER_SIDE_SORT_REQUEST_OID@,
                true,
                Some(spec_encode_sort_request(request_keys(s@))),
            ),
        ],
    }
}

/// The controls a chain attaches, walked in chain order over the OIDs
/// already present; an adapter whose control is already present makes
/// the whole chain refuse to start.
pub open spec fn spec_chain_attach(chain: Seq<AdapterConf>, present: Seq<Seq<char>>) -> Option<
    Seq<(Seq<char>, bool, Option<Seq<u8>>)>,
>
    decreases chain.len(),
{
    if chain.len() == 0 {
        Some(Seq::<(Seq<char>, bool, Option<Seq<u8>>)>::empty())
    } else {
        let head = spec_adapter_controls(chain[0]);
        let rest = chain.drop_first();
        if head.len() == 0 {
            spec_chain_attach(rest, present)
        } else {
            let oid = head[0].0;
            if present.contains(oid) {
                None
            } else {
                match spec_chain_attach(rest, present.push(oid)) {
                    None => None,
                    Some(t) => Some(head + t),
                }
            }
        }
    }
}

/// The OIDs of a control list.
pub open spec fn oids_of(cs: Seq<Control>) -> Seq<Seq<char>> {
    Seq::new(cs.len(), |i: int| cs[i].oid@)
}

/// The views of a control list.
pub open spec fn controls_view(cs: Seq<Control>) -> Seq<(Seq<char>, bool, Option<Seq<u8>>)> {
    Seq::new(
        cs.len(),
        |i: int|
            (
                cs[i].oid@,
                cs[i].critical,
                match cs[i].value {
                    Some(v) => Some(v@),
                    None => None::<Seq<u8>>,
                },
            ),
    )
}

/// True when one of `v`'s views equals `oid`.
fn oids_contain(v: &Vec<String>, oid: &str) -> (r: bool)
    ensures
        r == Seq::new(v@.len(), |i: int| v@[i]@).contains(oid@),
{
    let ghost views = Seq::new(v@.len(), |i: int| v@[i]@);
    let mut i: usize = 0;
    while i < v.len()
        invariant
            i <= v@.len(),
            views == Seq::new(v@.len(), |k: int| v@[k]@),
            forall|k: int| 0 <= k < i ==> views[k] != oid@,
        decreases v@.len() - i,
    {
        if str_eq(v[i].as_str(), oid) {
            proof {
                assert(views[i as int] == oid@);
            }
            return true;
        }
        i = i + 1;
    }
    proof {
        if views.contains(oid@) {
            let w = choose|w: int| 0 <= w < views.len() && views[w] == oid@;
            assert(false);
        }
    }
    false
}

/// An ordered chain of adapters wrapped onto one search.
pub struct AdapterChain {
    adapters: Vec<AdapterConf>,
}

impl View for AdapterChain {
    type V = Seq<AdapterConf>;

    closed spec fn view(&self) -> Seq<AdapterConf> {
        self.adapters@
    }
}

impl AdapterChain {
    /// Composes the given adapters, in order.
    pub fn new(adapters: Vec<AdapterConf>) -> (r: Self)
        ensures
            r@ == adapters@,
    {
        AdapterChain { adapters }
    }

    /// The request-side pass: every adapter, in chain order, attaches
    /// the controls it is responsible for.  Returns the controls to
    /// attach, or a conflict error when an adapter's control is
    /// already on the request (whether pre-attached by the caller or
    /// attached by an earlier adapter of this chain).
    pub fn start(&self, existing: &Vec<Control>) -> (r: Result<Vec<Control>, Error>)
        ensures
            match r {
                Ok(out) => spec_chain_attach(self@, oids_of(existing@)) == Some(
                    controls_view(out@),
                ),
                Err(e) => spec_chain_attach(self@, oids_of(existing@)) is None && e
                    is ControlConflict,
            },
    {
        let mut present: Vec<String> = Vec::new();
        let mut i: usize = 0;
        while i < existing.len()
            invariant
                i <= existing@.len(),
                present@.len() == i,
                forall|k: int| 0 <= k < i ==> #[trigger] present@[k]@ == existing@[k].oid@,
            decreases existing@.len() - i,
        {
            present.push(existing[i].oid.clone());
            i = i + 1;
        }
        proof {
            assert(Seq::new(present@.len(), |k: int| present@[k]@) =~= oids_of(existing@));
        }
        let mut out: Vec<Control> = Vec::new();
        let mut j: usize = 0;
        proof {
            assert(self@.skip(0) =~= self@);
            if spec_chain_attach(self@, oids_of(existing@)) is Some {
                assert(controls_view(out@) + spec_chain_attach(self@, oids_of(existing@))->0
                    =~= spec_chain_attach(self@, oids_of(existing@))->0);
            }
        }
        while j < self.adapters.len()
            invariant
                j <= self.adapters@.len(),
                self@ == self.adapters@,
                match spec_chain_attach(
                    self@.skip(j as int),
                    Seq::new(present@.len(), |k: int| present@[k]@),
                ) {
                    Some(t) => spec_chain_attach(self@, oids_of(existing@)) == Some(
                        controls_view(out@) + t,
                    ),
                    None => spec_chain_attach(self@, oids_of(existing@)) is None,
                },
            decreases self.adapters@.len() - j,
        {
            let ghost pviews = Seq::new(present@.len(), |k: int| present@[k]@);
            let ghost suffix = self@.skip(j as int);
            proof {
                assert(suffix[0] == self@[j as int]);
                assert(suffix.drop_first() =~= self@.skip(j + 1));
            }
            match &self.adapters[j] {
                AdapterConf::EntriesOnly => {},
                AdapterConf::PagedResults { page_size } => {
                    if oids_contain(&present, PAGED_RESULTS_OID) {
                        return Err(
                            Error::ControlConflict(
                                String::from_str("found paged results control in op set already"),
                            ),
                        );
                    }
                    let ghost old_out = out@;
                    out.push(
                        Control {
                            oid: String::from_str(PAGED_RESULTS_OID),
                            critical: false,
                            value: None,
                        },
                    );
                    present.push(String::from_str(PAGED_RESULTS_OID));
                    proof {
                        assert(Seq::new(present@.len(), |k: int| present@[k]@) =~= pviews.push(
                            PAGED_RESULTS_OID@,
                        ));
                        assert(controls_view(out@) =~= controls_view(old_out) + spec_adapter_controls(
                            self@[j as int],
                        ));
                        match spec_chain_attach(self@.skip(j + 1), pviews.push(PAGED_RESULTS_OID@)) {
                            Some(t) => {
                                assert(controls_view(old_out) + (spec_adapter_controls(
                                    self@[j as int],
                                ) + t) =~= controls_view(out@) + t);
                            },
                            None => {},
                        }
                    }
                },
                AdapterConf::Sort(s) => {
                    if oids_contain(&present, SERVER_SIDE_SORT_REQUEST_OID) {
                        return Err(
                            Error::ControlConflict(
                                String::from_str(
                                    "found Server Side Sort control in op set already",
                                ),
                            ),
                        );
                    }
                    let ghost old_out = out@;
                    let mut scratch: Vec<Control> = Vec::new();
                    let built = s.start_control(&scratch);
                    match built {
                        Ok(c) => {
                            out.push(c);
                            present.push(String::from_str(SERVER_SIDE_SORT_REQUEST_OID));
                            proof {
                                assert(Seq::new(present@.len(), |k: int| present@[k]@)
                                    =~= pviews.push(SERVER_SIDE_SORT_REQUEST_OID@));
                                assert(controls_view(out@) =~= controls_view(old_out)
                                    + spec_adapter_controls(self@[j as int]));
                                match spec_chain_attach(
                                    self@.skip(j + 1),
                                    pviews.push(SERVER_SIDE_SORT_REQUEST_OID@),
                                ) {
                                    Some(t) => {
                                        assert(controls_view(old_out) + (spec_adapter_controls(
                                            self@[j as int],
                                        ) + t) =~= controls_view(out@) + t);
                                    },
                                    None => {},
                                }
                            }
                        },
                        Err(_) => {
                            // `start_control` cannot conflict with an empty list.
                            proof {
                                assert(false);
                            }
                        },
                    }
                },
            }
            j = j + 1;
        }
        proof {
            assert(self@.skip(self.adapters@.len() as int) =~= Seq::<AdapterConf>::empty());
            assert(controls_view(out@) + Seq::<(Seq<char>, bool, Option<Seq<u8>>)>::empty()
                =~= controls_view(out@));
        }
        Ok(out)
    }
}

/// True when a sort adapter stands in the chain.
pub open spec fn spec_chain_has_sort(chain: Seq<AdapterConf>) -> bool {
    exists|i: int| 0 <= i < chain.len() && (#[trigger] chain[i]) is Sort
}

impl AdapterChain {
    /// The response-side pass for one entry: each adapter inspects
    /// the interim result's controls for its own extension.  Only the
    /// sort adapter validates per-entry controls; paging continuation
    /// is driven separately.
    pub fn check_entry(&self, controls: &Vec<Control>) -> (r: Result<(), Error>)
        ensures
            !spec_chain_has_sort(self@) ==> r is Ok,
            spec_chain_has_sort(self@) ==> match crate::sort::adapter::find_control(
                controls@,
                crate::sort::SERVER_SIDE_SORT_RESPONSE_OID@,
            ) {
                None => r is Ok,
                Some(i) => match controls@[i].value {
                    None => r is Ok,
                    Some(v) => match crate::sort::control::spec_decode_sort_response(v@) {
                        None => (r matches Err(e) && e is MalformedControl),
                        Some(resp) => {
                            if resp.0 is Success {
                                r is Ok
                            } else {
                                (r matches Err(e) && e is SortRejected)
                            }
                        },
                    },
                },
            },
    {
        let mut i: usize = 0;
        while i < self.adapters.len()
            invariant
                i <= self.adapters@.len(),
                self@ == self.adapters@,
                forall|k: int| 0 <= k < i ==> !((#[trigger] self@[k]) is Sort),
            decreases self.adapters@.len() - i,
        {
            match &self.adapters[i] {
                AdapterConf::Sort(_) => {
                    return ServerSideSort::validate_entry_controls(controls);
                },
                _ => {},
            }
            i = i + 1;
        }
        Ok(())
    }
}

/// Builds the adapter chain for one streaming search: entries-only
/// always; paging exactly when a non-zero page size is asked for; the
/// sort adapter exactly when sort keys are given, rejecting duplicate
/// sort attributes before any I/O.
pub fn plan_search(sort_keys: Vec<SortBy>, page_size: u32) -> (r: Result<
    AdapterChain,
    DuplicateSortAttributes,
>)
    ensures
        match r {
            Ok(chain) => {
                &&& chain@.len() == 1 + (if page_size > 0 {
                    1int
                } else {
                    0int
                }) + (if sort_keys@.len() > 0 {
                    1int
                } else {
                    0int
                })
                &&& chain@[0] is EntriesOnly
                &&& (page_size > 0 ==> (chain@[1] matches AdapterConf::PagedResults {
                    page_size: p,
                } && p == page_size))
                &&& (sort_keys@.len() > 0 ==> (chain@.last() matches AdapterConf::Sort(s) && s@
                    == crate::sort::adapter::sorts_view(sort_keys@)))
                &&& crate::sort::adapter::spec_duplicates(
                    crate::sort::adapter::attrs_of(
                        crate::sort::adapter::sorts_view(sort_keys@),
                    ),
                ).len() == 0 || sort_keys@.len() == 0
            },
            Err(_) => crate::sort::adapter::spec_duplicates(
                crate::sort::adapter::attrs_of(crate::sort::adapter::sorts_view(sort_keys@)),
            ).len() > 0,
        },
{
    let mut adapters: Vec<AdapterConf> = Vec::new();
    adapters.push(AdapterConf::EntriesOnly);
    if page_size > 0 {
        adapters.push(AdapterConf::PagedResults { page_size });
    }
    if sort_keys.len() > 0 {
        match ServerSideSort::new(sort_keys) {
            Ok(sorter) => {
                adapters.push(AdapterConf::Sort(sorter));
            },
            Err(e) => {
                return Err(e);
            },
        }
    }
    Ok(AdapterChain::new(adapters))
}

/// What a run of a paged search produced: the entries the caller saw,
/// in order, and how many continuation requests were made.
pub struct PagedOutcome<T> {
    pub entries: Vec<T>,
    pub continuations: usize,
}

/// Runs the paged-results driver against a result set: items are
/// served page by page, a continuation request is issued exactly while
/// the server's cookie is non-empty, and the caller sees the whole set
/// in order, unbroken by page boundaries.  The number of continuation
/// requests is exactly `ceil(n / page_size) - 1` for a non-empty
/// result set of `n` items.
pub fn run_paged_search<T>(all: Vec<T>, page_size: usize) -> (r: PagedOutcome<T>)
    requires
        page_size >= 1,
    ensures
        r.entries@ == all@,
        all@.len() == 0 ==> r.continuations == 0,
        all@.len() > 0 ==> r.continuations == (all@.len() + page_size - 1) / (page_size as int)
            - 1,
{
    let ghost orig = all@;
    let mut remaining = all;
    let mut entries: Vec<T> = Vec::new();
    let mut continuations: usize = 0;
    loop
        invariant_except_break
            continuations * page_size == entries@.len(),
            remaining@.len() > 0 || (entries@.len() == 0 && continuations == 0),
        invariant
            page_size >= 1,
            entries@ + remaining@ =~= orig,
        ensures
            remaining@.len() == 0,
            orig.len() == 0 ==> continuations == 0,
            orig.len() > 0 ==> continuations * page_size < orig.len() && orig.len()
                <= continuations * page_size + page_size,
        decreases remaining@.len(),
    {
        // Serve one page.
        let ghost head_remaining = remaining@;
        let mut count: usize = 0;
        while count < page_size && remaining.len() > 0
            invariant
                count <= page_size,
                entries@ + remaining@ =~= orig,
                entries@.len() == continuations * page_size + count,
                count == 0 ==> remaining@ == head_remaining,
            decreases page_size - count,
        {
            let item = remaining.remove(0);
            entries.push(item);
            count = count + 1;
        }
        if remaining.len() == 0 {
            // The server sent an empty cookie: the set is exhausted.
            proof {
                if orig.len() > 0 {
                    assert(head_remaining.len() > 0);
                    assert(count >= 1);
                }
            }
            break;
        }
        // A non-empty cookie came back: issue a continuation request.
        proof {
            assert(count == page_size);
            assert(entries@.len() < orig.len());
            assert((continuations as int) < (continuations as int) * (page_size as int) + (
            page_size as int)) by (nonlinear_arith)
                requires
                    page_size >= 1,
                    continuations >= 0,
            ;
            assert(continuations < orig.len());
        }
        let elen: usize = entries.len();
        proof {
            assert(continuations < elen);
        }
        continuations = continuations + 1;
        proof {
            assert((continuations as int) * (page_size as int) == (continuations as int - 1) * (
            page_size as int) + (page_size as int)) by (nonlinear_arith);
            assert(continuations * page_size == entries@.len());
        }
    }
    proof {
        assert(entries@ =~= orig);
        let n = orig.len() as int;
        let p = page_size as int;
        let c = continuations as int;
        if n > 0 {
            let served = n - c * p;
            assert(1 <= served <= p);
            assert(n + p - 1 == (c + 1) * p + (served - 1)) by (nonlinear_arith)
                requires
                    served == n - c * p,
            ;
            lemma_fundamental_div_mod_converse(n + p - 1, p, c + 1, served - 1);
        }
    }
    PagedOutcome { entries, continuations }
}

/// The smallest index of an attribute with the given name, if any.
pub open spec fn find_attr(attrs: Seq<Attr>, name: Seq<char>) -> Option<int>
    decreases attrs.len(),
{
    if attrs.len() == 0 {
        None
    } else if attrs[0].name@ == name {
        Some(0)
    } else {
        match find_attr(attrs.drop_first(), name) {
            None => None,
            Some(i) => Some(i + 1),
        }
    }
}

/// The key an entry sorts under for an attribute: the first value of
/// its first attribute of that name, or the empty string when the
/// entry has none.
pub open spec fn spec_entry_key(e: Entry, name: Seq<char>) -> Seq<char> {
    match find_attr(e.attrs@, name) {
        None => Seq::<char>::empty(),
        Some(i) => {
            if e.attrs@[i].values@.len() > 0 {
                e.attrs@[i].values@[0]@
            } else {
                Seq::<char>::empty()
            }
        },
    }
}

/// Lexicographic order on strings, by code point.
pub open spec fn spec_chars_le(a: Seq<char>, b: Seq<char>) -> bool
    decreases a.len(),
{
    if a.len() == 0 {
        true
    } else if b.len() == 0 {
        false
    } else if a[0] == b[0] {
        spec_chars_le(a.drop_first(), b.drop_first())
    } else {
        (a[0] as u32) < (b[0] as u32)
    }
}

/// Whether a result sequence is sorted on an attribute: ascending
/// means every entry's key is at most the next one's; descending
/// compares the other way around.
pub open spec fn spec_sorted_by(es: Seq<Entry>, name: Seq<char>, reverse: bool) -> bool {
    forall|i: int| #![trigger es[i]]
        0 <= i < es.len() - 1 ==> (if reverse {
            spec_chars_le(spec_entry_key(es[i + 1], name), spec_entry_key(es[i], name))
        } else {
            spec_chars_le(spec_entry_key(es[i], name), spec_entry_key(es[i + 1], name))
        })
}

proof fn lemma_find_attr_at(attrs: Seq<Attr>, name: Seq<char>, i: int)
    requires
        0 <= i < attrs.len(),
        attrs[i].name@ == name,
        forall|k: int| 0 <= k < i ==> #[trigger] attrs[k].name@ != name,
    ensures
        find_attr(attrs, name) == Some(i),
    decreases attrs.len(),
{
    if i > 0 {
        lemma_find_attr_at(attrs.drop_first(), name, i - 1);
    }
}

proof fn lemma_find_attr_none(attrs: Seq<Attr>, name: Seq<char>)
    requires
        forall|k: int| 0 <= k < attrs.len() ==> #[trigger] attrs[k].name@ != name,
    ensures
        find_attr(attrs, name) is None,
    decreases attrs.len(),
{
    if attrs.len() > 0 {
        lemma_find_attr_none(attrs.drop_first(), name);
    }
}

impl Entry {
    /// The first value of the entry's first attribute of the given
    /// name, or the empty string when there is none.
    pub fn sort_key_for(&self, name: &str) -> (r: &str)
        ensures
            r@ == spec_entry_key(*self, name@),
    {
        let mut i: usize = 0;
        while i < self.attrs.len()
            invariant
                i <= self.attrs@.len(),
                forall|k: int| 0 <= k < i ==> #[trigger] self.attrs@[k].name@ != name@,
            decreases self.attrs@.len() - i,
        {
            if str_eq(self.attrs[i].name.as_str(), name) {
                proof {
                    lemma_find_attr_at(self.attrs@, name@, i as int);
                }
                if self.attrs[i].values.len() > 0 {
                    return self.attrs[i].values[0].as_str();
                } else {
                    let r = "";
                    proof {
                        reveal_strlit("");
                        assert(r@ =~= spec_entry_key(*self, name@));
                    }
                    return r;
                }
            }
            i = i + 1;
        }
        proof {
            lemma_find_attr_none(self.attrs@, name@);
        }
        let r = "";
        proof {
            reveal_strlit("");
            assert(r@ =~= spec_entry_key(*self, name@));
        }
        r
    }
}

/// Lexicographic comparison of two strings, by code point.
pub fn chars_le(a: &str, b: &str) -> (r: bool)
    ensures
        r == spec_chars_le(a@, b@),
{
    let alen = a.unicode_len();
    let blen = b.unicode_len();
    let mut i: usize = 0;
    proof {
        assert(a@.skip(0) =~= a@);
        assert(b@.skip(0) =~= b@);
    }
    while i < alen && i < blen
        invariant
            alen == a@.len(),
            blen == b@.len(),
            i <= alen,
            i <= blen,
            spec_chars_le(a@, b@) == spec_chars_le(a@.skip(i as int), b@.skip(i as int)),
        decreases alen - i,
    {
        let ca = a.get_char(i);
        let cb = b.get_char(i);
        proof {
            assert(a@.skip(i as int)[0] == a@[i as int]);
            assert(b@.skip(i as int)[0] == b@[i as int]);
            assert(a@.skip(i as int).drop_first() =~= a@.skip(i + 1));
            assert(b@.skip(i as int).drop_first() =~= b@.skip(i + 1));
        }
        if ca != cb {
            return (ca as u32) < (cb as u32);
        }
        i = i + 1;
    }
    proof {
        if i == alen {
            assert(a@.skip(i as int).len() == 0);
        } else {
            assert(b@.skip(i as int).len() == 0);
            assert(a@.skip(i as int).len() > 0);
        }
    }
    i == alen
}

/// Checks that a result sequence is sorted on an attribute, ascending
/// or, with `reverse`, descending.
pub fn is_sorted_by(entries: &Vec<Entry>, name: &str, reverse: bool) -> (r: bool)
    ensures
        r == spec_sorted_by(entries@, name@, reverse),
{
    if entries.len() == 0 {
        return true;
    }
    let n = entries.len();
    let mut i: usize = 0;
    while i + 1 < n
        invariant
            n == entries@.len(),
            i < entries@.len(),
            forall|k: int| #![trigger entries@[k]]
                0 <= k < i ==> (if reverse {
                    spec_chars_le(
                        spec_entry_key(entries@[k + 1], name@),
                        spec_entry_key(entries@[k], name@),
                    )
                } else {
                    spec_chars_le(
                        spec_entry_key(entries@[k], name@),
                        spec_entry_key(entries@[k + 1], name@),
                    )
                }),
        decreases entries@.len() - i,
    {
        let ka = entries[i].sort_key_for(name);
        let kb = entries[i + 1].sort_key_for(name);
        let ok = if reverse {
            chars_le(kb, ka)
        } else {
            chars_le(ka, kb)
        };
        if !ok {
            return false;
        }
        i = i + 1;
    }
    true
}

/// A sequence is sorted descending on an attribute exactly when its
/// reversal is sorted ascending on it.
pub proof fn lemma_sorted_desc_iff_reverse_asc(es: Seq<Entry>, name: Seq<char>)
    ensures
        spec_sorted_by(es, name, true) <==> spec_sorted_by(es.reverse(), name, false),
{
    let rev = es.reverse();
    if spec_sorted_by(es, name, true) {
        assert forall|i: int| 0 <= i < rev.len() - 1 implies spec_chars_le(
            spec_entry_key(#[trigger] rev[i], name),
            spec_entry_key(rev[i + 1], name),
        ) by {
            let j = es.len() - 2 - i;
            assert(rev[i] == es[es.len() - 1 - i]);
            assert(rev[i + 1] == es[j]);
            assert(spec_chars_le(spec_entry_key(es[j + 1], name), spec_entry_key(es[j], name)));
        }
    }
    if spec_sorted_by(rev, name, false) {
        assert forall|i: int| 0 <= i < es.len() - 1 implies spec_chars_le(
            spec_entry_key(es[i + 1], name),
            spec_entry_key(#[trigger] es[i], name),
        ) by {
            let j = es.len() - 2 - i;
            assert(rev[j] == es[i + 1]);
            assert(rev[j + 1] == es[i]);
            assert(spec_chars_le(spec_entry_key(rev[j], name), spec_entry_key(rev[j + 1], name)));
        }
    }
}


/// The string order is reflexive.
pub proof fn lemma_chars_le_refl(a: Seq<char>)
    ensures
        spec_chars_le(a, a),
    decreases a.len(),
{
    if a.len() > 0 {
        lemma_chars_le_refl(a.drop_first());
    }
}

/// The string order is total: two strings compare one way or the other.
pub proof fn lemma_chars_le_total(a: Seq<char>, b: Seq<char>)
    ensures
        spec_chars_le(a, b) || spec_chars_le(b, a),
    decreases a.len(),
{
    if a.len() > 0 && b.len() > 0 {
        if a[0] == b[0] {
            lemma_chars_le_total(a.drop_first(), b.drop_first());
        } else {
            if a[0] as u32 == b[0] as u32 {
                vstd::utf8::char_u32_cast(a[0], a[0] as u32);
                vstd::utf8::char_u32_cast(b[0], b[0] as u32);
            }
            assert((a[0] as u32) < (b[0] as u32) || (b[0] as u32) < (a[0] as u32));
        }
    }
}

/// The string order is antisymmetric: strings below each other are equal.
pub proof fn lemma_chars_le_antisym(a: Seq<char>, b: Seq<char>)
    requires
        spec_chars_le(a, b),
        spec_chars_le(b, a),
    ensures
        a == b,
    decreases a.len(),
{
    if a.len() > 0 {
        lemma_chars_le_antisym(a.drop_first(), b.drop_first());
        assert(a =~= seq![a[0]] + a.drop_first());
        assert(b =~= seq![b[0]] + b.drop_first());
    } else {
        assert(b.len() == 0);
        assert(a =~= b);
    }
}

/// The string order is transitive.
pub proof fn lemma_chars_le_trans(a: Seq<char>, b: Seq<char>, c: Seq<char>)
    requires
        spec_chars_le(a, b),
        spec_chars_le(b, c),
    ensures
        spec_chars_le(a, c),
    decreases a.len(),
{
    if a.len() > 0 && b.len() > 0 && c.len() > 0 {
        if a[0] == b[0] && b[0] == c[0] {
            lemma_chars_le_trans(a.drop_first(), b.drop_first(), c.drop_first());
        }
    }
}


proof fn lemma_sorted_global(es: Seq<Entry>, name: Seq<char>, reverse: bool, i: int, j: int)
    requires
        spec_sorted_by(es, name, reverse),
        0 <= i <= j < es.len(),
    ensures
        if reverse {
            spec_chars_le(spec_entry_key(es[j], name), spec_entry_key(es[i], name))
        } else {
            spec_chars_le(spec_entry_key(es[i], name), spec_entry_key(es[j], name))
        },
    decreases j - i,
{
    if i == j {
        lemma_chars_le_refl(spec_entry_key(es[i], name));
    } else {
        lemma_sorted_global(es, name, reverse, i + 1, j);
        if reverse {
            lemma_chars_le_trans(
                spec_entry_key(es[j], name),
                spec_entry_key(es[i + 1], name),
                spec_entry_key(es[i], name),
            );
        } else {
            lemma_chars_le_trans(
                spec_entry_key(es[i], name),
                spec_entry_key(es[i + 1], name),
                spec_entry_key(es[j], name),
            );
        }
    }
}

/// For one result set with pairwise distinct sort keys, the
/// descending order is exactly the reverse of the ascending order.
pub proof fn lemma_desc_is_reverse_of_asc(asc: Seq<Entry>, desc: Seq<Entry>, name: Seq<char>)
    requires
        spec_sorted_by(asc, name, false),
        spec_sorted_by(desc, name, true),
        asc.to_multiset() == desc.to_multiset(),
        forall|i: int, j: int|
            0 <= i < j < asc.len() ==> spec_entry_key(#[trigger] asc[i], name) != spec_entry_key(
                #[trigger] asc[j],
                name,
            ),
    ensures
        desc == asc.reverse(),
    decreases asc.len(),
{
    broadcast use vstd::seq_lib::group_to_multiset_ensures;

    assert(asc.to_multiset().len() == asc.len());
    assert(desc.to_multiset().len() == desc.len());
    let n = asc.len() as int;
    if n == 0 {
        assert(desc =~= asc.reverse());
    } else {
        // The first entry of the descending order is the last of the
        // ascending one: both carry the maximal key, and keys are
        // pairwise distinct.
        assert(desc.contains(desc[0]));
        assert(asc.to_multiset().count(desc[0]) > 0);
        assert(asc.contains(desc[0]));
        let w = choose|w: int| 0 <= w < n && asc[w] == desc[0];
        assert(asc.contains(asc[n - 1]));
        assert(desc.to_multiset().count(asc[n - 1]) > 0);
        assert(desc.contains(asc[n - 1]));
        let v = choose|v: int| 0 <= v < n && desc[v] == asc[n - 1];
        lemma_sorted_global(asc, name, false, w, n - 1);
        lemma_sorted_global(desc, name, true, 0, v);
        lemma_chars_le_antisym(
            spec_entry_key(asc[w], name),
            spec_entry_key(asc[n - 1], name),
        );
        assert(w == n - 1);
        assert(desc[0] == asc[n - 1]);

        let asc2 = asc.drop_last();
        let desc2 = desc.drop_first();
        assert(asc.remove(n - 1) =~= asc2);
        assert(desc.remove(0) =~= desc2);
        assert(asc2.to_multiset() =~= asc.to_multiset().remove(asc[n - 1]));
        assert(desc2.to_multiset() =~= desc.to_multiset().remove(desc[0]));
        assert(asc2.to_multiset() == desc2.to_multiset());
        assert(spec_sorted_by(asc2, name, false)) by {
            assert forall|i: int| #![trigger asc2[i]]
                0 <= i < asc2.len() - 1 implies spec_chars_le(
                spec_entry_key(asc2[i], name),
                spec_entry_key(asc2[i + 1], name),
            ) by {
                assert(asc2[i] == asc[i]);
                assert(asc2[i + 1] == asc[i + 1]);
            }
        }
        assert(spec_sorted_by(desc2, name, true)) by {
            assert forall|i: int| #![trigger desc2[i]]
                0 <= i < desc2.len() - 1 implies spec_chars_le(
                spec_entry_key(desc2[i + 1], name),
                spec_entry_key(desc2[i], name),
            ) by {
                assert(desc2[i] == desc[i + 1]);
                assert(desc2[i + 1] == desc[i + 2]);
            }
        }
        assert forall|i: int, j: int|
            0 <= i < j < asc2.len() implies spec_entry_key(#[trigger] asc2[i], name)
            != spec_entry_key(#[trigger] asc2[j], name) by {
            assert(asc2[i] == asc[i]);
            assert(asc2[j] == asc[j]);
        }
        lemma_desc_is_reverse_of_asc(asc2, desc2, name);
        assert(desc =~= asc.reverse()) by {
            assert forall|i: int| 0 <= i < n implies desc[i] == asc.reverse()[i] by {
                if i == 0 {
                    assert(desc[0] == asc[n - 1]);
                } else {
                    assert(desc[i] == desc2[i - 1]);
                    assert(desc2[i - 1] == asc2.reverse()[i - 1]);
                    assert(asc2.reverse()[i - 1] == asc2[asc2.len() - 1 - (i - 1)]);
                    assert(asc2[n - 1 - i] == asc[n - 1 - i]);
                }
            }
        }
    }
}


/// The control OID an adapter attaches, if it attaches one.
pub open spec fn adapter_oid(a: AdapterConf) -> Option<Seq<char>> {
    match a {
        AdapterConf::EntriesOnly => None,
        AdapterConf::PagedResults { page_size } => Some(PAGED_RESULTS_OID@),
        AdapterConf::Sort(s) => Some(SERVER_SIDE_SORT_REQUEST_OID@),
    }
}

/// How many adapters of a chain attach a control with this OID.
pub open spec fn count_oid(chain: Seq<AdapterConf>, oid: Seq<char>) -> int
    decreases chain.len(),
{
    if chain.len() == 0 {
        0
    } else {
        (if adapter_oid(chain[0]) == Some(oid) {
            1int
        } else {
            0int
        }) + count_oid(chain.drop_first(), oid)
    }
}

/// How often an OID is present, counting the request's own controls
/// as one occurrence.
pub open spec fn occurrences(chain: Seq<AdapterConf>, present: Seq<Seq<char>>, oid: Seq<char>) -> int {
    count_oid(chain, oid) + if present.contains(oid) {
        1int
    } else {
        0int
    }
}

proof fn lemma_count_oid_nonneg(chain: Seq<AdapterConf>, oid: Seq<char>)
    ensures
        count_oid(chain, oid) >= 0,
    decreases chain.len(),
{
    if chain.len() > 0 {
        lemma_count_oid_nonneg(chain.drop_first(), oid);
    }
}

/// When a chain starts: exactly when neither protocol extension —
/// paging or server-side sort — is asked for twice, whether by two
/// adapters or by an adapter and a pre-attached control.
pub proof fn lemma_chain_start_condition(chain: Seq<AdapterConf>, present: Seq<Seq<char>>)
    ensures
        spec_chain_attach(chain, present) is Some <==> (occurrences(
            chain,
            present,
            PAGED_RESULTS_OID@,
        ) <= 1 && occurrences(chain, present, SERVER_SIDE_SORT_REQUEST_OID@) <= 1),
    decreases chain.len(),
{
    reveal_strlit("1.2.840.113556.1.4.319");
    reveal_strlit("1.2.840.113556.1.4.473");
    let paged = PAGED_RESULTS_OID@;
    let sss = SERVER_SIDE_SORT_REQUEST_OID@;
    assert(paged[21] != sss[21]);
    assert(paged != sss);
    lemma_count_oid_nonneg(chain, paged);
    lemma_count_oid_nonneg(chain, sss);
    if chain.len() > 0 {
        lemma_count_oid_nonneg(chain.drop_first(), paged);
        lemma_count_oid_nonneg(chain.drop_first(), sss);
    }
    if chain.len() > 0 {
        let rest = chain.drop_first();
        match chain[0] {
            AdapterConf::EntriesOnly => {
                lemma_chain_start_condition(rest, present);
            },
            AdapterConf::PagedResults { page_size } => {
                if present.contains(paged) {
                    assert(occurrences(chain, present, paged) >= 2);
                } else {
                    let present2 = present.push(paged);
                    lemma_chain_start_condition(rest, present2);
                    assert(present2.contains(paged)) by {
                        assert(present2[present.len() as int] == paged);
                    }
                    assert(present2.contains(sss) == present.contains(sss)) by {
                        if present.contains(sss) {
                            let w = choose|w: int|
                                0 <= w < present.len() && present[w] == sss;
                            assert(present2[w] == sss);
                        }
                        if present2.contains(sss) {
                            let w = choose|w: int|
                                0 <= w < present2.len() && present2[w] == sss;
                            assert(0 <= w < present.len());
                            assert(present[w] == sss);
                        }
                    }
                }
            },
            AdapterConf::Sort(sorter) => {
                if present.contains(sss) {
                    assert(occurrences(chain, present, sss) >= 2);
                } else {
                    let present2 = present.push(sss);
                    lemma_chain_start_condition(rest, present2);
                    assert(present2.contains(sss)) by {
                        assert(present2[present.len() as int] == sss);
                    }
                    assert(present2.contains(paged) == present.contains(paged)) by {
                        if present.contains(paged) {
                            let w = choose|w: int|
                                0 <= w < present.len() && present[w] == paged;
                            assert(present2[w] == paged);
                        }
                        if present2.contains(paged) {
                            let w = choose|w: int|
                                0 <= w < present2.len() && present2[w] == paged;
                            assert(0 <= w < present.len());
                            assert(present[w] == paged);
                        }
                    }
                }
            },
        }
    }
}

} // verus!
