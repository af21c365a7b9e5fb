//! The search adapter that asks the server to sort results.
//!
//! Its request-side work builds the critical SSS request control and
//! refuses to run when one is already attached; its response-side work
//! validates the SSS response control on each entry.  The surrounding
//! transport loop performs the actual network calls and hands the
//! control lists here as plain values.

use vstd::prelude::*;
use vstd::string::StringExecFns;

use crate::simple_dn::str_eq;
use crate::sort::control::{
    decode_sort_response, encode_sort_request, spec_decode_sort_response, spec_encode_sort_request,
    ServerSideSortResponse, SortKey,
};
use crate::sort::{SERVER_SIDE_SORT_REQUEST_OID, SERVER_SIDE_SORT_RESPONSE_OID};
use crate::{Control, Error};

verus! {

/// A sort directive: one attribute to sort by, possibly in reverse.
#[derive(Debug, Clone)]
pub struct SortBy {
    /// Name of the attribute to sort by.
    pub attribute: String,
    /// Should the ordering be reversed?
    pub reverse: bool,
}

impl View for SortBy {
    type V = (Seq<char>, bool);

    open spec fn view(&self) -> (Seq<char>, bool) {
        (self.attribute@, self.reverse)
    }
}

/// The views of a list of sort directives.
pub open spec fn sorts_view(s: Seq<SortBy>) -> Seq<(Seq<char>, bool)> {
    Seq::new(s.len(), |i: int| s[i]@)
}

/// The attribute names of a list of sort directives.
pub open spec fn attrs_of(s: Seq<(Seq<char>, bool)>) -> Seq<Seq<char>> {
    Seq::new(s.len(), |i: int| s[i].0)
}

/// The attributes occurring more than once, each reported once, in
/// the order of their second occurrences.
pub open spec fn spec_duplicates(attrs: Seq<Seq<char>>) -> Seq<Seq<char>>
    decreases attrs.len(),
{
    if attrs.len() == 0 {
        Seq::<Seq<char>>::empty()
    } else {
        let prefix = spec_duplicates(attrs.drop_last());
        let a = attrs.last();
        if attrs.drop_last().contains(a) && !prefix.contains(a) {
            prefix.push(a)
        } else {
            prefix
        }
    }
}

proof fn lemma_dups_grow(attrs: Seq<Seq<char>>, k: int)
    requires
        0 <= k <= attrs.len(),
    ensures
        spec_duplicates(attrs).len() >= spec_duplicates(attrs.take(k)).len(),
    decreases attrs.len() - k,
{
    if k < attrs.len() {
        lemma_dups_grow(attrs, k + 1);
        assert(attrs.take(k + 1).drop_last() =~= attrs.take(k));
    } else {
        assert(attrs.take(k) =~= attrs);
    }
}

/// A sort list without reported duplicates has pairwise distinct
/// attributes.
pub proof fn lemma_no_dups(attrs: Seq<Seq<char>>)
    requires
        spec_duplicates(attrs).len() == 0,
    ensures
        forall|i: int, j: int| 0 <= i < j < attrs.len() ==> attrs[i] != attrs[j],
{
    assert forall|i: int, j: int| 0 <= i < j < attrs.len() implies attrs[i] != attrs[j] by {
        if attrs[i] == attrs[j] {
            let t = attrs.take(j + 1);
            assert(t.drop_last() =~= attrs.take(j));
            assert(t.last() == attrs[j]);
            assert(attrs.take(j)[i] == attrs[i]);
            assert(attrs.take(j).contains(attrs[j]));
            assert(spec_duplicates(t).len() >= 1);
            lemma_dups_grow(attrs, j + 1);
        }
    }
}

/// The error of a sort list naming the same attribute twice.
#[derive(Debug)]
pub struct DuplicateSortAttributes {
    attributes: Vec<String>,
}

impl View for DuplicateSortAttributes {
    type V = Seq<Seq<char>>;

    closed spec fn view(&self) -> Seq<Seq<char>> {
        Seq::new(self.attributes@.len(), |i: int| self.attributes@[i]@)
    }
}

impl DuplicateSortAttributes {
    /// The attributes that occurred more than once in the sort list.
    pub fn attributes(&self) -> (r: &Vec<String>)
        ensures
            r@.len() == self@.len(),
            forall|i: int| 0 <= i < r@.len() ==> #[trigger] r@[i]@ == self@[i],
    {
        &self.attributes
    }
}

/// Search adapter for sorting the results server-side.
///
/// The server evaluates the sort criteria in order; on a tie the next
/// criterion is consulted.  The list never contains two entries with
/// the same attribute.
#[derive(Debug, Clone)]
pub struct ServerSideSort {
    sorts: Vec<SortBy>,
}

impl View for ServerSideSort {
    type V = Seq<(Seq<char>, bool)>;

    closed spec fn view(&self) -> Seq<(Seq<char>, bool)> {
        sorts_view(self.sorts@)
    }
}

/// True when `v`'s views contain `a`.
fn strings_contain(v: &Vec<String>, a: &String) -> (r: bool)
    ensures
        r == Seq::new(v@.len(), |i: int| v@[i]@).contains(a@),
{
    let ghost views = Seq::new(v@.len(), |i: int| v@[i]@);
    let mut i: usize = 0;
    while i < v.len()
        invariant
            i <= v@.len(),
            views == Seq::new(v@.len(), |k: int| v@[k]@),
            forall|k: int| 0 <= k < i ==> views[k] != a@,
        decreases v@.len() - i,
    {
        if str_eq(v[i].as_str(), a.as_str()) {
            proof {
                assert(views[i as int] == a@);
            }
            return true;
        }
        i = i + 1;
    }
    proof {
        if views.contains(a@) {
            let w = choose|w: int| 0 <= w < views.len() && views[w] == a@;
            assert(false);
        }
    }
    false
}

/// True when one of the first `upto` sort directives names `a`.
fn attr_in_prefix(sorts: &Vec<SortBy>, upto: usize, a: &String) -> (r: bool)
    requires
        upto <= sorts@.len(),
    ensures
        r == attrs_of(sorts_view(sorts@)).take(upto as int).contains(a@),
{
    let ghost attrs = attrs_of(sorts_view(sorts@)).take(upto as int);
    let mut i: usize = 0;
    while i < upto
        invariant
            i <= upto <= sorts@.len(),
            attrs == attrs_of(sorts_view(sorts@)).take(upto as int),
            forall|k: int| 0 <= k < i ==> attrs[k] != a@,
        decreases upto - i,
    {
        if str_eq(sorts[i].attribute.as_str(), a.as_str()) {
            proof {
                assert(attrs[i as int] == a@);
            }
            return true;
        }
        i = i + 1;
    }
    proof {
        if attrs.contains(a@) {
            let w = choose|w: int| 0 <= w < attrs.len() && attrs[w] == a@;
            assert(false);
        }
    }
    false
}

impl ServerSideSort {
    /// Creates a new adapter instance.
    ///
    /// Duplicate attributes are not allowed: they are rejected here,
    /// before any network traffic, and never silently merged.
    pub fn new(sorts: Vec<SortBy>) -> (r: Result<Self, DuplicateSortAttributes>)
        ensures
            ({
                let attrs = attrs_of(sorts_view(sorts@));
                match r {
                    Ok(adapter) => {
                        &&& spec_duplicates(attrs).len() == 0
                        &&& adapter@ == sorts_view(sorts@)
                        &&& forall|i: int, j: int|
                            0 <= i < j < attrs.len() ==> attrs[i] != attrs[j]
                    },
                    Err(e) => {
                        &&& spec_duplicates(attrs).len() > 0
                        &&& e@ == spec_duplicates(attrs)
                    },
                }
            }),
    {
        let ghost attrs = attrs_of(sorts_view(sorts@));
        let mut dups: Vec<String> = Vec::new();
        let mut i: usize = 0;
        proof {
            assert(attrs.take(0) =~= Seq::<Seq<char>>::empty());
            assert(Seq::new(dups@.len(), |k: int| dups@[k]@) =~= spec_duplicates(attrs.take(0)));
        }
        while i < sorts.len()
            invariant
                i <= sorts@.len(),
                attrs == attrs_of(sorts_view(sorts@)),
                Seq::new(dups@.len(), |k: int| dups@[k]@) == spec_duplicates(attrs.take(i as int)),
            decreases sorts@.len() - i,
        {
            let a = &sorts[i].attribute;
            let seen_before = attr_in_prefix(&sorts, i, a);
            let already_reported = strings_contain(&dups, a);
            proof {
                assert(attrs.take(i + 1).drop_last() =~= attrs.take(i as int));
                assert(attrs.take(i + 1).last() == a@);
            }
            if seen_before && !already_reported {
                let ghost old_dups = dups@;
                dups.push(a.clone());
                proof {
                    assert(Seq::new(dups@.len(), |k: int| dups@[k]@) =~= Seq::new(
                        old_dups.len(),
                        |k: int| old_dups[k]@,
                    ).push(a@));
                }
            }
            i = i + 1;
        }
        proof {
            assert(attrs.take(sorts@.len() as int) =~= attrs);
        }
        if dups.len() == 0 {
            proof {
                lemma_no_dups(attrs);
            }
            Ok(ServerSideSort { sorts })
        } else {
            let e = DuplicateSortAttributes { attributes: dups };
            Err(e)
        }
    }

    /// The request-side step: refuses to start when an SSS request
    /// control is already attached to the operation, else builds the
    /// control to attach, marked critical so that a server unable to
    /// sort fails the whole search instead of returning unsorted
    /// results.
    pub fn start_control(&self, existing: &Vec<Control>) -> (r: Result<Control, Error>)
        ensures
            match r {
                Ok(c) => {
                    &&& forall|k: int|
                        0 <= k < existing@.len()
                            ==> #[trigger] existing@[k].oid@ != SERVER_SIDE_SORT_REQUEST_OID@
                    &&& c.oid@ == SERVER_SIDE_SORT_REQUEST_OID@
                    &&& c.critical
                    &&& (c.value matches Some(v) && v@ == spec_encode_sort_request(
                        request_keys(self@),
                    ))
                },
                Err(e) => {
                    &&& e is ControlConflict
                    &&& exists|k: int|
                        0 <= k < existing@.len() && #[trigger] existing@[k].oid@
                            == SERVER_SIDE_SORT_REQUEST_OID@
                },
            },
    {
        let mut i: usize = 0;
        while i < existing.len()
            invariant
                i <= existing@.len(),
                forall|k: int|
                    0 <= k < i ==> #[trigger] existing@[k].oid@ != SERVER_SIDE_SORT_REQUEST_OID@,
            decreases existing@.len() - i,
        {
            if str_eq(existing[i].oid.as_str(), SERVER_SIDE_SORT_REQUEST_OID) {
                return Err(
                    Error::ControlConflict(
                        String::from_str("found Server Side Sort control in op set already"),
                    ),
                );
            }
            i = i + 1;
        }
        let mut keys: Vec<SortKey> = Vec::new();
        let mut j: usize = 0;
        while j < self.sorts.len()
            invariant
                j <= self.sorts@.len(),
                self@ == sorts_view(self.sorts@),
                keys@.len() == j,
                forall|k: int|
                    0 <= k < j ==> #[trigger] keys@[k]@ == (
                    self@[k].0,
                    None::<Seq<char>>,
                    self@[k].1,
                    ),
            decreases self.sorts@.len() - j,
        {
            keys.push(
                SortKey {
                    attribute_type: self.sorts[j].attribute.clone(),
                    ordering_rule: None,
                    reverse_order: self.sorts[j].reverse,
                },
            );
            j = j + 1;
        }
        let value = encode_sort_request(&keys);
        proof {
            assert(crate::sort::control::keys_view(keys@) =~= request_keys(self@));
        }
        Ok(
            Control {
                oid: String::from_str(SERVER_SIDE_SORT_REQUEST_OID),
                critical: true,
                value: Some(value),
            },
        )
    }

    /// The response-side step for one entry: decodes the SSS response
    /// control when present.  Success or an absent control passes the
    /// entry through; a payload that does not decode is
    /// `MalformedControl`; any other result code is the logic-fatal
    /// `SortRejected`, since the critical request control should have
    /// failed the search before any entry arrived.
    pub fn check_entry_control(ctrl: Option<&Vec<u8>>) -> (r: Result<(), Error>)
        ensures
            match ctrl {
                None => r is Ok,
                Some(v) => match spec_decode_sort_response(v@) {
                    None => (r matches Err(e) && e is MalformedControl),
                    Some(resp) => {
                        if resp.0 is Success {
                            r is Ok
                        } else {
                            (r matches Err(e) && e is SortRejected)
                        }
                    },
                },
            },
    {
        match ctrl {
            None => Ok(()),
            Some(v) => {
                match decode_sort_response(v.as_slice()) {
                    Err(e) => Err(e),
                    Ok(resp) => {
                        match resp.sort_result {
                            crate::sort::control::SortResult::Success => Ok(()),
                            _ => Err(
                                Error::SortRejected(
                                    String::from_str(
                                        "non-success sort result on an entry although the control was critical",
                                    ),
                                ),
                            ),
                        }
                    },
                }
            },
        }
    }

    /// The response-side step for a whole result: finds the SSS
    /// response control in the result's control list and validates it
    /// as `check_entry_control` does.
    pub fn validate_entry_controls(controls: &Vec<Control>) -> (r: Result<(), Error>)
        ensures
            match find_control(controls@, SERVER_SIDE_SORT_RESPONSE_OID@) {
                None => r is Ok,
                Some(i) => match controls@[i].value {
                    None => r is Ok,
                    Some(v) => match spec_decode_sort_response(v@) {
                        None => (r matches Err(e) && e is MalformedControl),
                        Some(resp) => {
                            if resp.0 is Success {
                                r is Ok
                            } else {
                                (r matches Err(e) && e is SortRejected)
                            }
                        },
                    },
                },
            },
    {
        match get_response_control(controls) {
            None => Ok(()),
            Some(c) => {
                match &c.value {
                    None => Ok(()),
                    Some(v) => Self::check_entry_control(Some(v)),
                }
            },
        }
    }

    /// The final inspection when a search is finished: the decoded SSS
    /// response control of the final result, for diagnostics only.
    pub fn inspect_final_controls(controls: &Vec<Control>) -> (r: Option<
        Result<ServerSideSortResponse, Error>,
    >)
        ensures
            match find_control(controls@, SERVER_SIDE_SORT_RESPONSE_OID@) {
                None => r is None,
                Some(i) => match controls@[i].value {
                    None => r is None,
                    Some(v) => match spec_decode_sort_response(v@) {
                        None => (r matches Some(d) && d matches Err(e) && e is MalformedControl),
                        Some(resp) => (r matches Some(d) && d matches Ok(x) && x@ == resp),
                    },
                },
            },
    {
        match get_response_control(controls) {
            None => None,
            Some(c) => {
                match &c.value {
                    None => None,
                    Some(v) => Some(decode_sort_response(v.as_slice())),
                }
            },
        }
    }
}

/// The sort keys a sort directive list asks for: each attribute with
/// no ordering rule and its reverse flag.
pub open spec fn request_keys(s: Seq<(Seq<char>, bool)>) -> Seq<
    (Seq<char>, Option<Seq<char>>, bool),
> {
    Seq::new(s.len(), |i: int| (s[i].0, None::<Seq<char>>, s[i].1))
}

/// The smallest index of a control with the given OID, if any.
pub open spec fn find_control(cs: Seq<Control>, oid: Seq<char>) -> Option<int>
    decreases cs.len(),
{
    if cs.len() == 0 {
        None
    } else if cs[0].oid@ == oid {
        Some(0)
    } else {
        match find_control(cs.drop_first(), oid) {
            None => None,
            Some(i) => Some(i + 1),
        }
    }
}

proof fn lemma_find_control_at(cs: Seq<Control>, oid: Seq<char>, i: int)
    requires
        0 <= i < cs.len(),
        cs[i].oid@ == oid,
        forall|k: int| 0 <= k < i ==> #[trigger] cs[k].oid@ != oid,
    ensures
        find_control(cs, oid) == Some(i),
    decreases cs.len(),
{
    if i > 0 {
        lemma_find_control_at(cs.drop_first(), oid, i - 1);
    }
}

proof fn lemma_find_control_none(cs: Seq<Control>, oid: Seq<char>)
    requires
        forall|k: int| 0 <= k < cs.len() ==> #[trigger] cs[k].oid@ != oid,
    ensures
        find_control(cs, oid) is None,
    decreases cs.len(),
{
    if cs.len() > 0 {
        lemma_find_control_none(cs.drop_first(), oid);
    }
}

/// Picks out the first SSS response control of a result's control
/// list, if one is attached.
pub fn get_response_control(controls: &Vec<Control>) -> (r: Option<&Control>)
    ensures
        match find_control(controls@, SERVER_SIDE_SORT_RESPONSE_OID@) {
            None => r is None,
            Some(i) => (r matches Some(c) && *c == controls@[i]),
        },
{
    let mut i: usize = 0;
    while i < controls.len()
        invariant
            i <= controls@.len(),
            forall|k: int|
                0 <= k < i ==> #[trigger] controls@[k].oid@ != SERVER_SIDE_SORT_RESPONSE_OID@,
        decreases controls@.len() - i,
    {
        if str_eq(controls[i].oid.as_str(), SERVER_SIDE_SORT_RESPONSE_OID) {
            proof {
                lemma_find_control_at(controls@, SERVER_SIDE_SORT_RESPONSE_OID@, i as int);
            }
            return Some(&controls[i]);
        }
        i = i + 1;
    }
    proof {
        lemma_find_control_none(controls@, SERVER_SIDE_SORT_RESPONSE_OID@);
    }
    None
}

} // verus!
