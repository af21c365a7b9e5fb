//! LDAP search filters.
//!
//! Each filter renders to its LDAP filter-string form; the rendered string
//! is pinned down exactly by each filter's `spec_filter`.

use vstd::prelude::*;
use vstd::string::StringExecFns;

verus! {

/// Implemented by all the filters.
///
/// `spec_filter` is the exact filter string that `filter` renders.
pub trait Filter {
    spec fn spec_filter(&self) -> Seq<char>;

    fn filter(&self) -> (r: String)
        ensures
            r@ == self.spec_filter(),
    ;
}

impl<F: Filter> Filter for Box<F> {
    open spec fn spec_filter(&self) -> Seq<char> {
        (**self).spec_filter()
    }

    fn filter(&self) -> (r: String) {
        (**self).filter()
    }
}

/// Concatenation of a sequence of rendered sub-filters.
pub open spec fn concat_filters(ss: Seq<Seq<char>>) -> Seq<char>
    decreases ss.len(),
{
    if ss.len() == 0 {
        Seq::<char>::empty()
    } else {
        concat_filters(ss.drop_last()) + ss.last()
    }
}

/// An AND filter: the conjunction of its sub-filters.
pub struct AndFilter {
    filters: Vec<String>,
}

impl View for AndFilter {
    type V = Seq<Seq<char>>;

    closed spec fn view(&self) -> Seq<Seq<char>> {
        self.filters.deep_view()
    }
}

impl AndFilter {
    /// Creates a new `AndFilter` with no sub-filters.
    pub fn new() -> (r: Self)
        ensures
            r@ =~= Seq::<Seq<char>>::empty(),
    {
        AndFilter { filters: Vec::new() }
    }

    /// Adds a filter to the conjunction.
    pub fn add<F: Filter>(&mut self, filter: Box<F>)
        ensures
            final(self)@ =~= old(self)@.push(filter.spec_filter()),
    {
        let rendered = filter.filter();
        self.filters.push(rendered);
        proof {
            assert(self.filters.deep_view() =~= old(self).filters.deep_view().push(
                filter.spec_filter(),
            ));
        }
    }
}

impl Default for AndFilter {
    fn default() -> (r: Self)
        ensures
            r@ =~= Seq::<Seq<char>>::empty(),
    {
        AndFilter { filters: Vec::new() }
    }
}

impl Filter for AndFilter {
    open spec fn spec_filter(&self) -> Seq<char> {
        "(&"@ + concat_filters(self@) + ")"@
    }

    fn filter(&self) -> (r: String) {
        let mut s = String::from_str("(&");
        let mut i: usize = 0;
        proof {
            assert(s@ =~= "(&"@ + concat_filters(self@.take(0)));
        }
        while i < self.filters.len()
            invariant
                i <= self.filters.len(),
                self@.len() == self.filters.len(),
                s@ == "(&"@ + concat_filters(self@.take(i as int)),
            decreases self.filters.len() - i,
        {
            s.append(self.filters[i].as_str());
            proof {
                assert(self@.take(i + 1).drop_last() =~= self@.take(i as int));
                assert(self@.take(i + 1).last() == self@[i as int]);
            }
            i = i + 1;
        }
        proof {
            assert(self@.take(self@.len() as int) =~= self@);
        }
        s.append(")");
        s
    }
}

/// An OR filter: the disjunction of its sub-filters.
pub struct OrFilter {
    filters: Vec<String>,
}

impl View for OrFilter {
    type V = Seq<Seq<char>>;

    closed spec fn view(&self) -> Seq<Seq<char>> {
        self.filters.deep_view()
    }
}

impl OrFilter {
    /// Creates a new `OrFilter` with no sub-filters.
    pub fn new() -> (r: Self)
        ensures
            r@ =~= Seq::<Seq<char>>::empty(),
    {
        OrFilter { filters: Vec::new() }
    }

    /// Adds a filter to the disjunction.
    pub fn add<F: Filter>(&mut self, filter: Box<F>)
        ensures
            final(self)@ =~= old(self)@.push(filter.spec_filter()),
    {
        let rendered = filter.filter();
        self.filters.push(rendered);
        proof {
            assert(self.filters.deep_view() =~= old(self).filters.deep_view().push(
                filter.spec_filter(),
            ));
        }
    }
}

impl Default for OrFilter {
    fn default() -> (r: Self)
        ensures
            r@ =~= Seq::<Seq<char>>::empty(),
    {
        OrFilter { filters: Vec::new() }
    }
}

impl Filter for OrFilter {
    open spec fn spec_filter(&self) -> Seq<char> {
        "(|"@ + concat_filters(self@) + ")"@
    }

    fn filter(&self) -> (r: String) {
        let mut s = String::from_str("(|");
        let mut i: usize = 0;
        proof {
            assert(s@ =~= "(|"@ + concat_filters(self@.take(0)));
        }
        while i < self.filters.len()
            invariant
                i <= self.filters.len(),
                self@.len() == self.filters.len(),
                s@ == "(|"@ + concat_filters(self@.take(i as int)),
            decreases self.filters.len() - i,
        {
            s.append(self.filters[i].as_str());
            proof {
                assert(self@.take(i + 1).drop_last() =~= self@.take(i as int));
                assert(self@.take(i + 1).last() == self@[i as int]);
            }
            i = i + 1;
        }
        proof {
            assert(self@.take(self@.len() as int) =~= self@);
        }
        s.append(")");
        s
    }
}

/// An equality filter on one attribute.
pub struct EqFilter {
    attribute: String,
    value: String,
}

impl View for EqFilter {
    type V = (Seq<char>, Seq<char>);

    closed spec fn view(&self) -> (Seq<char>, Seq<char>) {
        (self.attribute@, self.value@)
    }
}

impl EqFilter {
    /// Creates a new `EqFilter` matching entries whose `attribute` equals `value`.
    pub fn from(attribute: String, value: String) -> (r: Self)
        ensures
            r@ == (attribute@, value@),
    {
        EqFilter { attribute, value }
    }
}

impl Filter for EqFilter {
    open spec fn spec_filter(&self) -> Seq<char> {
        "("@ + self@.0 + "="@ + self@.1 + ")"@
    }

    fn filter(&self) -> (r: String) {
        let mut s = String::from_str("(");
        s.append(self.attribute.as_str());
        s.append("=");
        s.append(self.value.as_str());
        s.append(")");
        s
    }
}

/// A NOT filter: the negation of another filter.
pub struct NotFilter {
    filter: String,
}

impl View for NotFilter {
    type V = Seq<char>;

    closed spec fn view(&self) -> Seq<char> {
        self.filter@
    }
}

impl NotFilter {
    /// Creates a new `NotFilter` negating the given filter.
    pub fn from<F: Filter>(filter: Box<F>) -> (r: Self)
        ensures
            r@ == filter.spec_filter(),
    {
        NotFilter { filter: filter.filter() }
    }
}

impl Filter for NotFilter {
    open spec fn spec_filter(&self) -> Seq<char> {
        "(!"@ + self@ + ")"@
    }

    fn filter(&self) -> (r: String) {
        let mut s = String::from_str("(!");
        s.append(self.filter.as_str());
        s.append(")");
        s
    }
}

/// The wildcard position of a `LikeFilter`.
pub enum WildardOn {
    /// The wildcard is on the left of the value.
    Pre,
    /// The wildcard is on the right of the value.
    Post,
}

/// A LIKE filter: a wildcard on the left or on the right of the value.
pub struct LikeFilter {
    attribute: String,
    value: String,
    wildcard_on: WildardOn,
}

impl View for LikeFilter {
    type V = (Seq<char>, Seq<char>, WildardOn);

    closed spec fn view(&self) -> (Seq<char>, Seq<char>, WildardOn) {
        (self.attribute@, self.value@, self.wildcard_on)
    }
}

impl LikeFilter {
    /// Creates a new `LikeFilter` with the given wildcard position.
    pub fn from(attribute: String, value: String, wildcard_on: WildardOn) -> (r: Self)
        ensures
            r@ == (attribute@, value@, wildcard_on),
    {
        LikeFilter { attribute, value, wildcard_on }
    }
}

impl Filter for LikeFilter {
    open spec fn spec_filter(&self) -> Seq<char> {
        match self@.2 {
            WildardOn::Pre => "("@ + self@.0 + "=*"@ + self@.1 + ")"@,
            WildardOn::Post => "("@ + self@.0 + "="@ + self@.1 + "*)"@,
        }
    }

    fn filter(&self) -> (r: String) {
        match self.wildcard_on {
            WildardOn::Pre => {
                let mut s = String::from_str("(");
                s.append(self.attribute.as_str());
                s.append("=*");
                s.append(self.value.as_str());
                s.append(")");
                s
            },
            WildardOn::Post => {
                let mut s = String::from_str("(");
                s.append(self.attribute.as_str());
                s.append("=");
                s.append(self.value.as_str());
                s.append("*)");
                s
            },
        }
    }
}

/// A CONTAINS filter: the value occurs somewhere in the attribute.
pub struct ContainsFilter {
    attribute: String,
    value: String,
}

impl View for ContainsFilter {
    type V = (Seq<char>, Seq<char>);

    closed spec fn view(&self) -> (Seq<char>, Seq<char>) {
        (self.attribute@, self.value@)
    }
}

impl ContainsFilter {
    /// Creates a new `ContainsFilter` matching entries whose `attribute` contains `value`.
    pub fn from(attribute: String, value: String) -> (r: Self)
        ensures
            r@ == (attribute@, value@),
    {
        ContainsFilter { attribute, value }
    }
}

impl Filter for ContainsFilter {
    open spec fn spec_filter(&self) -> Seq<char> {
        "("@ + self@.0 + "=*"@ + self@.1 + "*)"@
    }

    fn filter(&self) -> (r: String) {
        let mut s = String::from_str("(");
        s.append(self.attribute.as_str());
        s.append("=*");
        s.append(self.value.as_str());
        s.append("*)");
        s
    }
}

} // verus!
