//! A high-level, verified model of an LDAP client's search machinery.
//!
//! The crate covers the pieces of an LDAP client that carry real logic:
//! search filter rendering, the simple distinguished-name type, the binary
//! codec for the server-side-sort controls of RFC 2891, the adapter chain
//! that attaches protocol-extension controls to a search, a paged-results
//! driver, and the lifecycle of an in-flight streaming search together with
//! its cleanup protocol.  Network transport, connection pooling and result
//! deserialization are left to the surrounding (unverified) application
//! layer, which hands this crate plain values.

use vstd::prelude::*;

pub mod filter;
pub mod simple_dn;
pub mod sort;
pub mod chain;
pub mod stream;

pub use simple_dn::SimpleDN;

verus! {

/// The error type for the LDAP client.
///
/// Construction-time errors (control conflicts) are reported before any
/// I/O would happen; decode errors are fatal for the operation they occur
/// in; `SortRejected` marks an internal-invariant violation (a critical
/// control failing late), distinct from ordinary query failures.
#[derive(Debug, Clone, PartialEq, Eq)]
pub enum Error {
    /// Error occurred when performing an LDAP query.
    Query(String),
    /// No records found for the search criteria.
    NotFound(String),
    /// Multiple records found for the search criteria.
    MultipleResults(String),
    /// Authenticating a user failed.
    AuthenticationFailed(String),
    /// Error occurred when creating a record.
    Create(String),
    /// Error occurred when updating a record.
    Update(String),
    /// Error occurred when deleting a record.
    Delete(String),
    /// Error occurred when mapping the search result to a struct.
    Mapping(String),
    /// Error occurred while attempting to create an LDAP connection.
    Connection(String),
    /// Error occurred while attempting to close an LDAP connection.
    Close(String),
    /// Error occurred while abandoning an open search operation.
    Abandon(String),
    /// An extension control was already present on the outgoing request.
    ControlConflict(String),
    /// A response control's binary payload could not be decoded.
    MalformedControl(String),
    /// A non-success sort result was observed although the critical sort
    /// control should have failed the whole search earlier.
    SortRejected(String),
}

/// Result of one pull from a streaming search.
pub enum StreamResult<T> {
    Record(T),
    Done,
    Finished,
}

/// A request or response control: an OID-identified protocol extension
/// attached to a search, with an opaque binary payload.
#[derive(Debug, Clone, PartialEq, Eq)]
pub struct Control {
    /// The control's object identifier, in dotted-decimal text form.
    pub oid: String,
    /// Whether failing to honour the control must fail the operation.
    pub critical: bool,
    /// The control's BER-encoded value, if it has one.
    pub value: Option<Vec<u8>>,
}

/// One attribute of a directory entry, with its values in server order.
#[derive(Debug, Clone, PartialEq, Eq)]
pub struct Attr {
    pub name: String,
    pub values: Vec<String>,
}

/// A directory entry as the search machinery sees it: a distinguished name
/// and a list of attributes.
#[derive(Debug, Clone, PartialEq, Eq)]
pub struct Entry {
    pub dn: String,
    pub attrs: Vec<Attr>,
}

/// Selects the sole element of a result list: zero elements is `NotFound`,
/// more than one is `MultipleResults`.
pub fn require_single<T>(mut records: Vec<T>) -> (r: Result<T, Error>)
    ensures
        records@.len() == 1 ==> r == Ok::<T, Error>(records@[0]),
        records@.len() == 0 ==> (r matches Err(e) && e is NotFound),
        records@.len() > 1 ==> (r matches Err(e) && e is MultipleResults),
{
    if records.len() == 1 {
        let record = records.pop().unwrap();
        Ok(record)
    } else if records.is_empty() {
        Err(Error::NotFound(String::from_str("No records found for the search criteria")))
    } else {
        Err(Error::MultipleResults(String::from_str(
            "Found multiple records for the search criteria",
        )))
    }
}

} // verus!
