//! The Server Side Sort (SSS) search extension of RFC 2891.

use vstd::prelude::*;

pub mod adapter;
pub mod control;

verus! {

/// OID of the SSS request control.
pub const SERVER_SIDE_SORT_REQUEST_OID: &'static str = "1.2.840.113556.1.4.473";

/// OID of the SSS response control.
pub const SERVER_SIDE_SORT_RESPONSE_OID: &'static str = "1.2.840.113556.1.4.474";

} // verus!
