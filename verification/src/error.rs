//! Error kinds surfaced by the event store accessor. The aggregation
//! functions themselves are total and never fail; these values exist so the
//! boundary layer can report a failed query with a severity hint instead of
//! a transport-specific status code.

use vstd::prelude::*;

verus! {

/// Why a store query failed. A query either returns a complete result set or
/// fails entirely with one of these kinds; the core never retries.
#[derive(Clone, Copy, Debug, PartialEq, Eq, Structural)]
pub enum StoreError {
    /// The connection or pool broke before or during the query.
    Connectivity,
    /// The store rejected the query: malformed statement, constraint or
    /// driver-level failure.
    Query,
    /// A result row could not be converted to its typed form.
    Mapping,
}

/// Coarse severity hint for the boundary layer: whether the failure points
/// at the caller's input or at the backend.
#[derive(Clone, Copy, Debug, PartialEq, Eq, Structural)]
pub enum Severity {
    /// The request itself was at fault.
    ClientInput,
    /// The store or the data behind it was at fault.
    Backend,
}

/// The severity a store error carries.
pub open spec fn spec_severity(e: StoreError) -> Severity {
    match e {
        StoreError::Connectivity => Severity::Backend,
        StoreError::Query => Severity::Backend,
        StoreError::Mapping => Severity::Backend,
    }
}

impl StoreError {
    /// Severity hint for this error. Every store-side failure is a backend
    /// fault; input validation, where a caller wants it, happens at the
    /// boundary before a query is ever issued.
    pub fn severity(&self) -> (s: Severity)
        ensures
            s == spec_severity(*self),
    {
        match self {
            StoreError::Connectivity => Severity::Backend,
            StoreError::Query => Severity::Backend,
            StoreError::Mapping => Severity::Backend,
        }
    }
}

} // verus!
