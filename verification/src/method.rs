//! HTTP methods and the method filters that key a node's handlers.

use vstd::prelude::*;

verus! {

/// An HTTP request method.
#[derive(Clone, Copy, Debug, PartialEq, Eq, Structural)]
pub enum Method {
    Get,
    Head,
    Post,
    Put,
    Delete,
    Connect,
    Options,
    Trace,
    Patch,
}

/// The key of a handler entry: one method, or every method.
#[derive(Clone, Copy, Debug, PartialEq, Eq, Structural)]
pub enum MethodFilter {
    Any,
    Only(Method),
}

impl MethodFilter {
    /// Whether a request with `method` may use a handler keyed by this filter.
    pub open spec fn admits(self, method: Method) -> bool {
        match self {
            MethodFilter::Any => true,
            MethodFilter::Only(m) => m == method,
        }
    }

    /// Decides [`MethodFilter::admits`].
    pub fn accepts(&self, method: Method) -> (ok: bool)
        ensures
            ok == self.admits(method),
    {
        match self {
            MethodFilter::Any => true,
            MethodFilter::Only(m) => *m == method,
        }
    }
}

} // verus!
