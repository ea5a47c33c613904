//! What a guard sees of a request while the route is being matched.

use vstd::prelude::*;
use crate::method::Method;
use crate::params::Params;

verus! {

/// The request during matching: its method, its path, and the parameters
/// bound so far on the branch under trial.
pub struct RequestContext<'a> {
    pub method: Method,
    pub path: &'a [u8],
    pub params: &'a Params,
}

/// The mathematical content of a [`RequestContext`].
pub struct RequestView {
    pub method: Method,
    pub path: Seq<u8>,
    pub params: Seq<(Seq<u8>, Seq<u8>)>,
}

impl<'a> View for RequestContext<'a> {
    type V = RequestView;

    open spec fn view(&self) -> RequestView {
        RequestView { method: self.method, path: self.path@, params: self.params@ }
    }
}

/// The guards of a router, addressed by the numbers that route nodes hold.
///
/// A guard is a predicate on the request as it stands when the guard is
/// asked: `accepts` is that predicate, and `check` computes it. An
/// implementation must answer from its arguments alone and must leave the
/// request as it found it.
pub trait Guards {
    /// Whether guard number `guard` lets `request` pass.
    spec fn accepts(&self, guard: usize, request: RequestView) -> bool;

    /// Asks guard number `guard`.
    fn check(&self, guard: usize, request: &RequestContext) -> (ok: bool)
        ensures
            ok == self.accepts(guard, request@),
    ;
}

} // verus!
