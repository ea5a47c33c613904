//! A request-routing core: route trees with guards and middleware scopes,
//! ordered backtracking dispatch, and onion-ordered middleware chains.
//!
//! * [`compile`] builds a route tree from a declared one and refuses trees
//!   that bind a parameter name twice on one path.
//! * [`matcher`] finds the route for a method and a path: the handler, the
//!   middleware around it and the captured parameters.
//! * [`chain`] lays out the order in which the middleware and the handler of
//!   a match are run.
//! * [`middleware_item`] reads the `with` item by which a scope names its
//!   middleware, from the tokens of [`tokens`].
//!
//! Guards, middleware and handlers are held by number; what stands behind a
//! number is the caller's.

pub mod chain;
pub mod compile;
pub mod matcher;
pub mod method;
pub mod middleware_item;
pub mod params;
pub mod path;
pub mod request;
pub mod tokens;
pub mod tree;
