//! The route tree: nodes with a segment matcher, guards, middleware,
//! handlers keyed by method, and children in declared order.

use vstd::prelude::*;
use crate::method::Method;
use crate::method::MethodFilter;

verus! {

/// What a node demands of the path at its place.
#[derive(Debug)]
pub enum Segment {
    /// One segment equal to the literal, byte for byte.
    Static(Vec<u8>),
    /// Any one segment that is not empty, bound to the name.
    Param(Vec<u8>),
    /// The rest of the path, bound to the name; the rest may be empty.
    Wildcard(Vec<u8>),
}

/// The mathematical content of a [`Segment`].
pub enum SegmentView {
    Static(Seq<u8>),
    Param(Seq<u8>),
    Wildcard(Seq<u8>),
}

impl View for Segment {
    type V = SegmentView;

    open spec fn view(&self) -> SegmentView {
        match self {
            Segment::Static(literal) => SegmentView::Static(literal@),
            Segment::Param(name) => SegmentView::Param(name@),
            Segment::Wildcard(name) => SegmentView::Wildcard(name@),
        }
    }
}

/// One entry of a node's handlers: the handler that serves the methods
/// which the filter admits.
#[derive(Clone, Copy, Debug, PartialEq, Eq, Structural)]
pub struct HandlerEntry {
    pub method: MethodFilter,
    pub handler: usize,
}

/// One node of the route tree. Guards, middleware and handlers are held by
/// number; the order of `children` is the order of declaration.
#[derive(Debug)]
pub struct RouteNode {
    pub matcher: Segment,
    pub guards: Vec<usize>,
    pub middleware: Vec<usize>,
    pub handlers: Vec<HandlerEntry>,
    pub children: Vec<RouteNode>,
}

/// The mathematical content of a [`RouteNode`].
pub struct NodeView {
    pub matcher: SegmentView,
    pub guards: Seq<usize>,
    pub middleware: Seq<usize>,
    pub handlers: Seq<HandlerEntry>,
    pub children: Seq<NodeView>,
}

impl NodeView {
    /// A node without guards, middleware, handlers and children.
    pub open spec fn bare(matcher: SegmentView) -> NodeView {
        NodeView {
            matcher,
            guards: Seq::empty(),
            middleware: Seq::empty(),
            handlers: Seq::empty(),
            children: Seq::empty(),
        }
    }
}

impl RouteNode {
    /// The node as a mathematical value; `self@` is this.
    pub open spec fn content(self) -> NodeView
        decreases self, 0int,
    {
        NodeView {
            matcher: self.matcher@,
            guards: self.guards@,
            middleware: self.middleware@,
            handlers: self.handlers@,
            children: nodes_view(self.children@),
        }
    }
}

/// The contents of a sequence of nodes, one by one.
pub open spec fn nodes_view(nodes: Seq<RouteNode>) -> Seq<NodeView>
    decreases nodes, 1int,
{
    Seq::new(
        nodes.len(),
        |i: int|
            if 0 <= i < nodes.len() {
                nodes[i].content()
            } else {
                NodeView::bare(SegmentView::Static(Seq::empty()))
            },
    )
}

impl View for RouteNode {
    type V = NodeView;

    open spec fn view(&self) -> NodeView {
        self.content()
    }
}

/// The handler of the first entry whose filter admits `method`.
pub open spec fn handler_for(entries: Seq<HandlerEntry>, method: Method) -> Option<usize>
    decreases entries.len(),
{
    if entries.len() == 0 {
        None
    } else if entries[0].method.admits(method) {
        Some(entries[0].handler)
    } else {
        handler_for(entries.drop_first(), method)
    }
}

/// The name that a matcher binds, if it binds one.
pub open spec fn binder(matcher: SegmentView) -> Option<Seq<u8>> {
    match matcher {
        SegmentView::Static(_) => None,
        SegmentView::Param(name) => Some(name),
        SegmentView::Wildcard(name) => Some(name),
    }
}

impl RouteNode {
    /// The handler that this node has for `method`.
    pub fn handler(&self, method: Method) -> (found: Option<usize>)
        ensures
            found == handler_for(self@.handlers, method),
    {
        let mut i: usize = 0;
        assert(self.handlers@.skip(0) =~= self.handlers@);
        while i < self.handlers.len()
            invariant
                i <= self.handlers.len(),
                handler_for(self.handlers@, method) == handler_for(
                    self.handlers@.skip(i as int),
                    method,
                ),
            decreases self.handlers.len() - i,
        {
            let entry = self.handlers[i];
            assert(self.handlers@.skip(i as int)[0] == entry);
            assert(self.handlers@.skip(i as int).drop_first() =~= self.handlers@.skip(i + 1));
            if entry.method.accepts(method) {
                return Some(entry.handler);
            }
            i += 1;
        }
        None
    }
}

/// A compiled route tree: the middleware of the root scope and the routes
/// below the root, in declared order.
#[derive(Debug)]
pub struct Router {
    pub middleware: Vec<usize>,
    pub routes: Vec<RouteNode>,
}

/// The mathematical content of a [`Router`].
pub struct RouterView {
    pub middleware: Seq<usize>,
    pub routes: Seq<NodeView>,
}

impl View for Router {
    type V = RouterView;

    open spec fn view(&self) -> RouterView {
        RouterView { middleware: self.middleware@, routes: nodes_view(self.routes@) }
    }
}

/// Appends the numbers of `more` to `chain`.
pub(crate) fn append_ids(chain: &mut Vec<usize>, more: &Vec<usize>)
    ensures
        final(chain)@ == old(chain)@ + more@,
{
    let mut k: usize = 0;
    assert(more@.take(0) =~= Seq::<usize>::empty());
    assert(chain@ + more@.take(0) =~= chain@);
    while k < more.len()
        invariant
            k <= more.len(),
            chain@ == old(chain)@ + more@.take(k as int),
        decreases more.len() - k,
    {
        chain.push(more[k]);
        assert(more@.take(k + 1) =~= more@.take(k as int).push(more@[k as int]));
        assert(chain@ =~= old(chain)@ + more@.take(k + 1));
        k += 1;
    }
    assert(more@.take(more.len() as int) =~= more@);
}

} // verus!
