//! Dispatch: the ordered, backtracking search of the route tree.
//!
//! The children of a node are tried in declared order. A child is entered
//! when its matcher accepts the path at the current place and all its guards
//! accept the request with the parameters bound so far. A node whose matcher
//! used up the path answers with its handler for the method, if it has one;
//! otherwise its children are tried on what is left. A branch that fails
//! leaves nothing behind, and the search goes on with the next sibling.

use vstd::prelude::*;
use crate::method::Method;
use crate::params::Params;
use crate::path::copy_bytes;
use crate::path::join_from;
use crate::path::same_bytes;
use crate::request::Guards;
use crate::request::RequestContext;
use crate::request::RequestView;
use crate::tree::append_ids;
use crate::tree::NodeView;
use crate::tree::RouteNode;
use crate::tree::Router;
use crate::tree::RouterView;
use crate::tree::Segment;
use crate::tree::SegmentView;

verus! {

/// The request that a search serves.
pub struct Search {
    pub method: Method,
    pub path: Seq<u8>,
    pub segments: Seq<Seq<u8>>,
}

/// The mathematical content of a [`RouteMatch`].
pub struct MatchView {
    pub handler: usize,
    pub middleware: Seq<usize>,
    pub params: Seq<(Seq<u8>, Seq<u8>)>,
}

/// The route that a request was matched to.
#[derive(Debug)]
pub struct RouteMatch {
    /// The handler to call.
    pub handler: usize,
    /// The middleware around the handler, outermost first: that of the
    /// ancestors from the root down, then the matched node's own.
    pub middleware: Vec<usize>,
    /// What the matched branch captured.
    pub params: Params,
}

impl View for RouteMatch {
    type V = MatchView;

    open spec fn view(&self) -> MatchView {
        MatchView { handler: self.handler, middleware: self.middleware@, params: self.params@ }
    }
}

/// Whether `matcher` accepts the path at segment `at`.
pub open spec fn segment_accepts(matcher: SegmentView, segments: Seq<Seq<u8>>, at: int) -> bool {
    match matcher {
        SegmentView::Static(literal) => 0 <= at < segments.len() && segments[at] == literal,
        SegmentView::Param(_) => 0 <= at < segments.len() && segments[at].len() > 0,
        SegmentView::Wildcard(_) => 0 <= at <= segments.len(),
    }
}

/// The place behind what `matcher` consumed.
pub open spec fn segment_end(matcher: SegmentView, segments: Seq<Seq<u8>>, at: int) -> int {
    match matcher {
        SegmentView::Wildcard(_) => segments.len() as int,
        _ => at + 1,
    }
}

/// The bindings after `matcher` accepted the path at segment `at`.
pub open spec fn segment_binds(
    matcher: SegmentView,
    segments: Seq<Seq<u8>>,
    at: int,
    params: Seq<(Seq<u8>, Seq<u8>)>,
) -> Seq<(Seq<u8>, Seq<u8>)> {
    match matcher {
        SegmentView::Static(_) => params,
        SegmentView::Param(name) => params.push((name, segments[at])),
        SegmentView::Wildcard(name) => params.push((name, crate::path::join(segments.skip(at)))),
    }
}

/// Whether every guard of `ids` accepts `request`.
pub open spec fn guards_accept<G: Guards>(table: &G, ids: Seq<usize>, request: RequestView) -> bool {
    forall|k: int| 0 <= k < ids.len() ==> table.accepts(#[trigger] ids[k], request)
}

/// Whether `node` can be entered at segment `at`: its matcher accepts, and
/// its guards accept the request with the node's own binding in place.
pub open spec fn node_admits<G: Guards>(
    table: &G,
    node: NodeView,
    search: Search,
    at: int,
    params: Seq<(Seq<u8>, Seq<u8>)>,
) -> bool {
    &&& segment_accepts(node.matcher, search.segments, at)
    &&& guards_accept(
        table,
        node.guards,
        RequestView {
            method: search.method,
            path: search.path,
            params: segment_binds(node.matcher, search.segments, at, params),
        },
    )
}

/// The handler with which `node` answers at once: the path must be used up,
/// and the node must have a handler for the method.
pub open spec fn node_answer(node: NodeView, search: Search, at: int) -> Option<usize> {
    if segment_end(node.matcher, search.segments, at) >= search.segments.len() {
        crate::tree::handler_for(node.handlers, search.method)
    } else {
        None
    }
}

/// The match that the subtree of `node` yields when the search stands at
/// segment `at` with `params` bound and `middleware` collected.
pub open spec fn route_node<G: Guards>(
    table: &G,
    node: NodeView,
    search: Search,
    at: int,
    params: Seq<(Seq<u8>, Seq<u8>)>,
    middleware: Seq<usize>,
) -> Option<MatchView>
    decreases node, 0int,
{
    if !node_admits(table, node, search, at, params) {
        None
    } else {
        let bound = segment_binds(node.matcher, search.segments, at, params);
        let chain = middleware + node.middleware;
        match node_answer(node, search, at) {
            Some(handler) => Some(MatchView { handler, middleware: chain, params: bound }),
            None => {
                if node.matcher is Wildcard {
                    None
                } else {
                    route_children(
                        table,
                        node.children,
                        0,
                        search,
                        segment_end(node.matcher, search.segments, at),
                        bound,
                        chain,
                    )
                }
            },
        }
    }
}

/// The match that the children from number `from` on yield: that of the
/// first child that yields one.
pub open spec fn route_children<G: Guards>(
    table: &G,
    children: Seq<NodeView>,
    from: int,
    search: Search,
    at: int,
    params: Seq<(Seq<u8>, Seq<u8>)>,
    middleware: Seq<usize>,
) -> Option<MatchView>
    decreases children, children.len() - from,
{
    if from < 0 || from >= children.len() {
        None
    } else {
        match route_node(table, children[from], search, at, params, middleware) {
            Some(found) => Some(found),
            None => route_children(table, children, from + 1, search, at, params, middleware),
        }
    }
}

/// The match for a request with `method` and `path`, if the tree has one.
pub open spec fn route<G: Guards>(
    table: &G,
    router: RouterView,
    method: Method,
    path: Seq<u8>,
) -> Option<MatchView> {
    route_children(
        table,
        router.routes,
        0,
        Search { method, path, segments: crate::path::segments_of(path) },
        0,
        Seq::empty(),
        router.middleware,
    )
}

/// What a search returned, as a mathematical value.
pub open spec fn match_view(found: Option<RouteMatch>) -> Option<MatchView> {
    match found {
        Some(m) => Some(m@),
        None => None,
    }
}

/// What a step of the search left behind: on success the handler with the
/// bindings and the middleware of the match, on failure nothing new.
pub open spec fn search_left(
    expected: Option<MatchView>,
    found: Option<usize>,
    params_before: Seq<(Seq<u8>, Seq<u8>)>,
    params_after: Seq<(Seq<u8>, Seq<u8>)>,
    chain_before: Seq<usize>,
    chain_after: Seq<usize>,
) -> bool {
    match expected {
        Some(m) => found == Some(m.handler) && params_after == m.params && chain_after
            == m.middleware,
        None => found is None && params_after == params_before && chain_after == chain_before,
    }
}

fn ask_guards<G: Guards>(table: &G, ids: &Vec<usize>, request: &RequestContext) -> (ok: bool)
    ensures
        ok == guards_accept(table, ids@, request@),
{
    let mut k: usize = 0;
    while k < ids.len()
        invariant
            k <= ids.len(),
            forall|j: int| 0 <= j < k ==> table.accepts(#[trigger] ids@[j], request@),
        decreases ids.len() - k,
    {
        if !table.check(ids[k], request) {
            return false;
        }
        k += 1;
    }
    true
}

fn visit<G: Guards>(
    table: &G,
    node: &RouteNode,
    method: Method,
    path: &[u8],
    segments: &Vec<Vec<u8>>,
    at: usize,
    params: &mut Params,
    chain: &mut Vec<usize>,
) -> (found: Option<usize>)
    requires
        at <= segments.len(),
    ensures
        search_left(
            route_node(
                table,
                node@,
                Search { method, path: path@, segments: segments.deep_view() },
                at as int,
                old(params)@,
                old(chain)@,
            ),
            found,
            old(params)@,
            final(params)@,
            old(chain)@,
            final(chain)@,
        ),
    decreases node, 0int,
{
    let ghost search = Search { method, path: path@, segments: segments.deep_view() };
    let bound_before = params.len();
    let chain_before = chain.len();
    let end: usize;
    match &node.matcher {
        Segment::Static(literal) => {
            if at >= segments.len() || !same_bytes(segments[at].as_slice(), literal.as_slice()) {
                assert(at < segments.len() ==> segments.deep_view()[at as int] =~= segments@[at as int]@);
                return None;
            }
            assert(segments.deep_view()[at as int] =~= segments@[at as int]@);
            end = at + 1;
        },
        Segment::Param(name) => {
            if at >= segments.len() || segments[at].len() == 0 {
                assert(at < segments.len() ==> segments.deep_view()[at as int] =~= segments@[at as int]@);
                return None;
            }
            assert(segments.deep_view()[at as int] =~= segments@[at as int]@);
            params.bind(copy_bytes(name.as_slice()), copy_bytes(segments[at].as_slice()));
            end = at + 1;
        },
        Segment::Wildcard(name) => {
            params.bind(copy_bytes(name.as_slice()), join_from(segments, at));
            end = segments.len();
        },
    }
    assert(segment_accepts(node@.matcher, search.segments, at as int));
    assert(params@ == segment_binds(node@.matcher, search.segments, at as int, old(params)@));
    assert(end == segment_end(node@.matcher, search.segments, at as int));
    let request = RequestContext { method, path, params: &*params };
    let admitted = ask_guards(table, &node.guards, &request);
    if !admitted {
        params.unwind(bound_before);
        assert(params@ =~= old(params)@);
        return None;
    }
    append_ids(chain, &node.middleware);
    if end >= segments.len() {
        match node.handler(method) {
            Some(handler) => {
                return Some(handler);
            },
            None => {},
        }
    }
    let below = match &node.matcher {
        Segment::Wildcard(_) => None,
        _ => visit_children(table, &node.children, method, path, segments, end, params, chain),
    };
    if below.is_none() {
        params.unwind(bound_before);
        chain.truncate(chain_before);
        assert(params@ =~= old(params)@);
        assert(chain@ =~= old(chain)@);
    }
    below
}

fn visit_children<G: Guards>(
    table: &G,
    children: &Vec<RouteNode>,
    method: Method,
    path: &[u8],
    segments: &Vec<Vec<u8>>,
    at: usize,
    params: &mut Params,
    chain: &mut Vec<usize>,
) -> (found: Option<usize>)
    requires
        at <= segments.len(),
    ensures
        search_left(
            route_children(
                table,
                crate::tree::nodes_view(children@),
                0,
                Search { method, path: path@, segments: segments.deep_view() },
                at as int,
                old(params)@,
                old(chain)@,
            ),
            found,
            old(params)@,
            final(params)@,
            old(chain)@,
            final(chain)@,
        ),
    decreases children, 1int,
{
    let ghost search = Search { method, path: path@, segments: segments.deep_view() };
    let ghost nodes = crate::tree::nodes_view(children@);
    let mut k: usize = 0;
    while k < children.len()
        invariant
            k <= children.len(),
            at <= segments.len(),
            nodes == crate::tree::nodes_view(children@),
            search == (Search { method, path: path@, segments: segments.deep_view() }),
            params@ == old(params)@,
            chain@ == old(chain)@,
            route_children(table, nodes, 0, search, at as int, old(params)@, old(chain)@)
                == route_children(table, nodes, k as int, search, at as int, old(params)@, old(chain)@),
        decreases children.len() - k,
    {
        let found = visit(table, &children[k], method, path, segments, at, params, chain);
        if found.is_some() {
            return found;
        }
        k += 1;
    }
    None
}

impl Router {
    /// Matches a request to a route: the handler to call, the middleware
    /// around it and the captured parameters, or `None` where the tree has
    /// no route for the request.
    pub fn find<G: Guards>(&self, guards: &G, method: Method, path: &[u8]) -> (found: Option<
        RouteMatch,
    >)
        ensures
            match_view(found) == route(guards, self@, method, path@),
    {
        let segments = crate::path::segments(path);
        let mut params = Params::new();
        let mut chain: Vec<usize> = Vec::new();
        append_ids(&mut chain, &self.middleware);
        assert(chain@ =~= self.middleware@);
        match visit_children(guards, &self.routes, method, path, &segments, 0, &mut params, &mut chain) {
            Some(handler) => Some(RouteMatch { handler, middleware: chain, params }),
            None => None,
        }
    }
}

/// The number of the first child from `from` on whose subtree yields a
/// match; the number of children where none does.
pub open spec fn first_match<G: Guards>(
    table: &G,
    children: Seq<NodeView>,
    from: int,
    search: Search,
    at: int,
    params: Seq<(Seq<u8>, Seq<u8>)>,
    middleware: Seq<usize>,
) -> int
    decreases children.len() - from,
{
    if from < 0 || from >= children.len() {
        children.len() as int
    } else if route_node(table, children[from], search, at, params, middleware) is Some {
        from
    } else {
        first_match(table, children, from + 1, search, at, params, middleware)
    }
}

/// Declared order decides. Among siblings the match is that of the first
/// one, in declared order, whose subtree yields a match: every sibling
/// before it yields none, and a later sibling counts only where all the
/// earlier ones yield none.
pub proof fn lemma_declared_order_decides<G: Guards>(
    table: &G,
    children: Seq<NodeView>,
    from: int,
    search: Search,
    at: int,
    params: Seq<(Seq<u8>, Seq<u8>)>,
    middleware: Seq<usize>,
)
    requires
        0 <= from <= children.len(),
    ensures
        ({
            let first = first_match(table, children, from, search, at, params, middleware);
            let all = route_children(table, children, from, search, at, params, middleware);
            &&& from <= first <= children.len()
            &&& forall|i: int|
                from <= i < first ==> (#[trigger] route_node(
                    table,
                    children[i],
                    search,
                    at,
                    params,
                    middleware,
                )) is None
            &&& first < children.len() ==> all is Some && all == route_node(
                table,
                children[first],
                search,
                at,
                params,
                middleware,
            )
            &&& first == children.len() ==> all is None
        }),
    decreases children.len() - from,
{
    if from < children.len() {
        if route_node(table, children[from], search, at, params, middleware) is None {
            lemma_declared_order_decides(table, children, from + 1, search, at, params, middleware);
        }
    }
}

proof fn lemma_behind_failed_sibling<G: Guards>(
    table: &G,
    children: Seq<NodeView>,
    gone: int,
    from: int,
    search: Search,
    at: int,
    params: Seq<(Seq<u8>, Seq<u8>)>,
    middleware: Seq<usize>,
)
    requires
        0 <= gone < from <= children.len(),
    ensures
        route_children(table, children, from, search, at, params, middleware) == route_children(
            table,
            children.remove(gone),
            from - 1,
            search,
            at,
            params,
            middleware,
        ),
    decreases children.len() - from,
{
    let fewer = children.remove(gone);
    if from < children.len() {
        assert(fewer[from - 1] == children[from]);
        lemma_behind_failed_sibling(table, children, gone, from + 1, search, at, params, middleware);
    }
}

proof fn lemma_up_to_failed_sibling<G: Guards>(
    table: &G,
    children: Seq<NodeView>,
    gone: int,
    from: int,
    search: Search,
    at: int,
    params: Seq<(Seq<u8>, Seq<u8>)>,
    middleware: Seq<usize>,
)
    requires
        0 <= from <= gone < children.len(),
        route_node(table, children[gone], search, at, params, middleware) is None,
    ensures
        route_children(table, children, from, search, at, params, middleware) == route_children(
            table,
            children.remove(gone),
            from,
            search,
            at,
            params,
            middleware,
        ),
    decreases gone - from,
{
    let fewer = children.remove(gone);
    if from == gone {
        lemma_behind_failed_sibling(table, children, gone, gone + 1, search, at, params, middleware);
    } else {
        assert(fewer[from] == children[from]);
        lemma_up_to_failed_sibling(table, children, gone, from + 1, search, at, params, middleware);
    }
}

/// A failed branch leaves nothing behind. Where the subtree of a sibling
/// yields no match, be it for a guard that rejects, a segment that does not
/// fit or a method without handler, the search gives what it would give
/// without that sibling: the same handler, the same middleware and the same
/// parameters, with nothing of what the failed branch bound on its way.
pub proof fn lemma_failed_sibling_is_invisible<G: Guards>(
    table: &G,
    children: Seq<NodeView>,
    gone: int,
    search: Search,
    at: int,
    params: Seq<(Seq<u8>, Seq<u8>)>,
    middleware: Seq<usize>,
)
    requires
        0 <= gone < children.len(),
        route_node(table, children[gone], search, at, params, middleware) is None,
    ensures
        route_children(table, children, 0, search, at, params, middleware) == route_children(
            table,
            children.remove(gone),
            0,
            search,
            at,
            params,
            middleware,
        ),
{
    lemma_up_to_failed_sibling(table, children, gone, 0, search, at, params, middleware);
}

/// A node whose guards reject the request yields no match, whatever stands
/// below it.
pub proof fn lemma_rejecting_guard_fails_node<G: Guards>(
    table: &G,
    node: NodeView,
    search: Search,
    at: int,
    params: Seq<(Seq<u8>, Seq<u8>)>,
    middleware: Seq<usize>,
    guard: int,
)
    requires
        0 <= guard < node.guards.len(),
        !table.accepts(
            node.guards[guard],
            RequestView {
                method: search.method,
                path: search.path,
                params: segment_binds(node.matcher, search.segments, at, params),
            },
        ),
    ensures
        route_node(table, node, search, at, params, middleware) is None,
{
}

/// A match keeps what was bound and collected above it: the parameters and
/// the middleware of the ancestors come first, in their order.
pub proof fn lemma_match_extends<G: Guards>(
    table: &G,
    node: NodeView,
    search: Search,
    at: int,
    params: Seq<(Seq<u8>, Seq<u8>)>,
    middleware: Seq<usize>,
)
    ensures
        route_node(table, node, search, at, params, middleware) matches Some(found) ==> {
            &&& params.is_prefix_of(found.params)
            &&& (middleware + node.middleware).is_prefix_of(found.middleware)
        },
    decreases node, 0int,
{
    if route_node(table, node, search, at, params, middleware) is Some {
        let bound = segment_binds(node.matcher, search.segments, at, params);
        let chain = middleware + node.middleware;
        assert(params.is_prefix_of(bound));
        if node_answer(node, search, at) is None {
            lemma_children_extend(
                table,
                node.children,
                0,
                search,
                segment_end(node.matcher, search.segments, at),
                bound,
                chain,
            );
        }
    }
}

/// The same for the children of a node, from number `from` on.
pub proof fn lemma_children_extend<G: Guards>(
    table: &G,
    children: Seq<NodeView>,
    from: int,
    search: Search,
    at: int,
    params: Seq<(Seq<u8>, Seq<u8>)>,
    middleware: Seq<usize>,
)
    ensures
        route_children(table, children, from, search, at, params, middleware) matches Some(
            found,
        ) ==> {
            &&& params.is_prefix_of(found.params)
            &&& middleware.is_prefix_of(found.middleware)
        },
    decreases children, children.len() - from,
{
    if 0 <= from < children.len() {
        let node = children[from];
        match route_node(table, node, search, at, params, middleware) {
            Some(found) => {
                lemma_match_extends(table, node, search, at, params, middleware);
                assert(middleware.is_prefix_of(middleware + node.middleware));
            },
            None => {
                lemma_children_extend(table, children, from + 1, search, at, params, middleware);
            },
        }
    }
}

/// Matching is a function of the tree, the request and the answers of the
/// guards, and of nothing else: two guard tables that answer alike give the
/// same match, handler, middleware and parameters.
pub proof fn lemma_same_answers_same_match<G: Guards, H: Guards>(
    one: &G,
    other: &H,
    router: RouterView,
    method: Method,
    path: Seq<u8>,
)
    requires
        forall|guard: usize, request: RequestView|
            one.accepts(guard, request) == other.accepts(guard, request),
    ensures
        route(one, router, method, path) == route(other, router, method, path),
{
    lemma_same_answers_children(
        one,
        other,
        router.routes,
        0,
        Search { method, path, segments: crate::path::segments_of(path) },
        0,
        Seq::empty(),
        router.middleware,
    );
}

proof fn lemma_same_answers_node<G: Guards, H: Guards>(
    one: &G,
    other: &H,
    node: NodeView,
    search: Search,
    at: int,
    params: Seq<(Seq<u8>, Seq<u8>)>,
    middleware: Seq<usize>,
)
    requires
        forall|guard: usize, request: RequestView|
            one.accepts(guard, request) == other.accepts(guard, request),
    ensures
        route_node(one, node, search, at, params, middleware) == route_node(
            other,
            node,
            search,
            at,
            params,
            middleware,
        ),
    decreases node, 0int,
{
    let bound = segment_binds(node.matcher, search.segments, at, params);
    let request = RequestView { method: search.method, path: search.path, params: bound };
    assert(guards_accept(one, node.guards, request) == guards_accept(
        other,
        node.guards,
        request,
    ));
    lemma_same_answers_children(
        one,
        other,
        node.children,
        0,
        search,
        segment_end(node.matcher, search.segments, at),
        bound,
        middleware + node.middleware,
    );
}

proof fn lemma_same_answers_children<G: Guards, H: Guards>(
    one: &G,
    other: &H,
    children: Seq<NodeView>,
    from: int,
    search: Search,
    at: int,
    params: Seq<(Seq<u8>, Seq<u8>)>,
    middleware: Seq<usize>,
)
    requires
        forall|guard: usize, request: RequestView|
            one.accepts(guard, request) == other.accepts(guard, request),
    ensures
        route_children(one, children, from, search, at, params, middleware) == route_children(
            other,
            children,
            from,
            search,
            at,
            params,
            middleware,
        ),
    decreases children, children.len() - from,
{
    if 0 <= from < children.len() {
        lemma_same_answers_node(one, other, children[from], search, at, params, middleware);
        lemma_same_answers_children(one, other, children, from + 1, search, at, params, middleware);
    }
}

/// A wildcard takes what is left of the path, be it nothing, one segment
/// or many: where its guards accept and it has a handler for the method, it
/// is the match, and its name is bound to the rest joined with `/`.
pub proof fn lemma_wildcard_takes_the_rest<G: Guards>(
    table: &G,
    node: NodeView,
    search: Search,
    at: int,
    params: Seq<(Seq<u8>, Seq<u8>)>,
    middleware: Seq<usize>,
)
    requires
        node.matcher is Wildcard,
        0 <= at <= search.segments.len(),
        node_admits(table, node, search, at, params),
        crate::tree::handler_for(node.handlers, search.method) is Some,
    ensures
        route_node(table, node, search, at, params, middleware) == Some(
            MatchView {
                handler: crate::tree::handler_for(node.handlers, search.method)->0,
                middleware: middleware + node.middleware,
                params: params.push(
                    (node.matcher->Wildcard_0, crate::path::join(search.segments.skip(at))),
                ),
            },
        ),
{
}

/// A node that has no handler for the method and no children yields no
/// match, although its path and its guards may fit.
pub proof fn lemma_method_without_handler<G: Guards>(
    table: &G,
    node: NodeView,
    search: Search,
    at: int,
    params: Seq<(Seq<u8>, Seq<u8>)>,
    middleware: Seq<usize>,
)
    requires
        crate::tree::handler_for(node.handlers, search.method) is None,
        node.children.len() == 0,
    ensures
        route_node(table, node, search, at, params, middleware) is None,
{
}

} // verus!
