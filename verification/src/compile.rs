//! Construction of the route tree from a declared one.
//!
//! A declaration holds a pattern such as `/users/{id}/files/*rest`. The
//! pattern is cut into segments; `{name}` is a parameter, `*name` a
//! wildcard, anything else a literal. A declaration with several segments
//! becomes a chain of nodes, and its guards, middleware and target stand at
//! the last of them. No name may be bound twice on one path from the root
//! to a leaf.

use vstd::prelude::*;
use crate::method::MethodFilter;
use crate::path::copy_bytes;
use crate::path::copy_range;
use crate::path::same_bytes;
use crate::tree::append_ids;
use crate::tree::HandlerEntry;
use crate::tree::NodeView;
use crate::tree::RouteNode;
use crate::tree::Router;
use crate::tree::RouterView;
use crate::tree::Segment;
use crate::tree::SegmentView;

verus! {

/// What a declared route leads to.
#[derive(Debug)]
pub enum Target {
    /// A handler, for the methods that the filter admits.
    Handler { method: MethodFilter, handler: usize },
    /// A scope of further routes below the pattern.
    Scope(Vec<RouteDecl>),
}

/// One declared route or scope.
#[derive(Debug)]
pub struct RouteDecl {
    pub pattern: Vec<u8>,
    pub guards: Vec<usize>,
    pub middleware: Vec<usize>,
    pub target: Target,
}

/// A declared route tree: the middleware of the root scope and its routes.
#[derive(Debug)]
pub struct RouterDecl {
    pub middleware: Vec<usize>,
    pub routes: Vec<RouteDecl>,
}

/// A name that is bound twice on one path from the root to a leaf.
#[derive(Debug)]
pub struct RouteConflict {
    pub name: Vec<u8>,
}

/// The matcher that a pattern segment stands for.
pub open spec fn segment_of(piece: Seq<u8>) -> SegmentView {
    if piece.len() >= 2 && piece[0] == 0x7b && piece.last() == 0x7d {
        SegmentView::Param(piece.subrange(1, piece.len() - 1))
    } else if piece.len() >= 1 && piece[0] == 0x2a {
        SegmentView::Wildcard(piece.skip(1))
    } else {
        SegmentView::Static(piece)
    }
}

/// The matchers of a pattern, segment by segment.
pub open spec fn pattern_of(pattern: Seq<u8>) -> Seq<SegmentView> {
    let pieces = crate::path::segments_of(pattern);
    Seq::new(pieces.len(), |i: int| segment_of(pieces[i]))
}

/// The contents of a sequence of matchers, one by one.
pub open spec fn segments_view(segments: Seq<Segment>) -> Seq<SegmentView> {
    Seq::new(segments.len(), |i: int| segments[i]@)
}

/// The chain of nodes for the matchers from number `from` on: one node for
/// each, each the only child of the one before, and the last with the given
/// guards, middleware, handlers and children.
pub open spec fn chain_node(
    matchers: Seq<SegmentView>,
    from: int,
    guards: Seq<usize>,
    middleware: Seq<usize>,
    handlers: Seq<HandlerEntry>,
    children: Seq<NodeView>,
) -> NodeView
    decreases matchers.len() - from,
{
    if from + 1 >= matchers.len() {
        NodeView { matcher: matchers[from], guards, middleware, handlers, children }
    } else {
        NodeView {
            matcher: matchers[from],
            guards: Seq::empty(),
            middleware: Seq::empty(),
            handlers: Seq::empty(),
            children: seq![chain_node(matchers, from + 1, guards, middleware, handlers, children)],
        }
    }
}

/// The node that a declaration becomes.
pub open spec fn node_of(decl: RouteDecl) -> NodeView
    decreases decl, 0int,
{
    let matchers = pattern_of(decl.pattern@);
    match decl.target {
        Target::Handler { method, handler } => chain_node(
            matchers,
            0,
            decl.guards@,
            decl.middleware@,
            seq![HandlerEntry { method, handler }],
            Seq::empty(),
        ),
        Target::Scope(routes) => chain_node(
            matchers,
            0,
            decl.guards@,
            decl.middleware@,
            Seq::empty(),
            nodes_of(routes@),
        ),
    }
}

/// The nodes that a sequence of declarations becomes, in the same order.
pub open spec fn nodes_of(decls: Seq<RouteDecl>) -> Seq<NodeView>
    decreases decls, 1int,
{
    Seq::new(
        decls.len(),
        |i: int|
            if 0 <= i < decls.len() {
                node_of(decls[i])
            } else {
                NodeView::bare(SegmentView::Static(Seq::empty()))
            },
    )
}

/// The tree that a declared tree becomes.
pub open spec fn router_of(decl: RouterDecl) -> RouterView {
    RouterView { middleware: decl.middleware@, routes: nodes_of(decl.routes@) }
}

/// The first name, in the order of declaration, that the subtree of `node`
/// binds although `bound` or an ancestor inside the subtree has bound it.
pub open spec fn conflict_in(node: NodeView, bound: Seq<Seq<u8>>) -> Option<Seq<u8>>
    decreases node, 0int,
{
    match crate::tree::binder(node.matcher) {
        Some(name) => {
            if bound.contains(name) {
                Some(name)
            } else {
                conflict_among(node.children, 0, bound.push(name))
            }
        },
        None => conflict_among(node.children, 0, bound),
    }
}

/// The first such name in the subtrees of the nodes from number `from` on.
pub open spec fn conflict_among(nodes: Seq<NodeView>, from: int, bound: Seq<Seq<u8>>) -> Option<
    Seq<u8>,
>
    decreases nodes, nodes.len() - from,
{
    if from < 0 || from >= nodes.len() {
        None
    } else {
        match conflict_in(nodes[from], bound) {
            Some(name) => Some(name),
            None => conflict_among(nodes, from + 1, bound),
        }
    }
}

/// The first name that is bound twice on a path of the tree, if any is.
pub open spec fn conflict_of(router: RouterView) -> Option<Seq<u8>> {
    conflict_among(router.routes, 0, Seq::empty())
}

/// What construction returned, as a mathematical value.
pub open spec fn build_outcome(r: Result<Router, RouteConflict>) -> Result<RouterView, Seq<u8>> {
    match r {
        Ok(router) => Ok(router@),
        Err(conflict) => Err(conflict.name@),
    }
}

/// What construction owes for a declared tree: the tree, or the first name
/// that is bound twice.
pub open spec fn build_of(decl: RouterDecl) -> Result<RouterView, Seq<u8>> {
    match conflict_of(router_of(decl)) {
        Some(name) => Err(name),
        None => Ok(router_of(decl)),
    }
}

impl Router {
    /// No name is bound twice on a path from the root to a leaf.
    pub open spec fn wf(&self) -> bool {
        conflict_of(self@) is None
    }
}

/// The matcher for one segment of a pattern.
pub fn classify(piece: &[u8]) -> (matcher: Segment)
    ensures
        matcher@ == segment_of(piece@),
{
    let n = piece.len();
    if n >= 2 && piece[0] == 0x7b && piece[n - 1] == 0x7d {
        Segment::Param(copy_range(piece, 1, n - 1))
    } else if n >= 1 && piece[0] == 0x2a {
        Segment::Wildcard(copy_range(piece, 1, n))
    } else {
        Segment::Static(copy_bytes(piece))
    }
}

/// The matchers of a pattern. There is at least one.
pub fn matchers(pattern: &[u8]) -> (out: Vec<Segment>)
    ensures
        segments_view(out@) == pattern_of(pattern@),
        out@.len() >= 1,
{
    let pieces = crate::path::segments(pattern);
    proof {
        if pattern@.len() > 0 && pattern@[0] == crate::path::SLASH {
            crate::path::lemma_split_pieces(pattern@.skip(1));
        } else {
            crate::path::lemma_split_pieces(pattern@);
        }
    }
    let mut out: Vec<Segment> = Vec::new();
    let mut i: usize = 0;
    while i < pieces.len()
        invariant
            i <= pieces.len(),
            out@.len() == i,
            forall|k: int| 0 <= k < i ==> (#[trigger] out@[k])@ == segment_of(pieces@[k]@),
        decreases pieces.len() - i,
    {
        out.push(classify(pieces[i].as_slice()));
        i += 1;
    }
    assert(segments_view(out@) =~= pattern_of(pattern@)) by {
        assert forall|k: int| 0 <= k < out@.len() implies segments_view(out@)[k] == pattern_of(
            pattern@,
        )[k] by {
            assert(pieces.deep_view()[k] =~= pieces@[k]@);
        }
    }
    out
}

fn copy_ids(ids: &Vec<usize>) -> (out: Vec<usize>)
    ensures
        out@ == ids@,
{
    let mut out: Vec<usize> = Vec::new();
    append_ids(&mut out, ids);
    assert(out@ =~= ids@);
    out
}

fn build_nodes(decls: &Vec<RouteDecl>) -> (nodes: Vec<RouteNode>)
    ensures
        crate::tree::nodes_view(nodes@) == nodes_of(decls@),
    decreases decls, 1int,
{
    let mut nodes: Vec<RouteNode> = Vec::new();
    let mut i: usize = 0;
    while i < decls.len()
        invariant
            i <= decls.len(),
            nodes@.len() == i,
            forall|k: int| 0 <= k < i ==> (#[trigger] nodes@[k])@ == node_of(decls@[k]),
        decreases decls.len() - i,
    {
        nodes.push(build_node(&decls[i]));
        i += 1;
    }
    assert(crate::tree::nodes_view(nodes@) =~= nodes_of(decls@));
    nodes
}

fn build_node(decl: &RouteDecl) -> (node: RouteNode)
    ensures
        node@ == node_of(*decl),
    decreases decl, 0int,
{
    let mut rest = matchers(decl.pattern.as_slice());
    let ghost all = segments_view(rest@);
    let guards = copy_ids(&decl.guards);
    let middleware = copy_ids(&decl.middleware);
    let mut handlers: Vec<HandlerEntry> = Vec::new();
    let children = match &decl.target {
        Target::Handler { method, handler } => {
            handlers.push(HandlerEntry { method: *method, handler: *handler });
            assert(handlers@ =~= seq![HandlerEntry { method: *method, handler: *handler }]);
            let none: Vec<RouteNode> = Vec::new();
            assert(crate::tree::nodes_view(none@) =~= Seq::<NodeView>::empty());
            none
        },
        Target::Scope(routes) => build_nodes(routes),
    };
    let ghost leaf_handlers = handlers@;
    let ghost leaf_children = crate::tree::nodes_view(children@);
    let last = rest.pop().unwrap();
    let mut node = RouteNode { matcher: last, guards, middleware, handlers, children };
    assert(node@ == chain_node(
        all,
        rest@.len() as int,
        decl.guards@,
        decl.middleware@,
        leaf_handlers,
        leaf_children,
    ));
    while rest.len() > 0
        invariant
            rest@.len() < all.len(),
            forall|k: int| 0 <= k < rest@.len() ==> (#[trigger] rest@[k])@ == all[k],
            node@ == chain_node(
                all,
                rest@.len() as int,
                decl.guards@,
                decl.middleware@,
                leaf_handlers,
                leaf_children,
            ),
        decreases rest.len(),
    {
        let ghost inner = node@;
        let matcher = rest.pop().unwrap();
        let mut only: Vec<RouteNode> = Vec::new();
        only.push(node);
        assert(crate::tree::nodes_view(only@) =~= seq![inner]);
        node =
        RouteNode {
            matcher,
            guards: Vec::new(),
            middleware: Vec::new(),
            handlers: Vec::new(),
            children: only,
        };
    }
    node
}

fn is_bound(bound: &Vec<Vec<u8>>, name: &[u8]) -> (found: bool)
    ensures
        found == bound.deep_view().contains(name@),
{
    let mut i: usize = 0;
    while i < bound.len()
        invariant
            i <= bound.len(),
            forall|k: int| 0 <= k < i ==> bound.deep_view()[k] != name@,
        decreases bound.len() - i,
    {
        assert(bound.deep_view()[i as int] =~= bound@[i as int]@);
        if same_bytes(bound[i].as_slice(), name) {
            return true;
        }
        i += 1;
    }
    false
}

/// What a search for a conflict returned, as a mathematical value.
pub open spec fn conflict_view(found: Option<Vec<u8>>) -> Option<Seq<u8>> {
    match found {
        Some(name) => Some(name@),
        None => None,
    }
}

fn find_conflict(node: &RouteNode, bound: &mut Vec<Vec<u8>>) -> (found: Option<Vec<u8>>)
    ensures
        conflict_view(found) == conflict_in(node@, old(bound).deep_view()),
        final(bound).deep_view() == old(bound).deep_view(),
    decreases node, 0int,
{
    let depth = bound.len();
    let ghost before = bound.deep_view();
    match &node.matcher {
        Segment::Static(_) => find_conflict_among(&node.children, bound),
        Segment::Param(name) | Segment::Wildcard(name) => {
            if is_bound(bound, name.as_slice()) {
                return Some(copy_bytes(name.as_slice()));
            }
            let own = copy_bytes(name.as_slice());
            assert(own.deep_view() =~= name@);
            bound.push(own);
            assert(bound.deep_view() =~= before.push(name@));
            let found = find_conflict_among(&node.children, bound);
            let ghost deeper = bound@;
            let ghost deeper_view = bound.deep_view();
            bound.truncate(depth);
            assert(bound.deep_view() =~= before) by {
                assert forall|k: int| 0 <= k < depth implies bound.deep_view()[k] == before[k] by {
                    assert(bound@[k] == deeper[k]);
                    assert(deeper_view[k] == before.push(name@)[k]);
                }
            }
            found
        },
    }
}

fn find_conflict_among(nodes: &Vec<RouteNode>, bound: &mut Vec<Vec<u8>>) -> (found: Option<Vec<u8>>)
    ensures
        conflict_view(found) == conflict_among(
            crate::tree::nodes_view(nodes@),
            0,
            old(bound).deep_view(),
        ),
        final(bound).deep_view() == old(bound).deep_view(),
    decreases nodes, 1int,
{
    let ghost views = crate::tree::nodes_view(nodes@);
    let ghost before = bound.deep_view();
    let mut k: usize = 0;
    while k < nodes.len()
        invariant
            k <= nodes.len(),
            views == crate::tree::nodes_view(nodes@),
            before == old(bound).deep_view(),
            bound.deep_view() == before,
            conflict_among(views, 0, before) == conflict_among(views, k as int, before),
        decreases nodes.len() - k,
    {
        let found = find_conflict(&nodes[k], bound);
        if found.is_some() {
            return found;
        }
        k += 1;
    }
    None
}

/// Builds the route tree for a declared tree. The tree is refused when a
/// name is bound twice on one path from the root to a leaf; the error holds
/// the first such name in the order of declaration.
pub fn compile(decl: &RouterDecl) -> (r: Result<Router, RouteConflict>)
    ensures
        build_outcome(r) == build_of(*decl),
        r matches Ok(router) ==> router.wf(),
{
    let routes = build_nodes(&decl.routes);
    let mut bound: Vec<Vec<u8>> = Vec::new();
    assert(bound.deep_view() =~= Seq::<Seq<u8>>::empty());
    match find_conflict_among(&routes, &mut bound) {
        Some(name) => Err(RouteConflict { name }),
        None => Ok(Router { middleware: copy_ids(&decl.middleware), routes }),
    }
}

proof fn lemma_node_names<G: crate::request::Guards>(
    table: &G,
    node: NodeView,
    search: crate::matcher::Search,
    at: int,
    params: Seq<(Seq<u8>, Seq<u8>)>,
    middleware: Seq<usize>,
)
    requires
        crate::params::names_of(params).no_duplicates(),
        conflict_in(node, crate::params::names_of(params)) is None,
    ensures
        crate::matcher::route_node(table, node, search, at, params, middleware) matches Some(
            found,
        ) ==> crate::params::names_of(found.params).no_duplicates(),
    decreases node, 0int,
{
    let bound = crate::matcher::segment_binds(node.matcher, search.segments, at, params);
    let names = crate::params::names_of(params);
    match crate::tree::binder(node.matcher) {
        Some(name) => {
            assert(crate::params::names_of(bound) =~= names.push(name));
            assert(names.push(name).no_duplicates()) by {
                assert forall|i: int, j: int|
                    0 <= i < names.len() + 1 && 0 <= j < names.len() + 1 && i != j implies names.push(
                    name,
                )[i] != names.push(name)[j] by {
                    if i == names.len() {
                        assert(names.contains(names[j]));
                    } else if j == names.len() {
                        assert(names.contains(names[i]));
                    }
                }
            }
        },
        None => {
            assert(bound == params);
        },
    }
    if crate::matcher::route_node(table, node, search, at, params, middleware) is Some
        && crate::matcher::node_answer(node, search, at) is None {
        lemma_children_names(
            table,
            node.children,
            0,
            search,
            crate::matcher::segment_end(node.matcher, search.segments, at),
            bound,
            middleware + node.middleware,
        );
    }
}

proof fn lemma_children_names<G: crate::request::Guards>(
    table: &G,
    children: Seq<NodeView>,
    from: int,
    search: crate::matcher::Search,
    at: int,
    params: Seq<(Seq<u8>, Seq<u8>)>,
    middleware: Seq<usize>,
)
    requires
        0 <= from,
        crate::params::names_of(params).no_duplicates(),
        conflict_among(children, from, crate::params::names_of(params)) is None,
    ensures
        crate::matcher::route_children(
            table,
            children,
            from,
            search,
            at,
            params,
            middleware,
        ) matches Some(found) ==> crate::params::names_of(found.params).no_duplicates(),
    decreases children, children.len() - from,
{
    if from < children.len() {
        lemma_node_names(table, children[from], search, at, params, middleware);
        lemma_children_names(table, children, from + 1, search, at, params, middleware);
    }
}

/// In a tree without conflict, the parameters of a match have pairwise
/// different names: every name stands for one capture.
pub proof fn lemma_match_binds_each_name_once<G: crate::request::Guards>(
    table: &G,
    router: RouterView,
    method: crate::method::Method,
    path: Seq<u8>,
)
    requires
        conflict_of(router) is None,
    ensures
        crate::matcher::route(table, router, method, path) matches Some(found)
            ==> crate::params::names_of(found.params).no_duplicates(),
{
    let none = Seq::<(Seq<u8>, Seq<u8>)>::empty();
    assert(crate::params::names_of(none) =~= Seq::<Seq<u8>>::empty());
    lemma_children_names(
        table,
        router.routes,
        0,
        crate::matcher::Search { method, path, segments: crate::path::segments_of(path) },
        0,
        none,
        router.middleware,
    );
}

} // verus!
