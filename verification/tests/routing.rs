use submillisecond_router::compile::compile;
use submillisecond_router::compile::RouteDecl;
use submillisecond_router::compile::RouterDecl;
use submillisecond_router::compile::Target;
use submillisecond_router::matcher::RouteMatch;
use submillisecond_router::method::Method;
use submillisecond_router::method::MethodFilter;
use submillisecond_router::request::Guards;
use submillisecond_router::request::RequestContext;
use submillisecond_router::request::RequestView;
use submillisecond_router::tree::Router;

const NEVER: usize = 0;
const ALWAYS: usize = 1;
const A_IS_V: usize = 2;
const IS_POST: usize = 3;
const NO_PARAMS: usize = 4;

/// The guards of these tests, by number.
struct Table;

impl Guards for Table {
    fn accepts(&self, _guard: usize, _request: RequestView) -> bool {
        unreachable!("specification only")
    }

    fn check(&self, guard: usize, request: &RequestContext) -> bool {
        match guard {
            NEVER => false,
            ALWAYS => true,
            A_IS_V => request.params.get(b"a").map(|v| v.as_slice()) == Some(&b"v"[..]),
            IS_POST => request.method == Method::Post,
            NO_PARAMS => request.params.is_empty(),
            _ => false,
        }
    }
}

fn route(method: MethodFilter, pattern: &str, guards: &[usize], middleware: &[usize], handler: usize) -> RouteDecl {
    RouteDecl {
        pattern: pattern.as_bytes().to_vec(),
        guards: guards.to_vec(),
        middleware: middleware.to_vec(),
        target: Target::Handler { method, handler },
    }
}

fn scope(pattern: &str, guards: &[usize], middleware: &[usize], routes: Vec<RouteDecl>) -> RouteDecl {
    RouteDecl {
        pattern: pattern.as_bytes().to_vec(),
        guards: guards.to_vec(),
        middleware: middleware.to_vec(),
        target: Target::Scope(routes),
    }
}

fn get(pattern: &str, handler: usize) -> RouteDecl {
    route(MethodFilter::Only(Method::Get), pattern, &[], &[], handler)
}

fn router(middleware: &[usize], routes: Vec<RouteDecl>) -> Router {
    compile(&RouterDecl { middleware: middleware.to_vec(), routes }).unwrap()
}

fn find(router: &Router, method: Method, path: &str) -> Option<RouteMatch> {
    router.find(&Table, method, path.as_bytes())
}

fn params_of(found: &RouteMatch) -> Vec<(String, String)> {
    let mut out = Vec::new();
    for i in 0..found.params.len() {
        let entry = found.params.entry(i);
        out.push((
            String::from_utf8(entry.name.clone()).unwrap(),
            String::from_utf8(entry.value.clone()).unwrap(),
        ));
    }
    out
}

fn pair(name: &str, value: &str) -> (String, String) {
    (name.to_string(), value.to_string())
}

#[test]
fn matching_is_deterministic() {
    let tree = router(&[7], vec![
        scope("/users/{id}", &[ALWAYS], &[1], vec![get("/posts/{post}", 10), get("/*rest", 11)]),
        get("/users", 12),
    ]);
    for path in ["/users/5/posts/9", "/users/5/x/y", "/users", "/nothing"] {
        let first = find(&tree, Method::Get, path);
        let second = find(&tree, Method::Get, path);
        assert_eq!(first.is_some(), second.is_some());
        if let (Some(a), Some(b)) = (first, second) {
            assert_eq!(a.handler, b.handler);
            assert_eq!(a.middleware, b.middleware);
            assert_eq!(params_of(&a), params_of(&b));
        }
    }
}

#[test]
fn declared_order_decides_between_siblings() {
    let param_first = router(&[], vec![get("/{x}", 1), get("/static", 2)]);
    let found = find(&param_first, Method::Get, "/static").unwrap();
    assert_eq!(found.handler, 1);
    assert_eq!(params_of(&found), vec![pair("x", "static")]);

    let static_first = router(&[], vec![get("/static", 2), get("/{x}", 1)]);
    let found = find(&static_first, Method::Get, "/static").unwrap();
    assert_eq!(found.handler, 2);
    assert!(found.params.is_empty());
    let found = find(&static_first, Method::Get, "/other").unwrap();
    assert_eq!(found.handler, 1);
}

#[test]
fn later_sibling_is_tried_when_earlier_subtree_fails() {
    let tree = router(&[], vec![
        scope("/a", &[], &[5], vec![get("/b", 1)]),
        get("/a/c", 2),
    ]);
    assert_eq!(find(&tree, Method::Get, "/a/b").unwrap().handler, 1);
    let found = find(&tree, Method::Get, "/a/c").unwrap();
    assert_eq!(found.handler, 2);
    assert_eq!(found.middleware, Vec::<usize>::new());
}

#[test]
fn guard_rejection_falls_through() {
    let tree = router(&[], vec![
        route(MethodFilter::Any, "/foo", &[NEVER], &[], 1),
        route(MethodFilter::Any, "/foo", &[], &[], 2),
    ]);
    assert_eq!(find(&tree, Method::Get, "/foo").unwrap().handler, 2);
}

#[test]
fn all_guards_must_accept() {
    let tree = router(&[], vec![
        route(MethodFilter::Any, "/foo", &[ALWAYS, NEVER], &[], 1),
        route(MethodFilter::Any, "/foo", &[ALWAYS, ALWAYS], &[], 2),
    ]);
    assert_eq!(find(&tree, Method::Get, "/foo").unwrap().handler, 2);
    let closed = router(&[], vec![route(MethodFilter::Any, "/foo", &[NEVER], &[], 1)]);
    assert!(find(&closed, Method::Get, "/foo").is_none());
}

#[test]
fn rejected_branch_leaves_no_params() {
    let tree = router(&[], vec![
        route(MethodFilter::Any, "/{a}/x", &[NEVER], &[], 1),
        route(MethodFilter::Any, "/{a}/y", &[ALWAYS], &[], 2),
    ]);
    let found = find(&tree, Method::Get, "/v/y").unwrap();
    assert_eq!(found.handler, 2);
    assert_eq!(params_of(&found), vec![pair("a", "v")]);
}

#[test]
fn rejected_scope_leaves_no_params() {
    let tree = router(&[], vec![
        scope("/{b}", &[NEVER], &[3], vec![get("/y", 1)]),
        scope("/{c}", &[ALWAYS], &[4], vec![
            route(MethodFilter::Any, "/{d}", &[NEVER], &[5], 2),
            get("/y", 3),
        ]),
    ]);
    let found = find(&tree, Method::Get, "/v/y").unwrap();
    assert_eq!(found.handler, 3);
    assert_eq!(params_of(&found), vec![pair("c", "v")]);
    assert_eq!(found.middleware, vec![4]);
}

#[test]
fn guard_sees_params_bound_so_far() {
    let tree = router(&[], vec![
        route(MethodFilter::Any, "/{a}", &[A_IS_V], &[], 1),
        route(MethodFilter::Any, "/{b}", &[NO_PARAMS], &[], 2),
        route(MethodFilter::Any, "/{c}", &[], &[], 3),
    ]);
    assert_eq!(find(&tree, Method::Get, "/v").unwrap().handler, 1);
    let found = find(&tree, Method::Get, "/w").unwrap();
    assert_eq!(found.handler, 3);
    assert_eq!(params_of(&found), vec![pair("c", "w")]);
}

#[test]
fn guard_sees_method() {
    let tree = router(&[], vec![
        route(MethodFilter::Any, "/m", &[IS_POST], &[], 1),
        route(MethodFilter::Any, "/m", &[], &[], 2),
    ]);
    assert_eq!(find(&tree, Method::Post, "/m").unwrap().handler, 1);
    assert_eq!(find(&tree, Method::Get, "/m").unwrap().handler, 2);
}

#[test]
fn wildcard_absorbs_zero_or_more_segments() {
    let tree = router(&[], vec![get("/files/*rest", 1)]);
    let found = find(&tree, Method::Get, "/files").unwrap();
    assert_eq!(found.handler, 1);
    assert_eq!(params_of(&found), vec![pair("rest", "")]);
    let found = find(&tree, Method::Get, "/files/a/b").unwrap();
    assert_eq!(params_of(&found), vec![pair("rest", "a/b")]);
    let found = find(&tree, Method::Get, "/files/a").unwrap();
    assert_eq!(params_of(&found), vec![pair("rest", "a")]);
    let found = find(&tree, Method::Get, "/files/").unwrap();
    assert_eq!(params_of(&found), vec![pair("rest", "")]);
    assert!(find(&tree, Method::Get, "/file").is_none());
}

#[test]
fn own_handler_comes_before_wildcard_child() {
    let tree = router(&[], vec![
        scope("/files", &[], &[], vec![get("", 9)]),
        get("/files", 1),
        route(MethodFilter::Only(Method::Post), "/files/*rest", &[], &[], 2),
    ]);
    assert_eq!(find(&tree, Method::Get, "/files").unwrap().handler, 1);
    assert_eq!(find(&tree, Method::Post, "/files").unwrap().handler, 2);
    assert_eq!(find(&tree, Method::Get, "/files/").unwrap().handler, 9);
}

#[test]
fn nothing_is_matched_below_a_wildcard() {
    let tree = router(&[], vec![scope("/*rest", &[], &[], vec![get("/x", 1)])]);
    assert!(find(&tree, Method::Get, "/a/x").is_none());
    assert!(find(&tree, Method::Get, "/x").is_none());
}

#[test]
fn method_without_handler_is_no_match() {
    let tree = router(&[], vec![get("/bar", 1)]);
    assert_eq!(find(&tree, Method::Get, "/bar").unwrap().handler, 1);
    assert!(find(&tree, Method::Post, "/bar").is_none());
}

#[test]
fn method_mismatch_goes_on_to_next_sibling() {
    let tree = router(&[], vec![
        get("/bar", 1),
        route(MethodFilter::Only(Method::Post), "/bar", &[], &[], 2),
        route(MethodFilter::Any, "/bar", &[], &[], 3),
    ]);
    assert_eq!(find(&tree, Method::Get, "/bar").unwrap().handler, 1);
    assert_eq!(find(&tree, Method::Post, "/bar").unwrap().handler, 2);
    assert_eq!(find(&tree, Method::Delete, "/bar").unwrap().handler, 3);
}

#[test]
fn middleware_comes_outermost_first() {
    let tree = router(&[0], vec![
        scope("/foo", &[], &[1, 2], vec![route(MethodFilter::Any, "/bar/baz", &[], &[3], 7)]),
        route(MethodFilter::Any, "/solo", &[], &[4], 8),
    ]);
    let found = find(&tree, Method::Get, "/foo/bar/baz").unwrap();
    assert_eq!(found.handler, 7);
    assert_eq!(found.middleware, vec![0, 1, 2, 3]);
    assert_eq!(find(&tree, Method::Get, "/solo").unwrap().middleware, vec![0, 4]);
}

#[test]
fn scoped_routes_with_guards_and_middleware() {
    let global = 0;
    let logging = 1;
    let foo_bar_handler = 10;
    let bar_handler = 11;
    let foo_handler = 12;
    let tree = router(&[global], vec![
        scope("/foo", &[ALWAYS], &[logging], vec![
            route(MethodFilter::Only(Method::Get), "/bar", &[ALWAYS], &[], foo_bar_handler),
        ]),
        route(MethodFilter::Only(Method::Get), "/bar", &[ALWAYS], &[logging], bar_handler),
        route(MethodFilter::Only(Method::Post), "/foo", &[], &[logging], foo_handler),
    ]);
    let found = find(&tree, Method::Get, "/foo/bar").unwrap();
    assert_eq!((found.handler, found.middleware), (foo_bar_handler, vec![global, logging]));
    let found = find(&tree, Method::Get, "/bar").unwrap();
    assert_eq!((found.handler, found.middleware), (bar_handler, vec![global, logging]));
    let found = find(&tree, Method::Post, "/foo").unwrap();
    assert_eq!((found.handler, found.middleware), (foo_handler, vec![global, logging]));
    assert!(find(&tree, Method::Get, "/foo").is_none());
    assert!(find(&tree, Method::Post, "/bar").is_none());
}

#[test]
fn empty_segments_are_segments() {
    let tree = router(&[], vec![get("/foo", 1), get("/foo/", 2), get("/", 3), get("/{p}", 4)]);
    assert_eq!(find(&tree, Method::Get, "/foo").unwrap().handler, 1);
    assert_eq!(find(&tree, Method::Get, "/foo/").unwrap().handler, 2);
    assert_eq!(find(&tree, Method::Get, "/").unwrap().handler, 3);
    assert_eq!(find(&tree, Method::Get, "").unwrap().handler, 3);
    let only_param = router(&[], vec![get("/{p}", 4), get("/x/{q}", 5)]);
    assert!(find(&only_param, Method::Get, "/").is_none());
    assert!(find(&only_param, Method::Get, "/x/").is_none());
    assert_eq!(find(&only_param, Method::Get, "/y").unwrap().handler, 4);
}

#[test]
fn static_segments_match_byte_for_byte() {
    let tree = router(&[], vec![get("/Foo", 1), get("/caf\u{e9}", 2)]);
    assert!(find(&tree, Method::Get, "/foo").is_none());
    assert!(find(&tree, Method::Get, "/Fo").is_none());
    assert!(find(&tree, Method::Get, "/Fooo").is_none());
    assert_eq!(find(&tree, Method::Get, "/Foo").unwrap().handler, 1);
    assert_eq!(find(&tree, Method::Get, "/caf\u{e9}").unwrap().handler, 2);
}

#[test]
fn params_come_in_capture_order() {
    let tree = router(&[], vec![get("/{a}/b/{c}/*d", 1)]);
    let found = find(&tree, Method::Get, "/1/b/2/3/4").unwrap();
    assert_eq!(params_of(&found), vec![pair("a", "1"), pair("c", "2"), pair("d", "3/4")]);
    assert_eq!(found.params.get(b"c").unwrap().as_slice(), b"2");
    assert!(found.params.get(b"b").is_none());
}

#[test]
fn no_route_in_empty_tree() {
    let tree = router(&[1], vec![]);
    assert!(find(&tree, Method::Get, "/").is_none());
    assert!(find(&tree, Method::Get, "/a/b").is_none());
}

#[test]
fn duplicate_param_on_one_path_is_a_conflict() {
    let decl = RouterDecl { middleware: vec![], routes: vec![get("/ok/{a}", 1), get("/{a}/x/{a}", 2)] };
    assert_eq!(compile(&decl).unwrap_err().name, b"a".to_vec());
    let nested = RouterDecl {
        middleware: vec![],
        routes: vec![scope("/{id}", &[], &[], vec![get("/x", 1), get("/y/*id", 2)])],
    };
    assert_eq!(compile(&nested).unwrap_err().name, b"id".to_vec());
}

#[test]
fn first_conflict_in_declared_order_is_reported() {
    let decl = RouterDecl {
        middleware: vec![],
        routes: vec![get("/{p}/{q}", 1), get("/{b}/{b}", 2), get("/{a}/{a}", 3)],
    };
    assert_eq!(compile(&decl).unwrap_err().name, b"b".to_vec());
}

#[test]
fn same_name_on_different_paths_is_no_conflict() {
    let tree = router(&[], vec![
        get("/a/{id}", 1),
        get("/b/{id}", 2),
        scope("/c", &[], &[], vec![get("/{id}", 3), get("/x/{id}", 4)]),
    ]);
    assert_eq!(find(&tree, Method::Get, "/c/x/5").unwrap().handler, 4);
}

#[test]
fn compile_keeps_declared_shape() {
    let tree = router(&[9], vec![scope("/a/{b}", &[ALWAYS], &[1], vec![get("/c", 2)])]);
    assert_eq!(tree.middleware, vec![9]);
    assert_eq!(tree.routes.len(), 1);
    let a = &tree.routes[0];
    assert!(a.guards.is_empty() && a.middleware.is_empty() && a.handlers.is_empty());
    assert_eq!(a.children.len(), 1);
    let b = &a.children[0];
    assert_eq!(b.guards, vec![ALWAYS]);
    assert_eq!(b.middleware, vec![1]);
    assert_eq!(b.children.len(), 1);
    let c = &b.children[0];
    assert_eq!(c.handlers.len(), 1);
    assert_eq!(c.handlers[0].handler, 2);
    assert_eq!(c.handler(Method::Get), Some(2));
    assert_eq!(c.handler(Method::Put), None);
}
