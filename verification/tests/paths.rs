use submillisecond_router::compile::classify;
use submillisecond_router::compile::matchers;
use submillisecond_router::method::Method;
use submillisecond_router::method::MethodFilter;
use submillisecond_router::path::copy_bytes;
use submillisecond_router::path::copy_range;
use submillisecond_router::path::join_from;
use submillisecond_router::path::same_bytes;
use submillisecond_router::path::segments;
use submillisecond_router::tree::Segment;

fn strings(pieces: &Vec<Vec<u8>>) -> Vec<String> {
    pieces.iter().map(|p| String::from_utf8(p.clone()).unwrap()).collect()
}

#[test]
fn path_is_cut_at_every_slash() {
    assert_eq!(strings(&segments(b"/a/b")), ["a", "b"]);
    assert_eq!(strings(&segments(b"a/b")), ["a", "b"]);
    assert_eq!(strings(&segments(b"/a/")), ["a", ""]);
    assert_eq!(strings(&segments(b"/")), [""]);
    assert_eq!(strings(&segments(b"")), [""]);
    assert_eq!(strings(&segments(b"//")), ["", ""]);
    assert_eq!(strings(&segments(b"/a//b")), ["a", "", "b"]);
    assert_eq!(strings(&segments(b"/abc")), ["abc"]);
}

#[test]
fn joining_gives_the_path_back() {
    for path in ["a/b/c", "", "a", "a//b/", "/x"] {
        let pieces = segments(path.as_bytes());
        let from = if path.starts_with('/') { &path[1..] } else { path };
        assert_eq!(join_from(&pieces, 0), from.as_bytes().to_vec());
    }
    let pieces = segments(b"/a/b/c");
    assert_eq!(join_from(&pieces, 1), b"b/c".to_vec());
    assert_eq!(join_from(&pieces, 2), b"c".to_vec());
    assert_eq!(join_from(&pieces, 3), b"".to_vec());
}

#[test]
fn bytes_are_compared_and_copied() {
    assert!(same_bytes(b"abc", b"abc"));
    assert!(!same_bytes(b"abc", b"abd"));
    assert!(!same_bytes(b"abc", b"ab"));
    assert!(same_bytes(b"", b""));
    assert_eq!(copy_bytes(b"xyz"), b"xyz".to_vec());
    assert_eq!(copy_range(b"hello", 1, 3), b"el".to_vec());
    assert_eq!(copy_range(b"hello", 2, 2), b"".to_vec());
}

fn shown(matcher: &Segment) -> String {
    match matcher {
        Segment::Static(s) => format!("static:{}", String::from_utf8(s.clone()).unwrap()),
        Segment::Param(s) => format!("param:{}", String::from_utf8(s.clone()).unwrap()),
        Segment::Wildcard(s) => format!("wildcard:{}", String::from_utf8(s.clone()).unwrap()),
    }
}

#[test]
fn pattern_segments_are_classified() {
    assert_eq!(shown(&classify(b"users")), "static:users");
    assert_eq!(shown(&classify(b"{id}")), "param:id");
    assert_eq!(shown(&classify(b"{}")), "param:");
    assert_eq!(shown(&classify(b"*rest")), "wildcard:rest");
    assert_eq!(shown(&classify(b"*")), "wildcard:");
    assert_eq!(shown(&classify(b"")), "static:");
    assert_eq!(shown(&classify(b"{")), "static:{");
    assert_eq!(shown(&classify(b"{id")), "static:{id");
    assert_eq!(shown(&classify(b"id}")), "static:id}");
    assert_eq!(shown(&classify(b"a*b")), "static:a*b");
    let all: Vec<String> = matchers(b"/users/{id}/files/*rest").iter().map(shown).collect();
    assert_eq!(all, ["static:users", "param:id", "static:files", "wildcard:rest"]);
    let root: Vec<String> = matchers(b"/").iter().map(shown).collect();
    assert_eq!(root, ["static:"]);
}

#[test]
fn filters_admit_methods() {
    assert!(MethodFilter::Any.accepts(Method::Get));
    assert!(MethodFilter::Any.accepts(Method::Patch));
    assert!(MethodFilter::Only(Method::Get).accepts(Method::Get));
    assert!(!MethodFilter::Only(Method::Get).accepts(Method::Head));
    assert!(!MethodFilter::Only(Method::Post).accepts(Method::Put));
}
