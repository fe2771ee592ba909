use axum_named_routes::path::rooted;
use axum_named_routes::RoutePath;

fn join(prefix: &str, inner: &str) -> String {
    let prefix = RoutePath::new(prefix).unwrap();
    let inner = RoutePath::new(inner).unwrap();
    prefix.join(&inner).as_str().to_string()
}

#[test]
fn only_rooted_texts_are_paths() {
    assert!(rooted("/"));
    assert!(rooted("/a"));
    assert!(rooted("//"));
    assert!(!rooted(""));
    assert!(!rooted("a"));
    assert!(!rooted("a/"));
    assert!(!rooted(" /"));
    assert!(!rooted("\u{e9}/"));

    assert!(RoutePath::new("/").is_some());
    assert!(RoutePath::new("/caf\u{e9}").is_some());
    assert!(RoutePath::new("").is_none());
    assert!(RoutePath::new("a/b").is_none());
}

#[test]
fn a_path_keeps_its_text() {
    for text in ["/", "/a", "/a/", "//a", "/a/./b", "/:id/*rest", "/caf\u{e9}/\u{4e2d}"] {
        assert_eq!(RoutePath::new(text).unwrap().as_str(), text);
        assert_eq!(RoutePath::new(text).unwrap().clone().as_str(), text);
    }
}

#[test]
fn join_puts_one_slash_between() {
    assert_eq!(join("/", "/a"), "/a");
    assert_eq!(join("/b", "/a"), "/b/a");
    assert_eq!(join("/b", "/b"), "/b/b");
    assert_eq!(join("/b/", "/a"), "/b/a");
    assert_eq!(join("/ui/", "/"), "/ui/");
    assert_eq!(join("/ui", "/"), "/ui/");
    assert_eq!(join("/", "/"), "/");
    assert_eq!(join("/a/b", "/c/d"), "/a/b/c/d");
    assert_eq!(join("/a", "/b/"), "/a/b/");
    assert_eq!(join("/caf\u{e9}", "/\u{4e2d}/x"), "/caf\u{e9}/\u{4e2d}/x");
}

#[test]
fn join_leaves_both_unchanged() {
    let prefix = RoutePath::new("/api").unwrap();
    let inner = RoutePath::new("/users").unwrap();
    let joined = prefix.join(&inner);
    assert_eq!(joined.as_str(), "/api/users");
    assert_eq!(prefix.as_str(), "/api");
    assert_eq!(inner.as_str(), "/users");
    assert_eq!(joined.join(&inner).as_str(), "/api/users/users");
}

#[test]
fn paths_are_equal_by_their_segments() {
    let path = |text: &str| RoutePath::new(text).unwrap();
    assert_eq!(path("/a/b"), path("/a/b"));
    assert_eq!(path("/a/b"), path("/a/b/"));
    assert_eq!(path("/a/b"), path("//a///b//"));
    assert_eq!(path("/a/b"), path("/./a/./b/."));
    assert_eq!(path("/"), path("//"));
    assert_eq!(path("/"), path("/."));
    assert_ne!(path("/a/b"), path("/a"));
    assert_ne!(path("/a/b"), path("/b/a"));
    assert_ne!(path("/a/b"), path("/ab"));
    assert_ne!(path("/a/b"), path("/a/b/c"));
    assert_ne!(path("/a"), path("/A"));
    assert_ne!(path("/a"), path("/a/.."));
    assert_ne!(path("/.."), path("/."));
    assert_ne!(path("/..."), path("/"));
    assert_ne!(path("/.a"), path("/a"));
    assert_ne!(path("/"), path("/a"));
}

#[test]
fn a_path_is_compared_with_a_text() {
    let path = RoutePath::new("/ui/other").unwrap();
    assert!(path.same_as("/ui/other"));
    assert!(path.same_as("/ui//other/"));
    assert!(!path.same_as("ui/other"));
    assert!(!path.same_as("/ui"));
    assert!(!path.same_as(""));
    let root = RoutePath::new("/").unwrap();
    assert!(root.same_as("/"));
    assert!(root.same_as("///"));
    assert!(!root.same_as(""));
    assert!(!root.same_as("."));
}

#[test]
fn joined_paths_have_the_segments_of_both() {
    let path = |text: &str| RoutePath::new(text).unwrap();
    assert_eq!(path("/a//b/").join(&path("//c/./d")), path("/a/b/c/d"));
    assert_eq!(path("/").join(&path("/")), path("/"));
    assert_eq!(path("/a").join(&path("/")), path("/a"));
    assert_eq!(path("/").join(&path("/a")), path("/a"));
}
