use axum_named_routes::{NamedRouter, RouteMap, RoutePath, Routes};

fn sample() -> Routes {
    let mut ui = NamedRouter::new();
    ui.route("index", "/").unwrap();
    ui.route("other", "/other").unwrap();
    let mut app = NamedRouter::new();
    app.nest("ui", "/ui/", &ui).unwrap();
    app.route("other", "/other").unwrap();
    app.finalize()
}

#[test]
fn table_holds_the_routes_of_the_registry() {
    let table = sample();
    assert_eq!(table.routes().len(), 3);
    assert_eq!(table.has("ui.other").as_str(), "/ui/other");
    assert_eq!(table.has("ui.index").as_str(), "/ui/");
    assert_eq!(table.has("other").as_str(), "/other");
    assert_ne!(table.get("ui.other"), table.get("other"));
}

#[test]
fn get_is_absent_for_names_not_in_the_table() {
    let table = sample();
    assert!(table.get("index").is_none());
    assert!(table.get("ui").is_none());
    assert!(table.get("ui.").is_none());
    assert!(table.get("").is_none());
    assert!(table.get("ui.other.").is_none());
    assert_eq!(table.get("ui.other").unwrap().as_str(), "/ui/other");
}

#[test]
fn get_or_hands_back_the_callers_error() {
    let table = sample();
    assert_eq!(table.get_or("other", 404).unwrap().as_str(), "/other");
    assert_eq!(table.get_or("nowhere", 404), Err(404));
    assert_eq!(table.get_or("nowhere", "no such route"), Err("no such route"));
}

#[test]
fn get_or_else_calls_only_when_absent() {
    let table = sample();
    let mut called = false;
    let found = table.get_or_else("other", || {
        called = true;
        String::from("missing")
    });
    assert_eq!(found.unwrap().as_str(), "/other");
    assert!(!called);

    let missing = table.get_or_else("nowhere", || {
        called = true;
        String::from("missing nowhere")
    });
    assert_eq!(missing, Err(String::from("missing nowhere")));
    assert!(called);
}

#[test]
fn find_gives_the_name_for_a_path() {
    let mut registry = NamedRouter::new();
    registry.route("x", "/foo").unwrap();
    let table = registry.finalize();
    assert_eq!(table.find("/foo"), Some("x"));
    assert_eq!(table.find("/bar"), None);
    assert_eq!(table.find("/foo/bar"), None);
    assert_eq!(table.find("/"), None);
    assert_eq!(table.find("foo"), None);
    assert_eq!(table.find(""), None);
}

#[test]
fn find_compares_paths_by_their_segments() {
    let table = sample();
    assert_eq!(table.find("/ui/other"), Some("ui.other"));
    assert_eq!(table.find("/ui/other/"), Some("ui.other"));
    assert_eq!(table.find("//ui//other"), Some("ui.other"));
    assert_eq!(table.find("/ui/./other"), Some("ui.other"));
    assert_eq!(table.find("/ui"), Some("ui.index"));
    assert_eq!(table.find("/ui/"), Some("ui.index"));
    assert_eq!(table.find("/other"), Some("other"));
    assert_eq!(table.find("/ui/../other"), None);
    assert_eq!(table.find("ui/other"), None);
    assert_eq!(table.find("/UI/other"), None);
}

#[test]
fn find_gives_the_oldest_of_several_names() {
    let mut registry = NamedRouter::new();
    registry.route("second", "/b").unwrap();
    registry.route("first", "/a").unwrap();
    registry.route("again", "/a/").unwrap();
    let table = registry.finalize();
    assert_eq!(table.find("/a"), Some("first"));
    assert_eq!(table.find("/a/"), Some("first"));
    assert_eq!(table.find("/b"), Some("second"));
}

#[test]
fn repeated_lookups_agree() {
    let table = sample();
    let first = table.get("ui.other").map(|p| p.as_str().to_string());
    for _ in 0..3 {
        assert_eq!(table.get("ui.other").map(|p| p.as_str().to_string()), first);
        assert_eq!(table.get("nowhere"), None);
        assert_eq!(table.find("/ui/other"), Some("ui.other"));
    }
}

#[test]
fn clones_read_the_same_routes() {
    let table = sample();
    let copy = table.clone();
    drop(table);
    let again = copy.clone();
    assert_eq!(copy.routes().len(), 3);
    assert_eq!(again.routes().len(), 3);
    assert_eq!(copy.has("ui.other").as_str(), "/ui/other");
    assert_eq!(again.has("ui.index").as_str(), "/ui/");
    assert_eq!(again.find("/other"), Some("other"));
    assert!(std::ptr::eq(copy.routes(), again.routes()));
}

fn shareable<T: Send + Sync + Clone + 'static>(_: &T) {}

#[test]
fn a_table_can_be_shared_between_threads() {
    let table = sample();
    shareable(&table);
    shareable(&table.clone());
}

#[test]
fn an_empty_registry_freezes_to_an_empty_table() {
    let table = NamedRouter::new().finalize();
    assert_eq!(table.routes().len(), 0);
    assert_eq!(table.get("anything"), None);
    assert_eq!(table.find("/"), None);
    assert_eq!(table.get_or("anything", ()), Err(()));
}

#[test]
fn a_table_of_a_map() {
    let mut map = RouteMap::new();
    assert_eq!(map.insert("home", RoutePath::new("/").unwrap()), Ok(()));
    assert_eq!(map.insert("list", RoutePath::new("/items").unwrap()), Ok(()));
    assert!(map.insert("home", RoutePath::new("/again").unwrap()).is_err());
    assert_eq!(map.len(), 2);

    let nested = map.prefixed("v1", "_", &RoutePath::new("/v1").unwrap());
    assert_eq!(nested.len(), 2);
    assert_eq!(nested.get("v1_home").unwrap().as_str(), "/v1/");
    assert_eq!(nested.get("v1_list").unwrap().as_str(), "/v1/items");
    assert_eq!(map.extend(&nested), Ok(()));
    assert!(map.extend(&nested).is_err());
    assert_eq!(map.len(), 4);

    let copy = map.clone();
    let table = Routes::new(map);
    assert_eq!(table.routes().len(), 4);
    assert_eq!(table.has("v1_list").as_str(), "/v1/items");
    assert_eq!(copy.find("/v1/items"), Some("v1_list"));
}
