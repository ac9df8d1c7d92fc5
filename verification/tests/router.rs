use oxide::router::{
    extract_params, matches_route, mode_for_hash, navigation, path_from_hash, route, Navigation,
    Params, RouteMatch, Router, RouterMode,
};

#[test]
fn route_matching_by_segments() {
    assert!(matches_route("/", "/"));
    assert!(matches_route("/", ""));
    assert!(matches_route("/about", "/about"));
    assert!(matches_route("/about", "/about/"));
    assert!(matches_route("/about", "//about"));
    assert!(!matches_route("/about", "/contact"));
    assert!(!matches_route("/about", "/about/team"));
    assert!(!matches_route("/", "/about"));
}

#[test]
fn route_params_match_any_segment() {
    assert!(matches_route("/user/:id", "/user/42"));
    assert!(matches_route("/user/:id/posts/:post", "/user/7/posts/hello"));
    assert!(!matches_route("/user/:id", "/user"));
    assert!(!matches_route("/user/:id", "/users/42"));
}

#[test]
fn path_matches_itself() {
    for p in ["/", "/a/b/c", "/user/:id", "x//y/"] {
        assert!(matches_route(p, p));
    }
}

#[test]
fn params_are_extracted_by_name() {
    let p = extract_params("/user/:id/posts/:post", "/user/7/posts/hello");
    assert_eq!(p.get("id").map(|s| s.as_str()), Some("7"));
    assert_eq!(p.get("post").map(|s| s.as_str()), Some("hello"));
    assert_eq!(p.get("user"), None);
    assert_eq!(p.entries().len(), 2);
}

#[test]
fn later_param_of_same_name_wins() {
    let p = extract_params("/:a/:a", "/x/y");
    assert_eq!(p.get("a").map(|s| s.as_str()), Some("y"));
}

#[test]
fn params_insert_and_copy() {
    let mut p = Params::new();
    assert_eq!(p.get("k"), None);
    p.insert("k".to_string(), "1".to_string());
    p.insert("k".to_string(), "2".to_string());
    let q = p.duplicate();
    assert_eq!(q.get("k").map(|s| s.as_str()), Some("2"));
}

#[test]
fn hash_gives_path() {
    assert_eq!(path_from_hash("#/about"), "/about");
    assert_eq!(path_from_hash("#"), "/");
    assert_eq!(path_from_hash(""), "/");
    assert_eq!(path_from_hash("/plain"), "/plain");
    assert_eq!(path_from_hash("##x"), "#x");
}

#[test]
fn mode_follows_hash() {
    assert_eq!(mode_for_hash("#/x"), RouterMode::Hash);
    assert_eq!(mode_for_hash(""), RouterMode::History);
}

#[test]
fn navigation_in_hash_mode() {
    match navigation("#/", "/about") {
        Navigation::SetHash(h) => assert_eq!(h, "#/about"),
        Navigation::PushState(_) => panic!("expected hash navigation"),
    }
    match navigation("", "#/x") {
        Navigation::SetHash(h) => assert_eq!(h, "#/x"),
        Navigation::PushState(_) => panic!("expected hash navigation"),
    }
}

#[test]
fn navigation_in_history_mode() {
    match navigation("", "/about") {
        Navigation::PushState(p) => assert_eq!(p, "/about"),
        Navigation::SetHash(_) => panic!("expected history navigation"),
    }
}

#[test]
fn hash_navigation_round_trip() {
    match navigation("#/", "/user/3") {
        Navigation::SetHash(h) => assert_eq!(path_from_hash(&h), "/user/3"),
        Navigation::PushState(_) => panic!("expected hash navigation"),
    }
}

fn app_router(path: &str) -> Router<u8> {
    Router::new(
        RouterMode::Hash,
        vec![route("/", 0u8), route("/about", 1u8), route("/user/:id", 2u8), route("/:any", 3u8)],
        path.to_string(),
    )
}

#[test]
fn router_shows_first_matching_route() {
    let mut r = app_router("/user/42");
    match r.resolve() {
        RouteMatch::Found(i) => {
            assert_eq!(i, 2);
            assert_eq!(*r.view_of(i), 2u8);
        }
        RouteMatch::NotFound(_) => panic!("expected a match"),
    }
    assert_eq!(r.use_param("id"), "42");
    assert_eq!(r.use_param("missing"), "");
    assert_eq!(r.use_params().get("id").map(|s| s.as_str()), Some("42"));

    r.set_path("/about".to_string());
    match r.resolve() {
        RouteMatch::Found(i) => assert_eq!(i, 1),
        RouteMatch::NotFound(_) => panic!("expected a match"),
    }
    assert_eq!(r.use_param("id"), "");
    assert_eq!(r.current(), "/about");
    assert_eq!(r.mode(), RouterMode::Hash);
    assert_eq!(r.route_count(), 4);
}

#[test]
fn router_reports_unmatched_path() {
    let mut r = app_router("/a/b/c");
    match r.resolve() {
        RouteMatch::NotFound(msg) => assert_eq!(msg, "404 — No route matches: /a/b/c"),
        RouteMatch::Found(_) => panic!("expected no match"),
    }
    assert_eq!(r.use_params().entries().len(), 0);
}
