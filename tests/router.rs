use trie_http::router::{segments, Node, Router};

fn params(v: &[(&str, &str)]) -> Vec<(Vec<u8>, Vec<u8>)> {
    v.iter().map(|(a, b)| (a.as_bytes().to_vec(), b.as_bytes().to_vec())).collect()
}

fn routed(r: &Router<u32>, m: &str, p: &str) -> Option<(u32, Vec<(Vec<u8>, Vec<u8>)>)> {
    r.find(m, p).map(|(h, ps)| (*h, ps))
}

#[test]
fn exact_match_has_no_params() {
    let mut r = Router::new();
    r.add("GET", "*", 0);
    r.add("GET", "/hello/world", 1);
    assert_eq!(routed(&r, "GET", "/hello/world"), Some((1, vec![])));
}

#[test]
fn param_is_extracted() {
    let mut r = Router::new();
    r.add("GET", "*", 0);
    r.add("GET", "/users/:id", 7);
    assert_eq!(routed(&r, "GET", "/users/42"), Some((7, params(&[("id", "42")]))));
}

#[test]
fn literal_wins_over_param() {
    let mut r = Router::new();
    r.add("GET", "*", 0);
    r.add("GET", "/users/:id", 1);
    r.add("GET", "/users/me", 2);
    assert_eq!(routed(&r, "GET", "/users/me"), Some((2, vec![])));
    assert_eq!(routed(&r, "GET", "/users/you"), Some((1, params(&[("id", "you")]))));
}

#[test]
fn wildcard_takes_the_rest() {
    let mut r = Router::new();
    r.add("GET", "*", 0);
    r.add("GET", "/static/*", 5);
    assert_eq!(routed(&r, "GET", "/static/a/b/c"), Some((5, vec![])));
    assert_eq!(routed(&r, "GET", "/other/a"), Some((0, vec![])));
}

#[test]
fn reregistration_keeps_one_node() {
    let mut r = Router::new();
    r.add("GET", "*", 0);
    r.add("GET", "/a/b", 1);
    let n = r.nodes.len();
    r.add("GET", "/a/b", 2);
    assert_eq!(r.nodes.len(), n);
    assert_eq!(routed(&r, "GET", "/a/b"), Some((2, vec![])));
}

#[test]
fn miss_goes_to_default_with_params_so_far() {
    let mut r = Router::new();
    r.add("GET", "*", 9);
    r.add("GET", "/users/:id/posts", 1);
    assert_eq!(routed(&r, "GET", "/users/3/likes"), Some((9, params(&[("id", "3")]))));
    assert_eq!(routed(&r, "GET", "/users/3"), Some((9, params(&[("id", "3")]))));
}

#[test]
fn no_default_means_no_route() {
    let mut r: Router<u32> = Router::new();
    r.add("GET", "/x", 1);
    assert_eq!(routed(&r, "GET", "/y"), None);
    assert_eq!(routed(&r, "GET", "/x"), Some((1, vec![])));
}

#[test]
fn root_and_empty_segments() {
    let mut r = Router::new();
    r.add("GET", "*", 0);
    r.add("GET", "/", 4);
    r.add("GET", "/a//b", 6);
    assert_eq!(routed(&r, "GET", "/"), Some((4, vec![])));
    assert_eq!(routed(&r, "GET", "/a/b"), Some((6, vec![])));
    assert_eq!(routed(&r, "GET", "//a/b/"), Some((6, vec![])));
}

#[test]
fn methods_have_separate_tries() {
    let mut r = Router::new();
    r.add("GET", "*", 0);
    r.add("GET", "/x", 1);
    r.add("POST", "/x", 2);
    r.add("BREW", "/x", 3);
    assert_eq!(routed(&r, "GET", "/x"), Some((1, vec![])));
    assert_eq!(routed(&r, "POST", "/x"), Some((2, vec![])));
    assert_eq!(routed(&r, "PUT", "/x"), Some((0, vec![])));
    assert_eq!(routed(&r, "BREW", "/x"), Some((3, vec![])));
    assert_eq!(routed(&r, "CONNECT", "/x"), Some((3, vec![])));
}

#[test]
fn build_shares_the_router() {
    let mut r = Router::new();
    r.add("GET", "*", 0);
    r.add("DELETE", "/item/:n", 8);
    let shared = r.build();
    let other = shared.clone();
    assert_eq!(routed(&other, "DELETE", "/item/5"), Some((8, params(&[("n", "5")]))));
}

#[test]
fn segments_drop_empty_parts() {
    let s = segments(b"//a///bc/");
    assert_eq!(s, vec![b"a".to_vec(), b"bc".to_vec()]);
    assert!(segments(b"/").is_empty());
}

#[test]
fn node_add_child_reuses_existing() {
    let mut n: Node<u32> = Node::default();
    assert_eq!(n.add_child(b"a".to_vec(), 10), (10, true));
    assert_eq!(n.add_child(b"a".to_vec(), 11), (10, false));
    assert_eq!(n.add_child(b"b".to_vec(), 11), (11, true));
    n.set_func(3);
    assert_eq!(n.handler, Some(3));
}

#[test]
fn literal_wins_in_either_order() {
    let mut r = Router::new();
    r.add("GET", "*", 0);
    r.add("GET", "/users/:id", 2);
    r.add("GET", "/users/me", 1);
    assert_eq!(routed(&r, "GET", "/users/me"), Some((1, vec![])));
    assert_eq!(routed(&r, "GET", "/users/x"), Some((2, params(&[("id", "x")]))));
}

#[test]
fn no_backtracking_to_param_sibling() {
    let mut r = Router::new();
    r.add("GET", "/a/b/c", 1);
    r.add("GET", "/:x/b/d", 2);
    r.add("GET", "*", 0);
    assert_eq!(routed(&r, "GET", "/a/b/d"), Some((0, vec![])));
    assert_eq!(routed(&r, "GET", "/z/b/d"), Some((2, params(&[("x", "z")]))));
}

#[test]
fn params_in_path_order() {
    let mut r = Router::new();
    r.add("GET", "/a/:x/:y", 1);
    r.add("GET", "*", 0);
    assert_eq!(routed(&r, "GET", "/a/1/2"), Some((1, params(&[("x", "1"), ("y", "2")]))));
}

#[test]
fn sibling_add_creates_one_node_and_keeps_routes() {
    let mut r = Router::new();
    r.add("GET", "*", 0);
    r.add("GET", "/static/*", 5);
    r.add("GET", "/a/b", 1);
    let n = r.nodes.len();
    r.add("GET", "/a/c", 2);
    assert_eq!(r.nodes.len(), n + 1);
    r.add("GET", "/static/*/b", 6);
    r.add("POST", "/a/b", 7);
    assert_eq!(routed(&r, "GET", "/a/b"), Some((1, vec![])));
    assert_eq!(routed(&r, "GET", "/a/c"), Some((2, vec![])));
    assert_eq!(routed(&r, "GET", "/static/x/y"), Some((5, vec![])));
    assert_eq!(routed(&r, "POST", "/a/b"), Some((7, vec![])));
}

#[test]
fn default_node_is_bare() {
    let n: Node<u32> = Node::default();
    assert!(n.param.is_none() && n.handler.is_none() && n.children.is_none());
}
