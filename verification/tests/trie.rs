use ree::trie::Node;

fn seg(s: &str) -> Vec<u8> {
    s.as_bytes().to_vec()
}

fn parts(list: &[&str]) -> Vec<Vec<u8>> {
    list.iter().map(|s| seg(s)).collect()
}

#[test]
fn trie_test_insert() {
    let mut root = Node::<()>::new();
    root.insert(b"/p/:lang/doc", &parts(&["p", ":lang", "doc"]), 0, ());

    assert_eq!(root.children.len(), 1);
    assert_eq!(root.children[0].part, seg("p"));
    assert!(!root.children[0].iswild);
    assert_eq!(root.children[0].children.len(), 1);
    assert_eq!(root.children[0].children[0].part, seg(":lang"));
    assert!(root.children[0].children[0].iswild);
}

#[test]
fn tire_test_insert() {
    let mut root = Node::<()>::new();
    root.insert(b"/p/:lang/doc", &parts(&["p", ":lang", "doc"]), 0, ());

    assert_eq!(root.children.len(), 1);
    assert_eq!(root.children[0].part, seg("p"));
    assert!(!root.children[0].iswild);
    assert_eq!(root.children[0].children.len(), 1);
    assert_eq!(root.children[0].children[0].part, seg(":lang"));
    assert!(root.children[0].children[0].iswild);
    println!("{:?}", root.children[0].part);
}

#[test]
fn trie_test_search() {
    let mut root = Node::<()>::new();
    root.insert(b"/p/:lang/doc", &parts(&["p", ":lang", "doc"]), 0, ());

    let result = root.search(&parts(&["p", "rust", "doc"]), 0);
    assert!(result.is_some());
    assert_eq!(result.unwrap().pattern, seg("/p/:lang/doc"));
}

#[test]
fn test_collect_patterns() {
    let mut root = Node::<()>::new();
    root.insert(b"/p/:lang/doc", &parts(&["p", ":lang", "doc"]), 0, ());
    root.insert(b"/p/go/doc", &parts(&["p", "go", "doc"]), 0, ());

    let mut patterns = Vec::new();
    root.collect_patterns(&mut patterns);

    assert_eq!(patterns.len(), 2);
    assert!(patterns.contains(&seg("/p/:lang/doc")));
    assert!(patterns.contains(&seg("/p/go/doc")));
}

#[test]
fn test_wildcard_search() {
    let mut root = Node::<()>::new();
    root.insert(b"/static/*filepath", &parts(&["static", "*filepath"]), 0, ());

    let result = root.search(&parts(&["static", "js", "app.js"]), 0);
    assert!(result.is_some());
    assert_eq!(result.unwrap().pattern, seg("/static/*filepath"));
}

#[test]
fn test_duplicate_insert_overwrites() {
    let mut root = Node::<&'static str>::new();
    root.insert(b"/p/x", &parts(&["p", "x"]), 0, "first");
    root.insert(b"/p/x", &parts(&["p", "x"]), 0, "second");

    let result = root.search(&parts(&["p", "x"]), 0);
    assert!(result.is_some());
    assert_eq!(result.unwrap().value, Some("second"));

    let mut patterns = Vec::new();
    root.collect_patterns(&mut patterns);
    assert_eq!(patterns.len(), 1);
    assert_eq!(patterns[0], seg("/p/x"));
}

#[test]
fn test_literal_pattern_exact_match_only() {
    let mut root = Node::<()>::new();
    root.insert(b"/a/b", &parts(&["a", "b"]), 0, ());

    assert!(root.search(&parts(&["a", "b"]), 0).is_some());
    assert!(root.search(&parts(&["a"]), 0).is_none());
    assert!(root.search(&parts(&["a", "b", "c"]), 0).is_none());
    assert!(root.search(&parts(&["a", "x"]), 0).is_none());
    assert!(root.search(&parts(&[]), 0).is_none());
}

#[test]
fn test_backtracking_to_param_sibling() {
    // A literal child registered before a parameter child: both are
    // tried in insertion order, and the search backtracks to the
    // parameter branch when the literal branch has no terminal.
    let mut root = Node::<&'static str>::new();
    root.insert(b"/p/go/deep", &parts(&["p", "go", "deep"]), 0, "literal");
    root.insert(b"/p/:lang", &parts(&["p", ":lang"]), 0, "param");

    let result = root.search(&parts(&["p", "go"]), 0);
    assert!(result.is_some());
    assert_eq!(result.unwrap().value, Some("param"));
}

#[test]
fn test_wildcard_consumes_zero_segments() {
    let mut root = Node::<()>::new();
    root.insert(b"/static/*filepath", &parts(&["static", "*filepath"]), 0, ());

    // The wildcard node is only entered by consuming one path
    // segment; a path that ends right before it stops at a
    // non-terminal node, so there is no match.
    let result = root.search(&parts(&["static"]), 0);
    assert!(result.is_none());
}

#[test]
fn test_root_registration_matches_empty_path() {
    let mut root = Node::<&'static str>::new();
    root.insert(b"/", &parts(&[]), 0, "root handler");

    let result = root.search(&parts(&[]), 0);
    assert!(result.is_some());
    assert_eq!(result.unwrap().value, Some("root handler"));
    assert!(root.search(&parts(&["x"]), 0).is_none());
}

#[test]
fn test_wildcard_at_root_matches_any_nonempty_path() {
    let mut root = Node::<()>::new();
    root.insert(b"/*all", &parts(&["*all"]), 0, ());

    assert!(root.search(&parts(&["a"]), 0).is_some());
    assert!(root.search(&parts(&["a", "b", "c"]), 0).is_some());
    assert!(root.search(&parts(&[]), 0).is_none());
}

#[test]
fn test_param_children_collapse_by_name() {
    // Two patterns with different parameter names at the same depth
    // share one child node; the later registration wins there.
    let mut root = Node::<&'static str>::new();
    root.insert(b"/p/:lang", &parts(&["p", ":lang"]), 0, "first");
    root.insert(b"/p/:x", &parts(&["p", ":x"]), 0, "second");

    assert_eq!(root.children[0].children.len(), 1);
    let result = root.search(&parts(&["p", "rust"]), 0);
    assert!(result.is_some());
    assert_eq!(result.unwrap().value, Some("second"));
    assert_eq!(result.unwrap().pattern, seg("/p/:x"));
}
