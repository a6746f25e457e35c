use xpath_eval::eval::{
    matches_node_test, node_set_compares_with_string, node_sets_compare, principal_node_kind,
    resolve_prefix, sort_dedup, step_nodes, PrefixResolution,
};
use xpath_eval::EqualityOp;
use xpath_eval::{Axis, Document, ExpandedName, NamespaceBinding, NodeKind, NodeTest, QName};

/// A document holding one element `rect` in namespace `uri`.
fn ns_doc(uri: &str) -> (Document, usize) {
    let mut doc = Document::new();
    let e = doc
        .add_element(
            0,
            ExpandedName { namespace_uri: Some(uri.to_string()), local_name: "rect".to_string() },
        )
        .unwrap();
    (doc, e)
}

fn ns_node() -> (Document, usize) {
    ns_doc("http://example/ns")
}

fn qname_test() -> NodeTest {
    NodeTest::QName(QName { prefix: Some("p".to_string()), local: "rect".to_string() })
}

/// Bindings that bind `p` to the element's real namespace URI.
fn knows_p() -> Vec<NamespaceBinding> {
    vec![NamespaceBinding { prefix: "p".to_string(), uri: "http://example/ns".to_string() }]
}

/// Bindings that bind nothing.
fn knows_nothing() -> Vec<NamespaceBinding> {
    Vec::new()
}

#[test]
fn qname_test_matches_when_hook_resolves_prefix_to_the_real_uri() {
    let (doc, n) = ns_node();
    let lookup = knows_p();
    assert!(matches_node_test(&doc, &qname_test(), Axis::Child, n, Some(&lookup)));
}

#[test]
fn qname_test_does_not_match_when_hook_does_not_know_the_prefix() {
    let (doc, n) = ns_node();
    let lookup = knows_nothing();
    assert!(!matches_node_test(&doc, &qname_test(), Axis::Child, n, Some(&lookup)));
}

#[test]
fn qname_test_does_not_match_when_hook_present_but_unresolvable_even_if_raw_prefix_equals_the_uri()
{
    let (doc, n) = ns_doc("p");
    let lookup = knows_nothing();
    assert!(!matches_node_test(&doc, &qname_test(), Axis::Child, n, Some(&lookup)));
}

#[test]
fn qname_test_does_not_match_with_no_hook_at_all() {
    let (doc, n) = ns_node();
    assert!(!matches_node_test(&doc, &qname_test(), Axis::Child, n, None));
}

#[test]
fn qname_test_matches_with_no_hook_at_all_when_raw_prefix_equals_the_uri() {
    let (doc, n) = ns_doc("p");
    assert!(matches_node_test(&doc, &qname_test(), Axis::Child, n, None));
}

#[test]
fn namespace_wildcard_matches_when_hook_resolves_prefix_to_the_real_uri() {
    let (doc, n) = ns_node();
    let lookup = knows_p();
    let test = NodeTest::NamespaceWildcard("p".to_string());
    assert!(matches_node_test(&doc, &test, Axis::Child, n, Some(&lookup)));
}

#[test]
fn namespace_wildcard_does_not_match_when_hook_does_not_know_the_prefix() {
    let (doc, n) = ns_node();
    let lookup = knows_nothing();
    let test = NodeTest::NamespaceWildcard("p".to_string());
    assert!(!matches_node_test(&doc, &test, Axis::Child, n, Some(&lookup)));
}

#[test]
fn namespace_wildcard_does_not_match_when_hook_present_but_unresolvable_even_if_raw_prefix_equals_the_uri()
{
    let (doc, n) = ns_doc("p");
    let lookup = knows_nothing();
    let test = NodeTest::NamespaceWildcard("p".to_string());
    assert!(!matches_node_test(&doc, &test, Axis::Child, n, Some(&lookup)));
}

#[test]
fn namespace_wildcard_does_not_match_with_no_hook_at_all() {
    let (doc, n) = ns_node();
    let test = NodeTest::NamespaceWildcard("p".to_string());
    assert!(!matches_node_test(&doc, &test, Axis::Child, n, None));
}

// ---- Node tests, prefixes and node-sets ------------------------------------

fn name(local: &str) -> ExpandedName {
    ExpandedName { namespace_uri: None, local_name: local.to_string() }
}

#[test]
fn principal_node_kinds_of_the_axes() {
    assert_eq!(principal_node_kind(Axis::Attribute), NodeKind::Attribute);
    assert_eq!(principal_node_kind(Axis::Namespace), NodeKind::Namespace);
    assert_eq!(principal_node_kind(Axis::Child), NodeKind::Element);
    assert_eq!(principal_node_kind(Axis::Preceding), NodeKind::Element);
}

#[test]
fn resolve_prefix_takes_the_first_binding() {
    let bindings = vec![
        NamespaceBinding { prefix: "a".to_string(), uri: "urn:one".to_string() },
        NamespaceBinding { prefix: "a".to_string(), uri: "urn:two".to_string() },
    ];
    assert_eq!(resolve_prefix("a", Some(&bindings)), PrefixResolution::Value("urn:one".to_string()));
    assert_eq!(resolve_prefix("b", Some(&bindings)), PrefixResolution::Unbound);
    assert_eq!(resolve_prefix("b", None), PrefixResolution::Value("b".to_string()));
}

#[test]
fn node_type_and_name_tests() {
    let mut doc = Document::new();
    let e = doc.add_element(0, name("e")).unwrap();
    let a = doc.add_attribute(e, name("x"), "1".to_string()).unwrap();
    let t = doc.add_text(e, "t".to_string()).unwrap();
    let c = doc.add_comment(e, "c".to_string()).unwrap();
    let p = doc.add_processing_instruction(e, "go".to_string(), "d".to_string()).unwrap();
    let any = NodeTest::AnyName;
    assert!(matches_node_test(&doc, &any, Axis::Child, e, None));
    assert!(!matches_node_test(&doc, &any, Axis::Child, a, None));
    assert!(matches_node_test(&doc, &any, Axis::Attribute, a, None));
    assert!(!matches_node_test(&doc, &any, Axis::Child, t, None));
    assert!(matches_node_test(&doc, &NodeTest::Text, Axis::Child, t, None));
    assert!(matches_node_test(&doc, &NodeTest::Comment, Axis::Child, c, None));
    assert!(matches_node_test(&doc, &NodeTest::Node, Axis::Child, c, None));
    let pi_any = NodeTest::ProcessingInstruction(None);
    let pi_go = NodeTest::ProcessingInstruction(Some("go".to_string()));
    let pi_no = NodeTest::ProcessingInstruction(Some("stop".to_string()));
    assert!(matches_node_test(&doc, &pi_any, Axis::Child, p, None));
    assert!(matches_node_test(&doc, &pi_go, Axis::Child, p, None));
    assert!(!matches_node_test(&doc, &pi_no, Axis::Child, p, None));
    let by_name = NodeTest::QName(QName { prefix: None, local: "x".to_string() });
    assert!(matches_node_test(&doc, &by_name, Axis::Attribute, a, None));
    assert!(!matches_node_test(&doc, &by_name, Axis::Attribute, e, None));
}

#[test]
fn step_nodes_keep_the_axis_order() {
    let mut doc = Document::new();
    let e = doc.add_element(0, name("e")).unwrap();
    let a = doc.add_element(e, name("a")).unwrap();
    let b = doc.add_element(e, name("b")).unwrap();
    let a2 = doc.add_element(e, name("a")).unwrap();
    let test_a = NodeTest::QName(QName { prefix: None, local: "a".to_string() });
    assert_eq!(step_nodes(&doc, Axis::Child, &test_a, e, None), vec![a, a2]);
    assert_eq!(step_nodes(&doc, Axis::PrecedingSibling, &test_a, a2, None), vec![a]);
    assert_eq!(step_nodes(&doc, Axis::Child, &NodeTest::Node, e, None), vec![a, b, a2]);
}

#[test]
fn sort_dedup_gives_document_order_without_duplicates() {
    let mut doc = Document::new();
    let e = doc.add_element(0, name("e")).unwrap();
    let a = doc.add_element(e, name("a")).unwrap();
    let b = doc.add_element(e, name("b")).unwrap();
    let mut nodes = vec![b, a, b, e, a];
    sort_dedup(&doc, &mut nodes);
    assert_eq!(nodes, vec![e, a, b]);
    let mut none: Vec<usize> = Vec::new();
    sort_dedup(&doc, &mut none);
    assert!(none.is_empty());
}

#[test]
fn node_sets_compare_by_the_strings_of_their_nodes() {
    let mut doc = Document::new();
    let e = doc.add_element(0, name("e")).unwrap();
    let a = doc.add_attribute(e, name("a"), "x".to_string()).unwrap();
    let b = doc.add_attribute(e, name("b"), "y".to_string()).unwrap();
    let t = doc.add_text(e, "x".to_string()).unwrap();
    assert!(node_set_compares_with_string(&doc, &vec![a, b], "y", EqualityOp::Eq));
    assert!(!node_set_compares_with_string(&doc, &vec![a], "y", EqualityOp::Eq));
    assert!(node_set_compares_with_string(&doc, &vec![a, b], "x", EqualityOp::Ne));
    assert!(!node_set_compares_with_string(&doc, &vec![a], "x", EqualityOp::Ne));
    assert!(!node_set_compares_with_string(&doc, &vec![], "x", EqualityOp::Ne));
    assert!(node_sets_compare(&doc, &vec![b, a], &vec![t], EqualityOp::Eq));
    assert!(!node_sets_compare(&doc, &vec![b], &vec![t], EqualityOp::Eq));
    assert!(node_sets_compare(&doc, &vec![a], &vec![e], EqualityOp::Eq));
    assert!(!node_sets_compare(&doc, &vec![a], &vec![t], EqualityOp::Ne));
    assert!(!node_sets_compare(&doc, &vec![a], &vec![], EqualityOp::Eq));
}

#[test]
fn sorting_a_node_set_twice_changes_nothing() {
    let mut doc = Document::new();
    let e = doc.add_element(0, name("e")).unwrap();
    let a = doc.add_element(e, name("a")).unwrap();
    let b = doc.add_element(e, name("b")).unwrap();
    let mut once = vec![b, e, b, a, 0];
    sort_dedup(&doc, &mut once);
    let mut twice = once.clone();
    sort_dedup(&doc, &mut twice);
    assert_eq!(once, vec![0, e, a, b]);
    assert_eq!(twice, once);
}
