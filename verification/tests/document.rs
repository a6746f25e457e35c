use std::cmp::Ordering;
use xpath_eval::{Document, ExpandedName, NodeKind};

struct Fixture {
    doc: Document,
    html: usize,
    html_ns: usize,
    html_lang: usize,
    body: usize,
    text0: usize,
    span: usize,
    comment: usize,
    pi: usize,
}

fn name(local: &str) -> ExpandedName {
    ExpandedName { namespace_uri: None, local_name: local.to_string() }
}

/// Root
///  └─ html (ns: xml=...; attrs: lang="en", id="root-el")
///      └─ body (ns: x=...; attrs: class="main")
///          ├─ text0 "Hello "
///          ├─ span (attrs: data-x="1")
///          │   └─ text1 "World"
///          ├─ comment "note"
///          ├─ pi proc "data"
///          └─ text2 "!"
fn build() -> Fixture {
    let mut doc = Document::new();
    let root = doc.root();
    let html = doc.add_element(root, name("html")).unwrap();
    let html_ns = doc
        .add_namespace(html, "xml".to_string(), "http://www.w3.org/XML/1998/namespace".to_string())
        .unwrap();
    let html_lang = doc.add_attribute(html, name("lang"), "en".to_string()).unwrap();
    doc.add_attribute(html, name("id"), "root-el".to_string()).unwrap();
    let body = doc.add_element(html, name("body")).unwrap();
    doc.add_namespace(body, "x".to_string(), "urn:x".to_string()).unwrap();
    doc.add_attribute(body, name("class"), "main".to_string()).unwrap();
    let text0 = doc.add_text(body, "Hello ".to_string()).unwrap();
    let span = doc.add_element(body, name("span")).unwrap();
    doc.add_attribute(span, name("data-x"), "1".to_string()).unwrap();
    doc.add_text(span, "World".to_string()).unwrap();
    let comment = doc.add_comment(body, "note".to_string()).unwrap();
    let pi = doc.add_processing_instruction(body, "proc".to_string(), "data".to_string()).unwrap();
    doc.add_text(body, "!".to_string()).unwrap();
    Fixture { doc, html, html_ns, html_lang, body, text0, span, comment, pi }
}

#[test]
fn string_value_text() {
    let f = build();
    assert_eq!(f.doc.string_value(f.text0), "Hello ");
}

#[test]
fn string_value_comment() {
    let f = build();
    assert_eq!(f.doc.string_value(f.comment), "note");
}

#[test]
fn string_value_processing_instruction() {
    let f = build();
    assert_eq!(f.doc.string_value(f.pi), "data");
}

#[test]
fn string_value_attribute() {
    let f = build();
    assert_eq!(f.doc.string_value(f.html_lang), "en");
}

#[test]
fn string_value_namespace() {
    let f = build();
    assert_eq!(f.doc.string_value(f.html_ns), "http://www.w3.org/XML/1998/namespace");
}

#[test]
fn string_value_element_concatenates_nested_descendant_text_in_document_order() {
    let f = build();
    assert_eq!(f.doc.string_value(f.span), "World");
    assert_eq!(f.doc.string_value(f.body), "Hello World!");
    assert_eq!(f.doc.string_value(f.html), "Hello World!");
}

#[test]
fn string_value_root_concatenates_all_descendant_text() {
    let f = build();
    assert_eq!(f.doc.string_value(0), "Hello World!");
}

#[test]
fn expanded_name_per_kind() {
    let f = build();
    assert!(f.doc.expanded_name(0).is_none());
    assert_eq!(f.doc.expanded_name(f.html).unwrap().local_name, "html");
    assert_eq!(f.doc.expanded_name(f.html_lang).unwrap().local_name, "lang");
    assert_eq!(f.doc.expanded_name(f.html_ns).unwrap().local_name, "xml");
    assert_eq!(f.doc.expanded_name(f.pi).unwrap().local_name, "proc");
    assert!(f.doc.expanded_name(f.comment).is_none());
    assert!(f.doc.expanded_name(f.text0).is_none());
}

#[test]
fn kind_per_node() {
    let f = build();
    assert_eq!(f.doc.kind(0), NodeKind::Root);
    assert_eq!(f.doc.kind(f.html), NodeKind::Element);
    assert_eq!(f.doc.kind(f.html_lang), NodeKind::Attribute);
    assert_eq!(f.doc.kind(f.html_ns), NodeKind::Namespace);
    assert_eq!(f.doc.kind(f.pi), NodeKind::ProcessingInstruction);
    assert_eq!(f.doc.kind(f.comment), NodeKind::Comment);
    assert_eq!(f.doc.kind(f.text0), NodeKind::Text);
}

#[test]
fn document_order_matches_tree_structure() {
    let f = build();
    let root = f.doc.root();
    assert_eq!(f.doc.document_order(root, f.html), Ordering::Less);
    assert_eq!(f.doc.document_order(f.html, f.body), Ordering::Less);
    assert_eq!(f.doc.document_order(f.body, f.text0), Ordering::Less);
    assert_eq!(f.doc.document_order(f.html, f.html), Ordering::Equal);
}

#[test]
fn element_before_its_namespace_attribute_and_child_nodes() {
    let f = build();
    assert_eq!(f.doc.document_order(f.html, f.html_ns), Ordering::Less);
    assert_eq!(f.doc.document_order(f.html_ns, f.html_lang), Ordering::Less);
    assert_eq!(f.doc.document_order(f.html_lang, f.body), Ordering::Less);
    assert_eq!(f.doc.document_order(f.body, f.html_ns), Ordering::Greater);
}

// ---- Building documents ----------------------------------------------------

#[test]
fn builder_rejects_nodes_that_would_break_document_order() {
    let f = build();
    let mut doc = f.doc;
    let before = doc.len();
    // Attributes and namespace nodes only before an element's children.
    assert_eq!(doc.add_attribute(f.body, name("late"), "x".to_string()), None);
    assert_eq!(doc.add_namespace(f.body, "y".to_string(), "urn:y".to_string()), None);
    // A closed subtree takes no more children.
    assert_eq!(doc.add_text(f.span, "late".to_string()), None);
    // Only elements take attributes; text nodes take no children.
    assert_eq!(doc.add_attribute(0, name("a"), "v".to_string()), None);
    assert_eq!(doc.add_text(f.text0, "x".to_string()), None);
    // No such parent.
    assert_eq!(doc.add_element(before + 7, name("e")), None);
    assert_eq!(doc.len(), before);
    // The last open element still takes a child, which gets the next index.
    assert_eq!(doc.add_element(f.body, name("tail")), Some(before));
    assert_eq!(doc.parent(before), Some(f.body));
}

#[test]
fn id_attributes_are_marked() {
    let mut doc = Document::new();
    let e = doc.add_element(0, name("e")).unwrap();
    let plain = doc.add_attribute(e, name("name"), "a".to_string()).unwrap();
    let id = doc.add_id_attribute(e, name("id"), "b".to_string()).unwrap();
    assert!(!doc.is_id_attribute(plain));
    assert!(doc.is_id_attribute(id));
    assert_eq!(doc.attributes(e), vec![plain, id]);
    assert_eq!(doc.children(0), vec![e]);
}
