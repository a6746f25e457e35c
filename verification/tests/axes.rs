use xpath_eval::{
    ancestor, ancestor_or_self, attribute, child, descendant, descendant_or_self, following,
    following_sibling, namespace, parent, preceding, preceding_sibling, self_axis, Document,
    ExpandedName,
};

struct Fixture {
    doc: Document,
    html: usize,
    html_ns: usize,
    html_lang: usize,
    html_id: usize,
    body: usize,
    body_ns: usize,
    body_class: usize,
    text0: usize,
    span: usize,
    span_attr: usize,
    text1: usize,
    comment: usize,
    pi: usize,
    text2: usize,
}

fn name(local: &str) -> ExpandedName {
    ExpandedName { namespace_uri: None, local_name: local.to_string() }
}

/// Root
///  └─ html (ns: xml=...; attrs: lang="en", id="root-el")
///      └─ body (ns: x=...; attrs: class="main")
///          ├─ text0 "Hello "
///          ├─ span (attrs: data-x="1")
///          │   └─ text1 "World"
///          ├─ comment "note"
///          ├─ pi proc "data"
///          └─ text2 "!"
fn build() -> Fixture {
    let mut doc = Document::new();
    let root = doc.root();
    let html = doc.add_element(root, name("html")).unwrap();
    let html_ns = doc
        .add_namespace(html, "xml".to_string(), "http://www.w3.org/XML/1998/namespace".to_string())
        .unwrap();
    let html_lang = doc.add_attribute(html, name("lang"), "en".to_string()).unwrap();
    let html_id = doc.add_attribute(html, name("id"), "root-el".to_string()).unwrap();
    let body = doc.add_element(html, name("body")).unwrap();
    let body_ns = doc.add_namespace(body, "x".to_string(), "urn:x".to_string()).unwrap();
    let body_class = doc.add_attribute(body, name("class"), "main".to_string()).unwrap();
    let text0 = doc.add_text(body, "Hello ".to_string()).unwrap();
    let span = doc.add_element(body, name("span")).unwrap();
    let span_attr = doc.add_attribute(span, name("data-x"), "1".to_string()).unwrap();
    let text1 = doc.add_text(span, "World".to_string()).unwrap();
    let comment = doc.add_comment(body, "note".to_string()).unwrap();
    let pi = doc.add_processing_instruction(body, "proc".to_string(), "data".to_string()).unwrap();
    let text2 = doc.add_text(body, "!".to_string()).unwrap();
    Fixture {
        doc,
        html,
        html_ns,
        html_lang,
        html_id,
        body,
        body_ns,
        body_class,
        text0,
        span,
        span_attr,
        text1,
        comment,
        pi,
        text2,
    }
}

#[test]
fn child_axis_on_nested_tree() {
    let f = build();
    assert_eq!(child(&f.doc, f.body), vec![f.text0, f.span, f.comment, f.pi, f.text2]);
}

#[test]
fn descendant_axis_on_nested_tree() {
    let f = build();
    assert_eq!(
        descendant(&f.doc, f.html),
        vec![f.body, f.text0, f.span, f.text1, f.comment, f.pi, f.text2]
    );
}

#[test]
fn descendant_or_self_axis_on_nested_tree() {
    let f = build();
    assert_eq!(descendant_or_self(&f.doc, f.span), vec![f.span, f.text1]);
}

#[test]
fn parent_ancestor_ancestor_or_self_from_leaf_nearest_first() {
    let f = build();
    assert_eq!(parent(&f.doc, f.text1), vec![f.span]);
    assert_eq!(
        ancestor(&f.doc, f.text1),
        vec![f.span, f.body, f.html, 0],
        "ancestor must be nearest-parent-first, not root-first"
    );
    assert_eq!(ancestor_or_self(&f.doc, f.text1), vec![f.text1, f.span, f.body, f.html, 0]);
}

#[test]
fn ancestor_of_root_is_empty() {
    let f = build();
    assert_eq!(ancestor(&f.doc, 0), Vec::<usize>::new());
}

#[test]
fn following_and_preceding_sibling_order_on_multiple_siblings() {
    let f = build();
    assert_eq!(following_sibling(&f.doc, f.comment), vec![f.pi, f.text2]);
    assert_eq!(
        preceding_sibling(&f.doc, f.comment),
        vec![f.span, f.text0],
        "preceding-sibling must be nearest-sibling-first"
    );
}

#[test]
fn following_excludes_attribute_and_namespace_nodes() {
    let f = build();
    let got = following(&f.doc, f.span);
    assert_eq!(got, vec![f.comment, f.pi, f.text2]);
    assert!(!got.contains(&f.span_attr));
}

#[test]
fn preceding_excludes_attribute_and_namespace_nodes() {
    let f = build();
    assert_eq!(preceding(&f.doc, f.text0), Vec::<usize>::new());
}

#[test]
fn preceding_excludes_a_preceding_siblings_own_attribute_node() {
    let f = build();
    let got = preceding(&f.doc, f.text1);
    assert_eq!(got, vec![f.text0]);
    assert!(!got.contains(&f.span_attr));
}

#[test]
fn preceding_reverse_document_order_excluding_ancestors() {
    let f = build();
    let got = preceding(&f.doc, f.text2);
    assert_eq!(
        got,
        vec![f.pi, f.comment, f.text1, f.span, f.text0],
        "preceding must be reverse document order and exclude ancestors (body, html, root)"
    );
    assert!(!got.contains(&f.body));
    assert!(!got.contains(&f.html));
}

#[test]
fn attribute_and_namespace_axes_on_element_with_both() {
    let f = build();
    assert_eq!(attribute(&f.doc, f.html), vec![f.html_lang, f.html_id]);
    assert_eq!(namespace(&f.doc, f.html), vec![f.html_ns]);
    assert_eq!(attribute(&f.doc, f.body), vec![f.body_class]);
    assert_eq!(namespace(&f.doc, f.body), vec![f.body_ns]);
}

#[test]
fn self_axis_is_trivial() {
    let f = build();
    assert_eq!(self_axis(&f.doc, f.body), vec![f.body]);
}

#[test]
fn attribute_node_has_no_attribute_namespace_or_sibling_axes() {
    let f = build();
    let lang = f.html_lang;
    assert_eq!(attribute(&f.doc, lang), Vec::<usize>::new());
    assert_eq!(namespace(&f.doc, lang), Vec::<usize>::new());
    assert_eq!(following_sibling(&f.doc, lang), Vec::<usize>::new());
    assert_eq!(preceding_sibling(&f.doc, lang), Vec::<usize>::new());
}

#[test]
fn following_and_preceding_from_an_attribute_context_node() {
    let f = build();
    let lang = f.html_lang;
    assert_eq!(
        following(&f.doc, lang),
        vec![f.body, f.text0, f.span, f.text1, f.comment, f.pi, f.text2]
    );
    assert_eq!(preceding(&f.doc, lang), Vec::<usize>::new());
}

// ---- The axes together --------------------------------------------------------

#[test]
fn axes_partition_the_document_around_a_node() {
    // ancestor, descendant, following, preceding and self hold every node
    // but attribute and namespace nodes exactly once.
    let f = build();
    for n in [f.body, f.span, f.text1, f.comment] {
        let mut all: Vec<usize> = Vec::new();
        all.extend(ancestor(&f.doc, n));
        all.extend(descendant(&f.doc, n));
        all.extend(following(&f.doc, n));
        all.extend(preceding(&f.doc, n));
        all.extend(self_axis(&f.doc, n));
        all.sort();
        assert_eq!(
            all,
            vec![0, f.html, f.body, f.text0, f.span, f.text1, f.comment, f.pi, f.text2]
        );
    }
}

#[test]
fn every_ancestor_chain_ends_at_the_root() {
    let f = build();
    for n in [f.html, f.body_class, f.text1, f.pi, f.html_ns] {
        assert_eq!(ancestor(&f.doc, n).last(), Some(&0));
    }
}

#[test]
fn descendants_of_the_root_list_the_document_without_attributes_or_namespaces() {
    let f = build();
    assert_eq!(
        descendant_or_self(&f.doc, 0),
        vec![0, f.html, f.body, f.text0, f.span, f.text1, f.comment, f.pi, f.text2]
    );
}

#[test]
fn descendant_is_each_child_followed_by_its_descendants() {
    let f = build();
    for n in [f.doc.root(), f.html, f.body, f.span, f.text0, f.html_lang] {
        let mut expected = Vec::new();
        for c in child(&f.doc, n) {
            expected.push(c);
            expected.extend(descendant(&f.doc, c));
        }
        assert_eq!(descendant(&f.doc, n), expected);
    }
}

#[test]
fn preceding_is_the_earlier_non_ancestor_part_of_the_tree_reversed() {
    let f = build();
    let listing = descendant_or_self(&f.doc, f.doc.root());
    for n in [f.html, f.body, f.text0, f.span, f.text1, f.comment, f.pi, f.span_attr, f.html_ns] {
        let above = ancestor(&f.doc, n);
        let mut expected: Vec<usize> =
            listing.iter().copied().filter(|&m| m < n && !above.contains(&m)).collect();
        expected.reverse();
        assert_eq!(preceding(&f.doc, n), expected);
    }
}
