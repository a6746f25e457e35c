use xpath_eval::eval::EvalError;
use xpath_eval::functions::{
    contains, is_lang_attribute_name, lang_matches, node_local_name, node_name, node_namespace_uri,
    normalize_space, qname_string, resolve_function, starts_with, string_length, substring_after,
    substring_before, whitespace_tokens, xpath_id, xpath_lang, xpath_number_text, xpath_translate,
    CoreFunction,
};
use xpath_eval::{Document, ExpandedName, QName};

struct Fixture {
    doc: Document,
    html: usize,
    html_id: usize,
    body: usize,
    text0: usize,
    span: usize,
}

fn name(local: &str) -> ExpandedName {
    ExpandedName { namespace_uri: None, local_name: local.to_string() }
}

fn name_in(uri: &str, local: &str) -> ExpandedName {
    ExpandedName { namespace_uri: Some(uri.to_string()), local_name: local.to_string() }
}

/// Root
///  └─ html (ns: xml=...; attrs: lang="en", id="root-el")
///      └─ body (ns: x=...; attrs: class="main")
///          ├─ text0 "Hello "
///          ├─ span (attrs: data-x="1")
///          │   └─ text1 "World"
///          ├─ comment "note"
///          ├─ pi proc "data"
///          └─ text2 "!"
fn build() -> Fixture {
    let mut doc = Document::new();
    let html = doc.add_element(0, name("html")).unwrap();
    doc.add_namespace(html, "xml".to_string(), "http://www.w3.org/XML/1998/namespace".to_string())
        .unwrap();
    doc.add_attribute(html, name("lang"), "en".to_string()).unwrap();
    let html_id = doc.add_attribute(html, name("id"), "root-el".to_string()).unwrap();
    let body = doc.add_element(html, name("body")).unwrap();
    doc.add_namespace(body, "x".to_string(), "urn:x".to_string()).unwrap();
    doc.add_attribute(body, name("class"), "main".to_string()).unwrap();
    let text0 = doc.add_text(body, "Hello ".to_string()).unwrap();
    let span = doc.add_element(body, name("span")).unwrap();
    doc.add_attribute(span, name("data-x"), "1".to_string()).unwrap();
    doc.add_text(span, "World".to_string()).unwrap();
    doc.add_comment(body, "note".to_string()).unwrap();
    doc.add_processing_instruction(body, "proc".to_string(), "data".to_string()).unwrap();
    doc.add_text(body, "!".to_string()).unwrap();
    Fixture { doc, html, html_id, body, text0, span }
}

fn qn(prefix: Option<&str>, local: &str) -> QName {
    QName { prefix: prefix.map(|p| p.to_string()), local: local.to_string() }
}

fn arity(function: &'static str, expected: usize, got: usize) -> Result<CoreFunction, EvalError> {
    Err(EvalError::ArgumentCount { function, expected, got })
}

// ---- §4.1 node-set functions -------------------------------------------------

#[test]
fn local_name_defaults_to_context_node() {
    let f = build();
    assert_eq!(node_local_name(&f.doc, Some(f.span)), "span");
}

#[test]
fn local_name_with_explicit_node_set_argument() {
    let f = build();
    assert_eq!(node_local_name(&f.doc, Some(f.html_id)), "id");
}

#[test]
fn local_name_is_empty_for_node_with_no_expanded_name_or_empty_node_set() {
    let f = build();
    assert_eq!(node_local_name(&f.doc, Some(f.text0)), "");
    assert_eq!(node_local_name(&f.doc, None), "");
}

#[test]
fn namespace_uri_defaults_to_context_node_and_argument_form() {
    let f = build();
    assert_eq!(node_namespace_uri(&f.doc, Some(0)), "");
    assert_eq!(node_namespace_uri(&f.doc, Some(f.html_id)), "");
    assert_eq!(node_namespace_uri(&f.doc, None), "");
}

#[test]
fn namespace_uri_of_a_real_namespace() {
    let mut doc = Document::new();
    let e = doc.add_element(0, name_in("http://example/ns", "rect")).unwrap();
    assert_eq!(node_namespace_uri(&doc, Some(e)), "http://example/ns");
}

#[test]
fn name_defaults_to_context_node_and_argument_form() {
    let f = build();
    assert_eq!(node_name(&f.doc, Some(f.span)), "span");
    assert_eq!(node_name(&f.doc, Some(f.html_id)), "id");
    assert_eq!(node_name(&f.doc, None), "");
}

#[test]
fn name_prefixes_with_the_matching_namespace_node_from_the_namespace_axis() {
    let mut doc = Document::new();
    let e = doc.add_element(0, name_in("http://example/ns1", "rect")).unwrap();
    doc.add_namespace(e, "ns1".to_string(), "http://example/ns1".to_string()).unwrap();
    assert_eq!(qname_string(&doc, e), "ns1:rect");
}

#[test]
fn name_has_no_leading_colon_when_the_matching_namespace_node_is_the_default_namespace() {
    let mut doc = Document::new();
    let e = doc.add_element(0, name_in("http://example/default", "rect")).unwrap();
    doc.add_namespace(e, String::new(), "http://example/default".to_string()).unwrap();
    assert_eq!(qname_string(&doc, e), "rect");
}

#[test]
fn name_of_an_attribute_uses_its_parent_elements_namespace_axis() {
    let mut doc = Document::new();
    let e = doc.add_element(0, name("rect")).unwrap();
    doc.add_namespace(e, "ns2".to_string(), "http://example/ns2".to_string()).unwrap();
    let a = doc.add_attribute(e, name_in("http://example/ns2", "attr"), "v".to_string()).unwrap();
    assert_eq!(qname_string(&doc, a), "ns2:attr");
}

#[test]
fn name_falls_back_to_local_name_when_no_namespace_node_matches() {
    let mut doc = Document::new();
    let e = doc.add_element(0, name_in("http://example/unmatched", "rect")).unwrap();
    assert_eq!(qname_string(&doc, e), "rect");
}

#[test]
fn name_of_an_attribute_prefers_a_real_prefix_over_a_same_uri_default_namespace_binding() {
    let mut doc = Document::new();
    let e = doc.add_element(0, name("rect")).unwrap();
    doc.add_namespace(e, String::new(), "http://example/ns2".to_string()).unwrap();
    doc.add_namespace(e, "ns2".to_string(), "http://example/ns2".to_string()).unwrap();
    let a = doc.add_attribute(e, name_in("http://example/ns2", "attr"), "v".to_string()).unwrap();
    assert_eq!(qname_string(&doc, a), "ns2:attr");
}

#[test]
fn name_of_an_attribute_falls_back_to_local_name_when_only_a_default_namespace_binding_matches()
{
    let mut doc = Document::new();
    let e = doc.add_element(0, name("rect")).unwrap();
    doc.add_namespace(e, String::new(), "http://example/ns3".to_string()).unwrap();
    let a = doc.add_attribute(e, name_in("http://example/ns3", "attr"), "v".to_string()).unwrap();
    assert_eq!(qname_string(&doc, a), "attr");
}

/// root -> el1[id="a", ID] , el2[id="b", ID], el3[id="a", not an ID]
fn id_doc() -> (Document, usize, usize, usize) {
    let mut doc = Document::new();
    let el1 = doc.add_element(0, name("e")).unwrap();
    doc.add_id_attribute(el1, name("id"), "a".to_string()).unwrap();
    let el2 = doc.add_element(0, name("e")).unwrap();
    doc.add_id_attribute(el2, name("id"), "b".to_string()).unwrap();
    let el3 = doc.add_element(0, name("e")).unwrap();
    doc.add_attribute(el3, name("id"), "a".to_string()).unwrap();
    (doc, el1, el2, el3)
}

#[test]
fn id_finds_the_element_with_the_matching_id_attribute() {
    let (doc, _, el2, _) = id_doc();
    assert_eq!(xpath_id(&doc, 0, &vec!["b".to_string()]), vec![el2]);
}

#[test]
fn id_does_not_match_a_same_named_attribute_that_is_not_marked_as_the_id() {
    let (doc, el1, _, _) = id_doc();
    assert_eq!(xpath_id(&doc, 0, &vec!["a".to_string()]), vec![el1]);
}

#[test]
fn id_with_whitespace_separated_tokens_returns_matches_in_document_order() {
    let (doc, el1, el2, _) = id_doc();
    assert_eq!(xpath_id(&doc, 0, &vec!["b a".to_string()]), vec![el1, el2]);
}

#[test]
fn id_returns_an_empty_node_set_when_nothing_matches() {
    let (doc, _, _, _) = id_doc();
    assert_eq!(xpath_id(&doc, 0, &vec!["zzz".to_string()]), Vec::<usize>::new());
}

#[test]
fn id_merges_the_tokens_of_several_strings_without_duplicates() {
    let (doc, el1, el2, el3) = id_doc();
    let got = xpath_id(&doc, el3, &vec![" a\tb ".to_string(), "b\n".to_string(), "a".to_string()]);
    assert_eq!(got, vec![el1, el2]);
}

#[test]
fn id_with_wrong_arity_is_an_error() {
    assert_eq!(resolve_function(&qn(None, "id"), 0), arity("id", 1, 0));
}

#[test]
fn whitespace_tokens_split_on_xml_whitespace_only() {
    assert_eq!(whitespace_tokens("  a\tb\r\nc  "), vec!["a", "b", "c"]);
    assert_eq!(whitespace_tokens("a\u{a0}b"), vec!["a\u{a0}b"]);
    assert!(whitespace_tokens(" \t ").is_empty());
}

// ---- §4.2 string functions -----------------------------------------------------

#[test]
fn concat_with_fewer_than_two_arguments_is_an_argument_count_error() {
    assert_eq!(resolve_function(&qn(None, "concat"), 1), arity("concat", 2, 1));
    assert_eq!(resolve_function(&qn(None, "concat"), 5), Ok(CoreFunction::Concat));
}

#[test]
fn starts_with_and_contains() {
    assert!(starts_with("abcdef", "abc"));
    assert!(!starts_with("abcdef", "xyz"));
    assert!(contains("abcdef", "cd"));
    assert!(!contains("abcdef", "xyz"));
    assert!(starts_with("abc", ""));
    assert!(contains("abc", ""));
    assert!(!starts_with("ab", "abc"));
}

#[test]
fn substring_before_and_after() {
    assert_eq!(substring_before("1999/04/01", "/"), "1999");
    assert_eq!(substring_after("1999/04/01", "/"), "04/01");
    assert_eq!(substring_before("abc", "x"), "");
    assert_eq!(substring_after("abc", "x"), "");
    assert_eq!(substring_after("héllo wörld", "ö"), "rld");
    assert_eq!(substring_before("abc", ""), "");
    assert_eq!(substring_after("abc", ""), "abc");
}

#[test]
fn substring_with_wrong_arity_is_an_error() {
    assert_eq!(resolve_function(&qn(None, "substring"), 1), arity("substring", 2, 1));
    assert_eq!(resolve_function(&qn(None, "substring"), 4), arity("substring", 3, 4));
}

#[test]
fn string_length_counts_unicode_scalar_values_not_bytes() {
    assert_eq!(string_length("héllo"), 5);
}

#[test]
fn string_length_defaults_to_context_node_string_value() {
    let f = build();
    assert_eq!(string_length(&f.doc.string_value(f.body)), 12);
}

#[test]
fn normalize_space_collapses_and_trims_xml_whitespace() {
    assert_eq!(normalize_space("  \t a \r\n\r\n b  \t"), "a b");
    assert_eq!(normalize_space(""), "");
    assert_eq!(normalize_space("a\u{a0} b"), "a\u{a0} b");
}

#[test]
fn normalize_space_defaults_to_context_node_string_value() {
    let f = build();
    assert_eq!(normalize_space(&f.doc.string_value(f.body)), "Hello World!");
}

#[test]
fn translate_spec_examples() {
    assert_eq!(xpath_translate("bar", "abc", "ABC"), "BAr");
    assert_eq!(xpath_translate("--aaa--", "abc-", "ABC"), "AAA");
    assert_eq!(xpath_translate("abca", "aa", "xy"), "xbcx");
}

// ---- §4.3 boolean functions ----------------------------------------------------

#[test]
fn true_with_arguments_is_an_argument_count_error() {
    assert_eq!(resolve_function(&qn(None, "true"), 1), arity("true", 0, 1));
}

#[test]
fn lang_matches_the_shared_fixtures_html_lang_attribute_by_inheritance() {
    let f = build();
    assert!(xpath_lang(&f.doc, f.body, "en"));
    assert!(xpath_lang(&f.doc, f.span, "EN"));
    assert!(!xpath_lang(&f.doc, f.body, "de"));
}

#[test]
fn lang_matches_on_the_context_node_itself() {
    let f = build();
    assert!(xpath_lang(&f.doc, f.html, "en"));
}

/// A root-to-leaf chain of elements, each with an optional language
/// attribute (local name, value); the leaf.
fn lang_chain(chain: &[(Option<&str>, Option<&str>)]) -> (Document, usize) {
    let mut doc = Document::new();
    let mut parent = 0;
    for &(local, value) in chain {
        let e = doc.add_element(parent, name("e")).unwrap();
        if let (Some(l), Some(v)) = (local, value) {
            doc.add_attribute(e, name(l), v.to_string()).unwrap();
        }
        parent = e;
    }
    (doc, parent)
}

#[test]
fn lang_own_attribute_exact_match_case_insensitive() {
    let (doc, leaf) = lang_chain(&[(Some("lang"), Some("en-US"))]);
    assert!(xpath_lang(&doc, leaf, "EN-us"));
}

#[test]
fn lang_suffix_rule_matches_language_subtag_ignoring_region() {
    let (doc, leaf) = lang_chain(&[(Some("lang"), Some("en-US"))]);
    assert!(xpath_lang(&doc, leaf, "en"));
    assert!(!xpath_lang(&doc, leaf, "en-US-extra"));
}

#[test]
fn lang_inherits_from_nearest_ancestor_with_the_attribute() {
    let (doc, leaf) = lang_chain(&[(Some("lang"), Some("de")), (None, None)]);
    assert!(xpath_lang(&doc, leaf, "de"));
}

#[test]
fn lang_no_match_anywhere_in_the_ancestor_chain() {
    let (doc, leaf) = lang_chain(&[(None, None), (None, None)]);
    assert!(!xpath_lang(&doc, leaf, "en"));
}

#[test]
fn lang_matches_the_literal_xml_lang_local_name_form() {
    let (doc, leaf) = lang_chain(&[(Some("xml:lang"), Some("fr"))]);
    assert!(xpath_lang(&doc, leaf, "fr"));
}

#[test]
fn lang_matches_when_the_attribute_is_explicitly_in_the_xml_namespace() {
    let en = ExpandedName {
        namespace_uri: Some("http://www.w3.org/XML/1998/namespace".to_string()),
        local_name: "lang".to_string(),
    };
    assert!(is_lang_attribute_name(&en));
}

#[test]
fn lang_rejects_a_lang_local_name_in_an_unrelated_explicit_namespace() {
    let en = ExpandedName {
        namespace_uri: Some("http://example/other".to_string()),
        local_name: "lang".to_string(),
    };
    assert!(!is_lang_attribute_name(&en));
}

#[test]
fn lang_nearest_declaration_wins_over_an_outer_one() {
    let (doc, leaf) = lang_chain(&[(Some("lang"), Some("de")), (Some("lang"), Some("fr"))]);
    assert!(xpath_lang(&doc, leaf, "fr"));
    assert!(!xpath_lang(&doc, leaf, "de"));
}

#[test]
fn lang_comparison_ignores_ascii_case_only() {
    assert!(lang_matches("EN", "en"));
    assert!(lang_matches("en-GB-oxendict", "EN"));
    assert!(!lang_matches("english", "en"));
    assert!(!lang_matches("-en", "en"));
    assert!(lang_matches("-en", ""));
}

#[test]
fn lang_comparison_drops_any_suffix_that_starts_with_a_hyphen() {
    assert!(lang_matches("en-US", "EN-us"));
    assert!(lang_matches("en-US", "en"));
    assert!(lang_matches("en-US-x", "en-US"));
    assert!(lang_matches("en-GB-oxendict", "en-gb"));
    assert!(!lang_matches("en-US", "en-US-extra"));
    assert!(!lang_matches("en-US-x", "en-U"));
}

// ---- §4.4 number functions -------------------------------------------------------

#[test]
fn round_with_wrong_arity_is_an_error() {
    assert_eq!(resolve_function(&qn(None, "round"), 0), arity("round", 1, 0));
}

#[test]
fn number_text_accepts_the_number_syntax_only() {
    assert_eq!(xpath_number_text("42"), Some("42".to_string()));
    assert_eq!(xpath_number_text(" \t-1.5\n"), Some("-1.5".to_string()));
    assert_eq!(xpath_number_text(".5"), Some(".5".to_string()));
    assert_eq!(xpath_number_text("5."), Some("5.".to_string()));
    assert_eq!(xpath_number_text("abc"), None);
    assert_eq!(xpath_number_text("."), None);
    assert_eq!(xpath_number_text("-"), None);
    assert_eq!(xpath_number_text("1.2.3"), None);
    assert_eq!(xpath_number_text(""), None);
    assert_eq!(xpath_number_text("+1"), None);
    assert_eq!(xpath_number_text("1e3"), None);
    assert_eq!(xpath_number_text("--1"), None);
}

// ---- Resolving function calls ------------------------------------------------------

#[test]
fn unknown_and_prefixed_function_names_are_unknown() {
    let foo = qn(None, "foo");
    assert_eq!(resolve_function(&foo, 0), Err(EvalError::UnknownFunction(foo.clone())));
    let prefixed = qn(Some("fn"), "true");
    assert_eq!(resolve_function(&prefixed, 0), Err(EvalError::UnknownFunction(prefixed.clone())));
}

#[test]
fn every_library_function_resolves_within_its_bounds() {
    let cases: [(&str, usize, CoreFunction); 8] = [
        ("last", 0, CoreFunction::Last),
        ("count", 1, CoreFunction::Count),
        ("local-name", 0, CoreFunction::LocalName),
        ("local-name", 1, CoreFunction::LocalName),
        ("substring", 3, CoreFunction::Substring),
        ("translate", 3, CoreFunction::Translate),
        ("normalize-space", 1, CoreFunction::NormalizeSpace),
        ("ceiling", 1, CoreFunction::Ceiling),
    ];
    for (n, k, f) in cases {
        assert_eq!(resolve_function(&qn(None, n), k), Ok(f), "{n}/{k}");
    }
    assert_eq!(resolve_function(&qn(None, "name"), 2), arity("name", 1, 2));
    assert_eq!(resolve_function(&qn(None, "position"), 1), arity("position", 0, 1));
}
