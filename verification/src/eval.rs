//! The node-level part of evaluation (§2.2-§2.4): which nodes a step's axis
//! and node test select, namespace-prefix resolution, node-set ordering,
//! and the evaluation errors.
use vstd::prelude::*;
use crate::ast::{Axis, EqualityOp, NodeTest, QName, QNameView, str_eq};
use crate::axes::{
    ancestor, ancestor_axis, ancestor_or_self, ancestor_or_self_axis, attribute, attribute_axis,
    child, child_axis, descendant, descendant_axis, descendant_or_self, descendant_or_self_axis,
    following, following_axis, following_sibling, following_sibling_axis, namespace,
    namespace_axis, parent, parent_axis, preceding, preceding_axis, preceding_sibling,
    preceding_sibling_axis, self_axis, self_axis_of,
};
use crate::document::{
    Document, NameView, NodeKind, NodeView, lemma_desc_root, node_ok, opt_chars, string_value_of,
};
use crate::seqs::{increasing, keep, lemma_keep_step, lemma_select, lemma_select_ext, select};

verus! {

/// One namespace declaration in scope for an expression: `prefix` bound to `uri`.
#[derive(Debug, Clone, PartialEq, Eq)]
pub struct NamespaceBinding {
    pub prefix: String,
    pub uri: String,
}

/// Namespace bindings as characters.
pub open spec fn bindings_view(v: Seq<NamespaceBinding>) -> Seq<(Seq<char>, Seq<char>)> {
    v.map_values(|b: NamespaceBinding| (b.prefix@, b.uri@))
}

/// Optional namespace bindings as characters.
pub open spec fn opt_bindings_view(ns: Option<&Vec<NamespaceBinding>>) -> Option<
    Seq<(Seq<char>, Seq<char>)>,
> {
    match ns {
        Some(v) => Some(bindings_view(v@)),
        None => None,
    }
}

/// The URI the first binding of `prefix` gives, if any.
pub open spec fn lookup_binding(bs: Seq<(Seq<char>, Seq<char>)>, prefix: Seq<char>) -> Option<
    Seq<char>,
>
    decreases bs.len(),
{
    if bs.len() == 0 {
        None
    } else if bs[0].0 == prefix {
        Some(bs[0].1)
    } else {
        lookup_binding(bs.drop_first(), prefix)
    }
}

/// What a name test's prefix stands for: with no bindings at all, the
/// prefix itself (compared directly against namespace URIs); with
/// bindings, the URI bound to it, or nothing if it is unbound.
pub open spec fn resolved_uri(prefix: Seq<char>, ns: Option<Seq<(Seq<char>, Seq<char>)>>) -> Option<
    Seq<char>,
> {
    match ns {
        None => Some(prefix),
        Some(bs) => lookup_binding(bs, prefix),
    }
}

/// Outcome of resolving a name test's prefix.
#[derive(Debug, Clone, PartialEq, Eq)]
pub enum PrefixResolution {
    /// The value to compare against a node's namespace URI.
    Value(String),
    /// Bindings are given but none binds this prefix: no node can match.
    Unbound,
}

/// Resolves `prefix` through `namespaces` (see `resolved_uri`).
pub fn resolve_prefix(prefix: &str, namespaces: Option<&Vec<NamespaceBinding>>) -> (r:
    PrefixResolution)
    ensures
        match r {
            PrefixResolution::Value(u) => resolved_uri(prefix@, opt_bindings_view(namespaces))
                == Some(u@),
            PrefixResolution::Unbound => resolved_uri(prefix@, opt_bindings_view(namespaces))
                is None,
        },
{
    match namespaces {
        None => PrefixResolution::Value(String::from_str(prefix)),
        Some(bs) => {
            let ghost v = bindings_view(bs@);
            let mut i: usize = 0;
            proof {
                assert(v.skip(0) =~= v);
            }
            while i < bs.len()
                invariant
                    i <= bs.len(),
                    v == bindings_view(bs@),
                    opt_bindings_view(namespaces) == Some(v),
                    lookup_binding(v, prefix@) == lookup_binding(v.skip(i as int), prefix@),
                decreases bs.len() - i,
            {
                proof {
                    assert(v.skip(i as int).drop_first() =~= v.skip(i + 1));
                    assert(v.skip(i as int)[0] == v[i as int]);
                }
                if str_eq(bs[i].prefix.as_str(), prefix) {
                    proof {
                        assert(v[i as int] == (bs@[i as int].prefix@, bs@[i as int].uri@));
                        assert(v.skip(i as int)[0] == v[i as int]);
                        assert(lookup_binding(v.skip(i as int), prefix@) == Some(v[i as int].1));
                        assert(resolved_uri(prefix@, opt_bindings_view(namespaces)) == Some(v[i as int].1));
                    }
                    let u = bs[i].uri.clone();
                    proof {
                        assert(u@ == v[i as int].1);
                    }
                    return PrefixResolution::Value(u);
                }
                i += 1;
            }
            PrefixResolution::Unbound
        },
    }
}

/// The principal node type of an axis (§2.3): attribute nodes for the
/// attribute axis, namespace nodes for the namespace axis, elements for
/// every other axis.
pub open spec fn principal_kind(axis: Axis) -> NodeKind {
    match axis {
        Axis::Attribute => NodeKind::Attribute,
        Axis::Namespace => NodeKind::Namespace,
        _ => NodeKind::Element,
    }
}

pub fn principal_node_kind(axis: Axis) -> (r: NodeKind)
    ensures
        r == principal_kind(axis),
{
    match axis {
        Axis::Attribute => NodeKind::Attribute,
        Axis::Namespace => NodeKind::Namespace,
        _ => NodeKind::Element,
    }
}

/// A node of the axis' principal type with the given local name (or any
/// name) and namespace URI.
pub open spec fn named_match(
    v: NodeView,
    axis: Axis,
    local: Option<Seq<char>>,
    uri: Option<Seq<char>>,
) -> bool {
    &&& v.kind == principal_kind(axis)
    &&& v.name is Some
    &&& match local {
        Some(l) => v.name.unwrap().local_name == l,
        None => true,
    }
    &&& v.name.unwrap().namespace_uri == uri
}

/// Whether node `n` passes node test `test` on `axis` (§2.3), prefixes
/// resolved through `ns`.
pub open spec fn node_test_matches(
    d: Seq<NodeView>,
    test: NodeTest,
    axis: Axis,
    n: int,
    ns: Option<Seq<(Seq<char>, Seq<char>)>>,
) -> bool {
    let v = d[n];
    match test {
        NodeTest::Node => true,
        NodeTest::Text => v.kind == NodeKind::Text,
        NodeTest::Comment => v.kind == NodeKind::Comment,
        NodeTest::ProcessingInstruction(target) => v.kind == NodeKind::ProcessingInstruction
            && match target {
            None => true,
            Some(t) => v.name is Some && v.name.unwrap().local_name == t@,
        },
        NodeTest::AnyName => v.kind == principal_kind(axis) && v.name is Some,
        NodeTest::NamespaceWildcard(prefix) => match resolved_uri(prefix@, ns) {
            None => false,
            Some(uri) => v.kind == principal_kind(axis) && v.name is Some
                && v.name.unwrap().namespace_uri == Some(uri),
        },
        NodeTest::QName(q) => match q.prefix {
            None => named_match(v, axis, Some(q.local@), None),
            Some(p) => match resolved_uri(p@, ns) {
                None => false,
                Some(uri) => named_match(v, axis, Some(q.local@), Some(uri)),
            },
        },
    }
}

/// Whether an optional string holds `u`.
fn opt_string_is(s: &Option<String>, u: &String) -> (r: bool)
    ensures
        r == (opt_chars(*s) == Some(u@)),
{
    match s {
        Some(t) => *t == *u,
        None => false,
    }
}

/// Whether node `n` passes node test `test` on `axis` (§2.3). A prefixed
/// name test resolves its prefix through `namespaces` first: with no
/// bindings at all the raw prefix is compared against the namespace URI;
/// with bindings that do not bind it, no node matches.
pub fn matches_node_test(
    doc: &Document,
    test: &NodeTest,
    axis: Axis,
    n: usize,
    namespaces: Option<&Vec<NamespaceBinding>>,
) -> (r: bool)
    requires
        n < doc@.len(),
    ensures
        r == node_test_matches(doc@, *test, axis, n as int, opt_bindings_view(namespaces)),
{
    let k = doc.kind(n);
    match test {
        NodeTest::Node => true,
        NodeTest::Text => k == NodeKind::Text,
        NodeTest::Comment => k == NodeKind::Comment,
        NodeTest::ProcessingInstruction(target) => {
            if k != NodeKind::ProcessingInstruction {
                return false;
            }
            match target {
                None => true,
                Some(t) => match doc.expanded_name(n) {
                    Some(e) => e.local_name == *t,
                    None => false,
                },
            }
        },
        NodeTest::AnyName => k == principal_node_kind(axis) && doc.expanded_name(n).is_some(),
        NodeTest::NamespaceWildcard(prefix) => {
            let uri = match resolve_prefix(prefix.as_str(), namespaces) {
                PrefixResolution::Unbound => {
                    return false;
                },
                PrefixResolution::Value(u) => u,
            };
            if k != principal_node_kind(axis) {
                return false;
            }
            match doc.expanded_name(n) {
                Some(e) => opt_string_is(&e.namespace_uri, &uri),
                None => false,
            }
        },
        NodeTest::QName(q) => {
            let uri: Option<String> = match &q.prefix {
                None => None,
                Some(p) => match resolve_prefix(p.as_str(), namespaces) {
                    PrefixResolution::Unbound => {
                        return false;
                    },
                    PrefixResolution::Value(u) => Some(u),
                },
            };
            if k != principal_node_kind(axis) {
                return false;
            }
            match doc.expanded_name(n) {
                Some(e) => {
                    if e.local_name != q.local {
                        return false;
                    }
                    match (&e.namespace_uri, &uri) {
                        (None, None) => true,
                        (Some(a), Some(b)) => *a == *b,
                        _ => false,
                    }
                },
                None => false,
            }
        },
    }
}

/// The nodes of `axis` from `n`, in the axis' own order.
pub open spec fn axis_seq(d: Seq<NodeView>, axis: Axis, n: int) -> Seq<usize> {
    match axis {
        Axis::Ancestor => ancestor_axis(d, n),
        Axis::AncestorOrSelf => ancestor_or_self_axis(d, n),
        Axis::Attribute => attribute_axis(d, n),
        Axis::Child => child_axis(d, n),
        Axis::Descendant => descendant_axis(d, n),
        Axis::DescendantOrSelf => descendant_or_self_axis(d, n),
        Axis::Following => following_axis(d, n),
        Axis::FollowingSibling => following_sibling_axis(d, n),
        Axis::Namespace => namespace_axis(d, n),
        Axis::Parent => parent_axis(d, n),
        Axis::Preceding => preceding_axis(d, n),
        Axis::PrecedingSibling => preceding_sibling_axis(d, n),
        Axis::SelfAxis => self_axis_of(d, n),
    }
}

/// Walks `axis` from `n`.
pub fn axis_nodes(doc: &Document, axis: Axis, n: usize) -> (r: Vec<usize>)
    requires
        doc.wf(),
        n < doc@.len(),
    ensures
        r@ == axis_seq(doc@, axis, n as int),
{
    match axis {
        Axis::Ancestor => ancestor(doc, n),
        Axis::AncestorOrSelf => ancestor_or_self(doc, n),
        Axis::Attribute => attribute(doc, n),
        Axis::Child => child(doc, n),
        Axis::Descendant => descendant(doc, n),
        Axis::DescendantOrSelf => descendant_or_self(doc, n),
        Axis::Following => following(doc, n),
        Axis::FollowingSibling => following_sibling(doc, n),
        Axis::Namespace => namespace(doc, n),
        Axis::Parent => parent(doc, n),
        Axis::Preceding => preceding(doc, n),
        Axis::PrecedingSibling => preceding_sibling(doc, n),
        Axis::SelfAxis => self_axis(doc, n),
    }
}

/// Every node an axis yields is a node of the document.
pub proof fn lemma_axis_in_range(d: Seq<NodeView>, axis: Axis, n: int)
    requires
        crate::document::wf(d),
        0 <= n < d.len(),
    ensures
        forall|k: int|
            0 <= k < axis_seq(d, axis, n).len() ==> #[trigger] axis_seq(d, axis, n)[k] < d.len(),
{
    let len = d.len() as int;
    assert(crate::document::lists_ok(d, n));
    match axis {
        Axis::Child => {
            lemma_select(0, len, crate::document::child_pred(d, n));
        },
        Axis::Attribute => {
            lemma_select(0, len, crate::document::attribute_pred(d, n));
        },
        Axis::Namespace => {
            lemma_select(0, len, crate::document::namespace_pred(d, n));
        },
        Axis::Descendant | Axis::DescendantOrSelf => {
            lemma_select(n + 1, len, crate::axes::descendant_pred(d, n));
        },
        Axis::Following => {
            lemma_select(n + 1, len, crate::axes::following_pred(d, n));
        },
        Axis::Preceding => {
            crate::seqs::lemma_select_desc(0, n, crate::axes::preceding_pred(d, n));
        },
        Axis::Ancestor | Axis::AncestorOrSelf => {
            crate::axes::lemma_ancestor_axis(d, n);
        },
        Axis::FollowingSibling | Axis::PrecedingSibling | Axis::Parent => {
            if n > 0 {
                assert(node_ok(d, n));
                let p = crate::document::parent_index(d, n);
                lemma_select(n + 1, len, crate::document::child_pred(d, p));
                crate::seqs::lemma_select_desc(0, n, crate::document::child_pred(d, p));
            }
        },
        Axis::SelfAxis => {},
    }
}

/// The nodes of `axis` from `n` that pass `test`, in the axis' order.
pub open spec fn step_seq(
    d: Seq<NodeView>,
    axis: Axis,
    test: NodeTest,
    n: int,
    ns: Option<Seq<(Seq<char>, Seq<char>)>>,
) -> Seq<usize> {
    keep(axis_seq(d, axis, n), |j: usize| node_test_matches(d, test, axis, j as int, ns))
}

/// The candidates of a location step from one context node: the nodes of
/// its axis, in the axis' order (so that proximity positions follow it),
/// that pass its node test.
pub fn step_nodes(
    doc: &Document,
    axis: Axis,
    test: &NodeTest,
    n: usize,
    namespaces: Option<&Vec<NamespaceBinding>>,
) -> (r: Vec<usize>)
    requires
        doc.wf(),
        n < doc@.len(),
    ensures
        r@ == step_seq(doc@, axis, *test, n as int, opt_bindings_view(namespaces)),
        forall|k: int| 0 <= k < r@.len() ==> #[trigger] r@[k] < doc@.len(),
{
    let all = axis_nodes(doc, axis, n);
    proof {
        lemma_axis_in_range(doc@, axis, n as int);
    }
    let ghost p = |j: usize|
        node_test_matches(doc@, *test, axis, j as int, opt_bindings_view(namespaces));
    let mut out: Vec<usize> = Vec::new();
    let mut i: usize = 0;
    while i < all.len()
        invariant
            doc.wf(),
            i <= all.len(),
            all@ == axis_seq(doc@, axis, n as int),
            forall|k: int| 0 <= k < all@.len() ==> #[trigger] all@[k] < doc@.len(),
            p == (|j: usize|
                node_test_matches(doc@, *test, axis, j as int, opt_bindings_view(namespaces))),
            out@ == keep(all@.subrange(0, i as int), p),
            forall|k: int| 0 <= k < out@.len() ==> #[trigger] out@[k] < doc@.len(),
        decreases all.len() - i,
    {
        proof {
            lemma_keep_step(all@, i as int, p);
        }
        let c = all[i];
        if matches_node_test(doc, test, axis, c, namespaces) {
            out.push(c);
        }
        i += 1;
    }
    proof {
        assert(all@.subrange(0, all@.len() as int) =~= all@);
    }
    out
}

/// The nodes of a document that are members of `s`, in document order and
/// without duplicates.
pub open spec fn in_document_order(len: int, s: Seq<usize>) -> Seq<usize> {
    select(0, len, |i: int| s.contains(i as usize))
}

/// Sorts a node-set into document order and removes duplicates.
pub fn sort_dedup(doc: &Document, nodes: &mut Vec<usize>)
    requires
        forall|k: int| 0 <= k < old(nodes)@.len() ==> #[trigger] old(nodes)@[k] < doc@.len(),
    ensures
        final(nodes)@ == in_document_order(doc@.len() as int, old(nodes)@),
{
    let len: usize = doc.len();
    let mut marks: Vec<bool> = Vec::new();
    let mut i: usize = 0;
    while i < len
        invariant
            i <= len,
            marks@.len() == i,
            forall|k: int| 0 <= k < i ==> !#[trigger] marks@[k],
        decreases len - i,
    {
        marks.push(false);
        i += 1;
    }
    let mut j: usize = 0;
    while j < nodes.len()
        invariant
            len == doc@.len(),
            marks@.len() == len,
            j <= nodes@.len(),
            forall|k: int| 0 <= k < nodes@.len() ==> #[trigger] nodes@[k] < len,
            forall|x: int|
                0 <= x < len ==> #[trigger] marks@[x] == nodes@.subrange(0, j as int).contains(
                    x as usize,
                ),
        decreases nodes.len() - j,
    {
        let x = nodes[j];
        let ghost m0 = marks@;
        proof {
            assert forall|y: int| 0 <= y < len implies #[trigger] m0[y] == nodes@.subrange(
                0,
                j as int,
            ).contains(y as usize) by {
                assert(marks@[y] == m0[y]);
            }
        }
        marks.set(x, true);
        proof {
            assert(marks@ == m0.update(x as int, true));
            assert forall|y: int| 0 <= y < len implies #[trigger] marks@[y] == nodes@.subrange(
                0,
                j + 1,
            ).contains(y as usize) by {
                let s = nodes@.subrange(0, j as int);
                let t = nodes@.subrange(0, j + 1);
                assert(t == s.push(x));
                assert(t[j as int] == x);
                assert(m0[y] == s.contains(y as usize));
                if s.contains(y as usize) {
                    let k = choose|k: int| 0 <= k < s.len() && s[k] == y as usize;
                    assert(t[k] == y as usize);
                }
                if t.contains(y as usize) {
                    let k = choose|k: int| 0 <= k < t.len() && t[k] == y as usize;
                    if k < s.len() {
                        assert(s[k] == y as usize);
                    }
                }
            }
        }
        j += 1;
    }
    let ghost s = nodes@;
    proof {
        assert(nodes@.subrange(0, nodes@.len() as int) =~= s);
    }
    let ghost p = |i: int| s.contains(i as usize);
    let mut out: Vec<usize> = Vec::new();
    let mut k: usize = 0;
    while k < len
        invariant
            len == doc@.len(),
            marks@.len() == len,
            k <= len,
            forall|x: int| 0 <= x < len ==> #[trigger] marks@[x] == s.contains(x as usize),
            p == (|i: int| s.contains(i as usize)),
            out@ == select(0, k as int, p),
        decreases len - k,
    {
        if marks[k] {
            out.push(k);
        }
        k += 1;
    }
    *nodes = out;
}

/// Putting a node-set into document order a second time changes nothing:
/// what `sort_dedup` gives back is already in document order and free of
/// duplicates.
pub proof fn law_document_order_is_stable(len: int, s: Seq<usize>)
    requires
        0 <= len <= usize::MAX + 1,
    ensures
        in_document_order(len, in_document_order(len, s)) == in_document_order(len, s),
{
    let p = |i: int| s.contains(i as usize);
    let t = in_document_order(len, s);
    let q = |i: int| t.contains(i as usize);
    lemma_select(0, len, p);
    assert forall|x: int| 0 <= x < len implies #[trigger] q(x) == p(x) by {
        if p(x) {
            assert(t.contains(x as usize));
        }
    }
    lemma_select_ext(0, len, q, p);
}

/// Putting a node-set into document order keeps exactly its nodes of the
/// document, each once, in increasing order.
pub proof fn law_document_order_members(len: int, s: Seq<usize>)
    requires
        0 <= len <= usize::MAX + 1,
    ensures
        increasing(in_document_order(len, s)),
        forall|x: usize| #[trigger] in_document_order(len, s).contains(x) <==> (s.contains(x) && x
            < len),
{
    let p = |i: int| s.contains(i as usize);
    lemma_select(0, len, p);
    assert forall|x: usize| #[trigger] in_document_order(len, s).contains(x) <== (s.contains(x) && x
        < len) by {
        if s.contains(x) && x < len {
            assert(p(x as int));
        }
    }
}

/// The node of a node-set that is first in document order.
pub fn first_in_document_order(nodes: &Vec<usize>) -> (r: Option<usize>)
    ensures
        r is None <==> nodes@.len() == 0,
        r matches Some(m) ==> nodes@.contains(m) && forall|k: int|
            0 <= k < nodes@.len() ==> m <= #[trigger] nodes@[k],
{
    if nodes.len() == 0 {
        return None;
    }
    let mut m = nodes[0];
    let mut i: usize = 1;
    proof {
        assert(nodes@.subrange(0, 1)[0] == m);
    }
    while i < nodes.len()
        invariant
            1 <= i <= nodes.len(),
            nodes@.subrange(0, i as int).contains(m),
            forall|k: int| 0 <= k < i ==> m <= #[trigger] nodes@[k],
        decreases nodes.len() - i,
    {
        if nodes[i] < m {
            m = nodes[i];
            proof {
                assert(nodes@.subrange(0, i + 1)[i as int] == m);
            }
        } else {
            proof {
                let k = choose|k: int| 0 <= k < i && nodes@.subrange(0, i as int)[k] == m;
                assert(nodes@.subrange(0, i + 1)[k] == m);
            }
        }
        i += 1;
    }
    proof {
        assert(nodes@.subrange(0, nodes@.len() as int) =~= nodes@);
    }
    Some(m)
}

// ---- Comparing node-sets by their strings (§3.4) ------------------------

/// Whether two strings compare true under `=` or `!=`.
pub open spec fn strings_compare(a: Seq<char>, b: Seq<char>, op: EqualityOp) -> bool {
    match op {
        EqualityOp::Eq => a == b,
        EqualityOp::Ne => a != b,
    }
}

/// Some node of `a` has a string-value that compares true with `s`.
pub open spec fn some_node_compares(d: Seq<NodeView>, a: Seq<usize>, s: Seq<char>, op: EqualityOp) -> bool {
    exists|i: int| 0 <= i < a.len() && #[trigger] strings_compare(string_value_of(d, a[i] as int), s, op)
}

/// Some node of `a` and some node of `b` have string-values that compare
/// true.
pub open spec fn some_pair_compares(d: Seq<NodeView>, a: Seq<usize>, b: Seq<usize>, op: EqualityOp) -> bool {
    exists|i: int, j: int|
        0 <= i < a.len() && 0 <= j < b.len() && #[trigger] strings_compare(
            string_value_of(d, a[i] as int),
            string_value_of(d, b[j] as int),
            op,
        )
}

/// Whether two strings compare true under `=` or `!=`.
fn compare_strings(a: &str, b: &str, op: EqualityOp) -> (r: bool)
    ensures
        r == strings_compare(a@, b@, op),
{
    match op {
        EqualityOp::Eq => str_eq(a, b),
        EqualityOp::Ne => !str_eq(a, b),
    }
}

/// §3.4: a node-set and a string compare true under `=` or `!=` when the
/// string-value of some node of the set does.
pub fn node_set_compares_with_string(doc: &Document, a: &Vec<usize>, s: &str, op: EqualityOp) -> (r:
    bool)
    requires
        doc.wf(),
        forall|k: int| 0 <= k < a@.len() ==> #[trigger] a@[k] < doc@.len(),
    ensures
        r == some_node_compares(doc@, a@, s@, op),
{
    let mut i: usize = 0;
    while i < a.len()
        invariant
            doc.wf(),
            i <= a@.len(),
            forall|k: int| 0 <= k < a@.len() ==> #[trigger] a@[k] < doc@.len(),
            forall|k: int|
                0 <= k < i ==> !#[trigger] strings_compare(
                    string_value_of(doc@, a@[k] as int),
                    s@,
                    op,
                ),
        decreases a.len() - i,
    {
        let v = doc.string_value(a[i]);
        if compare_strings(v.as_str(), s, op) {
            return true;
        }
        i += 1;
    }
    false
}

/// §3.4: two node-sets compare true under `=` or `!=` when the
/// string-values of some node of each do.
pub fn node_sets_compare(doc: &Document, a: &Vec<usize>, b: &Vec<usize>, op: EqualityOp) -> (r:
    bool)
    requires
        doc.wf(),
        forall|k: int| 0 <= k < a@.len() ==> #[trigger] a@[k] < doc@.len(),
        forall|k: int| 0 <= k < b@.len() ==> #[trigger] b@[k] < doc@.len(),
    ensures
        r == some_pair_compares(doc@, a@, b@, op),
{
    let mut i: usize = 0;
    while i < a.len()
        invariant
            doc.wf(),
            i <= a@.len(),
            forall|k: int| 0 <= k < a@.len() ==> #[trigger] a@[k] < doc@.len(),
            forall|k: int| 0 <= k < b@.len() ==> #[trigger] b@[k] < doc@.len(),
            forall|k: int, m: int|
                0 <= k < i && 0 <= m < b@.len() ==> !#[trigger] strings_compare(
                    string_value_of(doc@, a@[k] as int),
                    string_value_of(doc@, b@[m] as int),
                    op,
                ),
        decreases a.len() - i,
    {
        let v = doc.string_value(a[i]);
        if node_set_compares_with_string(doc, b, v.as_str(), op) {
            proof {
                let m = choose|m: int|
                    0 <= m < b@.len() && #[trigger] strings_compare(
                        string_value_of(doc@, b@[m] as int),
                        v@,
                        op,
                    );
                assert(strings_compare(
                    string_value_of(doc@, a@[i as int] as int),
                    string_value_of(doc@, b@[m] as int),
                    op,
                ));
            }
            return true;
        }
        proof {
            assert forall|m: int| 0 <= m < b@.len() implies !#[trigger] strings_compare(
                string_value_of(doc@, a@[i as int] as int),
                string_value_of(doc@, b@[m] as int),
                op,
            ) by {
                if strings_compare(
                    string_value_of(doc@, a@[i as int] as int),
                    string_value_of(doc@, b@[m] as int),
                    op,
                ) {
                    assert(strings_compare(string_value_of(doc@, b@[m] as int), v@, op));
                }
            }
        }
        i += 1;
    }
    false
}

/// The root of the document `n` belongs to: following parents up from any
/// node of a well-formed document ends at the root.
pub fn root_of(doc: &Document, n: usize) -> (r: usize)
    requires
        doc.wf(),
        n < doc@.len(),
    ensures
        r == 0,
{
    let mut cur: usize = n;
    loop
        invariant
            doc.wf(),
            cur < doc@.len(),
        decreases cur,
    {
        proof {
            if cur > 0 {
                assert(node_ok(doc@, cur as int));
            }
        }
        match doc.parent(cur) {
            Some(p) => {
                cur = p;
            },
            None => {
                return cur;
            },
        }
    }
}

/// An evaluation-time error: a semantic failure of a well-formed expression
/// evaluated against a concrete context.
#[derive(Debug, Clone, PartialEq)]
pub enum EvalError {
    /// A function that is not in the core function library.
    UnknownFunction(QName),
    /// A variable with no binding.
    UnboundVariable(QName),
    /// A function called with the wrong number of arguments.
    ArgumentCount { function: &'static str, expected: usize, got: usize },
    /// An operand that had to be a node-set was not.
    ExpectedNodeSet { context: &'static str },
}

/// The argument-count error for `function`.
pub fn arity_error(function: &'static str, expected: usize, got: usize) -> (r: EvalError)
    ensures
        r == (EvalError::ArgumentCount { function, expected, got }),
{
    EvalError::ArgumentCount { function, expected, got }
}

/// Exactly `expected` arguments.
pub fn check_arity(function: &'static str, nargs: usize, expected: usize) -> (r: Result<
    (),
    EvalError,
>)
    ensures
        r == (if nargs == expected {
            Ok(())
        } else {
            Err(EvalError::ArgumentCount { function, expected, got: nargs })
        }),
{
    if nargs == expected {
        Ok(())
    } else {
        Err(arity_error(function, expected, nargs))
    }
}

/// Between `min` and `max` arguments; the bound that is broken is reported.
pub fn check_arity_range(function: &'static str, nargs: usize, min: usize, max: usize) -> (r:
    Result<(), EvalError>)
    ensures
        r == (if nargs < min {
            Err(EvalError::ArgumentCount { function, expected: min, got: nargs })
        } else if nargs > max {
            Err(EvalError::ArgumentCount { function, expected: max, got: nargs })
        } else {
            Ok(())
        }),
{
    if nargs < min {
        Err(arity_error(function, min, nargs))
    } else if nargs > max {
        Err(arity_error(function, max, nargs))
    } else {
        Ok(())
    }
}

/// At least `min` arguments.
pub fn check_min_arity(function: &'static str, nargs: usize, min: usize) -> (r: Result<
    (),
    EvalError,
>)
    ensures
        r == (if nargs < min {
            Err(EvalError::ArgumentCount { function, expected: min, got: nargs })
        } else {
            Ok(())
        }),
{
    if nargs < min {
        Err(arity_error(function, min, nargs))
    } else {
        Ok(())
    }
}

/// A qualified name as written: `prefix:local`, or the local name alone.
pub open spec fn qname_text(q: QNameView) -> Seq<char> {
    match q.prefix {
        Some(p) => p + seq![':'] + q.local,
        None => q.local,
    }
}

/// A qualified name as written (see `qname_text`).
pub fn format_qname(q: &QName) -> (r: String)
    ensures
        r@ == qname_text(q@),
{
    match &q.prefix {
        Some(p) => {
            let mut out = crate::chars::chars_of(p.as_str());
            out.push(':');
            let local = crate::chars::chars_of(q.local.as_str());
            crate::chars::append_chars(&mut out, &local);
            crate::chars::string_of(&out)
        },
        None => q.local.clone(),
    }
}


/// The kind tests select by node kind alone: `node()` every node, `text()`
/// exactly the text nodes, `comment()` exactly the comments,
/// `processing-instruction()` exactly the processing instructions, and
/// `processing-instruction(t)` those whose target is `t`.
pub proof fn law_kind_tests(
    d: Seq<NodeView>,
    axis: Axis,
    n: int,
    ns: Option<Seq<(Seq<char>, Seq<char>)>>,
    target: String,
)
    requires
        0 <= n < d.len(),
    ensures
        node_test_matches(d, NodeTest::Node, axis, n, ns),
        node_test_matches(d, NodeTest::Text, axis, n, ns) == (d[n].kind == NodeKind::Text),
        node_test_matches(d, NodeTest::Comment, axis, n, ns) == (d[n].kind == NodeKind::Comment),
        node_test_matches(d, NodeTest::ProcessingInstruction(None), axis, n, ns) == (d[n].kind
            == NodeKind::ProcessingInstruction),
        node_test_matches(d, NodeTest::ProcessingInstruction(Some(target)), axis, n, ns) == (
        d[n].kind == NodeKind::ProcessingInstruction && d[n].name is Some
            && d[n].name.unwrap().local_name == target@),
{
}

/// The kind of node a name test selects on an axis: attributes on the
/// attribute axis, namespace nodes on the namespace axis, elements on every
/// other axis.
pub open spec fn kind_named_on(axis: Axis, k: NodeKind) -> bool {
    if axis == Axis::Attribute {
        k == NodeKind::Attribute
    } else if axis == Axis::Namespace {
        k == NodeKind::Namespace
    } else {
        k == NodeKind::Element
    }
}

/// The name tests select named nodes of the axis' kind: `*` every one,
/// `local` those with that local name and no namespace, and, with no
/// namespace bindings given, `prefix:local` those with that local name
/// whose namespace URI is the prefix as written, and `prefix:*` every one
/// in that namespace.
pub proof fn law_name_tests(
    d: Seq<NodeView>,
    axis: Axis,
    n: int,
    ns: Option<Seq<(Seq<char>, Seq<char>)>>,
    prefix: String,
    local: String,
)
    requires
        0 <= n < d.len(),
    ensures
        node_test_matches(d, NodeTest::AnyName, axis, n, ns) == (kind_named_on(axis, d[n].kind)
            && d[n].name is Some),
        node_test_matches(d, NodeTest::QName(QName { prefix: None, local }), axis, n, ns) == (
        kind_named_on(axis, d[n].kind) && d[n].name is Some && d[n].name.unwrap().local_name
            == local@ && d[n].name.unwrap().namespace_uri is None),
        node_test_matches(
            d,
            NodeTest::QName(QName { prefix: Some(prefix), local }),
            axis,
            n,
            None,
        ) == (kind_named_on(axis, d[n].kind) && d[n].name is Some && d[n].name.unwrap().local_name
            == local@ && d[n].name.unwrap().namespace_uri == Some(prefix@)),
        node_test_matches(d, NodeTest::NamespaceWildcard(prefix), axis, n, None) == (kind_named_on(
            axis,
            d[n].kind,
        ) && d[n].name is Some && d[n].name.unwrap().namespace_uri == Some(prefix@)),
{
}


/// A prefix resolves through the bindings to the URI of its first binding:
/// a binding of the prefix with none of it before; or to nothing when no
/// binding binds it.
pub proof fn law_first_binding_wins(bs: Seq<(Seq<char>, Seq<char>)>, prefix: Seq<char>)
    ensures
        lookup_binding(bs, prefix) matches Some(u) ==> exists|i: int|
            0 <= i < bs.len() && #[trigger] bs[i] == (prefix, u) && forall|j: int|
                0 <= j < i ==> (#[trigger] bs[j]).0 != prefix,
        lookup_binding(bs, prefix) is None ==> forall|i: int| 0 <= i < bs.len() ==> (
        #[trigger] bs[i]).0 != prefix,
    decreases bs.len(),
{
    if bs.len() > 0 && bs[0].0 != prefix {
        let t = bs.drop_first();
        law_first_binding_wins(t, prefix);
        if let Some(u) = lookup_binding(t, prefix) {
            let i = choose|i: int|
                0 <= i < t.len() && #[trigger] t[i] == (prefix, u) && forall|j: int|
                    0 <= j < i ==> (#[trigger] t[j]).0 != prefix;
            assert(bs[i + 1] == (prefix, u));
            assert forall|j: int| 0 <= j < i + 1 implies (#[trigger] bs[j]).0 != prefix by {
                if j > 0 {
                    assert(bs[j] == t[j - 1]);
                }
            }
        } else {
            assert forall|i: int| 0 <= i < bs.len() implies (#[trigger] bs[i]).0 != prefix by {
                if i > 0 {
                    assert(bs[i] == t[i - 1]);
                }
            }
        }
    } else if bs.len() > 0 {
        assert(bs[0] == (prefix, bs[0].1));
    }
}

/// The nodes of a location step from one node are the nodes of its axis
/// that pass the node test, in the axis' order (`Seq::filter`).
pub proof fn law_step_is_filtered_axis(
    d: Seq<NodeView>,
    axis: Axis,
    test: NodeTest,
    n: int,
    ns: Option<Seq<(Seq<char>, Seq<char>)>>,
)
    ensures
        step_seq(d, axis, test, n, ns) == axis_seq(d, axis, n).filter(
            |j: usize| node_test_matches(d, test, axis, j as int, ns),
        ),
{
    crate::seqs::law_keep_is_filter(
        axis_seq(d, axis, n),
        |j: usize| node_test_matches(d, test, axis, j as int, ns),
    );
}

} // verus!
